//! The mathematical model of a level: a grid of tiles, the positions on it,
//! and the rule by which the pusher moves.
//!
//! A position is a pair `(x, y)`: `y` counts rows from the top, `x` counts
//! tiles from the left of a row. Rows may differ in length.

use vstd::prelude::*;
use crate::tile::{Feature, Tile, TileOccupant};

verus! {

/// One of the four directions in which the pusher can step.
#[derive(Clone, Copy, Debug, PartialEq, Eq, Structural)]
pub enum Direction {
    /// Towards the first row.
    Up,
    /// Towards the end of the row.
    Right,
    /// Towards the last row.
    Down,
    /// Towards the start of the row.
    Left,
}

/// The position that a pair of indices denotes.
pub open spec fn position(p: (usize, usize)) -> (int, int) {
    (p.0 as int, p.1 as int)
}

/// The positions that a sequence of index pairs denotes.
pub open spec fn positions_of(pairs: Seq<(usize, usize)>) -> Seq<(int, int)> {
    Seq::new(pairs.len(), |i: int| position(pairs[i]))
}

impl Direction {
    /// The position one step from `from` in this direction.
    pub open spec fn step(self, from: (int, int)) -> (int, int) {
        match self {
            Direction::Up => (from.0, from.1 - 1),
            Direction::Right => (from.0 + 1, from.1),
            Direction::Down => (from.0, from.1 + 1),
            Direction::Left => (from.0 - 1, from.1),
        }
    }

    /// The coordinates one step from `(x, y)` in this direction, or `None`
    /// where no such coordinates can be represented: a step left of column 0,
    /// above row 0, or past the largest index.
    pub fn apply(self, x: usize, y: usize) -> (to: Option<(usize, usize)>)
        ensures
            match to {
                Some(q) => position(q) == self.step(position((x, y))),
                None => {
                    let q = self.step(position((x, y)));
                    q.0 < 0 || q.1 < 0 || q.0 > usize::MAX || q.1 > usize::MAX
                },
            },
    {
        match self {
            Direction::Up => if y > 0 {
                Some((x, y - 1))
            } else {
                None
            },
            Direction::Right => if x < usize::MAX {
                Some((x + 1, y))
            } else {
                None
            },
            Direction::Down => if y < usize::MAX {
                Some((x, y + 1))
            } else {
                None
            },
            Direction::Left => if x > 0 {
                Some((x - 1, y))
            } else {
                None
            },
        }
    }
}

/// Whether `a` comes before `b` when a grid is read row by row from the top,
/// each row from the left.
pub open spec fn row_major_before(a: (int, int), b: (int, int)) -> bool {
    a.1 < b.1 || (a.1 == b.1 && a.0 < b.0)
}

/// The length of the longest of the given rows; 0 if there are none.
pub open spec fn longest_row(rows: Seq<Seq<Tile>>) -> nat
    decreases rows.len(),
{
    if rows.len() == 0 {
        0
    } else {
        let before = longest_row(rows.drop_last());
        if rows.last().len() > before {
            rows.last().len()
        } else {
            before
        }
    }
}

/// The positions of row `y` that show `feature`, from the left.
pub open spec fn row_positions(row: Seq<Tile>, y: int, feature: Feature) -> Seq<(int, int)>
    decreases row.len(),
{
    if row.len() == 0 {
        Seq::empty()
    } else {
        let before = row_positions(row.drop_last(), y, feature);
        if row.last().has(feature) {
            before.push((row.len() - 1, y))
        } else {
            before
        }
    }
}

/// The positions of the given rows that show `feature`, row by row from the
/// top, each row from the left.
pub open spec fn rows_positions(rows: Seq<Seq<Tile>>, feature: Feature) -> Seq<(int, int)>
    decreases rows.len(),
{
    if rows.len() == 0 {
        Seq::empty()
    } else {
        rows_positions(rows.drop_last(), feature) + row_positions(
            rows.last(),
            rows.len() - 1,
            feature,
        )
    }
}

/// A grid of tiles.
pub struct Grid {
    pub rows: Seq<Seq<Tile>>,
}

impl Grid {
    /// The number of rows.
    pub open spec fn height(self) -> nat {
        self.rows.len()
    }

    /// The length of the longest row.
    pub open spec fn width(self) -> nat {
        longest_row(self.rows)
    }

    /// Whether `p` is a position of the grid.
    pub open spec fn in_bounds(self, p: (int, int)) -> bool {
        &&& 0 <= p.1 < self.rows.len()
        &&& 0 <= p.0 < self.rows[p.1].len()
    }

    /// The tile at `p`.
    pub open spec fn tile(self, p: (int, int)) -> Tile
        recommends
            self.in_bounds(p),
    {
        self.rows[p.1][p.0]
    }

    /// Whether `p` is a position of the grid whose tile shows `feature`.
    pub open spec fn has(self, p: (int, int), feature: Feature) -> bool {
        self.in_bounds(p) && self.tile(p).has(feature)
    }

    /// The positions that show `feature`, in row-major order.
    pub open spec fn positions(self, feature: Feature) -> Seq<(int, int)> {
        rows_positions(self.rows, feature)
    }

    /// The number of positions that show `feature`.
    pub open spec fn count(self, feature: Feature) -> nat {
        self.positions(feature).len()
    }

    /// Whether some tile holds the pusher.
    pub open spec fn has_pusher(self) -> bool {
        self.count(Feature::Pusher) > 0
    }

    /// The position of the pusher: the first in row-major order, should there
    /// be several.
    pub open spec fn pusher(self) -> (int, int)
        recommends
            self.has_pusher(),
    {
        self.positions(Feature::Pusher)[0]
    }

    /// The grid with the occupant of `p` replaced.
    pub open spec fn with_occupant(self, p: (int, int), occupant: TileOccupant) -> Grid
        recommends
            self.in_bounds(p),
    {
        Grid {
            rows: self.rows.update(
                p.1,
                self.rows[p.1].update(p.0, Tile { kind: self.tile(p).kind, occupant }),
            ),
        }
    }

    /// Where the pusher stands after an attempt to move it one step in
    /// `direction`, if the move is legal.
    ///
    /// The move is legal when the tile ahead is a free position of the grid,
    /// or holds a box and the tile beyond the box is a free position of the
    /// grid. A grid without a pusher admits no move.
    pub open spec fn destination(self, direction: Direction) -> Option<(int, int)> {
        let ahead = direction.step(self.pusher());
        let beyond = direction.step(ahead);
        if !self.has_pusher() || !self.in_bounds(ahead) {
            None
        } else if self.tile(ahead).occupant == TileOccupant::Empty {
            Some(ahead)
        } else if self.tile(ahead).occupant == TileOccupant::Box && self.in_bounds(beyond)
            && self.tile(beyond).occupant == TileOccupant::Empty {
            Some(ahead)
        } else {
            None
        }
    }

    /// The grid after an attempt to move the pusher one step in `direction`.
    ///
    /// A legal move puts the pusher on the tile ahead and frees the tile it
    /// left; a box on the tile ahead goes one tile further. An illegal move
    /// changes nothing.
    pub open spec fn moved(self, direction: Direction) -> Grid {
        match self.destination(direction) {
            None => self,
            Some(ahead) => {
                let pushed = if self.tile(ahead).occupant == TileOccupant::Box {
                    self.with_occupant(direction.step(ahead), TileOccupant::Box)
                } else {
                    self
                };
                pushed.with_occupant(ahead, TileOccupant::Pusher).with_occupant(
                    self.pusher(),
                    TileOccupant::Empty,
                )
            },
        }
    }

    /// The grid after one attempted move for each of `directions`, in order.
    pub open spec fn moved_all(self, directions: Seq<Direction>) -> Grid
        decreases directions.len(),
    {
        if directions.len() == 0 {
            self
        } else {
            self.moved_all(directions.drop_last()).moved(directions.last())
        }
    }
}

/// What `row_positions` lists: exactly the positions of the row that show the
/// feature, each once, from the left.
pub proof fn lemma_row_positions(row: Seq<Tile>, y: int, feature: Feature)
    ensures
        forall|i: int|
            0 <= i < row_positions(row, y, feature).len() ==> {
                let p = #[trigger] row_positions(row, y, feature)[i];
                p.1 == y && 0 <= p.0 < row.len() && row[p.0].has(feature)
            },
        forall|x: int|
            0 <= x < row.len() && (#[trigger] row[x]).has(feature) ==> row_positions(
                row,
                y,
                feature,
            ).contains((x, y)),
        forall|i: int, j: int|
            0 <= i < j < row_positions(row, y, feature).len() ==> (#[trigger] row_positions(
                row,
                y,
                feature,
            )[i]).0 < (#[trigger] row_positions(row, y, feature)[j]).0,
    decreases row.len(),
{
    let all = row_positions(row, y, feature);
    if row.len() > 0 {
        let init = row.drop_last();
        let before = row_positions(init, y, feature);
        lemma_row_positions(init, y, feature);
        assert forall|x: int| 0 <= x < row.len() && (#[trigger] row[x]).has(feature) implies all.contains(
            (x, y),
        ) by {
            if x < row.len() - 1 {
                assert(init[x].has(feature));
                let i = choose|i: int| 0 <= i < before.len() && before[i] == (x, y);
                assert(all[i] == (x, y));
            } else {
                assert(all[all.len() - 1] == (x, y));
            }
        }
    }
}

/// What `rows_positions` lists: exactly the positions of the rows that show
/// the feature, each once, in row-major order.
pub proof fn lemma_rows_positions(rows: Seq<Seq<Tile>>, feature: Feature)
    ensures
        forall|i: int|
            0 <= i < rows_positions(rows, feature).len() ==> {
                let p = #[trigger] rows_positions(rows, feature)[i];
                0 <= p.1 < rows.len() && 0 <= p.0 < rows[p.1].len() && rows[p.1][p.0].has(feature)
            },
        forall|x: int, y: int|
            0 <= y < rows.len() && 0 <= x < rows[y].len() && (#[trigger] rows[y][x]).has(feature)
                ==> rows_positions(rows, feature).contains((x, y)),
        forall|i: int, j: int|
            0 <= i < j < rows_positions(rows, feature).len() ==> row_major_before(
                #[trigger] rows_positions(rows, feature)[i],
                #[trigger] rows_positions(rows, feature)[j],
            ),
    decreases rows.len(),
{
    let all = rows_positions(rows, feature);
    if rows.len() > 0 {
        let init = rows.drop_last();
        let before = rows_positions(init, feature);
        let y = rows.len() - 1;
        let last = row_positions(rows.last(), y, feature);
        lemma_rows_positions(init, feature);
        lemma_row_positions(rows.last(), y, feature);
        assert forall|i: int| 0 <= i < all.len() implies {
            let p = #[trigger] all[i];
            0 <= p.1 < rows.len() && 0 <= p.0 < rows[p.1].len() && rows[p.1][p.0].has(feature)
        } by {
            if i < before.len() {
                assert(all[i] == before[i]);
                assert(init[before[i].1] == rows[before[i].1]);
            } else {
                assert(all[i] == last[i - before.len()]);
            }
        }
        assert forall|x: int, yy: int|
            0 <= yy < rows.len() && 0 <= x < rows[yy].len() && (#[trigger] rows[yy][x]).has(
                feature,
            ) implies all.contains((x, yy)) by {
            if yy < y {
                assert(init[yy][x].has(feature));
                let i = choose|i: int| 0 <= i < before.len() && before[i] == (x, yy);
                assert(all[i] == (x, yy));
            } else {
                assert(rows.last()[x].has(feature));
                let i = choose|i: int| 0 <= i < last.len() && last[i] == (x, yy);
                assert(all[before.len() + i] == (x, yy));
            }
        }
        assert forall|i: int, j: int| 0 <= i < j < all.len() implies row_major_before(
            #[trigger] all[i],
            #[trigger] all[j],
        ) by {
            if j < before.len() {
                assert(all[i] == before[i] && all[j] == before[j]);
            } else if i < before.len() {
                assert(all[i] == before[i]);
                assert(all[j] == last[j - before.len()]);
            } else {
                assert(all[i] == last[i - before.len()]);
                assert(all[j] == last[j - before.len()]);
            }
        }
    }
}

impl Grid {
    /// The set of positions that show `feature`.
    pub open spec fn cells(self, feature: Feature) -> Set<(int, int)> {
        Set::new(|p: (int, int)| self.has(p, feature))
    }

    /// `positions` lists exactly the positions that show the feature, in
    /// strictly ascending row-major order, so each of them once.
    pub proof fn lemma_positions_listing(self, feature: Feature)
        ensures
            forall|p: (int, int)| #[trigger]
                self.positions(feature).contains(p) <==> self.has(p, feature),
            forall|i: int, j: int|
                0 <= i < j < self.positions(feature).len() ==> row_major_before(
                    #[trigger] self.positions(feature)[i],
                    #[trigger] self.positions(feature)[j],
                ),
            self.positions(feature).no_duplicates(),
    {
        let all = self.positions(feature);
        lemma_rows_positions(self.rows, feature);
        assert forall|p: (int, int)| #[trigger] all.contains(p) <==> self.has(p, feature) by {
            if all.contains(p) {
                let i = choose|i: int| 0 <= i < all.len() && all[i] == p;
                assert(self.has(all[i], feature));
            }
            if self.has(p, feature) {
                assert(self.rows[p.1][p.0].has(feature));
                assert(all.contains((p.0, p.1)));
            }
        }
        assert forall|i: int, j: int| 0 <= i < all.len() && 0 <= j < all.len() && i != j implies all[i]
            != all[j] by {
            if i < j {
                assert(row_major_before(all[i], all[j]));
            } else {
                assert(row_major_before(all[j], all[i]));
            }
        }
    }

    /// `count` is the number of elements of `cells`, which is a finite set.
    pub proof fn lemma_count_is_cardinality(self, feature: Feature)
        ensures
            self.cells(feature).finite(),
            self.cells(feature).len() == self.count(feature),
    {
        let all = self.positions(feature);
        self.lemma_positions_listing(feature);
        all.unique_seq_to_set();
        assert(all.to_set() =~= self.cells(feature));
        vstd::seq_lib::seq_to_set_is_finite(all);
    }

    /// The pusher's position holds a pusher, and no pusher comes before it in
    /// row-major order.
    pub proof fn lemma_pusher_is_first(self)
        requires
            self.has_pusher(),
        ensures
            self.has(self.pusher(), Feature::Pusher),
            forall|p: (int, int)| #[trigger]
                self.has(p, Feature::Pusher) ==> p == self.pusher() || row_major_before(
                    self.pusher(),
                    p,
                ),
    {
        let all = self.positions(Feature::Pusher);
        self.lemma_positions_listing(Feature::Pusher);
        assert(all.contains(all[0]));
        assert forall|p: (int, int)| #[trigger] self.has(p, Feature::Pusher) implies p
            == self.pusher() || row_major_before(self.pusher(), p) by {
            assert(all.contains(p));
            let i = choose|i: int| 0 <= i < all.len() && all[i] == p;
            if i > 0 {
                assert(row_major_before(all[0], all[i]));
            }
        }
    }

    /// A position that holds a pusher while none comes before it in row-major
    /// order is the pusher's position.
    pub proof fn lemma_first_is_pusher(self, p: (int, int))
        requires
            self.has(p, Feature::Pusher),
            forall|q: (int, int)| #[trigger]
                self.has(q, Feature::Pusher) ==> !row_major_before(q, p),
        ensures
            self.has_pusher(),
            self.pusher() == p,
    {
        let all = self.positions(Feature::Pusher);
        self.lemma_positions_listing(Feature::Pusher);
        assert(all.contains(p));
        self.lemma_pusher_is_first();
    }

    /// A grid in which no position holds a pusher has no pusher.
    pub proof fn lemma_no_pusher(self)
        requires
            forall|q: (int, int)| !#[trigger] self.has(q, Feature::Pusher),
        ensures
            !self.has_pusher(),
    {
        let all = self.positions(Feature::Pusher);
        self.lemma_positions_listing(Feature::Pusher);
        if all.len() > 0 {
            assert(all.contains(all[0]));
        }
    }
}

impl Grid {
    /// Whether the two grids have the same shape and the same terrain.
    pub open spec fn same_terrain(self, other: Grid) -> bool {
        &&& self.rows.len() == other.rows.len()
        &&& forall|y: int|
            0 <= y < self.rows.len() ==> (#[trigger] self.rows[y]).len() == other.rows[y].len()
        &&& forall|p: (int, int)|
            self.in_bounds(p) ==> (#[trigger] self.tile(p)).kind == other.tile(p).kind
    }

    /// Replacing an occupant changes the tile at that position and nothing
    /// else.
    pub proof fn lemma_with_occupant(self, p: (int, int), occupant: TileOccupant)
        requires
            self.in_bounds(p),
        ensures
            self.same_terrain(self.with_occupant(p, occupant)),
            self.with_occupant(p, occupant).tile(p).occupant == occupant,
            forall|q: (int, int)|
                q != p && self.in_bounds(q) ==> #[trigger] self.with_occupant(p, occupant).tile(q)
                    == self.tile(q),
            forall|q: (int, int)| #[trigger]
                self.with_occupant(p, occupant).in_bounds(q) == self.in_bounds(q),
    {
        let after = self.with_occupant(p, occupant);
        assert forall|q: (int, int)| #[trigger] after.in_bounds(q) == self.in_bounds(q) by {
            if 0 <= q.1 < self.rows.len() {
                assert(after.rows[q.1].len() == self.rows[q.1].len());
            }
        }
        assert forall|q: (int, int)| self.in_bounds(q) implies (#[trigger] self.tile(q)).kind
            == after.tile(q).kind by {}
    }

    /// What a legal move does, tile by tile: the pusher stands on the tile
    /// ahead, the tile it left is free, a box that was ahead stands one tile
    /// further, and every other tile is as it was. Shape and terrain stay.
    pub proof fn lemma_move_effect(self, direction: Direction)
        requires
            self.destination(direction) is Some,
        ensures
            ({
                let from = self.pusher();
                let ahead = direction.step(from);
                let beyond = direction.step(ahead);
                let after = self.moved(direction);
                let pushes = self.tile(ahead).occupant == TileOccupant::Box;
                &&& self.destination(direction) == Some(ahead)
                &&& self.has(from, Feature::Pusher)
                &&& self.in_bounds(ahead)
                &&& pushes ==> self.in_bounds(beyond) && self.tile(beyond).occupant
                    == TileOccupant::Empty
                &&& !pushes ==> self.tile(ahead).occupant == TileOccupant::Empty
                &&& self.same_terrain(after)
                &&& after.tile(from).occupant == TileOccupant::Empty
                &&& after.tile(ahead).occupant == TileOccupant::Pusher
                &&& pushes ==> after.tile(beyond).occupant == TileOccupant::Box
                &&& forall|q: (int, int)|
                    self.in_bounds(q) && q != from && q != ahead && !(pushes && q == beyond)
                        ==> #[trigger] after.tile(q) == self.tile(q)
                &&& forall|q: (int, int)| #[trigger] after.in_bounds(q) == self.in_bounds(q)
            }),
    {
        let from = self.pusher();
        let ahead = direction.step(from);
        let beyond = direction.step(ahead);
        let pushes = self.tile(ahead).occupant == TileOccupant::Box;
        self.lemma_pusher_is_first();
        let pushed = if pushes {
            self.with_occupant(beyond, TileOccupant::Box)
        } else {
            self
        };
        if pushes {
            self.lemma_with_occupant(beyond, TileOccupant::Box);
        }
        let stepped = pushed.with_occupant(ahead, TileOccupant::Pusher);
        assert(pushed.in_bounds(ahead));
        pushed.lemma_with_occupant(ahead, TileOccupant::Pusher);
        assert(stepped.in_bounds(from));
        stepped.lemma_with_occupant(from, TileOccupant::Empty);
        let after = self.moved(direction);
        assert(after == stepped.with_occupant(from, TileOccupant::Empty));
        assert forall|q: (int, int)| #[trigger] after.in_bounds(q) == self.in_bounds(q) by {
            assert(stepped.in_bounds(q) == pushed.in_bounds(q));
            assert(pushed.in_bounds(q) == self.in_bounds(q));
        }
        assert forall|q: (int, int)| self.in_bounds(q) implies (#[trigger] self.tile(q)).kind
            == after.tile(q).kind by {
            assert(pushed.in_bounds(q));
            assert(stepped.in_bounds(q));
            assert(self.tile(q).kind == pushed.tile(q).kind);
            assert(pushed.tile(q).kind == stepped.tile(q).kind);
            assert(stepped.tile(q).kind == after.tile(q).kind);
        }
        assert forall|y: int| 0 <= y < self.rows.len() implies (#[trigger] self.rows[y]).len()
            == after.rows[y].len() by {
            assert(self.rows[y].len() == pushed.rows[y].len());
            assert(pushed.rows[y].len() == stepped.rows[y].len());
        }
        assert forall|q: (int, int)|
            self.in_bounds(q) && q != from && q != ahead && !(pushes && q == beyond)
                implies #[trigger] after.tile(q) == self.tile(q) by {
            assert(pushed.in_bounds(q));
            assert(stepped.in_bounds(q));
            assert(pushed.tile(q) == self.tile(q));
            assert(stepped.tile(q) == pushed.tile(q));
        }
        assert(stepped.in_bounds(ahead));
        assert(after.tile(ahead) == stepped.tile(ahead));
        if pushes {
            assert(pushed.in_bounds(beyond));
            assert(stepped.in_bounds(beyond));
            assert(stepped.tile(beyond) == pushed.tile(beyond));
            assert(after.tile(beyond) == stepped.tile(beyond));
        }
    }

    /// A move, legal or not, keeps the shape of the grid and its terrain.
    pub proof fn lemma_move_keeps_terrain(self, direction: Direction)
        ensures
            self.same_terrain(self.moved(direction)),
    {
        if self.destination(direction) is Some {
            self.lemma_move_effect(direction);
        }
    }

    /// A move, legal or not, keeps the number of tiles that show a feature:
    /// no box, pusher or wall appears or vanishes.
    pub proof fn lemma_move_keeps_count(self, direction: Direction, feature: Feature)
        ensures
            self.moved(direction).count(feature) == self.count(feature),
    {
        broadcast use vstd::set::group_set_axioms;

        let after = self.moved(direction);
        if self.destination(direction) is Some {
            let from = self.pusher();
            let ahead = direction.step(from);
            let beyond = direction.step(ahead);
            let pushes = self.tile(ahead).occupant == TileOccupant::Box;
            self.lemma_move_effect(direction);
            self.lemma_count_is_cardinality(feature);
            after.lemma_count_is_cardinality(feature);
            let old_cells = self.cells(feature);
            let new_cells = after.cells(feature);
            assert forall|q: (int, int)| q != from && q != ahead && q != beyond implies (
            #[trigger] new_cells.contains(q) == old_cells.contains(q)) by {
                assert(after.in_bounds(q) == self.in_bounds(q));
                if self.in_bounds(q) {
                    assert(after.tile(q) == self.tile(q));
                }
            }
            assert(after.in_bounds(from) && after.in_bounds(ahead));
            assert(after.in_bounds(beyond) == self.in_bounds(beyond));
            if !pushes && self.in_bounds(beyond) && beyond != from {
                assert(after.tile(beyond) == self.tile(beyond));
            }
            match feature {
                Feature::Pusher => {
                    assert(new_cells =~= old_cells.remove(from).insert(ahead));
                },
                Feature::Box => {
                    if pushes {
                        assert(new_cells =~= old_cells.remove(ahead).insert(beyond));
                    } else {
                        assert(new_cells =~= old_cells);
                    }
                },
                _ => {
                    assert(new_cells =~= old_cells);
                },
            }
        }
    }

    /// Any sequence of moves keeps the shape of the grid, its terrain, and the
    /// number of tiles that show a feature. In particular the number of boxes
    /// and the number of pushers never change.
    pub proof fn lemma_moves_keep_count(self, directions: Seq<Direction>, feature: Feature)
        ensures
            self.moved_all(directions).count(feature) == self.count(feature),
            self.same_terrain(self.moved_all(directions)),
        decreases directions.len(),
    {
        if directions.len() > 0 {
            let before = self.moved_all(directions.drop_last());
            self.lemma_moves_keep_count(directions.drop_last(), feature);
            before.lemma_move_keeps_count(directions.last(), feature);
            before.lemma_move_keeps_terrain(directions.last());
            let after = before.moved(directions.last());
            assert forall|p: (int, int)| self.in_bounds(p) implies (#[trigger] self.tile(p)).kind
                == after.tile(p).kind by {
                assert(before.in_bounds(p));
                assert(self.tile(p).kind == before.tile(p).kind);
                assert(before.tile(p).kind == after.tile(p).kind);
            }
            assert forall|y: int| 0 <= y < self.rows.len() implies (#[trigger] self.rows[y]).len()
                == after.rows[y].len() by {
                assert(self.rows[y].len() == before.rows[y].len());
                assert(before.rows[y].len() == after.rows[y].len());
            }
        }
    }

    /// On a grid with exactly one pusher, there is exactly one pusher after any
    /// sequence of moves, and `pusher` gives its position.
    pub proof fn lemma_moves_keep_one_pusher(self, directions: Seq<Direction>)
        requires
            self.count(Feature::Pusher) == 1,
        ensures
            self.moved_all(directions).count(Feature::Pusher) == 1,
            self.moved_all(directions).has_pusher(),
            forall|p: (int, int)| #[trigger]
                self.moved_all(directions).has(p, Feature::Pusher) <==> p == self.moved_all(
                    directions,
                ).pusher(),
    {
        let after = self.moved_all(directions);
        self.lemma_moves_keep_count(directions, Feature::Pusher);
        after.lemma_positions_listing(Feature::Pusher);
        let all = after.positions(Feature::Pusher);
        assert(all.contains(all[0]));
        assert forall|p: (int, int)| #[trigger] after.has(p, Feature::Pusher) implies p
            == after.pusher() by {
            assert(all.contains(p));
        }
    }

    /// On a grid with exactly one pusher, a legal move leaves the pusher on
    /// the destination, and it is still the only one.
    pub proof fn lemma_move_places_pusher(self, direction: Direction)
        requires
            self.count(Feature::Pusher) == 1,
            self.destination(direction) is Some,
        ensures
            self.moved(direction).count(Feature::Pusher) == 1,
            Some(self.moved(direction).pusher()) == self.destination(direction),
    {
        let after = self.moved(direction);
        self.lemma_move_keeps_count(direction, Feature::Pusher);
        self.lemma_move_effect(direction);
        after.lemma_positions_listing(Feature::Pusher);
        let ahead = direction.step(self.pusher());
        assert(after.has(ahead, Feature::Pusher));
        assert(after.positions(Feature::Pusher).contains(ahead));
    }
}

/// The longest row depends on the lengths of the rows alone.
pub proof fn lemma_longest_row_by_lengths(a: Seq<Seq<Tile>>, b: Seq<Seq<Tile>>)
    requires
        a.len() == b.len(),
        forall|y: int| 0 <= y < a.len() ==> (#[trigger] a[y]).len() == b[y].len(),
    ensures
        longest_row(a) == longest_row(b),
    decreases a.len(),
{
    if a.len() > 0 {
        lemma_longest_row_by_lengths(a.drop_last(), b.drop_last());
    }
}

/// The longest row is as long as its name says: no row is longer, and unless
/// there are no rows, some row has that length.
pub proof fn lemma_longest_row_is_max(rows: Seq<Seq<Tile>>)
    ensures
        forall|y: int| 0 <= y < rows.len() ==> (#[trigger] rows[y]).len() <= longest_row(rows),
        rows.len() == 0 ==> longest_row(rows) == 0,
        rows.len() > 0 ==> exists|y: int|
            0 <= y < rows.len() && (#[trigger] rows[y]).len() == longest_row(rows),
    decreases rows.len(),
{
    if rows.len() > 0 {
        let init = rows.drop_last();
        lemma_longest_row_is_max(init);
        assert forall|y: int| 0 <= y < rows.len() implies (#[trigger] rows[y]).len()
            <= longest_row(rows) by {
            if y < init.len() {
                assert(init[y].len() <= longest_row(init));
            }
        }
        if rows.last().len() > longest_row(init) || init.len() == 0 {
            assert(rows[rows.len() - 1].len() == longest_row(rows));
        } else {
            let y = choose|y: int| 0 <= y < init.len() && (#[trigger] init[y]).len() == longest_row(init);
            assert(rows[y].len() == longest_row(rows));
        }
    }
}

} // verus!
