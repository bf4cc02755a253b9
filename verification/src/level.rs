//! A level: the grid of one puzzle, the queries on it, and the one operation
//! that changes it, an attempt to move the pusher.

use vstd::prelude::*;
use crate::grid::{
    lemma_longest_row_by_lengths, position, positions_of, row_major_before, row_positions,
    rows_positions, Direction, Grid,
};
use crate::tile::{Feature, Tile, TileOccupant};

verus! {

/// The grid of one puzzle, together with the length of its longest row.
pub struct Level {
    width: usize,
    data: Vec<Vec<Tile>>,
}

impl View for Level {
    type V = Grid;

    closed spec fn view(&self) -> Grid {
        Grid { rows: Seq::new(self.data@.len(), |y: int| self.data@[y]@) }
    }
}

impl Level {
    /// The recorded width is the length of the longest row.
    #[verifier::type_invariant]
    spec fn well_formed(&self) -> bool {
        self.width == self@.width()
    }

    /// The positions of a level have indices that fit the machine's word.
    proof fn lemma_bounded(&self)
        ensures
            forall|p: (int, int)| #[trigger]
                self@.in_bounds(p) ==> p.0 < usize::MAX && p.1 < usize::MAX,
    {
        assert forall|p: (int, int)| #[trigger] self@.in_bounds(p) implies p.0 < usize::MAX && p.1
            < usize::MAX by {
            assert(self.data.len() == self.data@.len());
            assert(self.data@[p.1].len() == self.data@[p.1]@.len());
        }
    }

    /// A level without rows.
    pub fn new() -> (level: Level)
        ensures
            level@.rows == Seq::<Seq<Tile>>::empty(),
    {
        let data: Vec<Vec<Tile>> = Vec::new();
        proof {
            assert(Seq::new(data@.len(), |y: int| data@[y]@) =~= Seq::<Seq<Tile>>::empty());
        }
        Level { width: 0, data }
    }

    /// Adds a row below the rows that the level has.
    pub fn push_row(&mut self, row: Vec<Tile>)
        ensures
            final(self)@.rows == old(self)@.rows.push(row@),
    {
        // The level is taken apart and put together again, so that the
        // recorded width is never out of step with the rows.
        let mut taken = Level::new();
        core::mem::swap(self, &mut taken);
        proof {
            use_type_invariant(&taken);
        }
        let width = if row.len() > taken.width {
            row.len()
        } else {
            taken.width
        };
        let mut data = taken.data;
        data.push(row);
        proof {
            let rows = Seq::new(data@.len(), |y: int| data@[y]@);
            assert(rows =~= old(self)@.rows.push(row@));
            assert(rows.drop_last() =~= old(self)@.rows);
        }
        *self = Level { width, data };
    }

    /// Whether the level has no rows.
    pub fn is_empty(&self) -> (empty: bool)
        ensures
            empty == (self@.height() == 0),
    {
        self.data.len() == 0
    }

    /// The length of the longest row.
    pub fn width(&self) -> (width: usize)
        ensures
            width == self@.width(),
    {
        proof {
            use_type_invariant(self);
        }
        self.width
    }

    /// The number of rows.
    pub fn height(&self) -> (height: usize)
        ensures
            height == self@.height(),
    {
        self.data.len()
    }

    /// The tile at column `x` of row `y`, if the grid has such a position.
    pub fn tile(&self, x: usize, y: usize) -> (tile: Option<Tile>)
        ensures
            match tile {
                Some(t) => self@.in_bounds(position((x, y))) && t == self@.tile(position((x, y))),
                None => !self@.in_bounds(position((x, y))),
            },
    {
        if y < self.data.len() && x < self.data[y].len() {
            Some(self.data[y][x])
        } else {
            None
        }
    }

    /// The positions of the walls, in row-major order.
    pub fn walls(&self) -> (found: Vec<(usize, usize)>)
        ensures
            positions_of(found@) == self@.positions(Feature::Wall),
    {
        self.filter(Feature::Wall)
    }

    /// The positions of the walkable terrain, plain floor and goals alike, in
    /// row-major order.
    pub fn floors(&self) -> (found: Vec<(usize, usize)>)
        ensures
            positions_of(found@) == self@.positions(Feature::Floor),
    {
        self.filter(Feature::Floor)
    }

    /// The positions of the goals, in row-major order.
    pub fn goals(&self) -> (found: Vec<(usize, usize)>)
        ensures
            positions_of(found@) == self@.positions(Feature::Goal),
    {
        self.filter(Feature::Goal)
    }

    /// The positions of the boxes, in row-major order.
    pub fn boxes(&self) -> (found: Vec<(usize, usize)>)
        ensures
            positions_of(found@) == self@.positions(Feature::Box),
    {
        self.filter(Feature::Box)
    }

    /// The position of the pusher: the first in row-major order, should the
    /// level hold several.
    pub fn pusher(&self) -> (found: (usize, usize))
        requires
            self@.has_pusher(),
        ensures
            position(found) == self@.pusher(),
    {
        self.find_pusher().unwrap()
    }

    /// The position of the pusher, or `None` if the level holds none.
    pub fn find_pusher(&self) -> (found: Option<(usize, usize)>)
        ensures
            match found {
                Some(p) => self@.has_pusher() && position(p) == self@.pusher(),
                None => !self@.has_pusher(),
            },
    {
        for y in 0..self.data.len()
            invariant
                forall|q: (int, int)| #[trigger] self@.has(q, Feature::Pusher) ==> q.1 >= y,
        {
            let row = &self.data[y];
            for x in 0..row.len()
                invariant
                    y < self.data.len(),
                    row@ == self@.rows[y as int],
                    forall|q: (int, int)| #[trigger]
                        self@.has(q, Feature::Pusher) ==> !row_major_before(q, (x as int, y as int)),
            {
                if row[x].shows(Feature::Pusher) {
                    proof {
                        self@.lemma_first_is_pusher((x as int, y as int));
                    }
                    return Some((x, y));
                }
            }
        }
        proof {
            self@.lemma_no_pusher();
        }
        None
    }

    /// The positions that show `feature`, in row-major order.
    fn filter(&self, feature: Feature) -> (found: Vec<(usize, usize)>)
        ensures
            positions_of(found@) == self@.positions(feature),
    {
        let mut found: Vec<(usize, usize)> = Vec::new();
        for y in 0..self.data.len()
            invariant
                positions_of(found@) == rows_positions(self@.rows.take(y as int), feature),
        {
            let row = &self.data[y];
            for x in 0..row.len()
                invariant
                    y < self.data.len(),
                    row@ == self@.rows[y as int],
                    positions_of(found@) == rows_positions(self@.rows.take(y as int), feature)
                        + row_positions(row@.take(x as int), y as int, feature),
            {
                let ghost before = found@;
                if row[x].shows(feature) {
                    found.push((x, y));
                    assert(positions_of(found@) =~= positions_of(before).push(
                        (x as int, y as int),
                    ));
                }
                assert(row@.take(x + 1).drop_last() =~= row@.take(x as int));
            }
            proof {
                assert(row@.take(row@.len() as int) =~= row@);
                assert(self@.rows.take(y + 1).drop_last() =~= self@.rows.take(y as int));
            }
        }
        assert(self@.rows.take(self@.rows.len() as int) =~= self@.rows);
        found
    }

    /// Replaces the occupant of a tile.
    fn set_occupant(&mut self, at: (usize, usize), occupant: TileOccupant)
        requires
            old(self)@.in_bounds(position(at)),
        ensures
            final(self)@ == old(self)@.with_occupant(position(at), occupant),
    {
        let mut taken = Level::new();
        core::mem::swap(self, &mut taken);
        proof {
            use_type_invariant(&taken);
        }
        let width = taken.width;
        let mut data = taken.data;
        let kind = data[at.1][at.0].kind;
        data[at.1][at.0] = Tile { kind, occupant };
        proof {
            let rows = Seq::new(data@.len(), |y: int| data@[y]@);
            assert(rows =~~= old(self)@.with_occupant(position(at), occupant).rows);
            lemma_longest_row_by_lengths(old(self)@.rows, rows);
        }
        *self = Level { width, data };
    }

    /// Attempts to move the pusher one step in `direction`, and returns its
    /// new position if it moved.
    ///
    /// The pusher steps onto a free tile. If a box is in the way and the tile
    /// beyond the box is free, it pushes the box there and takes the box's
    /// place. Otherwise nothing moves, and the level is exactly as it was:
    /// when a wall is in the way, when the box cannot be pushed, when the step
    /// would leave the grid, and when the level holds no pusher.
    pub fn move_pusher(&mut self, direction: Direction) -> (moved: Option<(usize, usize)>)
        ensures
            final(self)@ == old(self)@.moved(direction),
            match moved {
                Some(to) => old(self)@.destination(direction) == Some(position(to)),
                None => old(self)@.destination(direction) is None,
            },
            forall|feature: Feature| #[trigger]
                final(self)@.count(feature) == old(self)@.count(feature),
            final(self)@.same_terrain(old(self)@),
    {
        proof {
            assert forall|feature: Feature| #[trigger]
                old(self)@.moved(direction).count(feature) == old(self)@.count(feature) by {
                old(self)@.lemma_move_keeps_count(direction, feature);
            }
            old(self)@.lemma_move_keeps_terrain(direction);
        }
        let from = match self.find_pusher() {
            Some(from) => from,
            None => return None,
        };
        proof {
            self.lemma_bounded();
        }
        let ahead = match direction.apply(from.0, from.1) {
            Some(ahead) => ahead,
            None => return None,
        };
        let pushes = match self.tile(ahead.0, ahead.1) {
            Some(tile) => match tile.occupant {
                TileOccupant::Empty => false,
                TileOccupant::Box => true,
                _ => return None,
            },
            None => return None,
        };
        if pushes {
            let beyond = match direction.apply(ahead.0, ahead.1) {
                Some(beyond) => beyond,
                None => return None,
            };
            match self.tile(beyond.0, beyond.1) {
                Some(tile) => match tile.occupant {
                    TileOccupant::Empty => {},
                    _ => return None,
                },
                None => return None,
            }
            self.set_occupant(beyond, TileOccupant::Box);
        }
        proof {
            old(self)@.lemma_move_effect(direction);
        }
        self.set_occupant(ahead, TileOccupant::Pusher);
        self.set_occupant(from, TileOccupant::Empty);
        Some(ahead)
    }
}

} // verus!
