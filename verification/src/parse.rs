//! Level text: which lines belong to a puzzle, and the row of tiles that a
//! line stands for.

use vstd::prelude::*;
use crate::grid::{row_positions, Direction, Grid};
use crate::level::Level;
use crate::tile::{lemma_symbol_tiles_are_consistent, Feature, Tile};

verus! {

/// How often the symbol `c` occurs in `line`.
pub open spec fn occurrences(line: Seq<char>, c: char) -> nat
    decreases line.len(),
{
    if line.len() == 0 {
        0
    } else {
        occurrences(line.drop_last(), c) + if line.last() == c {
            1nat
        } else {
            0nat
        }
    }
}

/// Whether a line of text is a row of a puzzle: it holds at least two `#`.
pub open spec fn is_puzzle_text(line: Seq<char>) -> bool {
    occurrences(line, '#') >= 2
}

/// The row of tiles that a line of text stands for.
///
/// Each symbol of the table gives one tile, in order; any other symbol gives
/// none. A symbol counts as inside the walls once a `#` stands before it on
/// the line.
pub open spec fn row_of(line: Seq<char>) -> Seq<Tile>
    decreases line.len(),
{
    if line.len() == 0 {
        Seq::empty()
    } else {
        let before = line.drop_last();
        match Tile::of_symbol(line.last(), occurrences(before, '#') > 0) {
            Some(tile) => row_of(before).push(tile),
            None => row_of(before),
        }
    }
}

/// How often the symbol `c` occurs in the lines of `block`.
pub open spec fn occurrences_in(block: Seq<Seq<char>>, c: char) -> nat
    decreases block.len(),
{
    if block.len() == 0 {
        0
    } else {
        occurrences_in(block.drop_last(), c) + occurrences(block.last(), c)
    }
}

/// The grid that a block of lines stands for: one row for each line.
pub open spec fn grid_of(block: Seq<Seq<char>>) -> Grid {
    Grid { rows: Seq::new(block.len(), |y: int| row_of(block[y])) }
}

/// The text of each of the given lines.
pub open spec fn texts(lines: Seq<&str>) -> Seq<Seq<char>> {
    Seq::new(lines.len(), |i: int| lines[i]@)
}

/// Whether a line of text is a row of a puzzle: it holds at least two `#`.
pub fn is_puzzle_line(line: &str) -> (yes: bool)
    ensures
        yes == is_puzzle_text(line@),
{
    let mut seen: u8 = 0;
    for c in it: line.chars()
        invariant
            it.seq() == line@,
            seen <= 2,
            seen < 2 ==> seen == occurrences(line@.take(it.index()), '#'),
            seen == 2 ==> occurrences(line@.take(it.index()), '#') >= 2,
    {
        proof {
            assert(line@.take(it.index() + 1).drop_last() =~= line@.take(it.index()));
        }
        if c == '#' && seen < 2 {
            seen = seen + 1;
        }
    }
    proof {
        assert(line@.take(line@.len() as int) =~= line@);
    }
    seen >= 2
}

/// Reads one line of level text into a row of tiles.
pub fn parse_row(line: &str) -> (row: Vec<Tile>)
    ensures
        row@ == row_of(line@),
{
    let mut row: Vec<Tile> = Vec::new();
    let mut inside = false;
    for c in it: line.chars()
        invariant
            it.seq() == line@,
            row@ == row_of(line@.take(it.index())),
            inside == (occurrences(line@.take(it.index()), '#') > 0),
    {
        proof {
            assert(line@.take(it.index() + 1).drop_last() =~= line@.take(it.index()));
        }
        match Tile::from_symbol(c, inside) {
            Some(tile) => {
                row.push(tile);
            },
            None => {},
        }
        if c == '#' {
            inside = true;
        }
    }
    proof {
        assert(line@.take(line@.len() as int) =~= line@);
    }
    row
}

impl Level {
    /// Reads a block of lines into a level, one row for each line.
    pub fn parse(block: &[&str]) -> (level: Level)
        ensures
            level@ == grid_of(texts(block@)),
    {
        let mut level = Level::new();
        for i in 0..block.len()
            invariant
                level@.rows == grid_of(texts(block@)).rows.take(i as int),
        {
            level.push_row(parse_row(block[i]));
            proof {
                let all = grid_of(texts(block@)).rows;
                assert(all.take(i + 1) =~= all.take(i as int).push(all[i as int]));
            }
        }
        proof {
            let all = grid_of(texts(block@)).rows;
            assert(all.take(all.len() as int) =~= all);
        }
        level
    }
}

/// A row has at most one tile for each symbol of its line, and each of its
/// tiles is consistent.
pub proof fn lemma_row_tiles(line: Seq<char>)
    ensures
        row_of(line).len() <= line.len(),
        forall|x: int| 0 <= x < row_of(line).len() ==> (#[trigger] row_of(line)[x]).consistent(),
    decreases line.len(),
{
    if line.len() > 0 {
        let before = line.drop_last();
        lemma_row_tiles(before);
        lemma_symbol_tiles_are_consistent(line.last(), occurrences(before, '#') > 0);
    }
}

/// A row holds as many walls, boxes and pushers as its line holds symbols
/// for them.
pub proof fn lemma_row_counts(line: Seq<char>, y: int)
    ensures
        row_positions(row_of(line), y, Feature::Wall).len() == occurrences(line, '#'),
        row_positions(row_of(line), y, Feature::Box).len() == occurrences(line, '$')
            + occurrences(line, 'b') + occurrences(line, 'B') + occurrences(line, '*'),
        row_positions(row_of(line), y, Feature::Pusher).len() == occurrences(line, '@')
            + occurrences(line, 'p') + occurrences(line, 'P') + occurrences(line, '+'),
    decreases line.len(),
{
    if line.len() > 0 {
        let before = line.drop_last();
        lemma_row_counts(before, y);
        match Tile::of_symbol(line.last(), occurrences(before, '#') > 0) {
            Some(tile) => {
                assert(row_of(line).drop_last() =~= row_of(before));
            },
            None => {},
        }
    }
}

/// The grid of a block holds as many walls, boxes and pushers as the lines of
/// the block hold symbols for them.
pub proof fn lemma_grid_counts(block: Seq<Seq<char>>)
    ensures
        grid_of(block).count(Feature::Wall) == occurrences_in(block, '#'),
        grid_of(block).count(Feature::Box) == occurrences_in(block, '$') + occurrences_in(
            block,
            'b',
        ) + occurrences_in(block, 'B') + occurrences_in(block, '*'),
        grid_of(block).count(Feature::Pusher) == occurrences_in(block, '@') + occurrences_in(
            block,
            'p',
        ) + occurrences_in(block, 'P') + occurrences_in(block, '+'),
    decreases block.len(),
{
    if block.len() > 0 {
        let before = block.drop_last();
        lemma_grid_counts(before);
        lemma_row_counts(block.last(), block.len() - 1);
        assert(grid_of(block).rows.drop_last() =~= grid_of(before).rows);
    }
}

/// The number of boxes on the grid of a block is the number of box symbols
/// in the block, and it stays so whatever moves are made.
pub proof fn lemma_boxes_are_the_box_symbols(block: Seq<Seq<char>>, directions: Seq<Direction>)
    ensures
        grid_of(block).moved_all(directions).count(Feature::Box) == occurrences_in(block, '$')
            + occurrences_in(block, 'b') + occurrences_in(block, 'B') + occurrences_in(block, '*'),
{
    lemma_grid_counts(block);
    grid_of(block).lemma_moves_keep_count(directions, Feature::Box);
}

/// A block with exactly one pusher symbol gives a grid with exactly one
/// pusher, and it stays so whatever moves are made.
pub proof fn lemma_one_pusher_symbol_one_pusher(block: Seq<Seq<char>>, directions: Seq<Direction>)
    requires
        occurrences_in(block, '@') + occurrences_in(block, 'p') + occurrences_in(block, 'P')
            + occurrences_in(block, '+') == 1,
    ensures
        grid_of(block).moved_all(directions).count(Feature::Pusher) == 1,
        grid_of(block).moved_all(directions).has_pusher(),
{
    lemma_grid_counts(block);
    grid_of(block).lemma_moves_keep_count(directions, Feature::Pusher);
}

} // verus!
