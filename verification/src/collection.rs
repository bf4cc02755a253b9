//! A collection of levels, read from text in which puzzles are set apart by
//! lines that are no puzzle rows: blank lines, titles, comments.

use vstd::prelude::*;
use crate::grid::Grid;
use crate::level::Level;
use crate::blocks::{blocks, closed_blocks, ended_lines, last_line, lines_of, open_block};
use crate::parse::{grid_of, is_puzzle_line, is_puzzle_text, occurrences, parse_row, row_of, texts};
use crate::tile::Tile;

verus! {

/// The grids of the given blocks.
pub open spec fn grids_of(blocks: Seq<Seq<Seq<char>>>) -> Seq<Grid> {
    Seq::new(blocks.len(), |k: int| grid_of(blocks[k]))
}

/// The grids of the levels that `lines` describe, one for each block.
pub open spec fn levels_of(lines: Seq<Seq<char>>) -> Seq<Grid> {
    grids_of(blocks(lines))
}

/// The grids of the given levels.
pub open spec fn grids(levels: Seq<Level>) -> Seq<Grid> {
    Seq::new(levels.len(), |k: int| levels[k]@)
}

/// The levels found so far while lines are read one by one, and the level
/// that the open block is building.
struct Scanner {
    levels: Vec<Level>,
    level: Level,
}

impl Scanner {
    /// The scanner has read exactly `lines`.
    spec fn has_read(&self, lines: Seq<Seq<char>>) -> bool {
        &&& grids(self.levels@) == grids_of(closed_blocks(lines))
        &&& self.level@ == grid_of(open_block(lines))
    }

    fn new() -> (scanner: Scanner)
        ensures
            scanner.has_read(Seq::empty()),
    {
        let scanner = Scanner { levels: Vec::new(), level: Level::new() };
        proof {
            assert(grids(scanner.levels@) =~= grids_of(closed_blocks(Seq::empty())));
            assert(scanner.level@.rows =~= grid_of(open_block(Seq::empty())).rows);
        }
        scanner
    }

    /// Reads a puzzle line, given as the row that it stands for.
    fn row(&mut self, row: Vec<Tile>, Ghost(lines): Ghost<Seq<Seq<char>>>, Ghost(line): Ghost<Seq<char>>)
        requires
            old(self).has_read(lines),
            is_puzzle_text(line),
            row@ == row_of(line),
        ensures
            final(self).has_read(lines.push(line)),
    {
        self.level.push_row(row);
        proof {
            let read = lines.push(line);
            assert(read.drop_last() =~= lines);
            assert(self.level@.rows =~= grid_of(open_block(read)).rows);
        }
    }

    /// Reads a line that is no puzzle line: it ends the open block, if there
    /// is one.
    fn gap(&mut self, Ghost(lines): Ghost<Seq<Seq<char>>>, Ghost(line): Ghost<Seq<char>>)
        requires
            old(self).has_read(lines),
            !is_puzzle_text(line),
        ensures
            final(self).has_read(lines.push(line)),
    {
        let ghost read = lines.push(line);
        proof {
            assert(read.drop_last() =~= lines);
        }
        if !self.level.is_empty() {
            let mut level = Level::new();
            core::mem::swap(&mut self.level, &mut level);
            let ghost before = self.levels@;
            self.levels.push(level);
            proof {
                assert(grids(self.levels@) =~= grids(before).push(level@));
                assert(grids_of(closed_blocks(read)) =~= grids_of(closed_blocks(lines)).push(
                    grid_of(open_block(lines)),
                ));
                assert(self.level@.rows =~= grid_of(open_block(read)).rows);
            }
        } else {
            proof {
                assert(grid_of(open_block(lines)).rows.len() == open_block(lines).len());
                assert(self.level@.rows =~= grid_of(open_block(read)).rows);
            }
        }
    }

    /// Ends the reading: the open block, if there is one, is the last.
    fn finish(self, Ghost(lines): Ghost<Seq<Seq<char>>>) -> (collection: LevelCollection)
        requires
            self.has_read(lines),
        ensures
            collection@ == levels_of(lines),
    {
        let mut levels = self.levels;
        let ghost before = levels@;
        assert(grid_of(open_block(lines)).rows.len() == open_block(lines).len());
        if !self.level.is_empty() {
            levels.push(self.level);
            proof {
                assert(grids(levels@) =~= grids(before).push(self.level@));
                assert(grids_of(blocks(lines)) =~= grids_of(closed_blocks(lines)).push(
                    grid_of(open_block(lines)),
                ));
            }
        }
        LevelCollection { levels }
    }
}

/// An ordered collection of levels.
pub struct LevelCollection {
    levels: Vec<Level>,
}

impl View for LevelCollection {
    type V = Seq<Grid>;

    closed spec fn view(&self) -> Seq<Grid> {
        grids(self.levels@)
    }
}

impl LevelCollection {
    /// Reads the levels that the given lines describe.
    ///
    /// Consecutive puzzle lines form a block, and each block gives one level,
    /// in the order of the text. Lines that are no puzzle lines set the blocks
    /// apart and are otherwise skipped.
    pub fn from_lines(lines: &[&str]) -> (collection: LevelCollection)
        ensures
            collection@ == levels_of(texts(lines@)),
    {
        let mut scanner = Scanner::new();
        for i in 0..lines.len()
            invariant
                scanner.has_read(texts(lines@).take(i as int)),
        {
            let ghost read = texts(lines@).take(i as int);
            let line = lines[i];
            proof {
                assert(texts(lines@).take(i + 1) =~= read.push(line@));
            }
            if is_puzzle_line(line) {
                scanner.row(parse_row(line), Ghost(read), Ghost(line@));
            } else {
                scanner.gap(Ghost(read), Ghost(line@));
            }
        }
        proof {
            assert(texts(lines@).take(lines@.len() as int) =~= texts(lines@));
        }
        scanner.finish(Ghost(texts(lines@)))
    }

    /// Reads the levels that a text describes, taking the pieces between its
    /// line feeds as lines.
    pub fn from_source(text: &str) -> (collection: LevelCollection)
        ensures
            collection@ == levels_of(lines_of(text@)),
    {
        let mut scanner = Scanner::new();
        let mut row: Vec<Tile> = Vec::new();
        let mut walls: u8 = 0;
        for c in it: text.chars()
            invariant
                it.seq() == text@,
                scanner.has_read(ended_lines(text@.take(it.index()))),
                row@ == row_of(last_line(text@.take(it.index()))),
                walls <= 2,
                walls < 2 ==> walls == occurrences(last_line(text@.take(it.index())), '#'),
                walls == 2 ==> occurrences(last_line(text@.take(it.index())), '#') >= 2,
        {
            let ghost read = text@.take(it.index());
            proof {
                assert(text@.take(it.index() + 1).drop_last() =~= read);
            }
            if c == '\n' {
                if walls >= 2 {
                    scanner.row(row, Ghost(ended_lines(read)), Ghost(last_line(read)));
                } else {
                    scanner.gap(Ghost(ended_lines(read)), Ghost(last_line(read)));
                }
                row = Vec::new();
                walls = 0;
            } else {
                proof {
                    assert(last_line(read).push(c).drop_last() =~= last_line(read));
                }
                match Tile::from_symbol(c, walls > 0) {
                    Some(tile) => {
                        row.push(tile);
                    },
                    None => {},
                }
                if c == '#' && walls < 2 {
                    walls = walls + 1;
                }
            }
        }
        proof {
            assert(text@.take(text@.len() as int) =~= text@);
        }
        if walls >= 2 {
            scanner.row(row, Ghost(ended_lines(text@)), Ghost(last_line(text@)));
        } else {
            scanner.gap(Ghost(ended_lines(text@)), Ghost(last_line(text@)));
        }
        scanner.finish(Ghost(lines_of(text@)))
    }

    /// The number of levels.
    pub fn len(&self) -> (len: usize)
        ensures
            len == self@.len(),
    {
        self.levels.len()
    }

    /// Hands the levels over to an iterator that yields them in order.
    pub fn into_iter(self) -> (iter: LevelCollectionIter)
        ensures
            iter@ == self@,
    {
        let mut levels = self.levels;
        let mut rest: Vec<Level> = Vec::new();
        let ghost all = levels@;
        while levels.len() > 0
            invariant
                levels@ == all.take(levels@.len() as int),
                levels@.len() <= all.len(),
                rest@.len() == all.len() - levels@.len(),
                forall|k: int| 0 <= k < rest@.len() ==> #[trigger] rest@[k] == all[all.len() - 1 - k],
            decreases levels@.len(),
        {
            let ghost n = levels@.len();
            match levels.pop() {
                Some(level) => {
                    rest.push(level);
                    proof {
                        assert(levels@ =~= all.take(n - 1));
                    }
                },
                None => {},
            }
        }
        let iter = LevelCollectionIter { rest };
        proof {
            assert(iter@ =~= grids(all));
        }
        iter
    }
}

/// The levels of a collection that have not been handed out yet.
pub struct LevelCollectionIter {
    /// The remaining levels, the next one last.
    rest: Vec<Level>,
}

impl View for LevelCollectionIter {
    type V = Seq<Grid>;

    /// The grids of the remaining levels, the next one first.
    closed spec fn view(&self) -> Seq<Grid> {
        Seq::new(self.rest@.len(), |k: int| self.rest@[self.rest@.len() - 1 - k]@)
    }
}

impl LevelCollectionIter {
    /// Hands out the next level, or `None` when none is left.
    pub fn next(&mut self) -> (level: Option<Level>)
        ensures
            match level {
                Some(level) => {
                    &&& old(self)@.len() > 0
                    &&& level@ == old(self)@[0]
                    &&& final(self)@ == old(self)@.drop_first()
                },
                None => old(self)@.len() == 0 && final(self)@ == old(self)@,
            },
    {
        let level = self.rest.pop();
        proof {
            if level is Some {
                assert(self@ =~= old(self)@.drop_first());
            } else {
                assert(self@ =~= old(self)@);
            }
        }
        level
    }
}

} // verus!
