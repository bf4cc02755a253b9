//! Lines and blocks: how a text falls into lines, and how lines fall into the
//! blocks that each describe one level.

use vstd::prelude::*;
use crate::parse::is_puzzle_text;

verus! {

/// The part of `text` that follows its last line feed; all of it, if it has
/// none.
pub open spec fn last_line(text: Seq<char>) -> Seq<char>
    decreases text.len(),
{
    if text.len() == 0 || text.last() == '\n' {
        Seq::empty()
    } else {
        last_line(text.drop_last()).push(text.last())
    }
}

/// The lines of `text` that a line feed ends, without the line feeds.
pub open spec fn ended_lines(text: Seq<char>) -> Seq<Seq<char>>
    decreases text.len(),
{
    if text.len() == 0 {
        Seq::empty()
    } else if text.last() == '\n' {
        ended_lines(text.drop_last()).push(last_line(text.drop_last()))
    } else {
        ended_lines(text.drop_last())
    }
}

/// The lines of `text`: the pieces between its line feeds, in order.
pub open spec fn lines_of(text: Seq<char>) -> Seq<Seq<char>> {
    ended_lines(text).push(last_line(text))
}

/// The run of puzzle lines at the end of `lines`: the block that is still
/// open when `lines` have been read.
pub open spec fn open_block(lines: Seq<Seq<char>>) -> Seq<Seq<char>>
    decreases lines.len(),
{
    if lines.len() == 0 || !is_puzzle_text(lines.last()) {
        Seq::empty()
    } else {
        open_block(lines.drop_last()).push(lines.last())
    }
}

/// The blocks of `lines` that a line which is no puzzle line has ended, in
/// order.
pub open spec fn closed_blocks(lines: Seq<Seq<char>>) -> Seq<Seq<Seq<char>>>
    decreases lines.len(),
{
    if lines.len() == 0 {
        Seq::empty()
    } else if !is_puzzle_text(lines.last()) && open_block(lines.drop_last()).len() > 0 {
        closed_blocks(lines.drop_last()).push(open_block(lines.drop_last()))
    } else {
        closed_blocks(lines.drop_last())
    }
}

/// The blocks of `lines`, in order: the runs of consecutive puzzle lines that
/// cannot be made longer.
pub open spec fn blocks(lines: Seq<Seq<char>>) -> Seq<Seq<Seq<char>>> {
    if open_block(lines).len() > 0 {
        closed_blocks(lines).push(open_block(lines))
    } else {
        closed_blocks(lines)
    }
}

/// The given lines with a line feed between each two of them.
pub open spec fn joined(lines: Seq<Seq<char>>) -> Seq<char>
    decreases lines.len(),
{
    if lines.len() == 0 {
        Seq::empty()
    } else if lines.len() == 1 {
        lines[0]
    } else {
        joined(lines.drop_last()).push('\n') + lines.last()
    }
}

/// Whether `lines[start..end]` is a block: a run of puzzle lines with no
/// puzzle line right before it and none right after it.
pub open spec fn is_block(lines: Seq<Seq<char>>, start: int, end: int) -> bool {
    &&& 0 <= start < end <= lines.len()
    &&& forall|i: int| start <= i < end ==> is_puzzle_text(#[trigger] lines[i])
    &&& start == 0 || !is_puzzle_text(lines[start - 1])
    &&& end == lines.len() || !is_puzzle_text(lines[end])
}

/// No line of a text holds a line feed, and the lines, joined by line feeds,
/// are the text again.
pub proof fn lemma_lines_are_the_pieces(text: Seq<char>)
    ensures
        !last_line(text).contains('\n'),
        forall|k: int|
            0 <= k < ended_lines(text).len() ==> !(#[trigger] ended_lines(text)[k]).contains('\n'),
        forall|k: int|
            0 <= k < lines_of(text).len() ==> !(#[trigger] lines_of(text)[k]).contains('\n'),
        joined(lines_of(text)) == text,
    decreases text.len(),
{
    if text.len() == 0 {
        assert(joined(lines_of(text)) =~= text);
    } else {
        let before = text.drop_last();
        lemma_lines_are_the_pieces(before);
        assert(lines_of(before).drop_last() =~= ended_lines(before));
        if text.last() == '\n' {
            assert(lines_of(text).drop_last() =~= lines_of(before));
            assert(joined(lines_of(text)) =~= text);
        } else {
            assert(lines_of(text).drop_last() =~= ended_lines(before));
            if lines_of(text).len() == 1 {
                assert(joined(lines_of(text)) =~= text);
            } else {
                assert(joined(lines_of(text)) =~= joined(lines_of(before)).push(text.last()));
                assert(joined(lines_of(text)) =~= text);
            }
        }
        if last_line(text).contains('\n') {
            let i = choose|i: int| 0 <= i < last_line(text).len() && last_line(text)[i] == '\n';
            assert(last_line(before)[i] == '\n');
        }
    }
}

/// The open block is the longest run of puzzle lines at the end of the lines.
/// The result is the index at which it starts.
pub proof fn lemma_open_block(lines: Seq<Seq<char>>) -> (start: int)
    ensures
        0 <= start <= lines.len(),
        open_block(lines) == lines.subrange(start, lines.len() as int),
        forall|i: int| start <= i < lines.len() ==> is_puzzle_text(#[trigger] lines[i]),
        start == 0 || !is_puzzle_text(lines[start - 1]),
    decreases lines.len(),
{
    if lines.len() == 0 || !is_puzzle_text(lines.last()) {
        assert(open_block(lines) =~= lines.subrange(lines.len() as int, lines.len() as int));
        lines.len() as int
    } else {
        let before = lines.drop_last();
        let start = lemma_open_block(before);
        assert(open_block(lines) =~= lines.subrange(start, lines.len() as int));
        assert forall|i: int| start <= i < lines.len() implies is_puzzle_text(
            #[trigger] lines[i],
        ) by {
            if i < before.len() {
                assert(is_puzzle_text(before[i]));
            }
        }
        if start > 0 {
            assert(before[start - 1] == lines[start - 1]);
        }
        start
    }
}

/// The closed blocks are exactly the blocks that end before the end of the
/// lines, in the order of the text. The result gives where each of them
/// starts and ends.
pub proof fn lemma_closed_blocks(lines: Seq<Seq<char>>) -> (bounds: Seq<(int, int)>)
    ensures
        bounds.len() == closed_blocks(lines).len(),
        forall|k: int|
            0 <= k < bounds.len() ==> {
                let (start, end) = #[trigger] bounds[k];
                &&& is_block(lines, start, end)
                &&& end < lines.len()
                &&& closed_blocks(lines)[k] == lines.subrange(start, end)
            },
        forall|j: int, k: int|
            0 <= j < k < bounds.len() ==> (#[trigger] bounds[j]).1 < (#[trigger] bounds[k]).0,
        forall|start: int, end: int|
            is_block(lines, start, end) && end < lines.len() ==> bounds.contains((start, end)),
    decreases lines.len(),
{
    if lines.len() == 0 {
        Seq::empty()
    } else {
        let before = lines.drop_last();
        let last = lines.len() - 1;
        let earlier = lemma_closed_blocks(before);
        let open = lemma_open_block(before);
        let bounds = if !is_puzzle_text(lines.last()) && open_block(before).len() > 0 {
            earlier.push((open, last))
        } else {
            earlier
        };
        assert forall|k: int| 0 <= k < bounds.len() implies {
            let (start, end) = #[trigger] bounds[k];
            &&& is_block(lines, start, end)
            &&& end < lines.len()
            &&& closed_blocks(lines)[k] == lines.subrange(start, end)
        } by {
            let (start, end) = bounds[k];
            if k < earlier.len() {
                assert(bounds[k] == earlier[k]);
                assert(is_block(before, start, end));
                assert forall|i: int| start <= i < end implies is_puzzle_text(
                    #[trigger] lines[i],
                ) by {
                    assert(is_puzzle_text(before[i]));
                }
                assert(before[end] == lines[end]);
                if start > 0 {
                    assert(before[start - 1] == lines[start - 1]);
                }
                assert(lines.subrange(start, end) =~= before.subrange(start, end));
            } else {
                assert forall|i: int| start <= i < end implies is_puzzle_text(
                    #[trigger] lines[i],
                ) by {
                    assert(is_puzzle_text(before[i]));
                }
                if start > 0 {
                    assert(before[start - 1] == lines[start - 1]);
                }
                assert(lines.subrange(start, end) =~= before.subrange(open, before.len() as int));
            }
        }
        assert forall|j: int, k: int| 0 <= j < k < bounds.len() implies (#[trigger] bounds[j]).1 < (
        #[trigger] bounds[k]).0 by {
            if k < earlier.len() {
                assert(bounds[j] == earlier[j] && bounds[k] == earlier[k]);
            } else {
                let (start, end) = earlier[j];
                assert(bounds[j] == earlier[j]);
                assert(is_block(before, start, end));
                if end >= open {
                    assert(is_puzzle_text(before[end]));
                }
            }
        }
        assert forall|start: int, end: int|
            is_block(lines, start, end) && end < lines.len() implies bounds.contains(
            (start, end),
        ) by {
            if end < last {
                assert forall|i: int| start <= i < end implies is_puzzle_text(
                    #[trigger] before[i],
                ) by {
                    assert(is_puzzle_text(lines[i]));
                }
                assert(before[end] == lines[end]);
                if start > 0 {
                    assert(before[start - 1] == lines[start - 1]);
                }
                assert(is_block(before, start, end));
                assert(earlier.contains((start, end)));
                let k = choose|k: int| 0 <= k < earlier.len() && earlier[k] == (start, end);
                assert(bounds[k] == (start, end));
            } else {
                assert(!is_puzzle_text(lines[end]));
                assert(is_puzzle_text(lines[end - 1]));
                assert(before[end - 1] == lines[end - 1]);
                if start < open {
                    assert(open >= 1);
                    assert(is_puzzle_text(lines[open - 1]));
                    assert(before[open - 1] == lines[open - 1]);
                }
                if start > open {
                    assert(is_puzzle_text(before[start - 1]));
                    assert(before[start - 1] == lines[start - 1]);
                }
                assert(start == open);
                assert(open_block(before).len() > 0);
                assert(bounds[bounds.len() - 1] == (start, end));
            }
        }
        bounds
    }
}

/// The blocks of the lines are exactly the runs of puzzle lines that cannot
/// be made longer, in the order of the text. The result gives where each of
/// them starts and ends.
pub proof fn lemma_blocks_are_the_longest_runs(lines: Seq<Seq<char>>) -> (bounds: Seq<(int, int)>)
    ensures
        bounds.len() == blocks(lines).len(),
        forall|k: int|
            0 <= k < bounds.len() ==> {
                let (start, end) = #[trigger] bounds[k];
                &&& is_block(lines, start, end)
                &&& blocks(lines)[k] == lines.subrange(start, end)
            },
        forall|j: int, k: int|
            0 <= j < k < bounds.len() ==> (#[trigger] bounds[j]).1 < (#[trigger] bounds[k]).0,
        forall|start: int, end: int| is_block(lines, start, end) ==> bounds.contains((start, end)),
{
    let closed = lemma_closed_blocks(lines);
    let open = lemma_open_block(lines);
    let len = lines.len() as int;
    let bounds = if open_block(lines).len() > 0 {
        closed.push((open, len))
    } else {
        closed
    };
    assert forall|k: int| 0 <= k < bounds.len() implies {
        let (start, end) = #[trigger] bounds[k];
        &&& is_block(lines, start, end)
        &&& blocks(lines)[k] == lines.subrange(start, end)
    } by {
        if k < closed.len() {
            assert(bounds[k] == closed[k]);
        }
    }
    assert forall|j: int, k: int| 0 <= j < k < bounds.len() implies (#[trigger] bounds[j]).1 < (
    #[trigger] bounds[k]).0 by {
        if k < closed.len() {
            assert(bounds[j] == closed[j] && bounds[k] == closed[k]);
        } else {
            let (start, end) = closed[j];
            assert(bounds[j] == closed[j]);
            assert(is_block(lines, start, end));
            if end >= open {
                assert(is_puzzle_text(lines[end]));
            }
        }
    }
    assert forall|start: int, end: int| is_block(lines, start, end) implies bounds.contains(
        (start, end),
    ) by {
        if end < len {
            assert(closed.contains((start, end)));
            let k = choose|k: int| 0 <= k < closed.len() && closed[k] == (start, end);
            assert(bounds[k] == (start, end));
        } else {
            assert(is_puzzle_text(lines[end - 1]));
            if start < open {
                assert(is_puzzle_text(lines[open - 1]));
            }
            if start > open {
                assert(is_puzzle_text(lines[start - 1]));
            }
            assert(start == open);
            assert(bounds[bounds.len() - 1] == (start, end));
        }
    }
    bounds
}

} // verus!
