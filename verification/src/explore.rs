//! The search over widths and start cells for the runs that do not halt.

use vstd::prelude::*;
use crate::config::{MAX_HEIGHT, MAX_WIDTH};
use crate::run::run_halts;
use crate::simulate::{cell, halts};

verus! {

/// A start cell on a grid of some width.
#[derive(Debug, Copy, Clone, PartialEq, Eq, Structural)]
pub struct Start {
    pub width: i32,
    pub row: i32,
    pub col: i32,
}

/// The run from this start climbs above `TOP`.
pub open spec fn never_halts(start: Start) -> bool {
    !run_halts(cell(start.row, start.col), start.width as int)
}

/// The start is one that the search looks at: its width lies between the
/// two given, its column below its width, and its row at or below the
/// height threshold.
pub open spec fn in_search(start: Start, min_width: int, max_width: int, height_threshold: int) -> bool {
    &&& min_width <= start.width <= max_width
    &&& 0 <= start.col < start.width
    &&& 0 <= start.row <= height_threshold
}

/// The search comes to `a` before `b`: widths go up, within a width the
/// columns, within a column the rows.
pub open spec fn searched_before(a: Start, b: Start) -> bool {
    ||| a.width < b.width
    ||| a.width == b.width && a.col < b.col
    ||| a.width == b.width && a.col == b.col && a.row < b.row
}

/// Every start in `found` is one of the search whose run does not halt.
pub open spec fn all_found_never_halt(
    found: Seq<Start>,
    min_width: int,
    max_width: int,
    height_threshold: int,
) -> bool {
    forall|i: int|
        0 <= i < found.len() ==> in_search(#[trigger] found[i], min_width, max_width, height_threshold)
            && never_halts(found[i])
}

/// The starts in `found` stand in the order of the search, none of them
/// twice.
pub open spec fn in_search_order(found: Seq<Start>) -> bool {
    forall|i: int, j: int| 0 <= i < j < found.len() ==> searched_before(found[i], found[j])
}

/// `found` is what the search gives: the starts of the search whose runs do
/// not halt, all of them, each once, in the order of the search.
pub open spec fn is_exploration(
    found: Seq<Start>,
    min_width: int,
    max_width: int,
    height_threshold: int,
) -> bool {
    &&& all_found_never_halt(found, min_width, max_width, height_threshold)
    &&& forall|start: Start|
        in_search(start, min_width, max_width, height_threshold) && #[trigger] never_halts(start)
            ==> found.contains(start)
    &&& in_search_order(found)
}

/// The start has been looked at by the time the search of one width stands
/// at the given column and row.
spec fn passed(start: Start, col: int, row: int) -> bool {
    start.col < col || (start.col == col && start.row < row)
}

/// `found` is what the search of one width has given by the time it stands
/// at the given column and row.
spec fn is_progress(found: Seq<Start>, width: int, height_threshold: int, col: int, row: int) -> bool {
    &&& all_found_never_halt(found, width, width, height_threshold)
    &&& forall|i: int| 0 <= i < found.len() ==> passed(#[trigger] found[i], col, row)
    &&& forall|start: Start|
        in_search(start, width, width, height_threshold) && passed(start, col, row)
            && #[trigger] never_halts(start) ==> found.contains(start)
    &&& in_search_order(found)
}

/// The starts of one width whose runs do not halt: for every column below
/// the width and every row up to the height threshold, in this order, the
/// start is handed out where its run climbs above `TOP`.
pub fn explore_width(width: i32, height_threshold: i32) -> (found: Vec<Start>)
    requires
        width <= MAX_WIDTH,
        height_threshold < MAX_HEIGHT,
    ensures
        is_exploration(found@, width as int, width as int, height_threshold as int),
{
    let mut found: Vec<Start> = Vec::new();
    let mut col: i32 = 0;
    while col < width
        invariant
            width <= MAX_WIDTH,
            height_threshold < MAX_HEIGHT,
            0 <= col,
            col <= width || width < 0,
            is_progress(found@, width as int, height_threshold as int, col as int, 0),
        decreases width - col,
    {
        let mut row: i32 = 0;
        while row <= height_threshold
            invariant
                width <= MAX_WIDTH,
                height_threshold < MAX_HEIGHT,
                0 <= col < width,
                0 <= row,
                row <= height_threshold + 1 || height_threshold < 0,
                is_progress(found@, width as int, height_threshold as int, col as int, row as int),
            decreases height_threshold + 1 - row,
        {
            let here = Start { width, row, col };
            let ghost before = found@;
            if !halts(row, col, width) {
                found.push(here);
                proof {
                    assert forall|start: Start| before.contains(start) implies found@.contains(
                        start,
                    ) by {
                        let i = choose|i: int| 0 <= i < before.len() && before[i] == start;
                        assert(found@[i] == start);
                    }
                    assert(found@[before.len() as int] == here);
                }
            }
            row = row + 1;
        }
        col = col + 1;
    }
    found
}

/// The starts of the widths from `min_width` to `max_width` whose runs do
/// not halt, in the order of the search: with the widths going up, what
/// `explore_width` gives for each.
pub fn explore(min_width: i32, max_width: i32, height_threshold: i32) -> (found: Vec<Start>)
    requires
        max_width <= MAX_WIDTH,
        height_threshold < MAX_HEIGHT,
    ensures
        is_exploration(found@, min_width as int, max_width as int, height_threshold as int),
{
    let mut found: Vec<Start> = Vec::new();
    let mut width: i32 = min_width;
    while width <= max_width
        invariant
            max_width <= MAX_WIDTH,
            height_threshold < MAX_HEIGHT,
            min_width <= width,
            width <= max_width + 1 || width == min_width,
            is_exploration(found@, min_width as int, width - 1, height_threshold as int),
        decreases max_width + 1 - width,
    {
        let mut more = explore_width(width, height_threshold);
        let ghost before = found@;
        let ghost added = more@;
        found.append(&mut more);
        proof {
            assert(found@ == before + added);
            assert forall|start: Start| before.contains(start) implies found@.contains(start) by {
                let i = choose|i: int| 0 <= i < before.len() && before[i] == start;
                assert(found@[i] == start);
            }
            assert forall|start: Start| added.contains(start) implies found@.contains(start) by {
                let i = choose|i: int| 0 <= i < added.len() && added[i] == start;
                assert(found@[before.len() + i] == start);
            }
            assert forall|i: int, j: int| 0 <= i < j < found@.len() implies searched_before(
                found@[i],
                found@[j],
            ) by {
                if j >= before.len() {
                    assert(found@[j] == added[j - before.len()]);
                }
                if i >= before.len() {
                    assert(found@[i] == added[i - before.len()]);
                }
            }
        }
        width = width + 1;
    }
    proof {
        if width > max_width + 1 && found@.len() > 0 {
            assert(in_search(found@[0], min_width as int, width - 1, height_threshold as int));
        }
    }
    found
}

} // verus!
