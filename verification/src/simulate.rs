//! One run of the greedy knight.

use vstd::prelude::*;
use crate::board::Board;
use crate::config::{CELLS, MAX_HEIGHT, MAX_WIDTH, TOP};
use crate::jumps::{jump_offset, land, Cell, JUMP_COUNT};
use crate::run::{
    cell_after, climbs_out, is_complete_run, is_run, lemma_complete_is_run_of, lemma_extend_run,
    lemma_visited_start, run_halts, run_of, visited_after,
};

verus! {

/// How a run ended, with the jumps it made where they are known.
pub enum Outcome {
    Halted,
    ReachedThreshold(Seq<u8>),
}

/// How a run ended.
#[derive(Debug, PartialEq, Eq)]
pub enum RunResult {
    /// The knight reached a cell from which no jump is legal.
    Halted,
    /// The knight climbed above `TOP`, which is taken to mean that it never
    /// halts. Holds the jumps of the run, by their numbers, where they were
    /// asked for, and nothing where they were not.
    ReachedThreshold(Vec<u8>),
}

impl View for RunResult {
    type V = Outcome;

    open spec fn view(&self) -> Outcome {
        match self {
            RunResult::Halted => Outcome::Halted,
            RunResult::ReachedThreshold(jumps) => Outcome::ReachedThreshold(jumps@),
        }
    }
}

/// The cell of a row and a column.
pub open spec fn cell(row: i32, col: i32) -> Cell {
    Cell { row: row as int, col: col as int }
}

/// A run can start here: the width is one that the grid has columns for,
/// the column lies below the width, and the row is one of the grid.
pub open spec fn valid_start(start_row: i32, start_col: i32, width: i32) -> bool {
    &&& 0 <= start_row < MAX_HEIGHT
    &&& 0 <= start_col < width
    &&& width <= MAX_WIDTH
}

/// What a run from `start` gives: that it halted, or that it climbed above
/// `TOP`, with its jumps where `collect` asks for them.
pub open spec fn outcome_of(start: Cell, width: int, collect: bool) -> Outcome {
    if run_halts(start, width) {
        Outcome::Halted
    } else if collect {
        Outcome::ReachedThreshold(run_of(start, width))
    } else {
        Outcome::ReachedThreshold(Seq::empty())
    }
}

/// Follows the run from a start cell to its end. Gives whether the run
/// halted, and its jumps where `collect` asks for them.
fn follow(start_row: i32, start_col: i32, width: i32, collect: bool) -> (end: (bool, Vec<u8>))
    requires
        valid_start(start_row, start_col, width),
    ensures
        is_complete_run(
            cell(start_row, start_col),
            width as int,
            run_of(cell(start_row, start_col), width as int),
        ),
        end.0 == run_halts(cell(start_row, start_col), width as int),
        collect ==> end.1@ == run_of(cell(start_row, start_col), width as int),
        !collect ==> end.1@ == Seq::<u8>::empty(),
{
    let ghost start = cell(start_row, start_col);
    let ghost mut moves: Seq<u8> = Seq::empty();
    let mut jumps: Vec<u8> = Vec::new();
    let mut board = Board::new();
    board.mark(start_row, start_col);
    let mut row = start_row;
    let mut col = start_col;
    proof {
        lemma_visited_start(start, moves);
    }
    loop
        invariant
            valid_start(start_row, start_col, width),
            start == cell(start_row, start_col),
            board.wf(),
            is_run(start, width as int, moves),
            !climbs_out(start, moves),
            0 <= row < MAX_HEIGHT,
            0 <= col < width,
            cell(row, col) == cell_after(start, moves, moves.len() as int),
            board@ == visited_after(start, moves, moves.len() as int),
            board.marked() == moves.len() + 1,
            collect ==> jumps@ == moves,
            !collect ==> jumps@ == Seq::<u8>::empty(),
        decreases CELLS - board.marked(),
    {
        proof {
            board.lemma_within_grid();
        }
        match board.next_move(row, col, width) {
            None => {
                proof {
                    lemma_complete_is_run_of(start, width as int, moves);
                }
                return (true, jumps);
            },
            Some(k) => {
                let (dr, dc) = jump_offset(k);
                proof {
                    lemma_extend_run(start, width as int, moves, k);
                    moves = moves.push(k);
                }
                row = row + dr;
                col = col + dc;
                if collect {
                    jumps.push(k);
                }
                if row > TOP {
                    proof {
                        lemma_complete_is_run_of(start, width as int, moves);
                    }
                    return (false, jumps);
                }
                board.mark(row, col);
                proof {
                    board.lemma_within_grid();
                }
            },
        }
    }
}

/// Whether the run from the cell `(start_i, start_j)` on a grid of the
/// given width halts: `true` where the knight ends on a cell without a
/// legal jump, `false` where it climbs above `TOP`.
pub fn halts(start_i: i32, start_j: i32, width: i32) -> (halted: bool)
    requires
        valid_start(start_i, start_j, width),
    ensures
        halted == run_halts(cell(start_i, start_j), width as int),
        is_complete_run(
            cell(start_i, start_j),
            width as int,
            run_of(cell(start_i, start_j), width as int),
        ),
{
    follow(start_i, start_j, width, false).0
}

/// The jumps of the run from the cell `(start_i, start_j)` on a grid of the
/// given width, by their numbers, whether the run halts or climbs above
/// `TOP`.
pub fn jump_seq(start_i: i32, start_j: i32, width: i32) -> (jumps: Vec<u8>)
    requires
        valid_start(start_i, start_j, width),
    ensures
        is_complete_run(cell(start_i, start_j), width as int, jumps@),
        jumps@ == run_of(cell(start_i, start_j), width as int),
{
    follow(start_i, start_j, width, true).1
}

/// Runs the knight from the cell `(start_row, start_col)` on a grid of the
/// given width, and says how the run ended. The jumps are handed out only
/// where `collect_sequence` is set and the run climbed above `TOP`.
pub fn simulate(start_row: i32, start_col: i32, width: i32, collect_sequence: bool) -> (result:
    RunResult)
    requires
        valid_start(start_row, start_col, width),
    ensures
        result@ == outcome_of(cell(start_row, start_col), width as int, collect_sequence),
        is_complete_run(
            cell(start_row, start_col),
            width as int,
            run_of(cell(start_row, start_col), width as int),
        ),
{
    let (halted, jumps) = follow(start_row, start_col, width, collect_sequence);
    if halted {
        RunResult::Halted
    } else {
        RunResult::ReachedThreshold(jumps)
    }
}

/// The jumps can be followed from `start`: each is one of the eight, and
/// the cells on which they land have rows and columns that fit the
/// integers they are handed out in.
pub open spec fn walkable(start: Cell, jumps: Seq<u8>) -> bool {
    &&& forall|n: int| 0 <= n < jumps.len() ==> #[trigger] jumps[n] < JUMP_COUNT
    &&& forall|n: int|
        0 <= n <= jumps.len() ==> {
            &&& i32::MIN <= (#[trigger] cell_after(start, jumps, n)).row <= i32::MAX
            &&& i32::MIN <= cell_after(start, jumps, n).col <= i32::MAX
        }
}

/// The cells on which the knight stands when it makes the given jumps from
/// the cell `(start_row, start_col)`: the start, then the cell after each
/// jump, as pairs of row and column. `None` where the jumps cannot be
/// followed.
pub fn trajectory(start_row: i32, start_col: i32, jumps: &[u8]) -> (cells: Option<
    Vec<(i32, i32)>,
>)
    ensures
        match cells {
            Some(cells) => {
                &&& walkable(cell(start_row, start_col), jumps@)
                &&& cells@.len() == jumps@.len() + 1
                &&& forall|n: int|
                    0 <= n <= jumps@.len() ==> cell((#[trigger] cells@[n]).0, cells@[n].1)
                        == cell_after(cell(start_row, start_col), jumps@, n)
            },
            None => !walkable(cell(start_row, start_col), jumps@),
        },
{
    let ghost start = cell(start_row, start_col);
    let mut cells: Vec<(i32, i32)> = Vec::new();
    cells.push((start_row, start_col));
    let mut row = start_row;
    let mut col = start_col;
    let mut n: usize = 0;
    while n < jumps.len()
        invariant
            n <= jumps@.len(),
            start == cell(start_row, start_col),
            cells@.len() == n + 1,
            cell(row, col) == cell_after(start, jumps@, n as int),
            forall|m: int|
                0 <= m <= n ==> cell((#[trigger] cells@[m]).0, cells@[m].1) == cell_after(
                    start,
                    jumps@,
                    m,
                ),
            forall|m: int| 0 <= m < n ==> #[trigger] jumps@[m] < JUMP_COUNT,
        decreases jumps@.len() - n,
    {
        let k = jumps[n];
        if k >= JUMP_COUNT {
            assert(!(jumps@[n as int] < JUMP_COUNT));
            return None;
        }
        let (dr, dc) = jump_offset(k);
        let next_row = row as i64 + dr as i64;
        let next_col = col as i64 + dc as i64;
        assert(cell_after(start, jumps@, n + 1) == land(cell(row, col), k as int));
        if next_row < i32::MIN as i64 || next_row > i32::MAX as i64 || next_col < i32::MIN as i64
            || next_col > i32::MAX as i64 {
            assert(cell_after(start, jumps@, n + 1).row == next_row);
            return None;
        }
        row = next_row as i32;
        col = next_col as i32;
        cells.push((row, col));
        n = n + 1;
    }
    proof {
        assert forall|m: int| 0 <= m <= jumps@.len() implies {
            &&& i32::MIN <= (#[trigger] cell_after(start, jumps@, m)).row <= i32::MAX
            &&& i32::MIN <= cell_after(start, jumps@, m).col <= i32::MAX
        } by {
            assert(cell(cells@[m].0, cells@[m].1) == cell_after(start, jumps@, m));
        }
    }
    Some(cells)
}

} // verus!
