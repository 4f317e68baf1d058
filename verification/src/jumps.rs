//! The eight jumps of the knight, in the order in which they are tried.

use vstd::prelude::*;

verus! {

/// Number of jumps.
pub const JUMP_COUNT: u8 = 8;

/// A cell of the unbounded grid.
pub struct Cell {
    pub row: int,
    pub col: int,
}

/// How far jump `k` moves along the rows.
pub open spec fn row_delta(k: int) -> int {
    if k == 0 || k == 1 {
        -2
    } else if k == 2 || k == 3 {
        -1
    } else if k == 4 || k == 5 {
        1
    } else {
        2
    }
}

/// How far jump `k` moves along the columns.
pub open spec fn col_delta(k: int) -> int {
    if k == 0 || k == 6 {
        -1
    } else if k == 1 || k == 7 {
        1
    } else if k == 2 || k == 4 {
        -2
    } else {
        2
    }
}

/// The cell on which jump `k` lands when it is made from `from`.
pub open spec fn land(from: Cell, k: int) -> Cell {
    Cell { row: from.row + row_delta(k), col: from.col + col_delta(k) }
}

/// A cell can be jumped to: it lies on the grid of the given width and has
/// not been visited.
pub open spec fn legal(visited: Set<Cell>, width: int, cell: Cell) -> bool {
    &&& 0 <= cell.row
    &&& 0 <= cell.col < width
    &&& !visited.contains(cell)
}

/// Jump `k` is the one the knight takes from `from`: it is a legal jump and
/// every jump before it in the order is not.
pub open spec fn chosen(visited: Set<Cell>, width: int, from: Cell, k: int) -> bool {
    &&& 0 <= k < JUMP_COUNT
    &&& legal(visited, width, land(from, k))
    &&& forall|j: int| 0 <= j < k ==> !legal(visited, width, #[trigger] land(from, j))
}

/// No jump from `from` is legal.
pub open spec fn stuck(visited: Set<Cell>, width: int, from: Cell) -> bool {
    forall|k: int| 0 <= k < JUMP_COUNT ==> !legal(visited, width, #[trigger] land(from, k))
}

/// The row and column deltas of jump `k`.
pub fn jump_offset(k: u8) -> (d: (i32, i32))
    requires
        k < JUMP_COUNT,
    ensures
        d.0 == row_delta(k as int),
        d.1 == col_delta(k as int),
{
    match k {
        0 => (-2, -1),
        1 => (-2, 1),
        2 => (-1, -2),
        3 => (-1, 2),
        4 => (1, -2),
        5 => (1, 2),
        6 => (2, -1),
        _ => (2, 1),
    }
}

/// At most one jump is chosen from a cell.
pub proof fn lemma_chosen_unique(visited: Set<Cell>, width: int, from: Cell, a: int, b: int)
    requires
        chosen(visited, width, from, a),
        chosen(visited, width, from, b),
    ensures
        a == b,
{
}

/// Where a jump is chosen, the knight is not stuck, and the other way round.
pub proof fn lemma_chosen_or_stuck(visited: Set<Cell>, width: int, from: Cell)
    ensures
        stuck(visited, width, from) <==> !exists|k: int| chosen(visited, width, from, k),
{
    if !stuck(visited, width, from) {
        lemma_first_legal(visited, width, from, JUMP_COUNT as int);
    }
}

/// Where some jump below `bound` is legal, one below `bound` is chosen.
proof fn lemma_first_legal(visited: Set<Cell>, width: int, from: Cell, bound: int)
    requires
        0 <= bound <= JUMP_COUNT,
        exists|k: int| 0 <= k < bound && legal(visited, width, #[trigger] land(from, k)),
    ensures
        exists|k: int| 0 <= k < bound && chosen(visited, width, from, k),
    decreases bound,
{
    if exists|k: int| 0 <= k < bound - 1 && legal(visited, width, #[trigger] land(from, k)) {
        lemma_first_legal(visited, width, from, bound - 1);
    } else {
        assert(legal(visited, width, land(from, bound - 1)));
        assert(chosen(visited, width, from, bound - 1));
    }
}

} // verus!
