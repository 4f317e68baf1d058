//! The visited grid of one run.

use vstd::prelude::*;
use crate::config::{CELLS, MAX_HEIGHT, MAX_WIDTH};
use crate::jumps::{chosen, jump_offset, land, legal, stuck, Cell, JUMP_COUNT};

verus! {

/// The cell lies on the visited grid.
pub open spec fn on_grid(cell: Cell) -> bool {
    &&& 0 <= cell.row < MAX_HEIGHT
    &&& 0 <= cell.col < MAX_WIDTH
}

/// Place of a grid cell in the row-major array of flags.
spec fn flag_index(cell: Cell) -> int {
    cell.row * MAX_WIDTH + cell.col
}

/// Number of flags that are set.
spec fn count_set(flags: Seq<bool>) -> nat
    decreases flags.len(),
{
    if flags.len() == 0 {
        0
    } else {
        count_set(flags.drop_last()) + if flags.last() {
            1nat
        } else {
            0nat
        }
    }
}

proof fn lemma_count_bound(flags: Seq<bool>)
    ensures
        count_set(flags) <= flags.len(),
    decreases flags.len(),
{
    if flags.len() > 0 {
        lemma_count_bound(flags.drop_last());
    }
}

proof fn lemma_count_clear(flags: Seq<bool>)
    requires
        forall|i: int| 0 <= i < flags.len() ==> !flags[i],
    ensures
        count_set(flags) == 0,
    decreases flags.len(),
{
    if flags.len() > 0 {
        lemma_count_clear(flags.drop_last());
    }
}

proof fn lemma_count_update(flags: Seq<bool>, i: int)
    requires
        0 <= i < flags.len(),
        !flags[i],
    ensures
        count_set(flags.update(i, true)) == count_set(flags) + 1,
    decreases flags.len(),
{
    let after = flags.update(i, true);
    if i == flags.len() - 1 {
        assert(after.drop_last() =~= flags.drop_last());
    } else {
        assert(after.drop_last() =~= flags.drop_last().update(i, true));
        lemma_count_update(flags.drop_last(), i);
    }
}

/// Place of a grid cell in the array of flags.
fn flag_place(row: i32, col: i32) -> (i: usize)
    requires
        0 <= row < MAX_HEIGHT,
        0 <= col < MAX_WIDTH,
    ensures
        i == flag_index(Cell { row: row as int, col: col as int }),
        i < CELLS,
{
    let columns = MAX_WIDTH as usize;
    assert(columns == 42);
    (row as usize) * columns + (col as usize)
}

/// The cells that a run has visited, as flags over a grid of `MAX_HEIGHT`
/// rows and `MAX_WIDTH` columns. A board belongs to one run.
pub struct Board {
    flags: Vec<bool>,
}

impl View for Board {
    type V = Set<Cell>;

    /// The set of visited cells.
    closed spec fn view(&self) -> Set<Cell> {
        Set::new(|cell: Cell| on_grid(cell) && self.flags@[flag_index(cell)])
    }
}

impl Board {
    /// The board has a flag for every cell of the grid.
    pub closed spec fn wf(&self) -> bool {
        self.flags@.len() == CELLS
    }

    /// Number of visited cells.
    pub closed spec fn marked(&self) -> nat {
        count_set(self.flags@)
    }

    /// Only cells of the grid are ever visited, and no more than the grid has.
    pub proof fn lemma_within_grid(&self)
        requires
            self.wf(),
        ensures
            forall|cell: Cell| self@.contains(cell) ==> on_grid(cell),
            self.marked() <= CELLS,
    {
        lemma_count_bound(self.flags@);
    }

    /// A board on which no cell is visited.
    pub fn new() -> (board: Board)
        ensures
            board.wf(),
            board@ == Set::<Cell>::empty(),
            board.marked() == 0,
    {
        let flags = vec![false; CELLS];
        proof {
            lemma_count_clear(flags@);
        }
        let board = Board { flags };
        assert(board@ =~= Set::<Cell>::empty());
        board
    }

    /// Whether the cell has been visited. A cell off the grid never has.
    pub fn is_visited(&self, row: i32, col: i32) -> (visited: bool)
        requires
            self.wf(),
        ensures
            visited == self@.contains(Cell { row: row as int, col: col as int }),
    {
        if row < 0 || row >= MAX_HEIGHT || col < 0 || col >= MAX_WIDTH {
            false
        } else {
            let i = flag_place(row, col);
            self.flags[i]
        }
    }

    /// Marks a cell of the grid as visited.
    pub fn mark(&mut self, row: i32, col: i32)
        requires
            old(self).wf(),
            0 <= row < MAX_HEIGHT,
            0 <= col < MAX_WIDTH,
        ensures
            final(self).wf(),
            final(self)@ == old(self)@.insert(Cell { row: row as int, col: col as int }),
            final(self).marked() == old(self).marked() + if old(self)@.contains(
                Cell { row: row as int, col: col as int },
            ) {
                0nat
            } else {
                1nat
            },
    {
        let i = flag_place(row, col);
        let ghost before = self.flags@;
        let ghost cell = Cell { row: row as int, col: col as int };
        proof {
            if !before[i as int] {
                lemma_count_update(before, i as int);
            } else {
                assert(before.update(i as int, true) =~= before);
            }
        }
        self.flags.set(i, true);
        proof {
            assert(self.flags@ == before.update(i as int, true));
            assert forall|c: Cell| self@.contains(c) == old(self)@.insert(cell).contains(c) by {
                if on_grid(c) && c != cell {
                    assert(flag_index(c) != flag_index(cell));
                }
            }
            assert(self@ =~= old(self)@.insert(cell));
        }
    }

    /// The jump that the knight takes from a cell of the grid: the first of
    /// the eight, in their order, that lands on a cell of non-negative row,
    /// of a column below `width` and not visited. `None` where there is no
    /// such jump.
    pub fn next_move(&self, row: i32, col: i32, width: i32) -> (jump: Option<u8>)
        requires
            self.wf(),
            0 <= row < MAX_HEIGHT,
            0 <= col < MAX_WIDTH,
        ensures
            match jump {
                Some(k) => chosen(self@, width as int, Cell { row: row as int, col: col as int }, k as int),
                None => stuck(self@, width as int, Cell { row: row as int, col: col as int }),
            },
    {
        let ghost from = Cell { row: row as int, col: col as int };
        let mut k: u8 = 0;
        while k < JUMP_COUNT
            invariant
                self.wf(),
                0 <= k <= JUMP_COUNT,
                0 <= row < MAX_HEIGHT,
                0 <= col < MAX_WIDTH,
                from == (Cell { row: row as int, col: col as int }),
                forall|j: int| 0 <= j < k ==> !legal(self@, width as int, #[trigger] land(from, j)),
            decreases JUMP_COUNT - k,
        {
            let (dr, dc) = jump_offset(k);
            let r = row + dr;
            let c = col + dc;
            if r >= 0 && c >= 0 && c < width && !self.is_visited(r, c) {
                assert(land(from, k as int) == Cell { row: r as int, col: c as int });
                return Some(k);
            }
            assert(land(from, k as int) == Cell { row: r as int, col: c as int });
            k = k + 1;
        }
        None
    }
}

} // verus!
