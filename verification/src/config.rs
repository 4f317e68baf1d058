//! The limits of the grid and of the search.

use vstd::prelude::*;

verus! {

/// Number of rows of the visited grid. A run never stands on a row at or
/// above this one when it looks for its next jump.
pub const MAX_HEIGHT: i32 = 128;

/// A run that lands on a row above this one is declared never to halt. This
/// is a cutoff chosen by experience, not a proof that the run goes on for
/// ever. It leaves room below `MAX_HEIGHT` for the last jump.
pub const TOP: i32 = MAX_HEIGHT - 3;

/// Smallest width that the search looks at.
pub const START_WIDTH: i32 = 1;

/// Largest width that the search looks at, and the number of columns of the
/// visited grid.
pub const MAX_WIDTH: i32 = 42;

/// Number of cells of the visited grid.
pub const CELLS: usize = 5376;

/// The limits fit together: the cutoff leaves two rows of slack, the widths
/// that are searched form a range, and the grid has a cell for every row and
/// column.
pub proof fn lemma_limits()
    ensures
        TOP == MAX_HEIGHT - 3,
        0 <= START_WIDTH <= MAX_WIDTH,
        CELLS == MAX_HEIGHT * MAX_WIDTH,
{
}

} // verus!
