//! What a run is: the sequence of jumps that the greedy knight makes from a
//! start cell, and what holds of every such sequence.

use vstd::prelude::*;
use crate::config::TOP;
use crate::jumps::{chosen, land, legal, lemma_chosen_unique, stuck, Cell, JUMP_COUNT};

verus! {

/// The cell on which the knight stands after the first `n` of `moves`.
pub open spec fn cell_after(start: Cell, moves: Seq<u8>, n: int) -> Cell
    decreases n,
{
    if n <= 0 {
        start
    } else {
        land(cell_after(start, moves, n - 1), moves[n - 1] as int)
    }
}

/// The cells visited by the time the knight has made the first `n` of
/// `moves`: the start and the cell after each of these moves.
pub open spec fn visited_after(start: Cell, moves: Seq<u8>, n: int) -> Set<Cell> {
    Set::new(|cell: Cell| exists|i: int| 0 <= i <= n && #[trigger] cell_after(start, moves, i) == cell)
}

/// Move `n` of `moves` is the one that the greedy rule prescribes: the run
/// had not yet climbed above `TOP` by a jump, and the move is the first
/// legal jump from where the knight stands.
pub open spec fn greedy_at(start: Cell, width: int, moves: Seq<u8>, n: int) -> bool {
    &&& n > 0 ==> cell_after(start, moves, n).row <= TOP
    &&& chosen(
        visited_after(start, moves, n),
        width,
        cell_after(start, moves, n),
        moves[n] as int,
    )
}

/// `moves` are the first moves of the run from `start` on a grid of the
/// given width.
pub open spec fn is_run(start: Cell, width: int, moves: Seq<u8>) -> bool {
    forall|n: int| 0 <= n < moves.len() ==> #[trigger] greedy_at(start, width, moves, n)
}

/// The last of `moves` took the knight above `TOP`.
pub open spec fn climbs_out(start: Cell, moves: Seq<u8>) -> bool {
    moves.len() > 0 && cell_after(start, moves, moves.len() as int).row > TOP
}

/// After `moves` the knight has no legal jump.
pub open spec fn stuck_after(start: Cell, width: int, moves: Seq<u8>) -> bool {
    stuck(
        visited_after(start, moves, moves.len() as int),
        width,
        cell_after(start, moves, moves.len() as int),
    )
}

/// `moves` is the whole run from `start`: every move is the greedy one, and
/// after the last the knight is above `TOP` or has no legal jump.
pub open spec fn is_complete_run(start: Cell, width: int, moves: Seq<u8>) -> bool {
    &&& is_run(start, width, moves)
    &&& climbs_out(start, moves) || stuck_after(start, width, moves)
}

/// The run from `start`.
pub open spec fn run_of(start: Cell, width: int) -> Seq<u8> {
    choose|moves: Seq<u8>| is_complete_run(start, width, moves)
}

/// The run from `start` halts: it ends on a cell without a legal jump,
/// not above `TOP`.
pub open spec fn run_halts(start: Cell, width: int) -> bool {
    !climbs_out(start, run_of(start, width))
}

/// Where two sequences agree on their first `n` moves, the knight stands on
/// the same cell after `n` moves of either, and has visited the same cells.
pub proof fn lemma_same_prefix(start: Cell, a: Seq<u8>, b: Seq<u8>, n: int)
    requires
        0 <= n <= a.len(),
        n <= b.len(),
        forall|i: int| 0 <= i < n ==> a[i] == b[i],
    ensures
        cell_after(start, a, n) == cell_after(start, b, n),
        visited_after(start, a, n) == visited_after(start, b, n),
    decreases n,
{
    if n > 0 {
        lemma_same_prefix(start, a, b, n - 1);
        assert forall|cell: Cell|
            visited_after(start, a, n).contains(cell) == visited_after(start, b, n).contains(
                cell,
            ) by {
            lemma_visited_step(start, a, n);
            lemma_visited_step(start, b, n);
        }
    }
    assert(visited_after(start, a, n) =~= visited_after(start, b, n)) by {
        if n == 0 {
            assert forall|cell: Cell|
                visited_after(start, a, 0).contains(cell) == visited_after(start, b, 0).contains(
                    cell,
                ) by {
                lemma_visited_start(start, a);
                lemma_visited_start(start, b);
            }
        }
    }
}

/// Before the first move only the start is visited.
pub proof fn lemma_visited_start(start: Cell, moves: Seq<u8>)
    ensures
        visited_after(start, moves, 0) == Set::<Cell>::empty().insert(start),
{
    assert forall|cell: Cell| visited_after(start, moves, 0).contains(cell) == (cell == start) by {
        if cell == start {
            assert(cell_after(start, moves, 0) == cell);
        }
    }
    assert(visited_after(start, moves, 0) =~= Set::<Cell>::empty().insert(start));
}

/// Each move adds the cell on which it lands to the visited cells.
pub proof fn lemma_visited_step(start: Cell, moves: Seq<u8>, n: int)
    requires
        0 < n,
    ensures
        visited_after(start, moves, n) == visited_after(start, moves, n - 1).insert(
            cell_after(start, moves, n),
        ),
{
    let before = visited_after(start, moves, n - 1);
    let after = visited_after(start, moves, n);
    let last = cell_after(start, moves, n);
    assert forall|cell: Cell| after.contains(cell) == before.insert(last).contains(cell) by {
        if after.contains(cell) {
            let i = choose|i: int| 0 <= i <= n && #[trigger] cell_after(start, moves, i) == cell;
            if i < n {
                assert(before.contains(cell));
            }
        }
        if before.contains(cell) {
            let i = choose|i: int|
                0 <= i <= n - 1 && #[trigger] cell_after(start, moves, i) == cell;
            assert(cell_after(start, moves, i) == cell);
        }
        if cell == last {
            assert(cell_after(start, moves, n) == cell);
        }
    }
    assert(after =~= before.insert(last));
}

/// A run that is extended by the greedy move from its end, where that end
/// is not above `TOP`, is a run. The move takes the knight to the cell on
/// which it lands, and that cell is the one more that is visited.
pub proof fn lemma_extend_run(start: Cell, width: int, moves: Seq<u8>, k: u8)
    requires
        is_run(start, width, moves),
        !climbs_out(start, moves),
        chosen(
            visited_after(start, moves, moves.len() as int),
            width,
            cell_after(start, moves, moves.len() as int),
            k as int,
        ),
    ensures
        is_run(start, width, moves.push(k)),
        cell_after(start, moves.push(k), moves.len() as int + 1) == land(
            cell_after(start, moves, moves.len() as int),
            k as int,
        ),
        visited_after(start, moves.push(k), moves.len() as int + 1) == visited_after(
            start,
            moves,
            moves.len() as int,
        ).insert(land(cell_after(start, moves, moves.len() as int), k as int)),
{
    let longer = moves.push(k);
    let len = moves.len() as int;
    assert forall|n: int| 0 <= n < longer.len() implies #[trigger] greedy_at(
        start,
        width,
        longer,
        n,
    ) by {
        lemma_same_prefix(start, moves, longer, n);
        if n < len {
            assert(greedy_at(start, width, moves, n));
            assert(longer[n] == moves[n]);
        }
    }
    lemma_same_prefix(start, moves, longer, len);
    lemma_visited_step(start, longer, len + 1);
}

/// Determinism: a start cell and a width have at most one complete run.
pub proof fn lemma_run_unique(start: Cell, width: int, a: Seq<u8>, b: Seq<u8>)
    requires
        is_complete_run(start, width, a),
        is_complete_run(start, width, b),
    ensures
        a == b,
{
    let shorter = if a.len() <= b.len() {
        a.len() as int
    } else {
        b.len() as int
    };
    lemma_common_prefix(start, width, a, b, shorter);
    lemma_same_prefix(start, a, b, shorter);
    if a.len() < b.len() {
        assert(greedy_at(start, width, b, shorter));
    } else if b.len() < a.len() {
        assert(greedy_at(start, width, a, shorter));
    }
    assert(a =~= b);
}

/// Two runs from one start make the same moves as far as both go.
proof fn lemma_common_prefix(start: Cell, width: int, a: Seq<u8>, b: Seq<u8>, n: int)
    requires
        is_run(start, width, a),
        is_run(start, width, b),
        0 <= n <= a.len(),
        n <= b.len(),
    ensures
        forall|i: int| 0 <= i < n ==> a[i] == b[i],
    decreases n,
{
    if n > 0 {
        lemma_common_prefix(start, width, a, b, n - 1);
        lemma_same_prefix(start, a, b, n - 1);
        assert(greedy_at(start, width, a, n - 1));
        assert(greedy_at(start, width, b, n - 1));
        lemma_chosen_unique(
            visited_after(start, a, n - 1),
            width,
            cell_after(start, a, n - 1),
            a[n - 1] as int,
            b[n - 1] as int,
        );
    }
}

/// A complete run is the run of its start: what is computed for a start and
/// a width is a function of the two.
pub proof fn lemma_complete_is_run_of(start: Cell, width: int, moves: Seq<u8>)
    requires
        is_complete_run(start, width, moves),
    ensures
        moves == run_of(start, width),
        run_halts(start, width) == !climbs_out(start, moves),
{
    lemma_run_unique(start, width, moves, run_of(start, width));
}

/// No cell is visited twice: the cells on which the knight stands in the
/// course of a run are all different.
pub proof fn lemma_no_cell_twice(start: Cell, width: int, moves: Seq<u8>, i: int, j: int)
    requires
        is_run(start, width, moves),
        0 <= i < j <= moves.len(),
    ensures
        cell_after(start, moves, i) != cell_after(start, moves, j),
{
    assert(greedy_at(start, width, moves, j - 1));
    assert(cell_after(start, moves, j) == land(
        cell_after(start, moves, j - 1),
        moves[j - 1] as int,
    ));
    if cell_after(start, moves, i) == cell_after(start, moves, j) {
        assert(visited_after(start, moves, j - 1).contains(cell_after(start, moves, j)));
    }
}

/// The knight has visited one cell more than it has made moves.
pub proof fn lemma_visited_count(start: Cell, width: int, moves: Seq<u8>, n: int)
    requires
        is_run(start, width, moves),
        0 <= n <= moves.len(),
    ensures
        visited_after(start, moves, n).finite(),
        visited_after(start, moves, n).len() == n + 1,
    decreases n,
{
    if n == 0 {
        lemma_visited_start(start, moves);
    } else {
        lemma_visited_count(start, width, moves, n - 1);
        lemma_visited_step(start, moves, n);
        assert(!visited_after(start, moves, n - 1).contains(cell_after(start, moves, n))) by {
            assert(greedy_at(start, width, moves, n - 1));
        }
    }
}

/// Every move is one of the eight jumps.
pub proof fn lemma_moves_are_jumps(start: Cell, width: int, moves: Seq<u8>, n: int)
    requires
        is_run(start, width, moves),
        0 <= n < moves.len(),
    ensures
        moves[n] < JUMP_COUNT,
{
    assert(greedy_at(start, width, moves, n));
}

/// Bounds: a run from a cell of the grid stays on non-negative rows and on
/// columns below the width. It never stands above the row `TOP + 2`, and
/// only its last move can take it above `TOP`.
pub proof fn lemma_stays_on_grid(start: Cell, width: int, moves: Seq<u8>, n: int)
    requires
        is_run(start, width, moves),
        0 <= start.row,
        0 <= start.col < width,
        0 <= n <= moves.len(),
    ensures
        0 <= cell_after(start, moves, n).row,
        0 <= cell_after(start, moves, n).col < width,
        0 < n ==> cell_after(start, moves, n).row <= cell_after(start, moves, n - 1).row + 2,
        1 < n ==> cell_after(start, moves, n).row <= TOP + 2,
        0 < n < moves.len() ==> cell_after(start, moves, n).row <= TOP,
{
    if n > 0 {
        assert(greedy_at(start, width, moves, n - 1));
        assert(legal(
            visited_after(start, moves, n - 1),
            width,
            land(cell_after(start, moves, n - 1), moves[n - 1] as int),
        ));
        if n < moves.len() {
            assert(greedy_at(start, width, moves, n));
        }
    }
}

/// A move climbs at most two rows, so the knight is at most `2 * n` rows
/// above its start after `n` moves.
pub proof fn lemma_climb_rate(start: Cell, width: int, moves: Seq<u8>, n: int)
    requires
        is_run(start, width, moves),
        0 <= n <= moves.len(),
    ensures
        cell_after(start, moves, n).row <= start.row + 2 * n,
    decreases n,
{
    if n > 0 {
        lemma_climb_rate(start, width, moves, n - 1);
        assert(greedy_at(start, width, moves, n - 1));
    }
}

/// A run that climbs above `TOP` has at least as many moves as it takes to
/// get there from the start row at two rows a move.
pub proof fn lemma_climb_length(start: Cell, width: int, moves: Seq<u8>)
    requires
        is_run(start, width, moves),
        climbs_out(start, moves),
    ensures
        moves.len() >= 1,
        2 * moves.len() > TOP - start.row,
{
    lemma_climb_rate(start, width, moves, moves.len() as int);
}

} // verus!
