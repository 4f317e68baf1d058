//! The repeating block at the end of a sequence of jumps.

use vstd::prelude::*;

verus! {

/// A block of `repeats_in` jumps that starts at place `starts_at` of a
/// sequence and repeats from there on.
#[derive(Debug, Copy, Clone, PartialEq, Eq, Structural)]
pub struct JumpPattern {
    pub starts_at: usize,
    pub repeats_in: usize,
}

/// Tile `k` of the sequence: the block of `period` jumps that begins `k`
/// periods after `start`.
pub open spec fn tile(s: Seq<u8>, start: int, period: int, k: int) -> Seq<u8> {
    s.subrange(start + k * period, start + (k + 1) * period)
}

/// The block of `period` jumps at `start` repeats: the period is at least
/// one and less than half of what follows `start`, and every later tile
/// that ends before the end of the sequence equals the first. A tile that
/// ends with the sequence, or runs over its end, is not compared.
pub open spec fn is_pattern(s: Seq<u8>, start: int, period: int) -> bool {
    &&& 0 <= start
    &&& 1 <= period
    &&& 2 * period + 2 <= s.len() - start
    &&& forall|k: int|
        1 <= k && start + (k + 1) * period < s.len() ==> #[trigger] tile(s, start, period, k)
            == tile(s, start, period, 0)
}

/// Some block of the sequence repeats.
pub open spec fn has_pattern(s: Seq<u8>) -> bool {
    exists|start: int, period: int| is_pattern(s, start, period)
}

/// The repeating block that starts earliest, and among those that start
/// there the shortest.
pub open spec fn is_first_pattern(s: Seq<u8>, start: int, period: int) -> bool {
    &&& is_pattern(s, start, period)
    &&& forall|a: int, p: int| #[trigger]
        is_pattern(s, a, p) ==> start < a || (start == a && period <= p)
}

proof fn lemma_multiples_grow(a: int, b: int, period: int)
    requires
        a <= b,
        0 <= period,
    ensures
        a * period <= b * period,
        (a + 1) * period == a * period + period,
{
    assert(a * period <= b * period) by (nonlinear_arith)
        requires
            a <= b,
            0 <= period,
    ;
    assert((a + 1) * period == a * period + period) by (nonlinear_arith);
}

/// Whether two blocks of `count` jumps, at `a` and at `b`, are equal.
fn same_block(jumps: &[u8], a: usize, b: usize, count: usize) -> (same: bool)
    requires
        a + count <= jumps.len(),
        b + count <= jumps.len(),
    ensures
        same == (jumps@.subrange(a as int, a + count) == jumps@.subrange(b as int, b + count)),
{
    let ghost left = jumps@.subrange(a as int, a + count);
    let ghost right = jumps@.subrange(b as int, b + count);
    let mut n: usize = 0;
    while n < count
        invariant
            n <= count,
            a + count <= jumps.len(),
            b + count <= jumps.len(),
            left == jumps@.subrange(a as int, a + count),
            right == jumps@.subrange(b as int, b + count),
            forall|m: int| 0 <= m < n ==> left[m] == right[m],
        decreases count - n,
    {
        if jumps[a + n] != jumps[b + n] {
            assert(left[n as int] != right[n as int]);
            return false;
        }
        n = n + 1;
    }
    assert(left =~= right);
    true
}

/// Whether the block of `period` jumps at `start` repeats.
fn repeats(jumps: &[u8], start: usize, period: usize) -> (found: bool)
    requires
        1 <= period,
        2 * period + 2 <= jumps@.len() - start,
    ensures
        found == is_pattern(jumps@, start as int, period as int),
{
    let len = jumps.len();
    let ghost s = jumps@;
    let ghost mut k: int = 1;
    let mut at: usize = start + period;
    proof {
        lemma_multiples_grow(0, 1, period as int);
    }
    loop
        invariant
            len == s.len(),
            s == jumps@,
            1 <= period,
            2 * period + 2 <= len - start,
            1 <= k,
            at == start + k * period,
            at < len,
            forall|t: int|
                1 <= t < k ==> #[trigger] tile(s, start as int, period as int, t) == tile(
                    s,
                    start as int,
                    period as int,
                    0,
                ),
        decreases len - at,
    {
        proof {
            lemma_multiples_grow(k, k, period as int);
            lemma_multiples_grow(0, 0, period as int);
        }
        if period >= len - at {
            proof {
                assert forall|t: int|
                    1 <= t && start + (t + 1) * period < s.len() implies #[trigger] tile(
                    s,
                    start as int,
                    period as int,
                    t,
                ) == tile(s, start as int, period as int, 0) by {
                    if t >= k {
                        lemma_multiples_grow(k + 1, t + 1, period as int);
                    }
                }
            }
            return true;
        }
        if !same_block(jumps, start, at, period) {
            assert(tile(s, start as int, period as int, k) != tile(
                s,
                start as int,
                period as int,
                0,
            ));
            return false;
        }
        at = at + period;
        proof {
            k = k + 1;
        }
    }
}

/// Looks for the repeating block of the sequence: for each start from the
/// first place on, for each period from one up to less than half of what
/// follows the start, whether the block there repeats. Gives the first that
/// does, which starts earliest and is the shortest at its start, and `None`
/// where no block repeats.
pub fn extract_pattern(jumps: &[u8]) -> (found: Option<JumpPattern>)
    ensures
        match found {
            Some(p) => is_first_pattern(jumps@, p.starts_at as int, p.repeats_in as int),
            None => !has_pattern(jumps@),
        },
{
    let len = jumps.len();
    let mut start: usize = 0;
    while start < len
        invariant
            len == jumps@.len(),
            start <= len,
            forall|a: int, p: int| a < start ==> !#[trigger] is_pattern(jumps@, a, p),
        decreases len - start,
    {
        let limit = (len - start) / 2;
        let mut period: usize = 1;
        while period < limit
            invariant
                len == jumps@.len(),
                start < len,
                limit == (len - start) / 2,
                1 <= period,
                forall|a: int, p: int| a < start ==> !#[trigger] is_pattern(jumps@, a, p),
                forall|p: int| p < period ==> !#[trigger] is_pattern(jumps@, start as int, p),
            decreases limit - period,
        {
            if repeats(jumps, start, period) {
                return Some(JumpPattern { starts_at: start, repeats_in: period });
            }
            period = period + 1;
        }
        start = start + 1;
    }
    None
}

/// The repeating block of a sequence that has one: the block that starts
/// earliest, and the shortest at its start.
pub fn pattern(jumps: &[u8]) -> (found: JumpPattern)
    requires
        has_pattern(jumps@),
    ensures
        is_first_pattern(jumps@, found.starts_at as int, found.repeats_in as int),
{
    extract_pattern(jumps).unwrap()
}

/// Every tile of a repeating block that ends before the end of the sequence
/// equals the block.
pub proof fn lemma_pattern_tiles(s: Seq<u8>, start: int, period: int, k: int)
    requires
        is_pattern(s, start, period),
        0 <= k,
        start + (k + 1) * period < s.len(),
    ensures
        s.subrange(start + k * period, start + (k + 1) * period) == s.subrange(
            start,
            start + period,
        ),
{
    lemma_multiples_grow(0, 0, period);
    if k >= 1 {
        assert(tile(s, start, period, k) == tile(s, start, period, 0));
    }
    assert(tile(s, start, period, 0) == s.subrange(start, start + period));
}

/// The first repeating block has the least start of all repeating blocks,
/// and the least period of those at its start. A sequence has at most one.
pub proof fn lemma_first_pattern_least(s: Seq<u8>, start: int, period: int, a: int, p: int)
    requires
        is_first_pattern(s, start, period),
        is_pattern(s, a, p),
    ensures
        start <= a,
        a == start ==> period <= p,
        is_first_pattern(s, a, p) ==> a == start && p == period,
{
}

} // verus!
