//! The repeating blocks of the runs that do not halt, gathered and put in
//! order for display.

use vstd::prelude::*;
use vstd::seq_lib::{to_multiset_build, to_multiset_insert};
use crate::pattern::{extract_pattern, has_pattern, is_first_pattern, JumpPattern};
use crate::run::run_of;
use crate::simulate::{cell, jump_seq, valid_start};

verus! {

/// A start cell on a grid of some width, with the repeating block of the
/// run from it.
#[derive(Debug, Copy, Clone, PartialEq, Eq, Structural)]
pub struct PatternRecord {
    pub width: i32,
    pub row: i32,
    pub col: i32,
    pub pattern: JumpPattern,
}

/// `a` may stand before `b` in a report: its width is smaller, or the
/// widths are equal and its row is not larger.
pub open spec fn report_order(a: PatternRecord, b: PatternRecord) -> bool {
    a.width < b.width || (a.width == b.width && a.row <= b.row)
}

/// The records stand in the order of a report: by width, and by row where
/// the widths are equal.
pub open spec fn is_report(records: Seq<PatternRecord>) -> bool {
    forall|i: int, j: int| 0 <= i < j < records.len() ==> report_order(records[i], records[j])
}

/// The records of the given width and row, in the order in which they stand.
pub open spec fn with_key(records: Seq<PatternRecord>, width: i32, row: i32) -> Seq<PatternRecord> {
    records.filter(|r: PatternRecord| r.width == width && r.row == row)
}

/// The record of a start: the repeating block of the run from it. `None`
/// where no block of the run repeats.
pub fn pattern_of_start(start_row: i32, start_col: i32, width: i32) -> (found: Option<
    PatternRecord,
>)
    requires
        valid_start(start_row, start_col, width),
    ensures
        match found {
            Some(record) => {
                &&& record.width == width
                &&& record.row == start_row
                &&& record.col == start_col
                &&& is_first_pattern(
                    run_of(cell(start_row, start_col), width as int),
                    record.pattern.starts_at as int,
                    record.pattern.repeats_in as int,
                )
            },
            None => !has_pattern(run_of(cell(start_row, start_col), width as int)),
        },
{
    let jumps = jump_seq(start_row, start_col, width);
    match extract_pattern(jumps.as_slice()) {
        Some(pattern) => Some(PatternRecord { width, row: start_row, col: start_col, pattern }),
        None => None,
    }
}

/// Whether `a` has to stand after `b` in a report.
fn comes_after(a: &PatternRecord, b: &PatternRecord) -> (after: bool)
    ensures
        after == !report_order(*a, *b),
{
    a.width > b.width || (a.width == b.width && a.row > b.row)
}

/// Puts the records in the order of a report: by width, and by row where
/// the widths are equal. Records of one width and row keep the order in
/// which they stood.
pub fn sort_records(records: &mut Vec<PatternRecord>)
    ensures
        is_report(final(records)@),
        final(records)@.to_multiset() == old(records)@.to_multiset(),
        forall|width: i32, row: i32|
            with_key(final(records)@, width, row) == with_key(old(records)@, width, row),
{
    let ghost given = records@;
    let mut sorted: Vec<PatternRecord> = Vec::new();
    let mut n: usize = 0;
    proof {
        assert(given.take(0) =~= Seq::<PatternRecord>::empty());
    }
    while n < records.len()
        invariant
            n <= records@.len(),
            records@ == given,
            sorted@.len() == n,
            is_report(sorted@),
            sorted@.to_multiset() == given.take(n as int).to_multiset(),
            forall|width: i32, row: i32|
                with_key(sorted@, width, row) == with_key(given.take(n as int), width, row),
        decreases records@.len() - n,
    {
        let record = records[n];
        let mut at: usize = sorted.len();
        while at > 0 && comes_after(&sorted[at - 1], &record)
            invariant
                at <= sorted@.len(),
                is_report(sorted@),
                forall|i: int| at <= i < sorted@.len() ==> !report_order(sorted@[i], record),
            decreases at,
        {
            at = at - 1;
        }
        let ghost before = sorted@;
        sorted.insert(at, record);
        proof {
            let prefix = given.take(n as int);
            assert(given.take(n + 1) =~= prefix.push(record));
            to_multiset_build(prefix, record);
            to_multiset_insert(before, at as int, record);
            assert forall|i: int, j: int| 0 <= i < j < sorted@.len() implies report_order(
                sorted@[i],
                sorted@[j],
            ) by {
                if i < at && j > at {
                    assert(report_order(before[i], before[j - 1]));
                } else if i < at && j == at {
                    if at > 0 {
                        assert(report_order(before[i], before[at - 1]));
                    }
                } else if i == at {
                    assert(!report_order(before[j - 1], record));
                } else if i > at {
                    assert(report_order(before[i - 1], before[j - 1]));
                }
            }
            assert forall|width: i32, row: i32|
                with_key(sorted@, width, row) == with_key(given.take(n + 1), width, row) by {
                lemma_insert_keeps_keys(before, at as int, record, width, row);
                lemma_push_with_key(before, record, width, row);
                lemma_push_with_key(prefix, record, width, row);
            }
        }
        n = n + 1;
    }
    proof {
        assert(given.take(n as int) =~= given);
    }
    *records = sorted;
}

/// The records of a key after one more record is put at the end.
proof fn lemma_push_with_key(records: Seq<PatternRecord>, record: PatternRecord, width: i32, row: i32)
    ensures
        with_key(records.push(record), width, row) == if record.width == width && record.row
            == row {
            with_key(records, width, row).push(record)
        } else {
            with_key(records, width, row)
        },
{
    let has_key = |r: PatternRecord| r.width == width && r.row == row;
    Seq::lemma_filter_push(records, record, has_key);
}

/// A record that is put in before the records that have to stand after it,
/// and only those, comes last among the records of its key and leaves the
/// records of every other key as they were.
proof fn lemma_insert_keeps_keys(
    records: Seq<PatternRecord>,
    at: int,
    record: PatternRecord,
    width: i32,
    row: i32,
)
    requires
        0 <= at <= records.len(),
        forall|i: int| at <= i < records.len() ==> !report_order(records[i], record),
    ensures
        with_key(records.insert(at, record), width, row) == with_key(
            records.push(record),
            width,
            row,
        ),
{
    let has_key = |r: PatternRecord| r.width == width && r.row == row;
    let head = records.take(at);
    let tail = records.skip(at);
    assert(records.insert(at, record) =~= head.push(record) + tail);
    assert(records.push(record) =~= (head + tail).push(record));
    assert(records =~= head + tail);
    Seq::filter_distributes_over_add(head.push(record), tail, has_key);
    Seq::filter_distributes_over_add(head, tail, has_key);
    Seq::lemma_filter_push(head, record, has_key);
    Seq::lemma_filter_push(head + tail, record, has_key);
    if has_key(record) {
        assert forall|i: int| 0 <= i < tail.len() implies !has_key(tail[i]) by {
            assert(!report_order(records[at + i], record));
        }
        tail.lemma_all_neg_filter_empty(has_key);
        assert(tail.filter(has_key) =~= Seq::<PatternRecord>::empty());
        assert(head.filter(has_key).push(record) + tail.filter(has_key) =~= (head.filter(has_key)
            + tail.filter(has_key)).push(record));
    }
}

} // verus!
