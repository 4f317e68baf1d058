use horse_jumps::pattern::{extract_pattern, pattern, JumpPattern};
use horse_jumps::simulate::jump_seq;

#[test]
fn period_two_from_the_start() {
    let jumps = [1, 2, 1, 2, 1, 2];
    let expected = JumpPattern { starts_at: 0, repeats_in: 2 };
    assert_eq!(extract_pattern(&jumps), Some(expected));
    assert_eq!(pattern(&jumps), expected);
}

#[test]
fn period_two_after_a_lead_in() {
    let jumps = [0, 1, 2, 1, 2, 1, 2];
    let expected = JumpPattern { starts_at: 1, repeats_in: 2 };
    assert_eq!(extract_pattern(&jumps), Some(expected));
    assert_eq!(pattern(&jumps), expected);
}

#[test]
fn a_constant_sequence_has_period_one() {
    assert_eq!(extract_pattern(&[5, 5, 5, 5]), Some(JumpPattern { starts_at: 0, repeats_in: 1 }));
    assert_eq!(pattern(&[5, 5, 5, 5, 5, 5, 5]), JumpPattern { starts_at: 0, repeats_in: 1 });
}

#[test]
fn short_sequences_have_no_pattern() {
    assert_eq!(extract_pattern(&[]), None);
    assert_eq!(extract_pattern(&[3]), None);
    assert_eq!(extract_pattern(&[3, 3]), None);
    assert_eq!(extract_pattern(&[5, 5, 5]), None);
    assert_eq!(extract_pattern(&[1, 2, 3]), None);
}

#[test]
fn the_period_stays_below_half_of_what_follows() {
    // Four equal jumps are needed for the period one, six for the period two.
    assert_eq!(extract_pattern(&[1, 2, 1, 2, 1]), None);
    assert_eq!(extract_pattern(&[1, 2, 1, 2, 1, 2]), Some(JumpPattern { starts_at: 0, repeats_in: 2 }));
    assert_eq!(extract_pattern(&[9, 1, 1, 1]), None);
    assert_eq!(extract_pattern(&[9, 1, 1, 1, 1]), Some(JumpPattern { starts_at: 1, repeats_in: 1 }));
}

#[test]
fn the_tile_that_ends_the_sequence_is_not_compared() {
    assert_eq!(
        extract_pattern(&[1, 2, 1, 2, 9, 9]),
        Some(JumpPattern { starts_at: 0, repeats_in: 2 })
    );
    assert_eq!(extract_pattern(&[4, 4, 4, 7]), Some(JumpPattern { starts_at: 0, repeats_in: 1 }));
    // One jump more, and the same tile is compared.
    assert_eq!(extract_pattern(&[4, 4, 4, 7, 7]), None);
}

#[test]
fn a_last_tile_that_is_cut_short_is_not_compared() {
    assert_eq!(
        extract_pattern(&[1, 2, 3, 1, 2, 3, 1, 2, 3, 9, 9]),
        Some(JumpPattern { starts_at: 0, repeats_in: 3 })
    );
}

#[test]
fn the_earliest_start_wins_over_the_shorter_period() {
    // At the start the block 1 2 repeats; from place 4 on the block 3 alone would.
    assert_eq!(
        extract_pattern(&[1, 2, 1, 2, 3, 3]),
        Some(JumpPattern { starts_at: 0, repeats_in: 2 })
    );
}

#[test]
fn the_shortest_period_wins_at_one_start() {
    // The blocks of 1, 2 and 4 jumps all repeat; the shortest is taken.
    assert_eq!(
        extract_pattern(&[6, 6, 6, 6, 6, 6, 6, 6, 6, 6, 6, 6]),
        Some(JumpPattern { starts_at: 0, repeats_in: 1 })
    );
    assert_eq!(
        extract_pattern(&[6, 7, 6, 7, 6, 7, 6, 7, 6, 7, 6, 7]),
        Some(JumpPattern { starts_at: 0, repeats_in: 2 })
    );
}

#[test]
fn a_mismatch_in_the_middle_moves_the_start() {
    assert_eq!(
        extract_pattern(&[1, 2, 1, 2, 1, 3, 1, 2, 1, 2, 1, 2, 1, 2]),
        Some(JumpPattern { starts_at: 6, repeats_in: 2 })
    );
}

fn check_pattern(jumps: &[u8], found: JumpPattern) {
    let s = found.starts_at;
    let p = found.repeats_in;
    assert!(1 <= p);
    assert!(2 * p + 2 <= jumps.len() - s);
    let mut k = 1;
    while s + (k + 1) * p < jumps.len() {
        assert_eq!(&jumps[s + k * p..s + (k + 1) * p], &jumps[s..s + p]);
        k += 1;
    }
}

fn repeats_at(jumps: &[u8], s: usize, p: usize) -> bool {
    let mut k = 1;
    while s + (k + 1) * p < jumps.len() {
        if jumps[s + k * p..s + (k + 1) * p] != jumps[s..s + p] {
            return false;
        }
        k += 1;
    }
    true
}

fn check_first(jumps: &[u8], found: JumpPattern) {
    for s in 0..=found.starts_at {
        let mut p = 1;
        while 2 * p + 2 <= jumps.len() - s {
            if s == found.starts_at && p >= found.repeats_in {
                break;
            }
            assert!(!repeats_at(jumps, s, p));
            p += 1;
        }
    }
}

#[test]
fn every_tile_of_a_found_pattern_equals_the_first() {
    for jumps in [
        vec![1, 2, 1, 2, 1, 2],
        vec![0, 1, 2, 1, 2, 1, 2],
        vec![3, 3, 0, 1, 2, 0, 1, 2, 0, 1, 2, 0, 1, 2, 0],
        vec![1, 2, 1, 2, 1, 3, 1, 2, 1, 2, 1, 2, 1, 2],
    ] {
        let found = pattern(&jumps);
        check_pattern(&jumps, found);
        check_first(&jumps, found);
    }
}

#[test]
fn patterns_of_runs() {
    let jumps = jump_seq(0, 0, 2);
    assert_eq!(pattern(&jumps), JumpPattern { starts_at: 0, repeats_in: 2 });
    let jumps = jump_seq(0, 0, 3);
    assert_eq!(pattern(&jumps), JumpPattern { starts_at: 12, repeats_in: 3 });
    let jumps = jump_seq(7, 2, 3);
    assert_eq!(pattern(&jumps), JumpPattern { starts_at: 36, repeats_in: 6 });
    let jumps = jump_seq(3, 1, 7);
    assert_eq!(pattern(&jumps), JumpPattern { starts_at: 67, repeats_in: 7 });
    let jumps = jump_seq(2, 2, 10);
    assert_eq!(jumps.len(), 1252);
    let found = pattern(&jumps);
    assert_eq!(found, JumpPattern { starts_at: 74, repeats_in: 60 });
    check_pattern(&jumps, found);
    check_first(&jumps, found);
}
