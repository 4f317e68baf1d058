use horse_jumps::config::TOP;
use horse_jumps::explore::{explore, explore_width, Start};
use horse_jumps::simulate::{halts, simulate, RunResult};

fn start(width: i32, row: i32, col: i32) -> Start {
    Start { width, row, col }
}

#[test]
fn search_of_widths_one_to_ten_matches_the_runs_one_by_one() {
    let mut expected = Vec::new();
    for width in 1..=10 {
        for col in 0..width {
            for row in 0..=TOP {
                if simulate(row, col, width, false) != RunResult::Halted {
                    expected.push(start(width, row, col));
                }
            }
        }
    }
    let found = explore(1, 10, TOP);
    assert_eq!(found, expected);
    let mut seen = std::collections::HashSet::new();
    for s in &found {
        assert!(seen.insert((s.width, s.row, s.col)));
    }
    assert_eq!(found.len(), 24);
}

#[test]
fn search_of_widths_one_to_ten_finds_these_starts() {
    let found = explore(1, 10, TOP);
    let expected = vec![
        start(2, 0, 0),
        start(2, 1, 0),
        start(2, 0, 1),
        start(2, 1, 1),
        start(3, 0, 0),
        start(3, 1, 0),
        start(3, 2, 0),
        start(3, 3, 0),
        start(3, 6, 0),
        start(3, 7, 0),
        start(3, 0, 1),
        start(3, 1, 1),
        start(3, 3, 1),
        start(3, 4, 1),
        start(3, 5, 1),
        start(3, 0, 2),
        start(3, 1, 2),
        start(3, 2, 2),
        start(3, 3, 2),
        start(3, 5, 2),
        start(3, 6, 2),
        start(3, 7, 2),
        start(7, 3, 1),
        start(10, 2, 2),
    ];
    assert_eq!(found, expected);
}

#[test]
fn search_of_one_width() {
    assert_eq!(explore_width(1, TOP), Vec::new());
    assert_eq!(
        explore_width(2, TOP),
        vec![start(2, 0, 0), start(2, 1, 0), start(2, 0, 1), start(2, 1, 1)]
    );
    assert_eq!(explore_width(7, TOP), vec![start(7, 3, 1)]);
    assert_eq!(explore(7, 7, TOP), explore_width(7, TOP));
}

#[test]
fn the_height_threshold_is_the_last_row_searched() {
    assert_eq!(explore_width(2, 0), vec![start(2, 0, 0), start(2, 0, 1)]);
    assert_eq!(explore_width(3, 2).len(), 8);
    assert_eq!(explore_width(3, 3).len(), 11);
    assert_eq!(explore_width(7, 2), Vec::new());
    assert_eq!(explore_width(7, 3), vec![start(7, 3, 1)]);
    assert_eq!(explore_width(2, -1), Vec::new());
}

#[test]
fn the_rows_of_the_grid_above_the_threshold_can_be_searched() {
    let found = explore_width(3, 127);
    for s in &found {
        assert!(!halts(s.row, s.col, 3));
    }
    for col in 0..3 {
        for row in 0..=127 {
            assert_eq!(found.contains(&start(3, row, col)), !halts(row, col, 3));
        }
    }
}

#[test]
fn an_empty_range_of_widths_gives_nothing() {
    assert_eq!(explore(5, 4, TOP), Vec::new());
    assert_eq!(explore(3, 2, TOP), Vec::new());
    assert_eq!(explore(-7, 0, TOP), Vec::new());
    assert_eq!(explore_width(0, TOP), Vec::new());
    assert_eq!(explore_width(-2, TOP), Vec::new());
}

#[test]
fn the_search_goes_by_width_then_column_then_row() {
    let found = explore(2, 3, 10);
    for pair in found.windows(2) {
        let a = (pair[0].width, pair[0].col, pair[0].row);
        let b = (pair[1].width, pair[1].col, pair[1].row);
        assert!(a < b);
    }
    let mut joined = explore_width(2, 10);
    joined.extend(explore_width(3, 10));
    assert_eq!(found, joined);
}
