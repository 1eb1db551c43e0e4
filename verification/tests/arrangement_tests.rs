use bomb_grid::arrangement::{board_positions, enumerate_arrangements};
use bomb_grid::grid::Config;

fn binomial(n: u64, k: u64) -> u64 {
    if k == 0 {
        1
    } else if n == 0 {
        0
    } else {
        binomial(n - 1, k - 1) + binomial(n - 1, k)
    }
}

#[test]
fn positions_run_row_by_row() {
    let cfg = Config::new(3, 2, 1).unwrap();
    assert_eq!(
        board_positions(&cfg),
        vec![(0, 0), (1, 0), (2, 0), (0, 1), (1, 1), (2, 1)]
    );
}

#[test]
fn positions_of_a_board_without_cells() {
    let cfg = Config::new(0, 5, 0).unwrap();
    assert!(board_positions(&cfg).is_empty());
}

#[test]
fn standard_board_has_4845_arrangements() {
    let cfg = Config::new(5, 4, 4).unwrap();
    assert_eq!(enumerate_arrangements(&cfg).len(), 4845);
}

#[test]
fn arrangements_are_as_many_as_the_binomial() {
    for (w, h, k) in [
        (1, 1, 0),
        (1, 1, 1),
        (2, 2, 1),
        (2, 2, 2),
        (3, 2, 2),
        (3, 3, 3),
        (4, 3, 4),
        (4, 4, 4),
        (8, 4, 2),
        (8, 4, 4),
    ] {
        let cfg = Config::new(w, h, k).unwrap();
        let all = enumerate_arrangements(&cfg);
        assert_eq!(all.len() as u64, binomial((w * h) as u64, k as u64));
    }
}

#[test]
fn arrangements_of_two_bombs_on_four_cells_in_order() {
    let cfg = Config::new(2, 2, 2).unwrap();
    assert_eq!(
        enumerate_arrangements(&cfg),
        vec![
            vec![(0, 0), (1, 0)],
            vec![(0, 0), (0, 1)],
            vec![(0, 0), (1, 1)],
            vec![(1, 0), (0, 1)],
            vec![(1, 0), (1, 1)],
            vec![(0, 1), (1, 1)],
        ]
    );
}

#[test]
fn arrangements_of_three_bombs_on_a_row_of_four() {
    let cfg = Config::new(4, 1, 3).unwrap();
    assert_eq!(
        enumerate_arrangements(&cfg),
        vec![
            vec![(0, 0), (1, 0), (2, 0)],
            vec![(0, 0), (1, 0), (3, 0)],
            vec![(0, 0), (2, 0), (3, 0)],
            vec![(1, 0), (2, 0), (3, 0)],
        ]
    );
}

#[test]
fn five_bombs_on_nine_cells() {
    let cfg = Config { width: 3, height: 3, num_bombs: 5 };
    let all = enumerate_arrangements(&cfg);
    assert_eq!(all.len(), 126);
    assert_eq!(all[0], vec![(0, 0), (1, 0), (2, 0), (0, 1), (1, 1)]);
    assert_eq!(all[125], vec![(1, 1), (2, 1), (0, 2), (1, 2), (2, 2)]);
}

#[test]
fn more_bombs_than_cells_have_no_arrangement() {
    let cfg = Config { width: 2, height: 1, num_bombs: 3 };
    assert!(enumerate_arrangements(&cfg).is_empty());
}

#[test]
fn no_bombs_have_one_empty_arrangement() {
    let cfg = Config::new(3, 3, 0).unwrap();
    let all = enumerate_arrangements(&cfg);
    assert_eq!(all.len(), 1);
    assert!(all[0].is_empty());
}

#[test]
fn bombs_on_every_cell_have_one_arrangement() {
    let cfg = Config::new(2, 2, 4).unwrap();
    assert_eq!(
        enumerate_arrangements(&cfg),
        vec![vec![(0, 0), (1, 0), (0, 1), (1, 1)]]
    );
}

#[test]
fn every_arrangement_names_distinct_cells_on_the_board() {
    let cfg = Config::new(5, 4, 4).unwrap();
    for a in enumerate_arrangements(&cfg) {
        assert_eq!(a.len(), 4);
        for (k, p) in a.iter().enumerate() {
            assert!(p.0 < 5 && p.1 < 4);
            for q in &a[..k] {
                assert!(q.1 * 5 + q.0 < p.1 * 5 + p.0);
            }
        }
    }
}

#[test]
fn no_arrangement_comes_twice() {
    let cfg = Config::new(4, 3, 3).unwrap();
    let all = enumerate_arrangements(&cfg);
    for (j, a) in all.iter().enumerate() {
        for b in &all[..j] {
            assert_ne!(a, b);
        }
    }
}
