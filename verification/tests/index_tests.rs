use bomb_grid::grid::Cell::{Blue as B, Empty as E, Green as G, Red as R};
use bomb_grid::grid::{Cell, Config, State};
use bomb_grid::index::{build_arrangement, build_states, mask_state};
use bomb_grid::table::StateMap;

fn board(cells: &[Cell]) -> State {
    State { cells: cells.to_vec() }
}

fn binomial(n: u64, k: u64) -> u64 {
    if k == 0 {
        1
    } else if n == 0 {
        0
    } else {
        binomial(n - 1, k - 1) + binomial(n - 1, k)
    }
}

#[test]
fn mask_bits_follow_the_colored_cells() {
    let full = board(&[E, B, G, E, R]);
    assert_eq!(mask_state(&full, 0b000).cells, vec![E, E, E, E, E]);
    assert_eq!(mask_state(&full, 0b001).cells, vec![E, B, E, E, E]);
    assert_eq!(mask_state(&full, 0b010).cells, vec![E, E, G, E, E]);
    assert_eq!(mask_state(&full, 0b100).cells, vec![E, E, E, E, R]);
    assert_eq!(mask_state(&full, 0b101).cells, vec![E, B, E, E, R]);
    assert_eq!(mask_state(&full, 0b111).cells, vec![E, B, G, E, R]);
}

#[test]
fn one_arrangement_on_a_small_board() {
    let cfg = Config::new(2, 2, 1).unwrap();
    let mut table = StateMap::new(&cfg);
    build_arrangement(&cfg, &vec![(0, 0)], &mut table);
    assert_eq!(table.len(), 8);
    for b1 in [E, B] {
        for b2 in [E, B] {
            for b3 in [E, B] {
                assert_eq!(table.completion_count(&board(&[E, b1, b2, b3])), 1);
                assert_eq!(table.completion_count(&board(&[B, b1, b2, b3])), 0);
            }
        }
    }
    assert_eq!(table.completion_count(&board(&[E, Cell::Green, E, E])), 0);
    assert_eq!(table.get(&State::hidden(&cfg)).unwrap().value, None);
}

#[test]
fn one_arrangement_on_the_standard_board_gives_65536_boards() {
    let cfg = Config::new(5, 4, 4).unwrap();
    let mut table = StateMap::new(&cfg);
    let arrangement = vec![(0, 0), (2, 1), (3, 3), (4, 0)];
    build_arrangement(&cfg, &arrangement, &mut table);
    assert_eq!(table.len(), 65536);
    assert_eq!(table.completion_count(&State::hidden(&cfg)), 1);
    let full = bomb_grid::clue::arrangement_to_state(&cfg, &arrangement);
    assert_eq!(table.completion_count(&full), 1);
    let mut sum = 0;
    for mask in 0..65536u64 {
        sum += table.completion_count(&mask_state(&full, mask));
    }
    assert_eq!(sum, 65536);
}

#[test]
fn indexing_an_arrangement_twice_counts_twice() {
    let cfg = Config::new(2, 1, 1).unwrap();
    let mut table = StateMap::new(&cfg);
    build_arrangement(&cfg, &vec![(1, 0)], &mut table);
    build_arrangement(&cfg, &vec![(1, 0)], &mut table);
    build_arrangement(&cfg, &vec![(0, 0)], &mut table);
    assert_eq!(table.completion_count(&board(&[E, E])), 3);
    assert_eq!(table.completion_count(&board(&[B, E])), 2);
    assert_eq!(table.completion_count(&board(&[E, B])), 1);
    assert_eq!(table.len(), 3);
}

#[test]
fn all_arrangements_on_two_cells() {
    let cfg = Config::new(1, 2, 1).unwrap();
    let mut table = StateMap::new(&cfg);
    build_states(&cfg, &mut table);
    assert_eq!(table.len(), 3);
    assert_eq!(table.completion_count(&board(&[E, E])), 2);
    assert_eq!(table.completion_count(&board(&[B, E])), 1);
    assert_eq!(table.completion_count(&board(&[E, B])), 1);
    assert_eq!(table.completion_count(&board(&[B, B])), 0);
}

#[test]
fn all_arrangements_on_four_cells() {
    let cfg = Config::new(2, 2, 1).unwrap();
    let mut table = StateMap::new(&cfg);
    build_states(&cfg, &mut table);
    assert_eq!(table.len(), 15);
    assert_eq!(table.completion_count(&board(&[E, E, E, E])), 4);
    assert_eq!(table.completion_count(&board(&[B, E, E, E])), 3);
    assert_eq!(table.completion_count(&board(&[E, E, B, E])), 3);
    assert_eq!(table.completion_count(&board(&[B, E, E, B])), 2);
    assert_eq!(table.completion_count(&board(&[B, B, E, B])), 1);
    assert_eq!(table.completion_count(&board(&[B, B, B, B])), 0);
    assert_eq!(table.completion_count(&board(&[Cell::Green, E, E, E])), 0);
}

#[test]
fn colors_tell_arrangements_apart() {
    let cfg = Config::new(3, 1, 1).unwrap();
    let mut table = StateMap::new(&cfg);
    build_states(&cfg, &mut table);
    assert_eq!(table.completion_count(&board(&[E, E, E])), 3);
    assert_eq!(table.completion_count(&board(&[G, E, E])), 1);
    assert_eq!(table.completion_count(&board(&[B, E, E])), 1);
    assert_eq!(table.completion_count(&board(&[E, B, E])), 2);
    assert_eq!(table.completion_count(&board(&[E, G, E])), 0);
    assert_eq!(table.completion_count(&board(&[G, B, E])), 1);
    assert_eq!(table.completion_count(&board(&[B, E, B])), 1);
    assert_eq!(table.completion_count(&board(&[G, E, G])), 0);
    assert_eq!(table.len(), 9);
}

#[test]
fn hidden_board_counts_every_arrangement() {
    for (w, h, k) in [(1, 1, 0), (1, 1, 1), (2, 2, 2), (3, 2, 2), (3, 3, 3), (4, 3, 3)] {
        let cfg = Config::new(w, h, k).unwrap();
        let mut table = StateMap::new(&cfg);
        build_states(&cfg, &mut table);
        assert_eq!(
            table.completion_count(&State::hidden(&cfg)),
            binomial((w * h) as u64, k as u64)
        );
    }
}

#[test]
fn indexing_adds_to_the_counts_already_there() {
    let cfg = Config::new(1, 2, 1).unwrap();
    let mut table = StateMap::new(&cfg);
    table.add_completion(&board(&[E, E]));
    table.add_completion(&board(&[B, B]));
    table.set_value(&board(&[E, E]), 9);
    build_states(&cfg, &mut table);
    assert_eq!(table.completion_count(&board(&[E, E])), 3);
    assert_eq!(table.get(&board(&[E, E])).unwrap().value, Some(9));
    assert_eq!(table.completion_count(&board(&[B, B])), 1);
    assert_eq!(table.completion_count(&board(&[B, E])), 1);
    assert_eq!(table.len(), 4);
}

#[test]
fn no_board_has_a_value_after_indexing() {
    let cfg = Config::new(2, 2, 1).unwrap();
    let mut table = StateMap::new(&cfg);
    build_states(&cfg, &mut table);
    for cells in [[E, E, E, E], [B, E, E, E], [B, B, E, E], [E, B, B, B]] {
        assert_eq!(table.get(&board(&cells)).unwrap().value, None);
    }
}
