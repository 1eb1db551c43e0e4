use bomb_grid::grid::Cell::{Blue as B, Empty as E, Green as G, Red as R};
use bomb_grid::arrangement::enumerate_arrangements;
use bomb_grid::clue::arrangement_to_state;
use bomb_grid::grid::{compute_terminal_state_value, Cell, Config, State};
use bomb_grid::index::{build_states, mask_state};
use bomb_grid::solver::{compute_value, solve_state};
use bomb_grid::table::StateMap;

fn board(cells: &[Cell]) -> State {
    State { cells: cells.to_vec() }
}

fn index(w: usize, h: usize, k: usize) -> (Config, StateMap) {
    let cfg = Config::new(w, h, k).unwrap();
    let mut table = StateMap::new(&cfg);
    build_states(&cfg, &mut table);
    (cfg, table)
}

#[test]
fn two_cells_one_bomb() {
    let (cfg, mut table) = index(1, 2, 1);
    let mut state = State::hidden(&cfg);
    assert_eq!(table.completion_count(&state), 2);
    assert_eq!(compute_value(&cfg, &mut state, &mut table), 5);
    assert_eq!(state.cells, vec![Cell::Empty; 2]);
}

#[test]
fn four_cells_one_bomb() {
    let (cfg, mut table) = index(2, 2, 1);
    let mut state = State::hidden(&cfg);
    assert_eq!(table.completion_count(&state), 4);
    assert_eq!(compute_value(&cfg, &mut state, &mut table), 30);
    assert_eq!(table.get(&board(&[E, E, E, E])).unwrap().value, Some(30));
    assert_eq!(table.get(&board(&[B, E, E, E])).unwrap().value, Some(30));
    assert_eq!(table.get(&board(&[B, B, E, E])).unwrap().value, Some(25));
    assert_eq!(table.get(&board(&[B, B, B, E])).unwrap().value, Some(15));
    assert_eq!(table.get(&board(&[E, B, B, B])).unwrap().value, Some(15));
}

#[test]
fn the_better_cell_is_chosen() {
    let (cfg, mut table) = index(3, 1, 1);
    let mut state = State::hidden(&cfg);
    assert_eq!(compute_value(&cfg, &mut state, &mut table), 16);
    assert_eq!(table.get(&board(&[G, E, E])).unwrap().value, Some(6));
    assert_eq!(table.get(&board(&[B, E, E])).unwrap().value, Some(10));
    assert_eq!(table.get(&board(&[E, B, E])).unwrap().value, Some(11));
    assert_eq!(table.get(&board(&[G, B, E])).unwrap().value, Some(6));
    assert_eq!(table.get(&board(&[B, E, B])).unwrap().value, Some(10));
}

#[test]
fn solving_from_a_revealed_board() {
    let (cfg, mut table) = index(3, 1, 1);
    let mut state = board(&[E, B, E]);
    assert_eq!(compute_value(&cfg, &mut state, &mut table), 11);
    assert_eq!(state.cells, vec![E, B, E]);
    assert_eq!(table.get(&State::hidden(&cfg)).unwrap().value, None);
}

#[test]
fn only_bombs_left_pays_the_terminal_value() {
    let (cfg, mut table) = index(3, 1, 1);
    let mut state = board(&[G, B, E]);
    assert_eq!(table.completion_count(&state), 1);
    assert_eq!(compute_value(&cfg, &mut state, &mut table), 6);
    let (cfg, mut table) = index(2, 2, 2);
    let mut state = board(&[B, E, B, E]);
    assert_eq!(table.completion_count(&state), 1);
    assert_eq!(compute_value(&cfg, &mut state, &mut table), 10);
}

#[test]
fn a_board_with_nothing_hidden_is_worth_nothing() {
    let (cfg, mut table) = index(2, 1, 0);
    let mut full = board(&[Cell::Green, Cell::Green]);
    assert_eq!(table.completion_count(&full), 1);
    assert_eq!(compute_value(&cfg, &mut full, &mut table), 0);
    let mut state = State::hidden(&cfg);
    assert_eq!(compute_value(&cfg, &mut state, &mut table), 0);
}

#[test]
fn solving_twice_gives_the_same_value() {
    let (cfg, mut table) = index(3, 3, 2);
    let mut state = State::hidden(&cfg);
    let boards = table.len();
    let first = compute_value(&cfg, &mut state, &mut table);
    assert_eq!(table.get(&state).unwrap().value, Some(first));
    let second = compute_value(&cfg, &mut state, &mut table);
    assert_eq!(first, second);
    assert_eq!(table.len(), boards);
    assert_eq!(table.get(&state).unwrap().value, Some(first));
    assert_eq!(table.completion_count(&state), 36);
}

#[test]
fn a_recorded_value_is_returned_as_it_is() {
    let (cfg, mut table) = index(2, 2, 1);
    let mut state = State::hidden(&cfg);
    table.set_value(&state, 30);
    assert_eq!(compute_value(&cfg, &mut state, &mut table), 30);
    let child = board(&[Cell::Blue, Cell::Empty, Cell::Empty, Cell::Empty]);
    assert_eq!(table.get(&child).unwrap().value, None);
}

#[test]
fn solving_leaves_the_counts_alone() {
    let (cfg, mut table) = index(2, 2, 1);
    let mut state = State::hidden(&cfg);
    compute_value(&cfg, &mut state, &mut table);
    assert_eq!(table.len(), 15);
    assert_eq!(table.completion_count(&board(&[E, E, E, E])), 4);
    assert_eq!(table.completion_count(&board(&[B, E, E, E])), 3);
    assert_eq!(table.completion_count(&board(&[B, B, E, B])), 1);
    assert_eq!(table.completion_count(&board(&[B, B, B, B])), 0);
}

#[test]
fn value_lies_between_nothing_and_the_largest_score() {
    for (w, h, k) in [(2, 2, 1), (3, 2, 2), (3, 3, 2), (3, 3, 4), (4, 3, 3)] {
        let (cfg, mut table) = index(w, h, k);
        let mut state = State::hidden(&cfg);
        let count = table.completion_count(&state);
        let value = compute_value(&cfg, &mut state, &mut table);
        assert!(value <= count * 20 * (w * h - k) as u64);
        assert!(value > 0);
    }
}

#[test]
fn hidden_board_of_a_middle_sized_game() {
    let (cfg, mut table) = index(4, 3, 3);
    let mut state = State::hidden(&cfg);
    let count = table.completion_count(&state);
    assert_eq!(count, 220);
    let value = compute_value(&cfg, &mut state, &mut table);
    let expected = value as f64 / count as f64;
    assert!(expected.is_finite());
    assert!(expected > 0.0);
    assert!(expected < 20.0 * 9.0);
}

#[test]
fn playing_on_is_no_worse_than_stopping() {
    let (cfg, mut table) = index(3, 3, 2);
    let arrangement = vec![(0, 0), (2, 1)];
    let full = arrangement_to_state(&cfg, &arrangement);
    for mask in 0..128u64 {
        let mut state = mask_state(&full, mask);
        let count = table.completion_count(&state);
        assert!(count >= 1);
        let terminal = compute_terminal_state_value(&state);
        let value = compute_value(&cfg, &mut state, &mut table);
        assert!(value >= count * terminal);
    }
    let mut state = mask_state(&full, 127);
    assert_eq!(table.completion_count(&state), 1);
    assert_eq!(
        compute_value(&cfg, &mut state, &mut table),
        compute_terminal_state_value(&full)
    );
}

#[test]
fn knowing_the_arrangement_is_no_worse() {
    for (w, h, k) in [(2, 2, 1), (3, 2, 2), (3, 3, 2)] {
        let (cfg, mut table) = index(w, h, k);
        let mut total = 0;
        for a in enumerate_arrangements(&cfg) {
            total += compute_terminal_state_value(&arrangement_to_state(&cfg, &a));
        }
        let mut state = State::hidden(&cfg);
        let value = compute_value(&cfg, &mut state, &mut table);
        assert!(value <= total);
    }
    let (cfg, mut table) = index(2, 2, 1);
    let mut state = State::hidden(&cfg);
    assert_eq!(compute_value(&cfg, &mut state, &mut table), 30);
    let mut total = 0;
    for a in enumerate_arrangements(&cfg) {
        total += compute_terminal_state_value(&arrangement_to_state(&cfg, &a));
    }
    assert_eq!(total, 60);
}

#[test]
fn score_of_a_board_as_a_fraction() {
    let (cfg, mut table) = index(2, 2, 1);
    let mut state = State::hidden(&cfg);
    assert_eq!(solve_state(&cfg, &mut state, &mut table), (4, 30));
    let mut state = board(&[B, B, E, E]);
    assert_eq!(solve_state(&cfg, &mut state, &mut table), (2, 25));
    assert_eq!(state.cells, vec![B, B, E, E]);
}

#[test]
fn a_board_that_no_arrangement_agrees_with_has_no_score() {
    let (cfg, mut table) = index(2, 2, 1);
    let boards = table.len();
    let mut state = board(&[G, E, E, E]);
    assert_eq!(solve_state(&cfg, &mut state, &mut table), (0, 0));
    let mut state = board(&[B, B, B, B]);
    assert_eq!(solve_state(&cfg, &mut state, &mut table), (0, 0));
    assert_eq!(table.len(), boards);
    assert_eq!(table.get(&State::hidden(&cfg)).unwrap().value, None);
}

#[test]
fn solving_a_single_row_of_many_bombs() {
    let (cfg, mut table) = index(7, 1, 5);
    let mut state = State::hidden(&cfg);
    let (count, value) = solve_state(&cfg, &mut state, &mut table);
    assert_eq!(count, 21);
    assert!(value > 0);
    assert!(value <= count * 20 * 2);
    let mut state = board(&[E, E, E, B, E, B, E]);
    assert_eq!(solve_state(&cfg, &mut state, &mut table), (1, 10));
    let mut state = board(&[E, E, E, R, E, E, E]);
    assert_eq!(table.completion_count(&state), 0);
    assert_eq!(solve_state(&cfg, &mut state, &mut table), (0, 0));
}

#[test]
fn solving_fills_in_the_boards_that_show_more() {
    let (cfg, mut table) = index(3, 1, 1);
    let mut state = board(&[E, B, E]);
    assert_eq!(compute_value(&cfg, &mut state, &mut table), 11);
    assert_eq!(table.get(&board(&[E, B, E])).unwrap().value, Some(11));
    assert_eq!(table.get(&board(&[G, B, E])).unwrap().value, Some(6));
    assert_eq!(table.get(&board(&[E, B, G])).unwrap().value, Some(6));
    assert_eq!(table.get(&board(&[E, E, E])).unwrap().value, None);
    assert_eq!(table.get(&board(&[B, E, E])).unwrap().value, None);
    assert_eq!(table.get(&board(&[G, E, E])).unwrap().value, None);
    assert_eq!(table.get(&board(&[B, E, B])).unwrap().value, None);
    assert_eq!(table.len(), 9);
    let mut state = State::hidden(&cfg);
    assert_eq!(compute_value(&cfg, &mut state, &mut table), 16);
    for cells in [[E, E, E], [B, E, E], [G, E, E], [B, E, B], [E, E, G], [E, E, B]] {
        assert!(table.get(&board(&cells)).unwrap().value.is_some());
    }
}
