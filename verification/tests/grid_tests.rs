use bomb_grid::grid::{compute_terminal_state_value, Cell, Config, State};

fn board(cells: &[Cell]) -> State {
    State { cells: cells.to_vec() }
}

#[test]
fn config_new_accepts_the_standard_board() {
    let cfg = Config::new(5, 4, 4).expect("5x4 with 4 bombs is well formed");
    assert_eq!(cfg.width, 5);
    assert_eq!(cfg.height, 4);
    assert_eq!(cfg.num_bombs, 4);
    assert_eq!(cfg.num_cells(), 20);
}

#[test]
fn config_new_accepts_the_largest_board() {
    assert!(Config::new(8, 4, 4).is_some());
    assert!(Config::new(32, 1, 0).is_some());
    assert!(Config::new(1, 32, 1).is_some());
}

#[test]
fn config_new_rejects_a_board_too_large_to_key() {
    assert!(Config::new(33, 1, 0).is_none());
    assert!(Config::new(6, 6, 1).is_none());
    assert!(Config::new(11, 3, 1).is_none());
    assert!(Config::new(usize::MAX, usize::MAX, 0).is_none());
    assert!(Config::new(usize::MAX, 2, 0).is_none());
}

#[test]
fn config_new_rejects_more_bombs_than_colors_cover() {
    assert!(Config::new(5, 4, 5).is_none());
    assert!(Config::new(5, 4, 20).is_none());
}

#[test]
fn config_new_accepts_more_bombs_on_a_single_row_or_column() {
    assert!(Config::new(20, 1, 10).is_some());
    assert!(Config::new(1, 8, 8).is_some());
    assert!(Config::new(32, 1, 32).is_some());
    assert!(Config::new(2, 8, 5).is_none());
    assert!(Config::new(8, 2, 5).is_none());
}

#[test]
fn config_new_rejects_more_bombs_than_cells() {
    assert!(Config::new(1, 1, 2).is_none());
    assert!(Config::new(3, 1, 4).is_none());
    assert!(Config::new(3, 1, 3).is_some());
}

#[test]
fn config_new_on_a_board_without_cells() {
    assert!(Config::new(0, 3, 0).is_some());
    assert!(Config::new(3, 0, 0).is_some());
    assert!(Config::new(0, 3, 1).is_none());
    assert!(Config::new(0, usize::MAX, 0).is_some());
}

#[test]
fn hidden_state_shows_nothing() {
    let cfg = Config::new(5, 4, 4).unwrap();
    let state = State::hidden(&cfg);
    assert_eq!(state.cells, vec![Cell::Empty; 20]);
}

#[test]
fn state_cells_lie_row_by_row() {
    let cfg = Config::new(3, 4, 1).unwrap();
    let mut state = State::hidden(&cfg);
    state.set(&cfg, 1, 2, Cell::Red);
    assert_eq!(state.cells[7], Cell::Red);
    assert_eq!(state.get(&cfg, 1, 2), Cell::Red);
    assert_eq!(state.get(&cfg, 2, 1), Cell::Empty);
    state.set(&cfg, 2, 3, Cell::Green);
    assert_eq!(state.cells[11], Cell::Green);
    state.set(&cfg, 0, 0, Cell::Blue);
    assert_eq!(state.cells[0], Cell::Blue);
    let shown = state.cells.iter().filter(|c| **c != Cell::Empty).count();
    assert_eq!(shown, 3);
}

#[test]
fn state_set_overwrites_one_cell() {
    let cfg = Config::new(2, 2, 1).unwrap();
    let mut state = State::hidden(&cfg);
    state.set(&cfg, 1, 0, Cell::Green);
    state.set(&cfg, 1, 0, Cell::Blue);
    assert_eq!(
        state.cells,
        vec![Cell::Empty, Cell::Blue, Cell::Empty, Cell::Empty]
    );
    state.set(&cfg, 1, 0, Cell::Empty);
    assert_eq!(state.cells, vec![Cell::Empty; 4]);
}

#[test]
fn terminal_value_of_each_color() {
    assert_eq!(compute_terminal_state_value(&board(&[Cell::Empty])), 0);
    assert_eq!(compute_terminal_state_value(&board(&[Cell::Green])), 1);
    assert_eq!(compute_terminal_state_value(&board(&[Cell::Blue])), 5);
    assert_eq!(compute_terminal_state_value(&board(&[Cell::Red])), 20);
}

#[test]
fn terminal_value_of_an_empty_board() {
    assert_eq!(compute_terminal_state_value(&board(&[])), 0);
}

#[test]
fn terminal_value_adds_the_rewards() {
    let state = board(&[
        Cell::Green,
        Cell::Red,
        Cell::Empty,
        Cell::Blue,
        Cell::Red,
        Cell::Green,
        Cell::Empty,
        Cell::Red,
    ]);
    assert_eq!(compute_terminal_state_value(&state), 2 * 1 + 1 * 5 + 3 * 20);
    assert_eq!(compute_terminal_state_value(&state), 67);
}

#[test]
fn terminal_value_ignores_where_the_cells_lie() {
    let one = board(&[Cell::Green, Cell::Blue, Cell::Red, Cell::Empty, Cell::Blue]);
    let other = board(&[Cell::Blue, Cell::Empty, Cell::Blue, Cell::Red, Cell::Green]);
    assert_eq!(compute_terminal_state_value(&one), 31);
    assert_eq!(compute_terminal_state_value(&other), 31);
}

#[test]
fn terminal_value_is_additive_over_parts() {
    let left = [Cell::Green, Cell::Red, Cell::Empty];
    let right = [Cell::Blue, Cell::Blue, Cell::Green, Cell::Red];
    let mut whole = left.to_vec();
    whole.extend_from_slice(&right);
    let sum = compute_terminal_state_value(&board(&left))
        + compute_terminal_state_value(&board(&right));
    assert_eq!(compute_terminal_state_value(&board(&whole)), sum);
    assert_eq!(sum, 21 + 31);
}

#[test]
fn terminal_value_of_a_hidden_board_is_zero() {
    let cfg = Config::new(5, 4, 4).unwrap();
    assert_eq!(compute_terminal_state_value(&State::hidden(&cfg)), 0);
}

#[test]
fn terminal_value_of_a_board_of_reds() {
    let state = board(&[Cell::Red; 32]);
    assert_eq!(compute_terminal_state_value(&state), 640);
}
