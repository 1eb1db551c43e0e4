use bomb_grid::grid::{Cell, Config, State};
use bomb_grid::table::{state_key, StateMap};

fn board(cells: &[Cell]) -> State {
    State { cells: cells.to_vec() }
}

#[test]
fn key_reads_the_board_in_base_four() {
    assert_eq!(state_key(&board(&[])), 0);
    assert_eq!(state_key(&board(&[Cell::Empty])), 0);
    assert_eq!(state_key(&board(&[Cell::Green])), 1);
    assert_eq!(state_key(&board(&[Cell::Blue])), 2);
    assert_eq!(state_key(&board(&[Cell::Red])), 3);
    assert_eq!(state_key(&board(&[Cell::Green, Cell::Red])), 7);
    assert_eq!(state_key(&board(&[Cell::Red, Cell::Green])), 13);
    assert_eq!(
        state_key(&board(&[Cell::Blue, Cell::Empty, Cell::Green])),
        33
    );
}

#[test]
fn key_of_the_largest_board_fits() {
    assert_eq!(state_key(&board(&[Cell::Red; 32])), u64::MAX);
    assert_eq!(state_key(&board(&[Cell::Empty; 32])), 0);
}

#[test]
fn new_table_is_empty() {
    let cfg = Config::new(2, 2, 1).unwrap();
    let table = StateMap::new(&cfg);
    assert_eq!(table.len(), 0);
    assert!(table.get(&State::hidden(&cfg)).is_none());
    assert_eq!(table.completion_count(&State::hidden(&cfg)), 0);
}

#[test]
fn add_completion_counts_per_board() {
    let cfg = Config::new(2, 2, 1).unwrap();
    let mut table = StateMap::new(&cfg);
    let hidden = State::hidden(&cfg);
    let one = board(&[Cell::Blue, Cell::Empty, Cell::Empty, Cell::Empty]);
    let other = board(&[Cell::Empty, Cell::Blue, Cell::Empty, Cell::Empty]);
    table.add_completion(&hidden);
    table.add_completion(&one);
    table.add_completion(&hidden);
    table.add_completion(&hidden);
    assert_eq!(table.completion_count(&hidden), 3);
    assert_eq!(table.completion_count(&one), 1);
    assert_eq!(table.completion_count(&other), 0);
    assert_eq!(table.len(), 2);
    let info = table.get(&hidden).unwrap();
    assert_eq!(info.cnt_completions, 3);
    assert_eq!(info.value, None);
    assert!(table.get(&other).is_none());
}

#[test]
fn set_value_keeps_the_count() {
    let cfg = Config::new(2, 2, 1).unwrap();
    let mut table = StateMap::new(&cfg);
    let hidden = State::hidden(&cfg);
    let one = board(&[Cell::Blue, Cell::Empty, Cell::Empty, Cell::Empty]);
    table.add_completion(&hidden);
    table.add_completion(&hidden);
    table.add_completion(&one);
    table.set_value(&hidden, 30);
    let info = table.get(&hidden).unwrap();
    assert_eq!(info.cnt_completions, 2);
    assert_eq!(info.value, Some(30));
    assert_eq!(table.get(&one).unwrap().value, None);
    assert_eq!(table.len(), 2);
    table.add_completion(&hidden);
    let info = table.get(&hidden).unwrap();
    assert_eq!(info.cnt_completions, 3);
    assert_eq!(info.value, Some(30));
}

#[test]
fn boards_that_differ_in_one_cell_are_kept_apart() {
    let cfg = Config::new(2, 1, 1).unwrap();
    let mut table = StateMap::new(&cfg);
    let colors = [Cell::Empty, Cell::Green, Cell::Blue, Cell::Red];
    let mut count = 0;
    for a in colors {
        for b in colors {
            count += 1;
            for _ in 0..count {
                table.add_completion(&board(&[a, b]));
            }
        }
    }
    assert_eq!(table.len(), 16);
    let mut expected = 0;
    for a in colors {
        for b in colors {
            expected += 1;
            assert_eq!(table.completion_count(&board(&[a, b])), expected);
        }
    }
}
