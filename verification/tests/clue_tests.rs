use bomb_grid::grid::Cell::{Blue as B, Empty as E, Green as G, Red as R};
use bomb_grid::clue::arrangement_to_state;
use bomb_grid::grid::{Cell, Config};

#[test]
fn single_bomb_in_the_corner() {
    let cfg = Config::new(5, 4, 1).unwrap();
    let state = arrangement_to_state(&cfg, &vec![(0, 0)]);
    for y in 0..4 {
        for x in 0..5 {
            let expected = match (x, y) {
                (0, 0) => Cell::Empty,
                (1, 0) | (0, 1) | (1, 1) => Cell::Blue,
                _ => Cell::Green,
            };
            assert_eq!(state.get(&cfg, x, y), expected);
        }
    }
    let blue = state.cells.iter().filter(|c| **c == Cell::Blue).count();
    assert_eq!(blue, 3);
}

#[test]
fn single_bomb_in_the_middle() {
    let cfg = Config::new(5, 4, 1).unwrap();
    let state = arrangement_to_state(&cfg, &vec![(2, 1)]);
    assert_eq!(
        state.cells,
        vec![
            G, B, B, B, G, //
            G, B, E, B, G, //
            G, B, B, B, G, //
            G, G, G, G, G,
        ]
    );
}

#[test]
fn bomb_in_the_far_corner() {
    let cfg = Config::new(5, 4, 1).unwrap();
    let state = arrangement_to_state(&cfg, &vec![(4, 3)]);
    assert_eq!(
        state.cells,
        vec![
            G, G, G, G, G, //
            G, G, G, G, G, //
            G, G, G, B, B, //
            G, G, G, B, E,
        ]
    );
}

#[test]
fn two_neighbors_are_blue_and_three_are_red() {
    let cfg = Config::new(5, 4, 3).unwrap();
    let state = arrangement_to_state(&cfg, &vec![(0, 0), (1, 0), (2, 0)]);
    assert_eq!(
        state.cells,
        vec![
            E, E, E, B, G, //
            B, R, B, B, G, //
            G, G, G, G, G, //
            G, G, G, G, G,
        ]
    );
}

#[test]
fn four_neighbors_are_red() {
    let cfg = Config::new(5, 4, 4).unwrap();
    let state = arrangement_to_state(&cfg, &vec![(0, 0), (2, 0), (0, 2), (2, 2)]);
    assert_eq!(
        state.cells,
        vec![
            E, B, E, B, G, //
            B, R, B, B, G, //
            E, B, E, B, G, //
            B, B, B, B, G,
        ]
    );
}

#[test]
fn a_block_of_four_bombs() {
    let cfg = Config::new(5, 4, 4).unwrap();
    let state = arrangement_to_state(&cfg, &vec![(1, 1), (2, 1), (1, 2), (2, 2)]);
    assert_eq!(
        state.cells,
        vec![
            B, B, B, B, Cell::Green, //
            B, E, E, B, Cell::Green, //
            B, E, E, B, Cell::Green, //
            B, B, B, B, Cell::Green,
        ]
    );
}

#[test]
fn the_order_of_the_bombs_does_not_matter() {
    let cfg = Config::new(5, 4, 4).unwrap();
    let one = arrangement_to_state(&cfg, &vec![(0, 0), (4, 3), (2, 1), (3, 1)]);
    let other = arrangement_to_state(&cfg, &vec![(3, 1), (2, 1), (0, 0), (4, 3)]);
    assert_eq!(one.cells, other.cells);
    assert_eq!(one.cells.iter().filter(|c| **c == Cell::Empty).count(), 4);
}

#[test]
fn no_bombs_leave_every_cell_green() {
    let cfg = Config::new(3, 2, 0).unwrap();
    let state = arrangement_to_state(&cfg, &vec![]);
    assert_eq!(state.cells, vec![Cell::Green; 6]);
}

#[test]
fn many_bombs_on_a_single_row() {
    let cfg = Config { width: 7, height: 1, num_bombs: 5 };
    let state = arrangement_to_state(&cfg, &vec![(0, 0), (1, 0), (2, 0), (4, 0), (6, 0)]);
    assert_eq!(state.cells, vec![E, E, E, B, E, B, E]);
}

#[test]
fn a_bomb_named_twice_counts_twice() {
    let cfg = Config::new(3, 1, 2).unwrap();
    let state = arrangement_to_state(&cfg, &vec![(0, 0), (0, 0)]);
    assert_eq!(state.cells, vec![E, B, G]);
    let cfg = Config::new(3, 1, 3).unwrap();
    let state = arrangement_to_state(&cfg, &vec![(0, 0), (0, 0), (0, 0)]);
    assert_eq!(state.cells, vec![E, R, G]);
}

#[test]
fn a_single_row() {
    let cfg = Config::new(5, 1, 2).unwrap();
    let state = arrangement_to_state(&cfg, &vec![(1, 0), (3, 0)]);
    assert_eq!(state.cells, vec![B, E, B, E, B]);
}
