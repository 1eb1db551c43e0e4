//! Bounds on the value of a board.

use crate::arrangement::{
    arrangements, lemma_arrangements_valid, lemma_binomial_positive, lemma_combinations_len,
    positions,
};
use crate::clue::{clue_grid, lemma_clue_grid_hidden};
use crate::completion::{
    completions, consistent, count_consistent, lemma_completions_reveal, lemma_consistent_reveal,
    lemma_count_consistent_positive, lemma_masks_terminal_value,
};
use crate::grid::{
    Cell, Config, count_of, lemma_count_total, lemma_count_update, lemma_count_witness,
    lemma_terminal_value_reveal, terminal_value,
};
use crate::solver::{
    best_action, child_weight, lemma_terminal_value_max, lemma_value_is_best_reveal, reveal_weight,
    weighted_value,
};
use vstd::prelude::*;

verus! {

/// The terminal values of the fully revealed boards of those arrangements
/// of `arrs` that agree with `s`, summed.
pub open spec fn revealed_total(cfg: Config, arrs: Seq<Seq<(usize, usize)>>, s: Seq<Cell>) -> nat
    decreases arrs.len(),
{
    if arrs.len() == 0 {
        0
    } else {
        revealed_total(cfg, arrs.drop_last(), s) + if consistent(cfg, arrs.last(), s) {
            terminal_value(clue_grid(cfg, arrs.last()))
        } else {
            0
        }
    }
}

/// What a player who knew the arrangement would score from the board `s`,
/// summed over the arrangements that agree with `s`: each of them pays the
/// terminal value of its fully revealed board.
pub open spec fn full_reveal_total(cfg: Config, s: Seq<Cell>) -> nat {
    revealed_total(cfg, arrangements(cfg), s)
}

/// Over the arrangements `arrs`: what the three colors of a hidden cell
/// lead to, and the terminal value where the cell is a bomb, together pay no
/// more than the fully revealed boards.
proof fn lemma_revealed_total_reveal(
    cfg: Config,
    arrs: Seq<Seq<(usize, usize)>>,
    s: Seq<Cell>,
    i: int,
)
    requires
        0 <= i < s.len(),
        s[i] == Cell::Empty,
    ensures
        count_consistent(cfg, arrs, s.update(i, Cell::Green)) + count_consistent(
            cfg,
            arrs,
            s.update(i, Cell::Blue),
        ) + count_consistent(cfg, arrs, s.update(i, Cell::Red)) <= count_consistent(cfg, arrs, s),
        revealed_total(cfg, arrs, s.update(i, Cell::Green)) + revealed_total(
            cfg,
            arrs,
            s.update(i, Cell::Blue),
        ) + revealed_total(cfg, arrs, s.update(i, Cell::Red)) + (count_consistent(cfg, arrs, s)
            - count_consistent(cfg, arrs, s.update(i, Cell::Green)) - count_consistent(
            cfg,
            arrs,
            s.update(i, Cell::Blue),
        ) - count_consistent(cfg, arrs, s.update(i, Cell::Red))) * terminal_value(s)
            <= revealed_total(cfg, arrs, s),
    decreases arrs.len(),
{
    let green = s.update(i, Cell::Green);
    let blue = s.update(i, Cell::Blue);
    let red = s.update(i, Cell::Red);
    let t = terminal_value(s) as int;
    if arrs.len() == 0 {
        assert(0 * t == 0);
    } else {
        let front = arrs.drop_last();
        let a = arrs.last();
        let full = clue_grid(cfg, a);
        lemma_revealed_total_reveal(cfg, front, s, i);
        lemma_consistent_reveal(cfg, a, s, i, Cell::Green);
        lemma_consistent_reveal(cfg, a, s, i, Cell::Blue);
        lemma_consistent_reveal(cfg, a, s, i, Cell::Red);
        let d0 = count_consistent(cfg, front, s) - count_consistent(cfg, front, green)
            - count_consistent(cfg, front, blue) - count_consistent(cfg, front, red);
        let d1 = count_consistent(cfg, arrs, s) - count_consistent(cfg, arrs, green)
            - count_consistent(cfg, arrs, blue) - count_consistent(cfg, arrs, red);
        if consistent(cfg, a, s) {
            lemma_masks_terminal_value(full, s);
            if full[i] == Cell::Empty {
                assert(d1 == d0 + 1);
                assert(d1 * t == d0 * t + t) by (nonlinear_arith)
                    requires
                        d1 == d0 + 1,
                ;
            } else {
                assert(d1 == d0);
            }
        } else {
            assert(d1 == d0);
        }
    }
}

/// No action on a cell below `upto` is worth more than the fully revealed
/// boards pay.
proof fn lemma_best_action_revealed(cfg: Config, s: Seq<Cell>, upto: nat)
    ensures
        best_action(cfg, s, upto) <= full_reveal_total(cfg, s),
    decreases count_of(s, Cell::Empty), upto,
{
    if upto == 0 || upto > s.len() {
    } else {
        let i = upto - 1;
        lemma_best_action_revealed(cfg, s, (upto - 1) as nat);
        if s[i] == Cell::Empty {
            lemma_count_update(s, i, Cell::Green, Cell::Empty);
            lemma_count_update(s, i, Cell::Blue, Cell::Empty);
            lemma_count_update(s, i, Cell::Red, Cell::Empty);
            lemma_best_action_revealed(cfg, s.update(i, Cell::Green), s.len());
            lemma_best_action_revealed(cfg, s.update(i, Cell::Blue), s.len());
            lemma_best_action_revealed(cfg, s.update(i, Cell::Red), s.len());
            lemma_revealed_total_reveal(cfg, arrangements(cfg), s, i);
        }
    }
}

/// The expected score of a board is at most what a player who knew the
/// arrangement would score on average: the weighted value is at most the
/// sum, over the arrangements that agree with the board, of the terminal
/// values of their fully revealed boards.
pub proof fn lemma_value_at_most_full_reveal(cfg: Config, s: Seq<Cell>)
    ensures
        weighted_value(cfg, s) <= full_reveal_total(cfg, s),
{
    lemma_best_action_revealed(cfg, s, s.len());
}

/// On a board with a bomb, play from an indexed board ends no worse than
/// stopping at once: the expected score is at least the terminal value, so
/// the weighted value is at least the completion count times the terminal
/// value.
pub proof fn lemma_value_at_least_terminal(cfg: Config, s: Seq<Cell>)
    requires
        cfg.wf(),
        cfg.num_bombs >= 1,
        completions(cfg, s) > 0,
    ensures
        weighted_value(cfg, s) >= completions(cfg, s) * terminal_value(s),
    decreases count_of(s, Cell::Empty),
{
    lemma_terminal_value_max(cfg, s);
    lemma_count_witness(s, Cell::Empty);
    let i = choose|i: int| 0 <= i < s.len() && #[trigger] s[i] == Cell::Empty;
    lemma_value_is_best_reveal(cfg, s);
    lemma_completions_reveal(cfg, s, i);
    let green = s.update(i, Cell::Green);
    let blue = s.update(i, Cell::Blue);
    let red = s.update(i, Cell::Red);
    lemma_count_update(s, i, Cell::Green, Cell::Empty);
    lemma_count_update(s, i, Cell::Blue, Cell::Empty);
    lemma_count_update(s, i, Cell::Red, Cell::Empty);
    lemma_terminal_value_reveal(s, i, Cell::Green);
    lemma_terminal_value_reveal(s, i, Cell::Blue);
    lemma_terminal_value_reveal(s, i, Cell::Red);
    let t = terminal_value(s) as int;
    let total = completions(cfg, s) as int;
    let gc = completions(cfg, green) as int;
    let bc = completions(cfg, blue) as int;
    let rc = completions(cfg, red) as int;
    let gw = child_weight(cfg, green) as int;
    let bw = child_weight(cfg, blue) as int;
    let rw = child_weight(cfg, red) as int;
    if gc > 0 {
        lemma_value_at_least_terminal(cfg, green);
        assert(gw >= gc * t) by (nonlinear_arith)
            requires
                gw >= gc * (t + 1),
                gc >= 0,
                t >= 0,
        ;
    } else {
        assert(gc * t == 0) by (nonlinear_arith)
            requires
                gc == 0,
        ;
    }
    if bc > 0 {
        lemma_value_at_least_terminal(cfg, blue);
        assert(bw >= bc * t) by (nonlinear_arith)
            requires
                bw >= bc * (t + 5),
                bc >= 0,
                t >= 0,
        ;
    } else {
        assert(bc * t == 0) by (nonlinear_arith)
            requires
                bc == 0,
        ;
    }
    if rc > 0 {
        lemma_value_at_least_terminal(cfg, red);
        assert(rw >= rc * t) by (nonlinear_arith)
            requires
                rw >= rc * (t + 20),
                rc >= 0,
                t >= 0,
        ;
    } else {
        assert(rc * t == 0) by (nonlinear_arith)
            requires
                rc == 0,
        ;
    }
    assert(reveal_weight(cfg, s, i) == gw + bw + rw + (total - gc - bc - rc) * t);
    assert(gw + bw + rw + (total - gc - bc - rc) * t >= total * t) by (nonlinear_arith)
        requires
            gw >= gc * t,
            bw >= bc * t,
            rw >= rc * t,
    ;
}

/// On a board with a bomb and a cell without one, the hidden board has a
/// positive value: some reveal can show a color, and play from there ends
/// no worse than with the reward of that color.
pub proof fn lemma_hidden_value_positive(cfg: Config)
    requires
        cfg.wf(),
        1 <= cfg.num_bombs < cfg.cells(),
    ensures
        weighted_value(cfg, Seq::new(cfg.cells(), |i: int| Cell::Empty)) > 0,
{
    let hidden = Seq::new(cfg.cells(), |i: int| Cell::Empty);
    lemma_combinations_len(positions(cfg), cfg.num_bombs as nat);
    lemma_binomial_positive(cfg.cells(), cfg.num_bombs as nat);
    let a = arrangements(cfg)[0];
    lemma_arrangements_valid(cfg, 0);
    let full = clue_grid(cfg, a);
    lemma_clue_grid_hidden(cfg, a);
    lemma_count_total(full);
    let c = if count_of(full, Cell::Green) > 0 {
        Cell::Green
    } else if count_of(full, Cell::Blue) > 0 {
        Cell::Blue
    } else {
        Cell::Red
    };
    lemma_count_witness(full, c);
    let i = choose|i: int| 0 <= i < full.len() && #[trigger] full[i] == c;
    let shown = hidden.update(i, c);
    assert(consistent(cfg, a, shown));
    lemma_count_consistent_positive(cfg, arrangements(cfg), 0, shown);
    lemma_value_at_least_terminal(cfg, shown);
    lemma_terminal_value_reveal(hidden, i, c);
    let count = completions(cfg, shown) as int;
    let t = terminal_value(shown) as int;
    assert(count * t >= 1) by (nonlinear_arith)
        requires
            count >= 1,
            t >= 1,
    ;
    lemma_value_is_best_reveal(cfg, hidden);
    lemma_completions_reveal(cfg, hidden, i);
    assert(child_weight(cfg, shown) >= 1);
    let bombs = completions(cfg, hidden) - completions(cfg, hidden.update(i, Cell::Green))
        - completions(cfg, hidden.update(i, Cell::Blue)) - completions(
        cfg,
        hidden.update(i, Cell::Red),
    );
    assert(bombs * terminal_value(hidden) >= 0) by (nonlinear_arith)
        requires
            bombs >= 0,
            terminal_value(hidden) >= 0,
    ;
    assert(reveal_weight(cfg, hidden, i) >= 1);
}

} // verus!
