//! The value of a board under optimal play, by backward induction over the
//! indexed boards.
//!
//! The expected score of a board is a fraction whose denominator is the
//! completion count of the board. The solver works with the numerator alone,
//! the *weighted value*: the expected score multiplied by the completion
//! count, which is the score summed over the arrangements that agree with
//! the board. If revealing a hidden cell shows a color in `c` of the
//! board's `t` arrangements and leads to a board of expected score `v`, that
//! outcome adds `(c / t) * v` to the expected score of the action, hence
//! `c * v`, the weighted value of the board it leads to, to the weighted
//! value of the action. Hitting a bomb, in the remaining arrangements, ends
//! the game with the terminal value of the board.

use crate::arrangement::{arrangements, lemma_arrangements_valid};
use crate::clue::{clue_grid, lemma_clue_grid_hidden};
use crate::completion::{
    completions, consistent, lemma_completions_bound, lemma_completions_monotone,
    lemma_completions_reveal, lemma_consistent_witness, lemma_masks_hidden, lemma_masks_reveal,
    lemma_masks_transitive, masks,
};
use crate::grid::{
    Cell, compute_terminal_state_value, Config, count_of, lemma_count_total, lemma_count_update,
    lemma_terminal_value_bound, RED_REWARD, State, terminal_value,
};
use crate::index::is_index;
use crate::table::{StateInfo, StateMap, value_in};
use vstd::arithmetic::power2::{lemma2_to64, lemma_pow2_strictly_increases};
use vstd::prelude::*;

verus! {

/// The weighted value of revealing one hidden cell of a board with `total`
/// completions and terminal value `terminal`: the weighted values of the
/// boards that the three colors lead to, and the terminal value for each
/// arrangement in which the cell is a bomb.
pub open spec fn action_weight(
    total: nat,
    terminal: nat,
    green_count: nat,
    green_weight: nat,
    blue_count: nat,
    blue_weight: nat,
    red_count: nat,
    red_weight: nat,
) -> int {
    green_weight + blue_weight + red_weight + (total - green_count - blue_count - red_count)
        * terminal
}

/// The best weighted value among the actions on the hidden cells at the
/// places below `upto`; zero if there is no such cell. A board that no
/// arrangement agrees with cannot come up and counts for nothing.
pub open spec fn best_action(cfg: Config, s: Seq<Cell>, upto: nat) -> nat
    decreases count_of(s, Cell::Empty), upto,
{
    if upto == 0 || upto > s.len() {
        0
    } else {
        let i = upto - 1;
        let prev = best_action(cfg, s, (upto - 1) as nat);
        if s[i] == Cell::Empty {
            proof {
                lemma_count_update(s, i, Cell::Green, Cell::Empty);
                lemma_count_update(s, i, Cell::Blue, Cell::Empty);
                lemma_count_update(s, i, Cell::Red, Cell::Empty);
            }
            let green = s.update(i, Cell::Green);
            let blue = s.update(i, Cell::Blue);
            let red = s.update(i, Cell::Red);
            let action = action_weight(
                completions(cfg, s),
                terminal_value(s),
                completions(cfg, green),
                if completions(cfg, green) > 0 {
                    best_action(cfg, green, s.len())
                } else {
                    0
                },
                completions(cfg, blue),
                if completions(cfg, blue) > 0 {
                    best_action(cfg, blue, s.len())
                } else {
                    0
                },
                completions(cfg, red),
                if completions(cfg, red) > 0 {
                    best_action(cfg, red, s.len())
                } else {
                    0
                },
            );
            if action > prev {
                action as nat
            } else {
                prev
            }
        } else {
            prev
        }
    }
}

/// The weighted value of a board: its best expected score under optimal
/// play, multiplied by its completion count. It is the best weighted value
/// among the actions on its hidden cells. A cell that hides a bomb in every
/// arrangement is an action too, worth the terminal value. A board without
/// a hidden cell has no action and the value zero, whatever it shows.
pub open spec fn weighted_value(cfg: Config, s: Seq<Cell>) -> nat {
    best_action(cfg, s, s.len())
}

/// What a board that a reveal leads to adds to the weighted value of the
/// reveal: its weighted value, or nothing if no arrangement agrees with it.
pub open spec fn child_weight(cfg: Config, t: Seq<Cell>) -> nat {
    if completions(cfg, t) > 0 {
        weighted_value(cfg, t)
    } else {
        0
    }
}

/// The weighted value of revealing the hidden cell at place `i` of `s`.
pub open spec fn reveal_weight(cfg: Config, s: Seq<Cell>, i: int) -> int {
    action_weight(
        completions(cfg, s),
        terminal_value(s),
        completions(cfg, s.update(i, Cell::Green)),
        child_weight(cfg, s.update(i, Cell::Green)),
        completions(cfg, s.update(i, Cell::Blue)),
        child_weight(cfg, s.update(i, Cell::Blue)),
        completions(cfg, s.update(i, Cell::Red)),
        child_weight(cfg, s.update(i, Cell::Red)),
    )
}

/// The best action below `upto` is worth at least the reveal of any hidden
/// cell below `upto`.
proof fn lemma_best_action_dominates(cfg: Config, s: Seq<Cell>, upto: nat, i: int)
    requires
        0 <= i < upto <= s.len(),
        s[i] == Cell::Empty,
    ensures
        best_action(cfg, s, upto) >= reveal_weight(cfg, s, i),
    decreases upto,
{
    if i < upto - 1 {
        lemma_best_action_dominates(cfg, s, (upto - 1) as nat, i);
    }
}

/// The best action below `upto` is worth nothing or what the reveal of some
/// hidden cell below `upto` is worth.
proof fn lemma_best_action_attained(cfg: Config, s: Seq<Cell>, upto: nat)
    requires
        upto <= s.len(),
    ensures
        best_action(cfg, s, upto) == 0 || exists|i: int|
            0 <= i < upto && s[i] == Cell::Empty && best_action(cfg, s, upto)
                == #[trigger] reveal_weight(cfg, s, i),
    decreases upto,
{
    if upto > 0 {
        lemma_best_action_attained(cfg, s, (upto - 1) as nat);
        let prev = best_action(cfg, s, (upto - 1) as nat);
        if s[upto - 1] == Cell::Empty && reveal_weight(cfg, s, upto - 1) > prev {
            assert(best_action(cfg, s, upto) == reveal_weight(cfg, s, upto - 1));
        } else if prev != 0 {
            let i = choose|i: int|
                0 <= i < upto - 1 && s[i] == Cell::Empty && prev == #[trigger] reveal_weight(
                    cfg,
                    s,
                    i,
                );
            assert(best_action(cfg, s, upto) == reveal_weight(cfg, s, i));
        }
    }
}

/// The weighted value of a board is the best of the weighted values of
/// revealing one of its hidden cells: no reveal is worth more, and unless the
/// value is zero some reveal is worth exactly that.
pub proof fn lemma_value_is_best_reveal(cfg: Config, s: Seq<Cell>)
    ensures
        forall|i: int|
            0 <= i < s.len() && s[i] == Cell::Empty ==> weighted_value(cfg, s)
                >= #[trigger] reveal_weight(cfg, s, i),
        weighted_value(cfg, s) == 0 || exists|i: int|
            0 <= i < s.len() && s[i] == Cell::Empty && weighted_value(cfg, s)
                == #[trigger] reveal_weight(cfg, s, i),
{
    assert forall|i: int| 0 <= i < s.len() && s[i] == Cell::Empty implies weighted_value(cfg, s)
        >= #[trigger] reveal_weight(cfg, s, i) by {
        lemma_best_action_dominates(cfg, s, s.len(), i);
    }
    lemma_best_action_attained(cfg, s, s.len());
}

/// Every value that the table holds is the weighted value of its board.
pub open spec fn values_sound(m: Map<Seq<Cell>, StateInfo>, cfg: Config) -> bool {
    forall|s: Seq<Cell>|
        #[trigger] m.contains_key(s) ==> (m[s].value matches Some(v) ==> v == weighted_value(
            cfg,
            s,
        ))
}

/// A board that shows at least what a board with a value shows has a value
/// too, if the table holds it.
pub open spec fn values_closed(m: Map<Seq<Cell>, StateInfo>) -> bool {
    forall|u: Seq<Cell>, t: Seq<Cell>|
        value_in(m, u) is Some && m.contains_key(t) && #[trigger] masks(t, u) ==> value_in(m, t)
            is Some
}

/// The record of a board with its value filled in.
pub open spec fn solved_info(info: StateInfo, cfg: Config, t: Seq<Cell>) -> StateInfo {
    StateInfo {
        cnt_completions: info.cnt_completions,
        value: Some(weighted_value(cfg, t) as u64),
    }
}

/// The table `m` after the board `s` has been solved: every board of the
/// table that shows at least what `s` shows has its value, and the other
/// boards are as they were.
pub open spec fn solved(m: Map<Seq<Cell>, StateInfo>, cfg: Config, s: Seq<Cell>) -> Map<
    Seq<Cell>,
    StateInfo,
> {
    Map::new(
        |t: Seq<Cell>| m.contains_key(t),
        |t: Seq<Cell>|
            if masks(t, s) {
                solved_info(m[t], cfg, t)
            } else {
                m[t]
            },
    )
}

/// The board `t` shows a color in a cell below `upto` that `s` hides.
pub open spec fn shows_more(s: Seq<Cell>, t: Seq<Cell>, upto: nat) -> bool
    decreases upto,
{
    if upto == 0 {
        false
    } else {
        shows_more(s, t, (upto - 1) as nat) || (s[upto - 1] == Cell::Empty && t[upto - 1]
            != Cell::Empty)
    }
}

/// The table `m` while the board `s` is being solved, after the hidden
/// cells below `upto` have been tried: the boards that show more than `s` in
/// one of those cells have their values.
pub open spec fn solved_upto(
    m: Map<Seq<Cell>, StateInfo>,
    cfg: Config,
    s: Seq<Cell>,
    upto: nat,
) -> Map<Seq<Cell>, StateInfo> {
    Map::new(
        |t: Seq<Cell>| m.contains_key(t),
        |t: Seq<Cell>|
            if masks(t, s) && shows_more(s, t, upto) {
                solved_info(m[t], cfg, t)
            } else {
                m[t]
            },
    )
}

/// A board that shows at least what `s` shows shows no more in the cells
/// below `upto` exactly if it equals `s` there.
proof fn lemma_shows_more(s: Seq<Cell>, t: Seq<Cell>, upto: nat)
    requires
        masks(t, s),
        upto <= s.len(),
    ensures
        !shows_more(s, t, upto) <==> (forall|j: int| 0 <= j < upto ==> #[trigger] t[j] == s[j]),
    decreases upto,
{
    if upto > 0 {
        lemma_shows_more(s, t, (upto - 1) as nat);
        assert(s[upto - 1] == Cell::Empty || s[upto - 1] == t[upto - 1]);
        if !shows_more(s, t, upto) {
            assert forall|j: int| 0 <= j < upto implies #[trigger] t[j] == s[j] by {
                if j == upto - 1 {
                    assert(s[j] == Cell::Empty || s[j] == t[j]);
                }
            }
        }
        if forall|j: int| 0 <= j < upto ==> #[trigger] t[j] == s[j] {
            assert(t[upto - 1] == s[upto - 1]);
            assert forall|j: int| 0 <= j < upto - 1 implies #[trigger] t[j] == s[j] by {}
        }
    }
}

/// Solving a board keeps the table an index with sound and closed values.
pub proof fn lemma_solved_preserves(m: Map<Seq<Cell>, StateInfo>, cfg: Config, s: Seq<Cell>)
    requires
        cfg.wf(),
        is_index(m, cfg),
        values_sound(m, cfg),
        values_closed(m),
    ensures
        is_index(solved(m, cfg, s), cfg),
        values_sound(solved(m, cfg, s), cfg),
        values_closed(solved(m, cfg, s)),
        forall|t: Seq<Cell>|
            value_in(m, t) is Some ==> #[trigger] value_in(solved(m, cfg, s), t) == value_in(m, t),
{
    let r = solved(m, cfg, s);
    assert forall|t: Seq<Cell>|
        #![trigger r.contains_key(t)]
        #![trigger completions(cfg, t)]
        (r.contains_key(t) <==> completions(cfg, t) > 0) && (r.contains_key(t)
            ==> r[t].cnt_completions == completions(cfg, t)) by {
        assert(m.contains_key(t) <==> completions(cfg, t) > 0);
    }
    assert forall|t: Seq<Cell>| #[trigger] r.contains_key(t) implies (r[t].value matches Some(v)
        ==> v == weighted_value(cfg, t)) by {
        assert(m.contains_key(t));
        lemma_weights_fit(cfg, t);
    }
    assert forall|u: Seq<Cell>, t: Seq<Cell>|
        value_in(r, u) is Some && r.contains_key(t) && #[trigger] masks(t, u) implies value_in(r, t)
            is Some by {
        assert(m.contains_key(t));
        if value_in(m, u) is Some {
            assert(value_in(m, t) is Some);
        } else {
            assert(masks(u, s));
            lemma_masks_transitive(t, u, s);
        }
    }
    assert forall|t: Seq<Cell>| value_in(m, t) is Some implies #[trigger] value_in(r, t)
        == value_in(m, t) by {
        assert(m.contains_key(t));
        lemma_weights_fit(cfg, t);
    }
}

/// Solving a board whose value the table holds changes nothing.
pub proof fn lemma_solved_again(m: Map<Seq<Cell>, StateInfo>, cfg: Config, s: Seq<Cell>)
    requires
        cfg.wf(),
        values_sound(m, cfg),
        values_closed(m),
        value_in(m, s) is Some,
    ensures
        solved(m, cfg, s) == m,
{
    assert forall|t: Seq<Cell>| m.contains_key(t) && masks(t, s) implies solved_info(m[t], cfg, t)
        == m[t] by {
        assert(value_in(m, t) is Some);
        lemma_weights_fit(cfg, t);
    }
    assert(solved(m, cfg, s) =~= m);
}

/// Solving a board twice leaves the table as solving it once does.
pub proof fn lemma_solved_idempotent(m: Map<Seq<Cell>, StateInfo>, cfg: Config, s: Seq<Cell>)
    ensures
        solved(solved(m, cfg, s), cfg, s) == solved(m, cfg, s),
{
    assert(solved(solved(m, cfg, s), cfg, s) =~= solved(m, cfg, s));
}

/// Solving a board that no arrangement agrees with changes nothing.
pub proof fn lemma_solved_nothing(m: Map<Seq<Cell>, StateInfo>, cfg: Config, s: Seq<Cell>)
    requires
        is_index(m, cfg),
        completions(cfg, s) == 0,
    ensures
        solved(m, cfg, s) == m,
{
    assert forall|t: Seq<Cell>| m.contains_key(t) implies !masks(t, s) by {
        if masks(t, s) {
            lemma_completions_monotone(cfg, t, s);
        }
    }
    assert(solved(m, cfg, s) =~= m);
}

/// Trying the cell at place `i`, if it is hidden, with each of the three
/// colors takes the table from the cells below `i` to the cells below
/// `i + 1`.
proof fn lemma_solved_step(
    m: Map<Seq<Cell>, StateInfo>,
    cfg: Config,
    s: Seq<Cell>,
    i: int,
    after: Map<Seq<Cell>, StateInfo>,
)
    requires
        0 <= i < s.len(),
        s[i] == Cell::Empty ==> after == solved(
            solved(
                solved(solved_upto(m, cfg, s, i as nat), cfg, s.update(i, Cell::Green)),
                cfg,
                s.update(i, Cell::Blue),
            ),
            cfg,
            s.update(i, Cell::Red),
        ),
        s[i] != Cell::Empty ==> after == solved_upto(m, cfg, s, i as nat),
    ensures
        after == solved_upto(m, cfg, s, (i + 1) as nat),
{
    let next = solved_upto(m, cfg, s, (i + 1) as nat);
    if s[i] == Cell::Empty {
        assert forall|t: Seq<Cell>|
            (#[trigger] masks(t, s.update(i, Cell::Green)) <==> masks(t, s) && t[i] == Cell::Green)
                && (#[trigger] masks(t, s.update(i, Cell::Blue)) <==> masks(t, s) && t[i]
                == Cell::Blue) && (#[trigger] masks(t, s.update(i, Cell::Red)) <==> masks(t, s)
                && t[i] == Cell::Red) by {
            lemma_masks_reveal(t, s, i, Cell::Green);
            lemma_masks_reveal(t, s, i, Cell::Blue);
            lemma_masks_reveal(t, s, i, Cell::Red);
        }
    }
    assert(after =~= next);
}

/// When every hidden cell has been tried, recording the value of the board
/// completes its solution.
proof fn lemma_solved_done(
    m: Map<Seq<Cell>, StateInfo>,
    cfg: Config,
    s: Seq<Cell>,
    before: Map<Seq<Cell>, StateInfo>,
    after: Map<Seq<Cell>, StateInfo>,
)
    requires
        m.contains_key(s),
        weighted_value(cfg, s) <= u64::MAX,
        before == solved_upto(m, cfg, s, s.len()),
        after == before.insert(
            s,
            (StateInfo {
                cnt_completions: before[s].cnt_completions,
                value: Some(weighted_value(cfg, s) as u64),
            }),
        ),
    ensures
        after == solved(m, cfg, s),
{
    assert forall|t: Seq<Cell>| masks(t, s) implies (shows_more(s, t, s.len()) <==> t != s) by {
        lemma_shows_more(s, t, s.len());
        if !shows_more(s, t, s.len()) {
            assert(t =~= s);
        }
    }
    assert(after =~= solved(m, cfg, s));
}

/// The largest score that any game on the board can reach: the largest
/// reward on every cell without a bomb.
pub open spec fn max_score(cfg: Config) -> nat {
    (RED_REWARD * (cfg.cells() - cfg.num_bombs)) as nat
}

/// A board that some arrangement agrees with has the size of the board,
/// hides at least the bombs, and has a terminal value of at most the largest
/// score.
pub proof fn lemma_terminal_value_max(cfg: Config, s: Seq<Cell>)
    requires
        cfg.wf(),
        completions(cfg, s) > 0,
    ensures
        s.len() == cfg.cells(),
        count_of(s, Cell::Empty) >= cfg.num_bombs,
        terminal_value(s) <= max_score(cfg),
{
    lemma_consistent_witness(cfg, arrangements(cfg), s);
    let j = choose|j: int|
        0 <= j < arrangements(cfg).len() && consistent(cfg, #[trigger] arrangements(cfg)[j], s);
    let a = arrangements(cfg)[j];
    lemma_arrangements_valid(cfg, j);
    lemma_clue_grid_hidden(cfg, a);
    lemma_masks_hidden(clue_grid(cfg, a), s);
    lemma_terminal_value_bound(s);
}

/// No action on a cell below `upto` is worth more than the largest score in
/// every arrangement that agrees with the board.
proof fn lemma_best_action_bound(cfg: Config, s: Seq<Cell>, upto: nat)
    requires
        cfg.wf(),
    ensures
        best_action(cfg, s, upto) <= completions(cfg, s) * max_score(cfg),
    decreases count_of(s, Cell::Empty), upto,
{
    let m = max_score(cfg);
    let total = completions(cfg, s);
    assert(0 <= total * m) by (nonlinear_arith)
        requires
            0 <= total,
            0 <= m,
    ;
    if upto == 0 || upto > s.len() {
    } else {
        let i = upto - 1;
        lemma_best_action_bound(cfg, s, (upto - 1) as nat);
        if s[i] == Cell::Empty {
            lemma_count_update(s, i, Cell::Green, Cell::Empty);
            lemma_count_update(s, i, Cell::Blue, Cell::Empty);
            lemma_count_update(s, i, Cell::Red, Cell::Empty);
            let green = s.update(i, Cell::Green);
            let blue = s.update(i, Cell::Blue);
            let red = s.update(i, Cell::Red);
            lemma_best_action_bound(cfg, green, s.len());
            lemma_best_action_bound(cfg, blue, s.len());
            lemma_best_action_bound(cfg, red, s.len());
            lemma_completions_reveal(cfg, s, i);
            let gc = completions(cfg, green);
            let bc = completions(cfg, blue);
            let rc = completions(cfg, red);
            let gw = if gc > 0 {
                best_action(cfg, green, s.len())
            } else {
                0
            };
            let bw = if bc > 0 {
                best_action(cfg, blue, s.len())
            } else {
                0
            };
            let rw = if rc > 0 {
                best_action(cfg, red, s.len())
            } else {
                0
            };
            let t = terminal_value(s);
            if total > 0 {
                lemma_terminal_value_max(cfg, s);
            }
            assert(action_weight(total, t, gc, gw, bc, bw, rc, rw) <= total * m)
                by (nonlinear_arith)
                requires
                    gw <= gc * m,
                    bw <= bc * m,
                    rw <= rc * m,
                    gc + bc + rc <= total,
                    total > 0 ==> t <= m,
                    0 <= m,
                    action_weight(total, t, gc, gw, bc, bw, rc, rw) == gw + bw + rw + (total - gc
                        - bc - rc) * t,
            ;
        }
    }
}

/// The expected score of a board lies between zero and the largest score
/// that any game can reach: the weighted value is at most the completion
/// count times that score.
pub proof fn lemma_value_bound(cfg: Config, s: Seq<Cell>)
    requires
        cfg.wf(),
    ensures
        0 <= weighted_value(cfg, s) <= completions(cfg, s) * max_score(cfg),
{
    lemma_best_action_bound(cfg, s, s.len());
}

/// The numbers that the solver adds and multiplies fit 64 bits.
proof fn lemma_weights_fit(cfg: Config, s: Seq<Cell>)
    requires
        cfg.wf(),
    ensures
        completions(cfg, s) <= 0x1_0000_0000,
        max_score(cfg) <= 640,
        completions(cfg, s) * max_score(cfg) <= 0x280_0000_0000,
        weighted_value(cfg, s) <= 0x280_0000_0000,
{
    lemma_completions_bound(cfg, s);
    lemma2_to64();
    if cfg.cells() < 32 {
        lemma_pow2_strictly_increases(cfg.cells(), 32);
    }
    lemma_value_bound(cfg, s);
    let c = completions(cfg, s);
    let m = max_score(cfg);
    assert(c * m <= 0x280_0000_0000) by (nonlinear_arith)
        requires
            0 <= c <= 0x1_0000_0000,
            0 <= m <= 640,
    ;
}

/// The completion count of a board and its weighted value: the expected
/// score of the board under optimal play is the second divided by the first.
/// A board that no arrangement agrees with has no score, and both are zero.
pub fn solve_state(cfg: &Config, state: &mut State, state_map: &mut StateMap) -> (r: (u64, u64))
    requires
        cfg.wf(),
        old(state_map).wf(),
        old(state_map).cells() == cfg.cells(),
        is_index(old(state_map)@, *cfg),
        values_sound(old(state_map)@, *cfg),
        values_closed(old(state_map)@),
        old(state)@.len() == cfg.cells(),
    ensures
        r.0 == completions(*cfg, old(state)@),
        r.1 == child_weight(*cfg, old(state)@),
        final(state)@ == old(state)@,
        final(state_map).wf(),
        final(state_map).cells() == cfg.cells(),
        final(state_map)@ == solved(old(state_map)@, *cfg, old(state)@),
        is_index(final(state_map)@, *cfg),
        values_sound(final(state_map)@, *cfg),
        values_closed(final(state_map)@),
    decreases count_of(old(state)@, Cell::Empty), 1nat,
{
    let count = state_map.completion_count(state);
    if count > 0 {
        let value = compute_value(cfg, state, state_map);
        (count, value)
    } else {
        proof {
            lemma_solved_nothing(state_map@, *cfg, state@);
        }
        (count, 0)
    }
}

/// The weighted value of a board that has been indexed: its best expected
/// score under optimal play multiplied by its completion count. The value is
/// recorded in the table; a board whose value the table already holds is
/// answered from the table, which then stays as it is. Each hidden cell is
/// tried in place, with each color in turn, and hidden again afterwards.
pub fn compute_value(cfg: &Config, state: &mut State, state_map: &mut StateMap) -> (value: u64)
    requires
        cfg.wf(),
        old(state_map).wf(),
        old(state_map).cells() == cfg.cells(),
        is_index(old(state_map)@, *cfg),
        values_sound(old(state_map)@, *cfg),
        values_closed(old(state_map)@),
        old(state_map)@.contains_key(old(state)@),
    ensures
        value == weighted_value(*cfg, old(state)@),
        final(state)@ == old(state)@,
        final(state_map).wf(),
        final(state_map).cells() == cfg.cells(),
        final(state_map)@ == solved(old(state_map)@, *cfg, old(state)@),
        value_in(old(state_map)@, old(state)@) is Some ==> final(state_map)@ == old(state_map)@,
        is_index(final(state_map)@, *cfg),
        values_sound(final(state_map)@, *cfg),
        values_closed(final(state_map)@),
    decreases count_of(old(state)@, Cell::Empty), 0nat,
{
    let ghost s0 = state@;
    let ghost m0 = state_map@;
    let n = cfg.num_cells();
    proof {
        lemma_solved_preserves(m0, *cfg, s0);
    }
    let total = match state_map.get(state) {
        Some(info) => {
            match info.value {
                Some(v) => {
                    proof {
                        lemma_solved_again(m0, *cfg, s0);
                    }
                    return v;
                },
                None => {},
            }
            info.cnt_completions
        },
        None => 0,
    };
    proof {
        lemma_weights_fit(*cfg, s0);
        lemma_terminal_value_bound(s0);
        lemma_count_total(s0);
    }
    let terminal = compute_terminal_state_value(state);
    let mut best: u64 = 0;
    let mut i: usize = 0;
    while i < n
        invariant
            cfg.wf(),
            i <= n,
            n == cfg.cells(),
            state@ == s0,
            s0 == old(state)@,
            s0.len() == n,
            total == completions(*cfg, s0),
            terminal == terminal_value(s0),
            terminal <= 640,
            best == best_action(*cfg, s0, i as nat),
            state_map.wf(),
            state_map.cells() == cfg.cells(),
            is_index(state_map@, *cfg),
            values_sound(state_map@, *cfg),
            values_closed(state_map@),
            state_map@ == solved_upto(m0, *cfg, s0, i as nat),
        decreases n - i,
    {
        let ghost before = state_map@;
        if state.cells[i] == Cell::Empty {
            let ghost green = s0.update(i as int, Cell::Green);
            let ghost blue = s0.update(i as int, Cell::Blue);
            let ghost red = s0.update(i as int, Cell::Red);
            proof {
                lemma_count_update(s0, i as int, Cell::Green, Cell::Empty);
                lemma_count_update(s0, i as int, Cell::Blue, Cell::Empty);
                lemma_count_update(s0, i as int, Cell::Red, Cell::Empty);
                lemma_completions_reveal(*cfg, s0, i as int);
                lemma_weights_fit(*cfg, green);
                lemma_weights_fit(*cfg, blue);
                lemma_weights_fit(*cfg, red);
                lemma_weights_fit(*cfg, s0);
                lemma_best_action_bound(*cfg, s0, (i + 1) as nat);
            }
            state.cells.set(i, Cell::Green);
            assert(state@ == green);
            let (green_cnt, green_value) = solve_state(cfg, state, state_map);
            state.cells.set(i, Cell::Blue);
            assert(state@ =~= blue);
            let (blue_cnt, blue_value) = solve_state(cfg, state, state_map);
            state.cells.set(i, Cell::Red);
            assert(state@ =~= red);
            let (red_cnt, red_value) = solve_state(cfg, state, state_map);
            let bomb_cnt = total - green_cnt - blue_cnt - red_cnt;
            assert(bomb_cnt * terminal <= 0x280_0000_0000) by (nonlinear_arith)
                requires
                    bomb_cnt <= 0x1_0000_0000,
                    terminal <= 640,
            ;
            let action_value = green_value + blue_value + red_value + bomb_cnt * terminal;
            if action_value > best {
                best = action_value;
            }
            state.cells.set(i, Cell::Empty);
            assert(state@ =~= s0);
        }
        proof {
            lemma_solved_step(m0, *cfg, s0, i as int, state_map@);
        }
        i += 1;
    }
    let ghost m1 = state_map@;
    state_map.set_value(state, best);
    proof {
        lemma_solved_done(m0, *cfg, s0, m1, state_map@);
    }
    best
}

} // verus!
