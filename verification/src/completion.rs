//! Which arrangements agree with a board, and how many.

use crate::arrangement::{
    arrangements, binomial, in_board_order, is_placement, lemma_arrangements_distinct,
    lemma_arrangements_exhaustive, lemma_binomial_bound, lemma_binomial_positive,
    lemma_combinations_len, positions,
};
use crate::clue::clue_grid;
use crate::grid::{Cell, Config, count_of, terminal_value};
use vstd::arithmetic::power2::{lemma2_to64, lemma_pow2_strictly_increases, pow2};
use vstd::prelude::*;

verus! {

/// `s` is the board `full` with some of its cells hidden.
pub open spec fn masks(full: Seq<Cell>, s: Seq<Cell>) -> bool {
    &&& s.len() == full.len()
    &&& forall|i: int| 0 <= i < s.len() ==> #[trigger] s[i] == Cell::Empty || s[i] == full[i]
}

/// The arrangement `a` agrees with the board `s`: every color that `s`
/// shows is the color that `a` gives to that cell.
pub open spec fn consistent(cfg: Config, a: Seq<(usize, usize)>, s: Seq<Cell>) -> bool {
    masks(clue_grid(cfg, a), s)
}

/// How many of the arrangements `arrs` agree with the board `s`.
pub open spec fn count_consistent(
    cfg: Config,
    arrs: Seq<Seq<(usize, usize)>>,
    s: Seq<Cell>,
) -> nat
    decreases arrs.len(),
{
    if arrs.len() == 0 {
        0
    } else {
        count_consistent(cfg, arrs.drop_last(), s) + if consistent(cfg, arrs.last(), s) {
            1nat
        } else {
            0nat
        }
    }
}

/// The completion count of a board: how many arrangements of the
/// configuration agree with it.
pub open spec fn completions(cfg: Config, s: Seq<Cell>) -> nat {
    count_consistent(cfg, arrangements(cfg), s)
}

/// The arrangements of the configuration that agree with the board `s`,
/// each with its cells in the order of the board.
pub open spec fn agreeing(cfg: Config, s: Seq<Cell>) -> Set<Seq<(usize, usize)>> {
    Set::new(
        |a: Seq<(usize, usize)>|
            is_placement(cfg, a) && in_board_order(cfg, a) && consistent(cfg, a, s),
    )
}

/// Of arrangements listed once each, those that agree with a board are as
/// many as the count says.
proof fn lemma_count_is_cardinality(cfg: Config, arrs: Seq<Seq<(usize, usize)>>, s: Seq<Cell>)
    requires
        arrs.no_duplicates(),
    ensures
        Set::new(|a: Seq<(usize, usize)>| arrs.contains(a) && consistent(cfg, a, s)).finite(),
        Set::new(|a: Seq<(usize, usize)>| arrs.contains(a) && consistent(cfg, a, s)).len()
            == count_consistent(cfg, arrs, s),
    decreases arrs.len(),
{
    let all = Set::new(|a: Seq<(usize, usize)>| arrs.contains(a) && consistent(cfg, a, s));
    if arrs.len() == 0 {
        assert(all =~= Set::<Seq<(usize, usize)>>::empty());
    } else {
        let front = arrs.drop_last();
        let last = arrs.last();
        let before = Set::new(|a: Seq<(usize, usize)>| front.contains(a) && consistent(cfg, a, s));
        lemma_count_is_cardinality(cfg, front, s);
        assert forall|a: Seq<(usize, usize)>| arrs.contains(a) <==> front.contains(a) || a
            == last by {
            if arrs.contains(a) {
                let j = choose|j: int| 0 <= j < arrs.len() && arrs[j] == a;
                if j < front.len() {
                    assert(front[j] == a);
                }
            }
            if front.contains(a) {
                let j = choose|j: int| 0 <= j < front.len() && front[j] == a;
                assert(arrs[j] == a);
            }
            if a == last {
                assert(arrs[arrs.len() - 1] == a);
            }
        }
        assert(!front.contains(last)) by {
            if front.contains(last) {
                let j = choose|j: int| 0 <= j < front.len() && front[j] == last;
                assert(arrs[j] == arrs[arrs.len() - 1]);
            }
        }
        if consistent(cfg, last, s) {
            assert(all =~= before.insert(last));
        } else {
            assert(all =~= before);
        }
    }
}

/// The completion count of a board is the number of arrangements that agree
/// with it: of sets of `num_bombs` cells of the board, listed in the order
/// of the board, whose fully revealed board the board masks.
pub proof fn lemma_completions_cardinality(cfg: Config, s: Seq<Cell>)
    ensures
        agreeing(cfg, s).finite(),
        agreeing(cfg, s).len() == completions(cfg, s),
{
    let arrs = arrangements(cfg);
    lemma_arrangements_distinct(cfg);
    lemma_count_is_cardinality(cfg, arrs, s);
    assert forall|a: Seq<(usize, usize)>|
        arrs.contains(a) <==> is_placement(cfg, a) && in_board_order(cfg, a) by {
        lemma_arrangements_exhaustive(cfg, a);
    }
    assert(agreeing(cfg, s) =~= Set::new(
        |a: Seq<(usize, usize)>| arrs.contains(a) && consistent(cfg, a, s),
    ));
}

/// No more arrangements agree with a board than there are.
pub proof fn lemma_count_consistent_bound(
    cfg: Config,
    arrs: Seq<Seq<(usize, usize)>>,
    s: Seq<Cell>,
)
    ensures
        count_consistent(cfg, arrs, s) <= arrs.len(),
    decreases arrs.len(),
{
    if arrs.len() > 0 {
        lemma_count_consistent_bound(cfg, arrs.drop_last(), s);
    }
}

/// The first arrangements of a list agree with a board no more often than
/// the whole list.
pub proof fn lemma_count_consistent_take(
    cfg: Config,
    arrs: Seq<Seq<(usize, usize)>>,
    j: int,
    s: Seq<Cell>,
)
    requires
        0 <= j <= arrs.len(),
    ensures
        count_consistent(cfg, arrs.take(j), s) <= count_consistent(cfg, arrs, s),
    decreases arrs.len(),
{
    if j == arrs.len() {
        assert(arrs.take(j) =~= arrs);
    } else {
        assert(arrs.take(j) =~= arrs.drop_last().take(j));
        lemma_count_consistent_take(cfg, arrs.drop_last(), j, s);
    }
}

/// The completion count of a board is at most the number of arrangements.
pub proof fn lemma_completions_bound(cfg: Config, s: Seq<Cell>)
    ensures
        completions(cfg, s) <= binomial(cfg.cells(), cfg.num_bombs as nat),
        completions(cfg, s) <= pow2(cfg.cells()),
        cfg.wf() ==> completions(cfg, s) <= 0x1_0000_0000,
{
    lemma_count_consistent_bound(cfg, arrangements(cfg), s);
    lemma_combinations_len(positions(cfg), cfg.num_bombs as nat);
    lemma_binomial_bound(cfg.cells(), cfg.num_bombs as nat);
    lemma2_to64();
    if cfg.cells() < 32 {
        lemma_pow2_strictly_increases(cfg.cells(), 32);
    }
}

/// Every arrangement agrees with the board that shows nothing.
proof fn lemma_count_consistent_hidden(cfg: Config, arrs: Seq<Seq<(usize, usize)>>)
    ensures
        count_consistent(cfg, arrs, Seq::new(cfg.cells(), |i: int| Cell::Empty)) == arrs.len(),
    decreases arrs.len(),
{
    if arrs.len() > 0 {
        lemma_count_consistent_hidden(cfg, arrs.drop_last());
    }
}

/// Every arrangement agrees with the board that shows nothing, so its
/// completion count is the number of arrangements, `binomial(cells,
/// num_bombs)`, which is not zero when the bombs fit on the board.
pub proof fn lemma_hidden_state_completions(cfg: Config)
    ensures
        completions(cfg, Seq::new(cfg.cells(), |i: int| Cell::Empty)) == binomial(
            cfg.cells(),
            cfg.num_bombs as nat,
        ),
        cfg.num_bombs <= cfg.cells() ==> completions(
            cfg,
            Seq::new(cfg.cells(), |i: int| Cell::Empty),
        ) > 0,
{
    lemma_count_consistent_hidden(cfg, arrangements(cfg));
    lemma_combinations_len(positions(cfg), cfg.num_bombs as nat);
    if cfg.num_bombs <= cfg.cells() {
        lemma_binomial_positive(cfg.cells(), cfg.num_bombs as nat);
    }
}

/// A board with which one of the arrangements agrees has a completion.
pub proof fn lemma_count_consistent_positive(
    cfg: Config,
    arrs: Seq<Seq<(usize, usize)>>,
    j: int,
    s: Seq<Cell>,
)
    requires
        0 <= j < arrs.len(),
        consistent(cfg, arrs[j], s),
    ensures
        count_consistent(cfg, arrs, s) > 0,
    decreases arrs.len(),
{
    if j < arrs.len() - 1 {
        lemma_count_consistent_positive(cfg, arrs.drop_last(), j, s);
    }
}

/// A board with a completion agrees with one of the arrangements and has
/// the size of the board of the configuration.
pub proof fn lemma_consistent_witness(cfg: Config, arrs: Seq<Seq<(usize, usize)>>, s: Seq<Cell>)
    requires
        count_consistent(cfg, arrs, s) > 0,
    ensures
        exists|j: int| 0 <= j < arrs.len() && consistent(cfg, #[trigger] arrs[j], s),
        s.len() == cfg.cells(),
    decreases arrs.len(),
{
    if arrs.len() > 0 {
        if consistent(cfg, arrs.last(), s) {
            assert(consistent(cfg, arrs[arrs.len() - 1], s));
        } else {
            lemma_consistent_witness(cfg, arrs.drop_last(), s);
            let j = choose|j: int|
                0 <= j < arrs.drop_last().len() && consistent(cfg, #[trigger] arrs.drop_last()[j], s);
            assert(arrs[j] == arrs.drop_last()[j]);
        }
    }
}

/// A board masks a board after one more cell shows a color exactly if it
/// masks the board before and shows that color in the cell.
pub proof fn lemma_masks_reveal(full: Seq<Cell>, s: Seq<Cell>, i: int, c: Cell)
    requires
        0 <= i < s.len(),
        s[i] == Cell::Empty,
        c != Cell::Empty,
    ensures
        masks(full, s.update(i, c)) <==> masks(full, s) && full[i] == c,
{
    let t = s.update(i, c);
    if masks(full, t) {
        assert(t[i] == Cell::Empty || t[i] == full[i]);
        assert forall|k: int| 0 <= k < s.len() implies #[trigger] s[k] == Cell::Empty || s[k]
            == full[k] by {
            if k != i {
                assert(t[k] == Cell::Empty || t[k] == full[k]);
            }
        }
    }
    if masks(full, s) && full[i] == c {
        assert forall|k: int| 0 <= k < t.len() implies #[trigger] t[k] == Cell::Empty || t[k]
            == full[k] by {
            if k != i {
                assert(s[k] == Cell::Empty || s[k] == full[k]);
            }
        }
    }
}

/// An arrangement agrees with a board after one more cell shows a color
/// exactly if it agrees with the board before and gives the cell that
/// color.
pub proof fn lemma_consistent_reveal(
    cfg: Config,
    a: Seq<(usize, usize)>,
    s: Seq<Cell>,
    i: int,
    c: Cell,
)
    requires
        0 <= i < s.len(),
        s[i] == Cell::Empty,
        c != Cell::Empty,
    ensures
        consistent(cfg, a, s.update(i, c)) <==> consistent(cfg, a, s) && clue_grid(cfg, a)[i] == c,
{
    lemma_masks_reveal(clue_grid(cfg, a), s, i, c);
}

/// A board that masks a board masks every board that the other masks.
pub proof fn lemma_masks_transitive(full: Seq<Cell>, t: Seq<Cell>, u: Seq<Cell>)
    requires
        masks(full, t),
        masks(t, u),
    ensures
        masks(full, u),
{
    assert forall|k: int| 0 <= k < u.len() implies #[trigger] u[k] == Cell::Empty || u[k]
        == full[k] by {
        assert(t[k] == Cell::Empty || t[k] == full[k]);
    }
}

/// Of any arrangements, no fewer agree with a board than with a board that
/// shows more.
proof fn lemma_count_consistent_monotone(
    cfg: Config,
    arrs: Seq<Seq<(usize, usize)>>,
    t: Seq<Cell>,
    u: Seq<Cell>,
)
    requires
        masks(t, u),
    ensures
        count_consistent(cfg, arrs, t) <= count_consistent(cfg, arrs, u),
    decreases arrs.len(),
{
    if arrs.len() > 0 {
        lemma_count_consistent_monotone(cfg, arrs.drop_last(), t, u);
        if consistent(cfg, arrs.last(), t) {
            lemma_masks_transitive(clue_grid(cfg, arrs.last()), t, u);
        }
    }
}

/// Hiding cells of a board loses no completion: every arrangement that
/// agrees with a board agrees with the boards that it masks.
pub proof fn lemma_completions_monotone(cfg: Config, t: Seq<Cell>, u: Seq<Cell>)
    requires
        masks(t, u),
    ensures
        completions(cfg, t) <= completions(cfg, u),
{
    lemma_count_consistent_monotone(cfg, arrangements(cfg), t, u);
}

/// Of any arrangements, those that agree with a board after a hidden cell
/// has shown a color are, over the three colors, no more than agree with
/// the board before.
proof fn lemma_count_consistent_reveal(
    cfg: Config,
    arrs: Seq<Seq<(usize, usize)>>,
    s: Seq<Cell>,
    i: int,
)
    requires
        0 <= i < s.len(),
        s[i] == Cell::Empty,
    ensures
        count_consistent(cfg, arrs, s.update(i, Cell::Green)) + count_consistent(
            cfg,
            arrs,
            s.update(i, Cell::Blue),
        ) + count_consistent(cfg, arrs, s.update(i, Cell::Red)) <= count_consistent(cfg, arrs, s),
    decreases arrs.len(),
{
    if arrs.len() > 0 {
        lemma_count_consistent_reveal(cfg, arrs.drop_last(), s, i);
        lemma_consistent_reveal(cfg, arrs.last(), s, i, Cell::Green);
        lemma_consistent_reveal(cfg, arrs.last(), s, i, Cell::Blue);
        lemma_consistent_reveal(cfg, arrs.last(), s, i, Cell::Red);
    }
}

/// The arrangements that agree with a board after a hidden cell has shown a
/// color are, over the three colors, different arrangements that agree
/// with the board before: the rest are those with a bomb in that cell.
pub proof fn lemma_completions_reveal(cfg: Config, s: Seq<Cell>, i: int)
    requires
        0 <= i < s.len(),
        s[i] == Cell::Empty,
    ensures
        completions(cfg, s.update(i, Cell::Green)) + completions(cfg, s.update(i, Cell::Blue))
            + completions(cfg, s.update(i, Cell::Red)) <= completions(cfg, s),
{
    lemma_count_consistent_reveal(cfg, arrangements(cfg), s, i);
}

/// A board hides at least the cells that a board which it masks hides.
pub proof fn lemma_masks_hidden(full: Seq<Cell>, s: Seq<Cell>)
    requires
        masks(full, s),
    ensures
        count_of(full, Cell::Empty) <= count_of(s, Cell::Empty),
    decreases full.len(),
{
    if full.len() > 0 {
        assert(s.last() == s[s.len() - 1]);
        assert(s[s.len() - 1] == Cell::Empty || s[s.len() - 1] == full[s.len() - 1]);
        assert(masks(full.drop_last(), s.drop_last())) by {
            assert forall|k: int| 0 <= k < s.drop_last().len() implies #[trigger] s.drop_last()[k]
                == Cell::Empty || s.drop_last()[k] == full.drop_last()[k] by {
                assert(s[k] == Cell::Empty || s[k] == full[k]);
            }
        }
        lemma_masks_hidden(full.drop_last(), s.drop_last());
    }
}

/// A board shows a color no more often than a board that it masks.
pub proof fn lemma_masks_count(full: Seq<Cell>, s: Seq<Cell>, c: Cell)
    requires
        masks(full, s),
        c != Cell::Empty,
    ensures
        count_of(s, c) <= count_of(full, c),
    decreases full.len(),
{
    if full.len() > 0 {
        assert(s[s.len() - 1] == Cell::Empty || s[s.len() - 1] == full[s.len() - 1]);
        assert(masks(full.drop_last(), s.drop_last())) by {
            assert forall|k: int| 0 <= k < s.drop_last().len() implies #[trigger] s.drop_last()[k]
                == Cell::Empty || s.drop_last()[k] == full.drop_last()[k] by {
                assert(s[k] == Cell::Empty || s[k] == full[k]);
            }
        }
        lemma_masks_count(full.drop_last(), s.drop_last(), c);
    }
}

/// Hiding cells of a board does not raise its terminal value.
pub proof fn lemma_masks_terminal_value(full: Seq<Cell>, s: Seq<Cell>)
    requires
        masks(full, s),
    ensures
        terminal_value(s) <= terminal_value(full),
{
    lemma_masks_count(full, s, Cell::Green);
    lemma_masks_count(full, s, Cell::Blue);
    lemma_masks_count(full, s, Cell::Red);
}

} // verus!
