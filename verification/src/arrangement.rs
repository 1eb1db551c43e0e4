//! Bomb arrangements and their enumeration.

use crate::grid::{Config, lemma_column_row_index, lemma_index_column_row};
use itertools::Itertools;
use vstd::prelude::*;

verus! {

/// The places of the bombs, each as a column and a row.
pub type Arrangement = Vec<(usize, usize)>;

/// The column and row of the cell at place `i`.
pub open spec fn position(cfg: Config, i: int) -> (usize, usize) {
    (cfg.column(i) as usize, cfg.row(i) as usize)
}

/// All cells of the board, row by row.
pub open spec fn positions(cfg: Config) -> Seq<(usize, usize)> {
    Seq::new(cfg.cells(), |i: int| position(cfg, i))
}

/// The cell lies on the board.
pub open spec fn on_board(cfg: Config, p: (usize, usize)) -> bool {
    p.0 < cfg.width && p.1 < cfg.height
}

/// As many cells as the board has bombs, all on the board.
pub open spec fn is_placement(cfg: Config, a: Seq<(usize, usize)>) -> bool {
    &&& a.len() == cfg.num_bombs
    &&& forall|k: int| 0 <= k < a.len() ==> on_board(cfg, #[trigger] a[k])
}

/// A placement that names no cell twice.
pub open spec fn is_arrangement(cfg: Config, a: Seq<(usize, usize)>) -> bool {
    is_placement(cfg, a) && a.no_duplicates()
}

/// The number of ways to choose `k` of `n` things.
pub open spec fn binomial(n: nat, k: nat) -> nat
    decreases n,
{
    if k == 0 {
        1
    } else if n == 0 {
        0
    } else {
        binomial((n - 1) as nat, (k - 1) as nat) + binomial((n - 1) as nat, k)
    }
}

/// The selections of `k` elements of `s`, each in the order of `s`: first
/// those that hold the first element of `s`, then those that do not, and so
/// on within each part.
pub open spec fn combinations<T>(s: Seq<T>, k: nat) -> Seq<Seq<T>>
    decreases s.len(),
{
    if k == 0 {
        seq![Seq::<T>::empty()]
    } else if s.len() < k {
        Seq::<Seq<T>>::empty()
    } else {
        let with_first = combinations(s.drop_first(), (k - 1) as nat);
        Seq::new(with_first.len(), |j: int| seq![s[0]] + with_first[j]) + combinations(
            s.drop_first(),
            k,
        )
    }
}

/// All arrangements of the board's bombs, in the order of enumeration.
pub open spec fn arrangements(cfg: Config) -> Seq<Seq<(usize, usize)>> {
    combinations(positions(cfg), cfg.num_bombs as nat)
}

/// There are `binomial(n, k)` selections of `k` out of `n` elements.
pub proof fn lemma_combinations_len<T>(s: Seq<T>, k: nat)
    ensures
        combinations(s, k).len() == binomial(s.len(), k),
    decreases s.len(),
{
    if k == 0 {
    } else if s.len() < k {
        lemma_binomial_zero(s.len(), k);
    } else {
        lemma_combinations_len(s.drop_first(), (k - 1) as nat);
        lemma_combinations_len(s.drop_first(), k);
    }
}

/// There is no way to choose more than there is.
pub proof fn lemma_binomial_zero(n: nat, k: nat)
    requires
        n < k,
    ensures
        binomial(n, k) == 0,
    decreases n,
{
    if n > 0 {
        lemma_binomial_zero((n - 1) as nat, (k - 1) as nat);
        lemma_binomial_zero((n - 1) as nat, k);
    }
}

/// There are at most `2^n` ways to choose among `n` things.
pub proof fn lemma_binomial_bound(n: nat, k: nat)
    ensures
        binomial(n, k) <= vstd::arithmetic::power2::pow2(n),
    decreases n,
{
    vstd::arithmetic::power2::lemma_pow2_pos(n);
    if k == 0 {
    } else if n == 0 {
    } else {
        lemma_binomial_bound((n - 1) as nat, (k - 1) as nat);
        lemma_binomial_bound((n - 1) as nat, k);
        vstd::arithmetic::power2::lemma_pow2_unfold(n);
    }
}

/// There is at least one way to choose `k` of `n` things when `k <= n`.
pub proof fn lemma_binomial_positive(n: nat, k: nat)
    requires
        k <= n,
    ensures
        binomial(n, k) > 0,
    decreases n,
{
    if k > 0 && n > 0 {
        lemma_binomial_positive((n - 1) as nat, (k - 1) as nat);
    }
}

/// Each selection has `k` elements, all of them elements of `s`, and names
/// no element twice if `s` does not.
pub proof fn lemma_combinations_member<T>(s: Seq<T>, k: nat, j: int)
    requires
        0 <= j < combinations(s, k).len(),
    ensures
        combinations(s, k)[j].len() == k,
        forall|i: int|
            0 <= i < k ==> s.contains(#[trigger] combinations(s, k)[j][i]),
        s.no_duplicates() ==> combinations(s, k)[j].no_duplicates(),
    decreases s.len(),
{
    let c = combinations(s, k)[j];
    if k == 0 {
    } else if s.len() < k {
    } else {
        let rest = s.drop_first();
        let with_first = combinations(rest, (k - 1) as nat);
        assert forall|e: T| rest.contains(e) implies s.contains(e) by {
            let i = choose|i: int| 0 <= i < rest.len() && rest[i] == e;
            assert(s[i + 1] == e);
        }
        if j < with_first.len() {
            let sub = with_first[j];
            lemma_combinations_member(rest, (k - 1) as nat, j);
            assert(c == seq![s[0]] + sub);
            assert forall|i: int| 0 <= i < k implies s.contains(#[trigger] c[i]) by {
                if i == 0 {
                    assert(s[0] == c[0]);
                } else {
                    assert(c[i] == sub[i - 1]);
                    assert(rest.contains(sub[i - 1]));
                }
            }
            if s.no_duplicates() {
                assert(rest.no_duplicates());
                assert forall|a: int, b: int| 0 <= a < c.len() && 0 <= b < c.len() && a != b implies c[a]
                    != c[b] by {
                    if a == 0 {
                        assert(c[b] == sub[b - 1]);
                        assert(rest.contains(sub[b - 1]));
                        let i = choose|i: int| 0 <= i < rest.len() && rest[i] == sub[b - 1];
                        assert(s[i + 1] == c[b]);
                    } else if b == 0 {
                        assert(c[a] == sub[a - 1]);
                        assert(rest.contains(sub[a - 1]));
                        let i = choose|i: int| 0 <= i < rest.len() && rest[i] == sub[a - 1];
                        assert(s[i + 1] == c[a]);
                    } else {
                        assert(c[a] == sub[a - 1]);
                        assert(c[b] == sub[b - 1]);
                    }
                }
            }
        } else {
            lemma_combinations_member(rest, k, j - with_first.len());
            assert(c == combinations(rest, k)[j - with_first.len()]);
            if s.no_duplicates() {
                assert(rest.no_duplicates());
            }
            assert forall|i: int| 0 <= i < k implies s.contains(#[trigger] c[i]) by {
                assert(rest.contains(c[i]));
            }
        }
    }
}

/// The cells of the board are all different and all on the board.
pub proof fn lemma_positions(cfg: Config)
    ensures
        positions(cfg).no_duplicates(),
        forall|i: int| 0 <= i < cfg.cells() ==> on_board(cfg, #[trigger] positions(cfg)[i]),
{
    assert forall|i: int| 0 <= i < cfg.cells() implies on_board(
        cfg,
        #[trigger] positions(cfg)[i],
    ) by {
        lemma_column_row_index(cfg, i);
    }
    assert forall|i: int, j: int|
        0 <= i < cfg.cells() && 0 <= j < cfg.cells() && i != j implies positions(cfg)[i]
        != positions(cfg)[j] by {
        lemma_column_row_index(cfg, i);
        lemma_column_row_index(cfg, j);
    }
}

/// Every enumerated arrangement is an arrangement of the board.
pub proof fn lemma_arrangements_valid(cfg: Config, j: int)
    requires
        0 <= j < arrangements(cfg).len(),
    ensures
        is_arrangement(cfg, arrangements(cfg)[j]),
{
    let a = arrangements(cfg)[j];
    lemma_positions(cfg);
    lemma_combinations_member(positions(cfg), cfg.num_bombs as nat, j);
    assert forall|k: int| 0 <= k < a.len() implies on_board(cfg, #[trigger] a[k]) by {
        assert(positions(cfg).contains(a[k]));
        let i = choose|i: int| 0 <= i < positions(cfg).len() && positions(cfg)[i] == a[k];
        assert(on_board(cfg, positions(cfg)[i]));
    }
}

/// `c` takes elements of `s`, each at most once, in the order of `s`.
pub open spec fn is_selection<T>(c: Seq<T>, s: Seq<T>) -> bool
    decreases s.len(),
{
    if c.len() == 0 {
        true
    } else if s.len() == 0 {
        false
    } else {
        (c[0] == s[0] && is_selection(c.drop_first(), s.drop_first())) || is_selection(
            c,
            s.drop_first(),
        )
    }
}

/// A selection is no longer than what it selects from.
pub proof fn lemma_selection_len<T>(c: Seq<T>, s: Seq<T>)
    requires
        is_selection(c, s),
    ensures
        c.len() <= s.len(),
    decreases s.len(),
{
    if c.len() > 0 && s.len() > 0 {
        if c[0] == s[0] && is_selection(c.drop_first(), s.drop_first()) {
            lemma_selection_len(c.drop_first(), s.drop_first());
        } else {
            lemma_selection_len(c, s.drop_first());
        }
    }
}

/// Every enumerated selection is a selection.
pub proof fn lemma_combinations_sound<T>(s: Seq<T>, k: nat, j: int)
    requires
        0 <= j < combinations(s, k).len(),
    ensures
        combinations(s, k)[j].len() == k,
        is_selection(combinations(s, k)[j], s),
    decreases s.len(),
{
    let c = combinations(s, k)[j];
    if k == 0 {
    } else if s.len() < k {
    } else {
        let rest = s.drop_first();
        let with_first = combinations(rest, (k - 1) as nat);
        if j < with_first.len() {
            lemma_combinations_sound(rest, (k - 1) as nat, j);
            assert(c == seq![s[0]] + with_first[j]);
            assert(c.drop_first() =~= with_first[j]);
        } else {
            lemma_combinations_sound(rest, k, j - with_first.len());
            assert(c == combinations(rest, k)[j - with_first.len()]);
        }
    }
}

/// Every selection of `k` elements is enumerated.
pub proof fn lemma_combinations_complete<T>(s: Seq<T>, k: nat, c: Seq<T>)
    requires
        c.len() == k,
        is_selection(c, s),
    ensures
        combinations(s, k).contains(c),
    decreases s.len(),
{
    let all = combinations(s, k);
    if k == 0 {
        assert(c =~= Seq::<T>::empty());
        assert(all[0] == c);
    } else {
        lemma_selection_len(c, s);
        let rest = s.drop_first();
        let with_first = combinations(rest, (k - 1) as nat);
        let without = combinations(rest, k);
        if c[0] == s[0] && is_selection(c.drop_first(), rest) {
            lemma_combinations_complete(rest, (k - 1) as nat, c.drop_first());
            let j = choose|j: int| 0 <= j < with_first.len() && with_first[j] == c.drop_first();
            assert(all[j] == seq![s[0]] + with_first[j]);
            assert(all[j] =~= c);
        } else {
            lemma_combinations_complete(rest, k, c);
            let j = choose|j: int| 0 <= j < without.len() && without[j] == c;
            assert(all[with_first.len() + j] == c);
        }
    }
}

/// No selection is enumerated twice, if no element of `s` occurs twice.
pub proof fn lemma_combinations_distinct<T>(s: Seq<T>, k: nat)
    requires
        s.no_duplicates(),
    ensures
        combinations(s, k).no_duplicates(),
    decreases s.len(),
{
    let all = combinations(s, k);
    if k == 0 {
    } else if s.len() < k {
    } else {
        let rest = s.drop_first();
        let with_first = combinations(rest, (k - 1) as nat);
        let without = combinations(rest, k);
        assert(rest.no_duplicates());
        lemma_combinations_distinct(rest, (k - 1) as nat);
        lemma_combinations_distinct(rest, k);
        assert forall|a: int, b: int| 0 <= a < all.len() && 0 <= b < all.len() && a != b implies all[a]
            != all[b] by {
            if a < with_first.len() && b < with_first.len() {
                assert(all[a].drop_first() =~= with_first[a]);
                assert(all[b].drop_first() =~= with_first[b]);
            } else if a >= with_first.len() && b >= with_first.len() {
                assert(all[a] == without[a - with_first.len()]);
                assert(all[b] == without[b - with_first.len()]);
            } else {
                let (x, y) = if a < with_first.len() {
                    (a, b)
                } else {
                    (b, a)
                };
                let other = without[y - with_first.len()];
                assert(all[y] == other);
                assert(all[x][0] == s[0]);
                lemma_combinations_member(rest, k, y - with_first.len());
                assert(rest.contains(other[0]));
                let i = choose|i: int| 0 <= i < rest.len() && rest[i] == other[0];
                assert(s[i + 1] == other[0]);
            }
        }
    }
}

/// The cells of `a` come in the order of the board.
pub open spec fn in_board_order(cfg: Config, a: Seq<(usize, usize)>) -> bool {
    forall|k: int, l: int|
        0 <= k < l < a.len() ==> cfg.index(a[k].0 as int, a[k].1 as int) < cfg.index(
            a[l].0 as int,
            a[l].1 as int,
        )
}

/// Cells in board order, none before place `from`, are a selection of the
/// cells from `from` on.
proof fn lemma_ordered_is_selection(cfg: Config, a: Seq<(usize, usize)>, from: int)
    requires
        0 <= from <= cfg.cells(),
        in_board_order(cfg, a),
        forall|k: int| 0 <= k < a.len() ==> on_board(cfg, #[trigger] a[k]),
        forall|k: int| 0 <= k < a.len() ==> from <= cfg.index(a[k].0 as int, a[k].1 as int),
    ensures
        is_selection(a, positions(cfg).skip(from)),
    decreases cfg.cells() - from,
{
    let s = positions(cfg).skip(from);
    if a.len() > 0 {
        let first = cfg.index(a[0].0 as int, a[0].1 as int);
        assert(on_board(cfg, a[0]));
        lemma_index_column_row(cfg, a[0].0 as int, a[0].1 as int);
        assert(s.drop_first() =~= positions(cfg).skip(from + 1));
        if first == from {
            let tail = a.drop_first();
            assert(s[0] == a[0]);
            assert forall|k: int| 0 <= k < tail.len() implies from + 1 <= cfg.index(
                tail[k].0 as int,
                tail[k].1 as int,
            ) by {
                assert(tail[k] == a[k + 1]);
                assert(cfg.index(a[0].0 as int, a[0].1 as int) < cfg.index(
                    a[k + 1].0 as int,
                    a[k + 1].1 as int,
                ));
            }
            assert forall|k: int, l: int| 0 <= k < l < tail.len() implies cfg.index(
                tail[k].0 as int,
                tail[k].1 as int,
            ) < cfg.index(tail[l].0 as int, tail[l].1 as int) by {
                assert(tail[k] == a[k + 1] && tail[l] == a[l + 1]);
            }
            assert forall|k: int| 0 <= k < tail.len() implies on_board(cfg, #[trigger] tail[k]) by {
                assert(tail[k] == a[k + 1]);
            }
            lemma_ordered_is_selection(cfg, tail, from + 1);
        } else {
            assert forall|k: int| 0 <= k < a.len() implies from + 1 <= cfg.index(
                a[k].0 as int,
                a[k].1 as int,
            ) by {
                if k > 0 {
                    assert(cfg.index(a[0].0 as int, a[0].1 as int) < cfg.index(
                        a[k].0 as int,
                        a[k].1 as int,
                    ));
                }
            }
            lemma_ordered_is_selection(cfg, a, from + 1);
        }
    }
}

/// A selection of the cells from place `from` on is in board order, on the
/// board, and has no cell before `from`.
proof fn lemma_selection_is_ordered(cfg: Config, a: Seq<(usize, usize)>, from: int)
    requires
        0 <= from <= cfg.cells(),
        is_selection(a, positions(cfg).skip(from)),
    ensures
        in_board_order(cfg, a),
        forall|k: int| 0 <= k < a.len() ==> on_board(cfg, #[trigger] a[k]),
        forall|k: int| 0 <= k < a.len() ==> from <= cfg.index(a[k].0 as int, a[k].1 as int),
    decreases cfg.cells() - from,
{
    let s = positions(cfg).skip(from);
    if a.len() > 0 {
        assert(s.len() > 0);
        assert(s.drop_first() =~= positions(cfg).skip(from + 1));
        lemma_column_row_index(cfg, from);
        if a[0] == s[0] && is_selection(a.drop_first(), s.drop_first()) {
            let tail = a.drop_first();
            lemma_selection_is_ordered(cfg, tail, from + 1);
            assert forall|k: int| 0 <= k < a.len() implies on_board(cfg, #[trigger] a[k]) && from
                <= cfg.index(a[k].0 as int, a[k].1 as int) by {
                if k > 0 {
                    assert(a[k] == tail[k - 1]);
                    assert(on_board(cfg, tail[k - 1]));
                }
            }
            assert forall|k: int, l: int| 0 <= k < l < a.len() implies cfg.index(
                a[k].0 as int,
                a[k].1 as int,
            ) < cfg.index(a[l].0 as int, a[l].1 as int) by {
                assert(a[l] == tail[l - 1]);
                if k > 0 {
                    assert(a[k] == tail[k - 1]);
                }
            }
        } else {
            lemma_selection_is_ordered(cfg, a, from + 1);
        }
    }
}

/// The enumeration holds exactly the placements in board order: every set
/// of `num_bombs` cells of the board is enumerated, with its cells in the
/// order of the board, and nothing else is.
pub proof fn lemma_arrangements_exhaustive(cfg: Config, a: Seq<(usize, usize)>)
    ensures
        arrangements(cfg).contains(a) <==> is_placement(cfg, a) && in_board_order(cfg, a),
{
    assert(positions(cfg).skip(0) =~= positions(cfg));
    if arrangements(cfg).contains(a) {
        let j = choose|j: int| 0 <= j < arrangements(cfg).len() && arrangements(cfg)[j] == a;
        lemma_combinations_sound(positions(cfg), cfg.num_bombs as nat, j);
        lemma_selection_is_ordered(cfg, a, 0);
    }
    if is_placement(cfg, a) && in_board_order(cfg, a) {
        assert forall|k: int| 0 <= k < a.len() implies 0 <= cfg.index(
            a[k].0 as int,
            a[k].1 as int,
        ) by {
            assert(on_board(cfg, a[k]));
            lemma_index_column_row(cfg, a[k].0 as int, a[k].1 as int);
        }
        lemma_ordered_is_selection(cfg, a, 0);
        lemma_combinations_complete(positions(cfg), cfg.num_bombs as nat, a);
    }
}

/// No arrangement is enumerated twice.
pub proof fn lemma_arrangements_distinct(cfg: Config)
    ensures
        arrangements(cfg).no_duplicates(),
{
    lemma_positions(cfg);
    lemma_combinations_distinct(positions(cfg), cfg.num_bombs as nat);
}

/// `itertools::Itertools::combinations` on the items of a vector, collected:
/// the selections of `k` of the items, in the order in which the iterator
/// yields them, which is the order of `combinations`. The iterator keeps `k`
/// indices, so `k` is held to the number of items.
#[verifier::external_body]
fn combinations_of(items: Vec<(usize, usize)>, k: usize) -> (r: Vec<Vec<(usize, usize)>>)
    requires
        k <= items@.len(),
    ensures
        r.deep_view() == combinations(items@, k as nat),
{
    items.into_iter().combinations(k).collect()
}

/// The cells of the board, row by row.
pub fn board_positions(cfg: &Config) -> (r: Vec<(usize, usize)>)
    requires
        cfg.sized(),
    ensures
        r@ == positions(*cfg),
{
    let n = cfg.num_cells();
    let mut r: Vec<(usize, usize)> = Vec::new();
    let mut i: usize = 0;
    while i < n
        invariant
            i <= n,
            n == cfg.cells(),
            r@ == Seq::new(i as nat, |j: int| position(*cfg, j)),
        decreases n - i,
    {
        proof {
            lemma_column_row_index(*cfg, i as int);
        }
        r.push((i % cfg.width, i / cfg.width));
        i += 1;
        assert(r@ =~= Seq::new(i as nat, |j: int| position(*cfg, j)));
    }
    r
}

/// Every arrangement of the board's bombs, once: `binomial(cells, num_bombs)`
/// arrangements, each with its cells in the order of the board.
pub fn enumerate_arrangements(cfg: &Config) -> (r: Vec<Arrangement>)
    requires
        cfg.sized(),
    ensures
        r.deep_view() == arrangements(*cfg),
        r@.len() == binomial(cfg.cells(), cfg.num_bombs as nat),
        forall|j: int| 0 <= j < r@.len() ==> is_arrangement(*cfg, (#[trigger] r@[j])@),
{
    let all = board_positions(cfg);
    if cfg.num_bombs > all.len() {
        proof {
            lemma_binomial_zero(cfg.cells(), cfg.num_bombs as nat);
        }
        let none: Vec<Arrangement> = Vec::new();
        assert(none.deep_view() =~= arrangements(*cfg));
        return none;
    }
    let r = combinations_of(all, cfg.num_bombs);
    proof {
        lemma_combinations_len(positions(*cfg), cfg.num_bombs as nat);
        assert forall|j: int| 0 <= j < r@.len() implies is_arrangement(
            *cfg,
            (#[trigger] r@[j])@,
        ) by {
            lemma_arrangements_valid(*cfg, j);
            assert(r.deep_view()[j] == r@[j]@);
        }
    }
    r
}

} // verus!
