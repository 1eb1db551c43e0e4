//! Indexing: for every board that some arrangement can show, the number of
//! arrangements that agree with it.

use crate::arrangement::{Arrangement, arrangements, enumerate_arrangements, is_arrangement};
use crate::clue::{
    arrangement_to_state, clue_grid, lemma_clue_grid_hidden, lemma_covered_neighbor_count,
    neighbor_count,
};
use crate::completion::{
    completions, consistent, count_consistent, lemma_completions_bound,
    lemma_count_consistent_take, masks,
};
use crate::grid::{
    Cell, Config, lemma_count_first, lemma_count_total, MAX_NEIGHBORS, revealed_count, State,
};
use crate::table::{count_in, StateInfo, StateMap, value_in};
use vstd::arithmetic::power2::{lemma2_to64, lemma_pow2_strictly_increases, lemma_pow2_unfold, pow2};
use vstd::prelude::*;

verus! {

/// The table `base` after the arrangements `arrs` have been indexed into it:
/// each board gains one completion for each arrangement that agrees with it,
/// and keeps the value it had.
pub open spec fn indexed(
    base: Map<Seq<Cell>, StateInfo>,
    cfg: Config,
    arrs: Seq<Seq<(usize, usize)>>,
) -> Map<Seq<Cell>, StateInfo> {
    Map::new(
        |s: Seq<Cell>| base.contains_key(s) || count_consistent(cfg, arrs, s) > 0,
        |s: Seq<Cell>|
            StateInfo {
                cnt_completions: (count_in(base, s) + count_consistent(cfg, arrs, s)) as u64,
                value: value_in(base, s),
            },
    )
}

/// The table holds exactly the boards that some arrangement agrees with,
/// each with its completion count.
pub open spec fn is_index(m: Map<Seq<Cell>, StateInfo>, cfg: Config) -> bool {
    forall|s: Seq<Cell>|
        #![trigger m.contains_key(s)]
        #![trigger completions(cfg, s)]
        (m.contains_key(s) <==> completions(cfg, s) > 0) && (m.contains_key(s)
            ==> m[s].cnt_completions == completions(cfg, s))
}

/// The board `full` with its colored cells hidden as the bits of `mask`
/// say: the lowest bit stands for the first colored cell, and a cell stays
/// revealed where its bit is set.
pub open spec fn masked_by(full: Seq<Cell>, mask: nat) -> Seq<Cell>
    decreases full.len(),
{
    if full.len() == 0 {
        Seq::<Cell>::empty()
    } else if full[0] == Cell::Empty {
        seq![Cell::Empty] + masked_by(full.drop_first(), mask)
    } else {
        seq![
            if mask % 2 == 1 {
                full[0]
            } else {
                Cell::Empty
            },
        ] + masked_by(full.drop_first(), mask / 2)
    }
}

/// The mask that hides `full` down to `s`.
pub open spec fn mask_of(full: Seq<Cell>, s: Seq<Cell>) -> nat
    decreases full.len(),
{
    if full.len() == 0 || s.len() != full.len() {
        0
    } else if full[0] == Cell::Empty {
        mask_of(full.drop_first(), s.drop_first())
    } else {
        (if s[0] != Cell::Empty {
            1nat
        } else {
            0nat
        }) + 2 * mask_of(full.drop_first(), s.drop_first())
    }
}

/// Hiding cells of a board gives a board that it masks.
pub proof fn lemma_masked_by_masks(full: Seq<Cell>, mask: nat)
    ensures
        masks(full, masked_by(full, mask)),
    decreases full.len(),
{
    if full.len() > 0 {
        if full[0] == Cell::Empty {
            lemma_masked_by_masks(full.drop_first(), mask);
        } else {
            lemma_masked_by_masks(full.drop_first(), mask / 2);
        }
    }
}

/// A mask below `2^r`, where `r` is the number of colored cells of `full`,
/// is the mask of the board that it gives.
pub proof fn lemma_mask_of_masked(full: Seq<Cell>, mask: nat)
    requires
        mask < pow2(revealed_count(full)),
    ensures
        mask_of(full, masked_by(full, mask)) == mask,
    decreases full.len(),
{
    let g = masked_by(full, mask);
    lemma_masked_by_masks(full, mask);
    if full.len() == 0 {
        lemma2_to64();
    } else {
        let rest = full.drop_first();
        lemma_count_first(full, Cell::Empty);
        lemma_count_total(rest);
        if full[0] == Cell::Empty {
            assert(g.drop_first() =~= masked_by(rest, mask));
            lemma_mask_of_masked(rest, mask);
        } else {
            assert(g.drop_first() =~= masked_by(rest, mask / 2));
            lemma_pow2_unfold(revealed_count(full));
            lemma_mask_of_masked(rest, mask / 2);
        }
    }
}

/// A board that `full` masks has a mask below `2^r`, where `r` is the number
/// of colored cells of `full`, and that mask gives the board back.
pub proof fn lemma_masked_of_mask(full: Seq<Cell>, s: Seq<Cell>)
    requires
        masks(full, s),
    ensures
        mask_of(full, s) < pow2(revealed_count(full)),
        masked_by(full, mask_of(full, s)) == s,
    decreases full.len(),
{
    if full.len() == 0 {
        lemma2_to64();
        assert(s =~= Seq::<Cell>::empty());
    } else {
        let rest = full.drop_first();
        let tail = s.drop_first();
        assert(masks(rest, tail)) by {
            assert forall|i: int| 0 <= i < tail.len() implies #[trigger] tail[i] == Cell::Empty
                || tail[i] == rest[i] by {
                assert(s[i + 1] == Cell::Empty || s[i + 1] == full[i + 1]);
            }
        }
        lemma_masked_of_mask(rest, tail);
        lemma_count_first(full, Cell::Empty);
        lemma_count_total(rest);
        assert(s[0] == Cell::Empty || s[0] == full[0]);
        if full[0] == Cell::Empty {
            assert(masked_by(full, mask_of(full, s)) =~= s);
        } else {
            lemma_pow2_unfold(revealed_count(full));
            let m = mask_of(full, s);
            assert(m / 2 == mask_of(rest, tail));
            assert(masked_by(full, m) =~= s);
        }
    }
}

/// The boards that agree with one arrangement are `2^(cells - num_bombs)`
/// in number: one for each set of cells without a bomb, no two of them the
/// same board.
pub proof fn lemma_consistent_states_count(cfg: Config, a: Seq<(usize, usize)>)
    requires
        is_arrangement(cfg, a),
        cfg.num_bombs <= cfg.cells(),
    ensures
        Set::new(|s: Seq<Cell>| consistent(cfg, a, s)).finite(),
        Set::new(|s: Seq<Cell>| consistent(cfg, a, s)).len() == pow2(
            (cfg.cells() - cfg.num_bombs) as nat,
        ),
{
    let full = clue_grid(cfg, a);
    lemma_clue_grid_hidden(cfg, a);
    let limit = pow2(revealed_count(full)) as int;
    let all_masks = vstd::set_lib::set_int_range(0, limit);
    let boards = Set::new(|s: Seq<Cell>| consistent(cfg, a, s));
    let f = |m: int| masked_by(full, m as nat);
    vstd::set_lib::lemma_int_range(0, limit);
    assert forall|m1: int, m2: int|
        all_masks.contains(m1) && all_masks.contains(m2) && #[trigger] f(m1) == #[trigger] f(
            m2,
        ) implies m1 == m2 by {
        lemma_mask_of_masked(full, m1 as nat);
        lemma_mask_of_masked(full, m2 as nat);
    }
    assert(vstd::relations::injective_on(f, all_masks));
    assert forall|s: Seq<Cell>| all_masks.map(f).contains(s) <==> boards.contains(s) by {
        if all_masks.map(f).contains(s) {
            let m = choose|m: int| all_masks.contains(m) && s == f(m);
            lemma_masked_by_masks(full, m as nat);
        }
        if boards.contains(s) {
            lemma_masked_of_mask(full, s);
            let m = mask_of(full, s) as int;
            assert(all_masks.contains(m) && s == f(m));
        }
    }
    assert(all_masks.map(f) =~= boards);
    vstd::set_lib::lemma_map_size(all_masks, boards, f);
}

/// The board `full` with its colored cells hidden as the bits of `mask` say.
pub fn mask_state(full: &State, mask: u64) -> (masked: State)
    ensures
        masked@ == masked_by(full@, mask as nat),
{
    let n = full.cells.len();
    let mut cells: Vec<Cell> = Vec::new();
    let mut rest: u64 = mask;
    let mut i: usize = 0;
    proof {
        assert(full@.skip(0) =~= full@);
        assert(cells@ + masked_by(full@, mask as nat) =~= masked_by(full@, mask as nat));
    }
    while i < n
        invariant
            i <= n,
            n == full@.len(),
            masked_by(full@, mask as nat) == cells@ + masked_by(full@.skip(i as int), rest as nat),
        decreases n - i,
    {
        let c = full.cells[i];
        let ghost before = cells@;
        let ghost here = full@.skip(i as int);
        proof {
            assert(here.drop_first() =~= full@.skip(i + 1));
            assert(here[0] == full@[i as int]);
        }
        if c == Cell::Empty {
            cells.push(Cell::Empty);
            proof {
                let tail = masked_by(full@.skip(i + 1), rest as nat);
                assert(before + (seq![Cell::Empty] + tail) =~= cells@ + tail);
            }
        } else {
            let shown = if rest % 2 == 1 {
                c
            } else {
                Cell::Empty
            };
            cells.push(shown);
            proof {
                let tail = masked_by(full@.skip(i + 1), (rest / 2) as nat);
                assert(before + (seq![shown] + tail) =~= cells@ + tail);
            }
            rest = rest / 2;
        }
        i += 1;
    }
    proof {
        assert(full@.skip(n as int).len() == 0);
        assert(cells@ + Seq::<Cell>::empty() =~= cells@);
    }
    State { cells }
}

/// The table `base` after the boards of the masks below `upto` have been
/// counted once each.
pub open spec fn indexed_upto(
    base: Map<Seq<Cell>, StateInfo>,
    full: Seq<Cell>,
    upto: nat,
) -> Map<Seq<Cell>, StateInfo> {
    Map::new(
        |s: Seq<Cell>| base.contains_key(s) || (masks(full, s) && mask_of(full, s) < upto),
        |s: Seq<Cell>|
            StateInfo {
                cnt_completions: (count_in(base, s) + (if masks(full, s) && mask_of(full, s)
                    < upto {
                    1nat
                } else {
                    0nat
                })) as u64,
                value: value_in(base, s),
            },
    )
}

/// Counting the board of the next mask takes the table one mask further.
proof fn lemma_indexed_upto_step(
    base: Map<Seq<Cell>, StateInfo>,
    full: Seq<Cell>,
    mask: nat,
    before: Map<Seq<Cell>, StateInfo>,
    after: Map<Seq<Cell>, StateInfo>,
)
    requires
        mask < pow2(revealed_count(full)),
        before == indexed_upto(base, full, mask),
        count_in(base, masked_by(full, mask)) < u64::MAX,
        after == before.insert(
            masked_by(full, mask),
            (StateInfo {
                cnt_completions: (count_in(before, masked_by(full, mask)) + 1) as u64,
                value: value_in(before, masked_by(full, mask)),
            }),
        ),
    ensures
        after == indexed_upto(base, full, mask + 1),
{
    let g = masked_by(full, mask);
    lemma_masked_by_masks(full, mask);
    lemma_mask_of_masked(full, mask);
    assert forall|s: Seq<Cell>| masks(full, s) && mask_of(full, s) == mask implies s == g by {
        lemma_masked_of_mask(full, s);
    }
    assert(after =~= indexed_upto(base, full, mask + 1));
}

/// When every mask has been counted, the arrangement has been indexed.
proof fn lemma_indexed_upto_all(
    base: Map<Seq<Cell>, StateInfo>,
    cfg: Config,
    a: Seq<(usize, usize)>,
)
    ensures
        indexed_upto(base, clue_grid(cfg, a), pow2(revealed_count(clue_grid(cfg, a)))) == indexed(
            base,
            cfg,
            seq![a],
        ),
{
    let full = clue_grid(cfg, a);
    let arrs = seq![a];
    assert(arrs.drop_last() =~= Seq::<Seq<(usize, usize)>>::empty());
    assert(arrs.last() == a);
    assert forall|s: Seq<Cell>|
        count_consistent(cfg, arrs, s) == (if masks(full, s) && mask_of(full, s) < pow2(
            revealed_count(full),
        ) {
            1nat
        } else {
            0nat
        }) by {
        assert(count_consistent(cfg, arrs.drop_last(), s) == 0);
        if masks(full, s) {
            lemma_masked_of_mask(full, s);
        }
    }
    assert(indexed_upto(base, full, pow2(revealed_count(full))) =~= indexed(base, cfg, arrs));
}

/// Indexes one arrangement: every board that the arrangement agrees with,
/// that is its fully revealed board with any of its colored cells hidden,
/// gains one completion. A board new to the table starts without a value.
pub fn build_arrangement(cfg: &Config, arrangement: &Arrangement, state_map: &mut StateMap)
    requires
        cfg.wf(),
        is_arrangement(*cfg, arrangement@),
        old(state_map).wf(),
        old(state_map).cells() == cfg.cells(),
        forall|s: Seq<Cell>|
            consistent(*cfg, arrangement@, s) ==> #[trigger] count_in(old(state_map)@, s)
                < u64::MAX,
    ensures
        final(state_map).wf(),
        final(state_map).cells() == cfg.cells(),
        final(state_map)@ == indexed(old(state_map)@, *cfg, seq![arrangement@]),
{
    proof {
        assert forall|i: int| 0 <= i < cfg.cells() implies neighbor_count(
            arrangement@,
            #[trigger] cfg.column(i),
            cfg.row(i),
        ) <= MAX_NEIGHBORS by {
            lemma_covered_neighbor_count(*cfg, arrangement@, i);
        }
    }
    let full = arrangement_to_state(cfg, arrangement);
    let n = cfg.num_cells();
    let free: u64 = (n - cfg.num_bombs) as u64;
    let ghost base = state_map@;
    proof {
        lemma_clue_grid_hidden(*cfg, arrangement@);
        lemma2_to64();
        if free < 32 {
            lemma_pow2_strictly_increases(free as nat, 32);
        }
        vstd::bits::lemma_u64_shl_is_mul(1, free);
        assert(indexed_upto(base, full@, 0) =~= base);
    }
    let limit: u64 = 1u64 << free;
    let mut mask: u64 = 0;
    while mask < limit
        invariant
            mask <= limit,
            limit == pow2(revealed_count(full@)),
            full@ == clue_grid(*cfg, arrangement@),
            full@.len() == cfg.cells(),
            state_map.wf(),
            state_map.cells() == cfg.cells(),
            state_map@ == indexed_upto(base, full@, mask as nat),
            forall|s: Seq<Cell>|
                consistent(*cfg, arrangement@, s) ==> #[trigger] count_in(base, s) < u64::MAX,
        decreases limit - mask,
    {
        let masked = mask_state(&full, mask);
        let ghost before = state_map@;
        proof {
            lemma_masked_by_masks(full@, mask as nat);
            lemma_mask_of_masked(full@, mask as nat);
            assert(consistent(*cfg, arrangement@, masked@));
            assert(count_in(base, masked@) < u64::MAX);
        }
        state_map.add_completion(&masked);
        proof {
            lemma_indexed_upto_step(base, full@, mask as nat, before, state_map@);
        }
        mask += 1;
    }
    proof {
        lemma_indexed_upto_all(base, *cfg, arrangement@);
    }
}

/// Indexing the next arrangement into a table that holds the ones before it
/// gives the table that holds them all.
proof fn lemma_indexed_step(
    base: Map<Seq<Cell>, StateInfo>,
    cfg: Config,
    arrs: Seq<Seq<(usize, usize)>>,
    j: int,
)
    requires
        0 <= j < arrs.len(),
        forall|s: Seq<Cell>|
            #[trigger] count_in(base, s) + count_consistent(cfg, arrs, s) <= u64::MAX,
    ensures
        indexed(indexed(base, cfg, arrs.take(j)), cfg, seq![arrs[j]]) == indexed(
            base,
            cfg,
            arrs.take(j + 1),
        ),
{
    let one = seq![arrs[j]];
    let prev = arrs.take(j);
    let next = arrs.take(j + 1);
    let mid = indexed(base, cfg, prev);
    assert(one.drop_last() =~= Seq::<Seq<(usize, usize)>>::empty());
    assert(next.drop_last() =~= prev);
    assert forall|s: Seq<Cell>|
        #![trigger count_consistent(cfg, next, s)]
        #![trigger count_consistent(cfg, one, s)]
        #![trigger count_in(mid, s)]
        count_consistent(cfg, next, s) == count_consistent(cfg, prev, s) + count_consistent(
            cfg,
            one,
            s,
        ) && count_in(mid, s) == count_in(base, s) + count_consistent(cfg, prev, s) && value_in(
            mid,
            s,
        ) == value_in(base, s) by {
        assert(count_consistent(cfg, one.drop_last(), s) == 0);
        lemma_count_consistent_take(cfg, arrs, j, s);
        assert(count_in(base, s) + count_consistent(cfg, arrs, s) <= u64::MAX);
    }
    assert(indexed(mid, cfg, one) =~= indexed(base, cfg, next));
}

/// A table indexed from nothing is the index of the configuration, and no
/// board in it has a value yet.
pub proof fn lemma_indexed_from_empty(cfg: Config, m: Map<Seq<Cell>, StateInfo>)
    requires
        cfg.wf(),
        m == indexed(Map::<Seq<Cell>, StateInfo>::empty(), cfg, arrangements(cfg)),
    ensures
        is_index(m, cfg),
        forall|s: Seq<Cell>| #[trigger] value_in(m, s) is None,
{
    assert forall|s: Seq<Cell>|
        #![trigger m.contains_key(s)]
        #![trigger completions(cfg, s)]
        (m.contains_key(s) <==> completions(cfg, s) > 0) && (m.contains_key(s)
            ==> m[s].cnt_completions == completions(cfg, s)) by {
        lemma_completions_bound(cfg, s);
    }
}

/// Indexes every arrangement of the configuration: each board gains its
/// completion count, the number of arrangements that agree with it. On an
/// empty table the result is the index of the configuration.
pub fn build_states(cfg: &Config, state_map: &mut StateMap)
    requires
        cfg.wf(),
        old(state_map).wf(),
        old(state_map).cells() == cfg.cells(),
        forall|s: Seq<Cell>|
            #[trigger] count_in(old(state_map)@, s) + completions(*cfg, s) <= u64::MAX,
    ensures
        final(state_map).wf(),
        final(state_map).cells() == cfg.cells(),
        final(state_map)@ == indexed(old(state_map)@, *cfg, arrangements(*cfg)),
        old(state_map)@ == Map::<Seq<Cell>, StateInfo>::empty() ==> is_index(
            final(state_map)@,
            *cfg,
        ),
{
    let all = enumerate_arrangements(cfg);
    let ghost base = state_map@;
    let ghost arrs = arrangements(*cfg);
    proof {
        assert(arrs.take(0) =~= Seq::<Seq<(usize, usize)>>::empty());
        assert(indexed(base, *cfg, arrs.take(0)) =~= base);
    }
    let mut j: usize = 0;
    while j < all.len()
        invariant
            cfg.wf(),
            j <= all@.len(),
            all.deep_view() == arrs,
            arrs == arrangements(*cfg),
            forall|k: int| 0 <= k < all@.len() ==> is_arrangement(*cfg, (#[trigger] all@[k])@),
            state_map.wf(),
            state_map.cells() == cfg.cells(),
            state_map@ == indexed(base, *cfg, arrs.take(j as int)),
            forall|s: Seq<Cell>|
                #[trigger] count_in(base, s) + count_consistent(*cfg, arrs, s) <= u64::MAX,
        decreases all@.len() - j,
    {
        proof {
            assert(all.deep_view()[j as int] == all@[j as int]@);
            assert forall|s: Seq<Cell>|
                consistent(*cfg, all@[j as int]@, s) implies #[trigger] count_in(state_map@, s)
                < u64::MAX by {
                lemma_count_consistent_take(*cfg, arrs, j + 1, s);
                assert(arrs.take(j + 1).drop_last() =~= arrs.take(j as int));
                assert(count_in(base, s) + count_consistent(*cfg, arrs, s) <= u64::MAX);
            }
        }
        build_arrangement(cfg, &all[j], state_map);
        proof {
            lemma_indexed_step(base, *cfg, arrs, j as int);
        }
        j += 1;
    }
    proof {
        assert(arrs.take(j as int) =~= arrs);
        if base == Map::<Seq<Cell>, StateInfo>::empty() {
            lemma_indexed_from_empty(*cfg, state_map@);
        }
    }
}

} // verus!
