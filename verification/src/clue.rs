//! The board that an arrangement shows when every cell without a bomb is
//! revealed.

use crate::arrangement::{Arrangement, is_arrangement, on_board, position};
use crate::grid::{
    Cell, Config, count_of, lemma_column_row_index, lemma_count_total, lemma_index_column_row,
    MAX_BOMBS, MAX_NEIGHBORS, revealed_count, State,
};
use vstd::prelude::*;

verus! {

/// The cell in column `x` and row `y` is the cell `p` or touches it, by a
/// side or by a corner.
pub open spec fn adjacent(p: (usize, usize), x: int, y: int) -> bool {
    p.0 - 1 <= x <= p.0 + 1 && p.1 - 1 <= y <= p.1 + 1
}

/// The number of bombs of `a` in the 3x3 neighborhood of column `x` and
/// row `y`.
pub open spec fn neighbor_count(a: Seq<(usize, usize)>, x: int, y: int) -> nat
    decreases a.len(),
{
    if a.len() == 0 {
        0
    } else {
        neighbor_count(a.drop_last(), x, y) + if adjacent(a.last(), x, y) {
            1nat
        } else {
            0nat
        }
    }
}

/// The color of a cell without a bomb that has `n` bombs in its
/// neighborhood, for `n` up to four.
pub open spec fn color_of(n: nat) -> Cell {
    if n == 0 {
        Cell::Green
    } else if n <= 2 {
        Cell::Blue
    } else {
        Cell::Red
    }
}

/// What the cell at place `i` shows under the arrangement `a` once all is
/// revealed: nothing where a bomb lies, else the color of its bomb count.
pub open spec fn clue(cfg: Config, a: Seq<(usize, usize)>, i: int) -> Cell {
    if a.contains(position(cfg, i)) {
        Cell::Empty
    } else {
        color_of(neighbor_count(a, cfg.column(i), cfg.row(i)))
    }
}

/// The fully revealed board of the arrangement `a`.
pub open spec fn clue_grid(cfg: Config, a: Seq<(usize, usize)>) -> Seq<Cell> {
    Seq::new(cfg.cells(), |i: int| clue(cfg, a, i))
}

/// Every place on the board has its column and row on the board and is the
/// place that they give.
pub open spec fn coords_ok(cfg: Config) -> bool {
    forall|k: int|
        0 <= k < cfg.cells() ==> 0 <= #[trigger] cfg.column(k) < cfg.width && 0 <= cfg.row(k)
            < cfg.height && cfg.row(k) * cfg.width + cfg.column(k) == k
}

/// The places of every board have their columns and rows on the board.
pub proof fn lemma_coords_ok(cfg: Config)
    ensures
        coords_ok(cfg),
{
    assert forall|k: int| 0 <= k < cfg.cells() implies 0 <= #[trigger] cfg.column(k) < cfg.width
        && 0 <= cfg.row(k) < cfg.height && cfg.row(k) * cfg.width + cfg.column(k) == k by {
        lemma_column_row_index(cfg, k);
    }
}

/// A neighborhood holds at most as many bombs as there are.
pub proof fn lemma_neighbor_count_bound(a: Seq<(usize, usize)>, x: int, y: int)
    ensures
        neighbor_count(a, x, y) <= a.len(),
    decreases a.len(),
{
    if a.len() > 0 {
        lemma_neighbor_count_bound(a.drop_last(), x, y);
    }
}

/// How many bombs of `a` lie in column `x` and row `y`.
pub open spec fn bombs_at(a: Seq<(usize, usize)>, x: int, y: int) -> nat
    decreases a.len(),
{
    if a.len() == 0 {
        0
    } else {
        bombs_at(a.drop_last(), x, y) + if a.last().0 == x && a.last().1 == y {
            1nat
        } else {
            0nat
        }
    }
}

/// A cell that counts a bomb holds one.
pub proof fn lemma_bombs_at_witness(a: Seq<(usize, usize)>, x: int, y: int)
    requires
        bombs_at(a, x, y) > 0,
    ensures
        exists|k: int| 0 <= k < a.len() && (#[trigger] a[k]).0 == x && a[k].1 == y,
    decreases a.len(),
{
    if a.len() > 0 {
        if a.last().0 == x && a.last().1 == y {
            assert(a[a.len() - 1].0 == x);
        } else {
            lemma_bombs_at_witness(a.drop_last(), x, y);
            let k = choose|k: int|
                0 <= k < a.drop_last().len() && (#[trigger] a.drop_last()[k]).0 == x
                    && a.drop_last()[k].1 == y;
            assert(a[k].0 == x);
        }
    }
}

/// An arrangement that names no cell twice has at most one bomb in a cell.
pub proof fn lemma_bombs_at_once(a: Seq<(usize, usize)>, x: int, y: int)
    requires
        a.no_duplicates(),
    ensures
        bombs_at(a, x, y) <= 1,
    decreases a.len(),
{
    if a.len() > 0 {
        let front = a.drop_last();
        lemma_bombs_at_once(front, x, y);
        if a.last().0 == x && a.last().1 == y && bombs_at(front, x, y) > 0 {
            lemma_bombs_at_witness(front, x, y);
            let k = choose|k: int|
                0 <= k < front.len() && (#[trigger] front[k]).0 == x && front[k].1 == y;
            assert(a[k] == a[a.len() - 1]);
        }
    }
}

/// The bombs in a neighborhood are the bombs in its nine cells.
pub proof fn lemma_neighbor_count_cells(a: Seq<(usize, usize)>, x: int, y: int)
    ensures
        neighbor_count(a, x, y) == bombs_at(a, x - 1, y - 1) + bombs_at(a, x, y - 1) + bombs_at(
            a,
            x + 1,
            y - 1,
        ) + bombs_at(a, x - 1, y) + bombs_at(a, x, y) + bombs_at(a, x + 1, y) + bombs_at(
            a,
            x - 1,
            y + 1,
        ) + bombs_at(a, x, y + 1) + bombs_at(a, x + 1, y + 1),
    decreases a.len(),
{
    if a.len() > 0 {
        lemma_neighbor_count_cells(a.drop_last(), x, y);
    }
}

/// No cell off the board counts a bomb of an arrangement on the board.
pub proof fn lemma_bombs_at_off_board(cfg: Config, a: Seq<(usize, usize)>, x: int, y: int)
    requires
        forall|k: int| 0 <= k < a.len() ==> on_board(cfg, #[trigger] a[k]),
        !(0 <= x < cfg.width && 0 <= y < cfg.height),
    ensures
        bombs_at(a, x, y) == 0,
{
    if bombs_at(a, x, y) > 0 {
        lemma_bombs_at_witness(a, x, y);
        let k = choose|k: int| 0 <= k < a.len() && (#[trigger] a[k]).0 == x && a[k].1 == y;
        assert(on_board(cfg, a[k]));
    }
}

/// On a board whose neighborhoods the colors cover, no arrangement puts
/// more bombs into a neighborhood than the colors cover.
pub proof fn lemma_covered_neighbor_count(cfg: Config, a: Seq<(usize, usize)>, i: int)
    requires
        cfg.covered(),
        is_arrangement(cfg, a),
        0 <= i < cfg.cells(),
    ensures
        neighbor_count(a, cfg.column(i), cfg.row(i)) <= MAX_NEIGHBORS,
{
    let x = cfg.column(i);
    let y = cfg.row(i);
    lemma_column_row_index(cfg, i);
    if cfg.num_bombs <= MAX_BOMBS {
        lemma_neighbor_count_bound(a, x, y);
    } else {
        lemma_neighbor_count_cells(a, x, y);
        lemma_bombs_at_once(a, x - 1, y - 1);
        lemma_bombs_at_once(a, x, y - 1);
        lemma_bombs_at_once(a, x + 1, y - 1);
        lemma_bombs_at_once(a, x - 1, y);
        lemma_bombs_at_once(a, x, y);
        lemma_bombs_at_once(a, x + 1, y);
        lemma_bombs_at_once(a, x - 1, y + 1);
        lemma_bombs_at_once(a, x, y + 1);
        lemma_bombs_at_once(a, x + 1, y + 1);
        if cfg.height <= 1 {
            lemma_bombs_at_off_board(cfg, a, x - 1, y - 1);
            lemma_bombs_at_off_board(cfg, a, x, y - 1);
            lemma_bombs_at_off_board(cfg, a, x + 1, y - 1);
            lemma_bombs_at_off_board(cfg, a, x - 1, y + 1);
            lemma_bombs_at_off_board(cfg, a, x, y + 1);
            lemma_bombs_at_off_board(cfg, a, x + 1, y + 1);
        } else {
            lemma_bombs_at_off_board(cfg, a, x - 1, y - 1);
            lemma_bombs_at_off_board(cfg, a, x - 1, y);
            lemma_bombs_at_off_board(cfg, a, x - 1, y + 1);
            lemma_bombs_at_off_board(cfg, a, x + 1, y - 1);
            lemma_bombs_at_off_board(cfg, a, x + 1, y);
            lemma_bombs_at_off_board(cfg, a, x + 1, y + 1);
        }
    }
}

/// The first bombs of an arrangement put no more bombs in a neighborhood
/// than all of them.
pub proof fn lemma_neighbor_count_take(a: Seq<(usize, usize)>, j: int, x: int, y: int)
    requires
        0 <= j <= a.len(),
    ensures
        neighbor_count(a.take(j), x, y) <= neighbor_count(a, x, y),
    decreases a.len(),
{
    if j == a.len() {
        assert(a.take(j) =~= a);
    } else {
        assert(a.take(j) =~= a.drop_last().take(j));
        lemma_neighbor_count_take(a.drop_last(), j, x, y);
    }
}

/// A cell is among the first `j + 1` bombs if it is among the first `j` or
/// is the next one.
pub proof fn lemma_contains_take_step(a: Seq<(usize, usize)>, j: int, p: (usize, usize))
    requires
        0 <= j < a.len(),
    ensures
        a.take(j + 1).contains(p) <==> a.take(j).contains(p) || a[j] == p,
{
    let longer = a.take(j + 1);
    let shorter = a.take(j);
    if longer.contains(p) {
        let i = choose|i: int| 0 <= i < longer.len() && longer[i] == p;
        if i < j {
            assert(shorter[i] == p);
        }
    }
    if shorter.contains(p) {
        let i = choose|i: int| 0 <= i < shorter.len() && shorter[i] == p;
        assert(longer[i] == p);
    }
    if a[j] == p {
        assert(longer[j] == p);
    }
}

/// Among the first `m` places of the board, the number that hold a bomb of
/// `a`.
pub open spec fn bombs_before(cfg: Config, a: Seq<(usize, usize)>, m: nat) -> nat
    decreases m,
{
    if m == 0 {
        0
    } else {
        bombs_before(cfg, a, (m - 1) as nat) + if a.contains(position(cfg, m - 1)) {
            1nat
        } else {
            0nat
        }
    }
}

/// One more bomb, in a cell that had none, is one more place with a bomb
/// among the places up to its own.
proof fn lemma_bombs_before_push(cfg: Config, a: Seq<(usize, usize)>, b: (usize, usize), m: nat)
    requires
        m <= cfg.cells(),
        b.0 < cfg.width,
        b.1 < cfg.height,
        !a.contains(b),
    ensures
        bombs_before(cfg, a.push(b), m) == bombs_before(cfg, a, m) + (if cfg.index(
            b.0 as int,
            b.1 as int,
        ) < m {
            1nat
        } else {
            0nat
        }),
    decreases m,
{
    if m > 0 {
        lemma_bombs_before_push(cfg, a, b, (m - 1) as nat);
        let p = position(cfg, m - 1);
        lemma_coords_ok(cfg);
        lemma_index_column_row(cfg, b.0 as int, b.1 as int);
        assert(cfg.column(m - 1) >= 0);
        if a.push(b).contains(p) {
            let i = choose|i: int| 0 <= i < a.push(b).len() && a.push(b)[i] == p;
            if i < a.len() {
                assert(a[i] == p);
            }
        }
        if a.contains(p) {
            let i = choose|i: int| 0 <= i < a.len() && a[i] == p;
            assert(a.push(b)[i] == p);
        }
        if p == b {
            assert(a.push(b)[a.len() as int] == p);
        }
    }
}

/// The places of the whole board that hold a bomb are as many as the bombs.
proof fn lemma_bombs_before_all(cfg: Config, a: Seq<(usize, usize)>)
    requires
        a.no_duplicates(),
        forall|k: int| 0 <= k < a.len() ==> (#[trigger] a[k]).0 < cfg.width && a[k].1 < cfg.height,
    ensures
        bombs_before(cfg, a, cfg.cells()) == a.len(),
    decreases a.len(),
{
    if a.len() == 0 {
        lemma_no_bombs(cfg, a, cfg.cells());
    } else {
        let front = a.drop_last();
        let b = a.last();
        assert(a =~= front.push(b));
        assert(!front.contains(b)) by {
            if front.contains(b) {
                let i = choose|i: int| 0 <= i < front.len() && front[i] == b;
                assert(a[i] == a[a.len() - 1]);
            }
        }
        assert forall|k: int| 0 <= k < front.len() implies (#[trigger] front[k]).0 < cfg.width
            && front[k].1 < cfg.height by {
            assert(front[k] == a[k]);
        }
        lemma_bombs_before_all(cfg, front);
        lemma_bombs_before_push(cfg, front, b, cfg.cells());
        lemma_index_column_row(cfg, b.0 as int, b.1 as int);
    }
}

/// Without bombs no place holds one.
proof fn lemma_no_bombs(cfg: Config, a: Seq<(usize, usize)>, m: nat)
    requires
        a.len() == 0,
    ensures
        bombs_before(cfg, a, m) == 0,
    decreases m,
{
    if m > 0 {
        lemma_no_bombs(cfg, a, (m - 1) as nat);
    }
}

/// The fully revealed board shows nothing exactly where a bomb lies.
proof fn lemma_hidden_prefix(cfg: Config, a: Seq<(usize, usize)>, m: nat)
    requires
        m <= cfg.cells(),
    ensures
        count_of(clue_grid(cfg, a).take(m as int), Cell::Empty) == bombs_before(cfg, a, m),
    decreases m,
{
    if m > 0 {
        lemma_hidden_prefix(cfg, a, (m - 1) as nat);
        let g = clue_grid(cfg, a);
        assert(g.take(m as int).drop_last() =~= g.take(m - 1));
        assert(g.take(m as int).last() == clue(cfg, a, m - 1));
    }
}

/// The fully revealed board of an arrangement hides exactly the bombs.
pub proof fn lemma_clue_grid_hidden(cfg: Config, a: Seq<(usize, usize)>)
    requires
        is_arrangement(cfg, a),
    ensures
        clue_grid(cfg, a).len() == cfg.cells(),
        count_of(clue_grid(cfg, a), Cell::Empty) == cfg.num_bombs,
        revealed_count(clue_grid(cfg, a)) == cfg.cells() - cfg.num_bombs,
{
    let g = clue_grid(cfg, a);
    lemma_hidden_prefix(cfg, a, cfg.cells());
    assert(g.take(cfg.cells() as int) =~= g);
    lemma_bombs_before_all(cfg, a);
    lemma_count_total(g);
}

/// `lo` and `hi` are the first and the last of the places `c - 1`, `c`,
/// `c + 1` that lie below `len`.
pub open spec fn clipped(c: usize, len: usize, lo: usize, hi: usize) -> bool {
    &&& c < len
    &&& lo == (if c > 0 {
        c - 1
    } else {
        0
    })
    &&& hi == (if c + 1 < len {
        c + 1
    } else {
        c as int
    })
}

/// The counts `base` with the bomb `b` counted in the cells of its
/// neighborhood that come before column `x` of row `y`.
pub open spec fn counted_before(
    cfg: Config,
    base: Seq<u8>,
    counts: Seq<u8>,
    b: (usize, usize),
    x: int,
    y: int,
) -> bool {
    &&& counts.len() == base.len()
    &&& forall|k: int|
        0 <= k < counts.len() ==> #[trigger] counts[k] == base[k] + (if adjacent(
            b,
            cfg.column(k),
            cfg.row(k),
        ) && (cfg.row(k) < y || (cfg.row(k) == y && cfg.column(k) < x)) {
            1int
        } else {
            0int
        })
}

/// Counts the bomb `b` once in every cell of its neighborhood.
fn count_bomb(cfg: &Config, counts: &mut Vec<u8>, b: (usize, usize))
    requires
        cfg.sized(),
        on_board(*cfg, b),
        old(counts)@.len() == cfg.cells(),
        forall|k: int|
            0 <= k < cfg.cells() && adjacent(b, cfg.column(k), cfg.row(k)) ==> #[trigger] old(
                counts,
            )@[k] < u8::MAX,
    ensures
        final(counts)@.len() == cfg.cells(),
        forall|k: int|
            0 <= k < cfg.cells() ==> #[trigger] final(counts)@[k] == old(counts)@[k] + (
            if adjacent(b, cfg.column(k), cfg.row(k)) {
                1int
            } else {
                0int
            }),
{
    let w = cfg.width;
    let h = cfg.height;
    let y_lo = if b.1 > 0 {
        b.1 - 1
    } else {
        0
    };
    let y_hi = if b.1 + 1 < h {
        b.1 + 1
    } else {
        b.1
    };
    let x_lo = if b.0 > 0 {
        b.0 - 1
    } else {
        0
    };
    let x_hi = if b.0 + 1 < w {
        b.0 + 1
    } else {
        b.0
    };
    let ghost base = counts@;
    proof {
        lemma_coords_ok(*cfg);
    }
    let mut y = y_lo;
    while y <= y_hi
        invariant
            cfg.sized(),
            coords_ok(*cfg),
            w == cfg.width,
            h == cfg.height,
            clipped(b.0, w, x_lo, x_hi),
            clipped(b.1, h, y_lo, y_hi),
            y_lo <= y <= y_hi + 1,
            base.len() == cfg.cells(),
            forall|k: int|
                0 <= k < cfg.cells() && adjacent(b, cfg.column(k), cfg.row(k))
                    ==> #[trigger] base[k] < u8::MAX,
            counted_before(*cfg, base, counts@, b, 0, y as int),
        decreases y_hi + 1 - y,
    {
        let mut x = x_lo;
        while x <= x_hi
            invariant
                cfg.sized(),
                coords_ok(*cfg),
                w == cfg.width,
                h == cfg.height,
                clipped(b.0, w, x_lo, x_hi),
                clipped(b.1, h, y_lo, y_hi),
                y_lo <= y <= y_hi,
                x_lo <= x <= x_hi + 1,
                base.len() == cfg.cells(),
                forall|k: int|
                    0 <= k < cfg.cells() && adjacent(b, cfg.column(k), cfg.row(k))
                        ==> #[trigger] base[k] < u8::MAX,
                counted_before(*cfg, base, counts@, b, x as int, y as int),
            decreases x_hi + 1 - x,
        {
            proof {
                lemma_index_column_row(*cfg, x as int, y as int);
                assert(y * w <= y * w + x);
            }
            let place = y * w + x;
            let count = counts[place];
            counts.set(place, count + 1);
            x += 1;
        }
        y += 1;
    }
}

/// The fully revealed board of an arrangement: a bomb cell shows nothing,
/// any other cell the color of the number of bombs in its neighborhood.
/// No neighborhood may hold more bombs than the colors cover.
pub fn arrangement_to_state(cfg: &Config, arrangement: &Arrangement) -> (state: State)
    requires
        cfg.sized(),
        forall|k: int| 0 <= k < arrangement@.len() ==> on_board(*cfg, #[trigger] arrangement@[k]),
        forall|i: int|
            0 <= i < cfg.cells() ==> neighbor_count(
                arrangement@,
                #[trigger] cfg.column(i),
                cfg.row(i),
            ) <= MAX_NEIGHBORS,
    ensures
        state@ == clue_grid(*cfg, arrangement@),
{
    let n = cfg.num_cells();
    let ghost a = arrangement@;
    let mut counts: Vec<u8> = Vec::new();
    let mut i: usize = 0;
    while i < n
        invariant
            i <= n,
            counts@.len() == i,
            forall|k: int| 0 <= k < i ==> counts@[k] == 0,
        decreases n - i,
    {
        counts.push(0);
        i += 1;
    }
    let mut j: usize = 0;
    while j < arrangement.len()
        invariant
            cfg.sized(),
            forall|k: int| 0 <= k < a.len() ==> on_board(*cfg, #[trigger] a[k]),
            forall|i: int|
                0 <= i < cfg.cells() ==> neighbor_count(a, #[trigger] cfg.column(i), cfg.row(i))
                    <= MAX_NEIGHBORS,
            a == arrangement@,
            n == cfg.cells(),
            j <= a.len(),
            counts@.len() == n,
            forall|k: int|
                0 <= k < n ==> #[trigger] counts@[k] == neighbor_count(
                    a.take(j as int),
                    cfg.column(k),
                    cfg.row(k),
                ),
        decreases a.len() - j,
    {
        let b = arrangement[j];
        proof {
            assert(on_board(*cfg, a[j as int]));
            assert(a.take(j + 1).drop_last() =~= a.take(j as int));
            assert(a.take(j + 1).last() == b);
            assert forall|k: int|
                0 <= k < n && adjacent(b, cfg.column(k), cfg.row(k)) implies #[trigger] counts@[k]
                < u8::MAX by {
                lemma_neighbor_count_take(a, j + 1, cfg.column(k), cfg.row(k));
            }
        }
        count_bomb(cfg, &mut counts, b);
        j += 1;
    }
    proof {
        assert(a.take(j as int) =~= a);
    }
    let mut cells: Vec<Cell> = Vec::new();
    let mut i: usize = 0;
    while i < n
        invariant
            i <= n,
            n == cfg.cells(),
            counts@.len() == n,
            cells@.len() == i,
            forall|k: int|
                0 <= k < n ==> #[trigger] counts@[k] == neighbor_count(
                    a,
                    cfg.column(k),
                    cfg.row(k),
                ),
            forall|k: int|
                0 <= k < i ==> #[trigger] cells@[k] == color_of(
                    neighbor_count(a, cfg.column(k), cfg.row(k)),
                ),
        decreases n - i,
    {
        let count = counts[i];
        let cell = if count == 0 {
            Cell::Green
        } else if count <= 2 {
            Cell::Blue
        } else {
            Cell::Red
        };
        cells.push(cell);
        i += 1;
    }
    let mut state = State { cells };
    let mut j: usize = 0;
    proof {
        lemma_coords_ok(*cfg);
    }
    while j < arrangement.len()
        invariant
            coords_ok(*cfg),
            forall|k: int| 0 <= k < a.len() ==> on_board(*cfg, #[trigger] a[k]),
            a == arrangement@,
            n == cfg.cells(),
            j <= a.len(),
            state@.len() == n,
            forall|k: int|
                0 <= k < n ==> #[trigger] state@[k] == (if a.take(j as int).contains(
                    position(*cfg, k),
                ) {
                    Cell::Empty
                } else {
                    color_of(neighbor_count(a, cfg.column(k), cfg.row(k)))
                }),
        decreases a.len() - j,
    {
        let b = arrangement[j];
        proof {
            assert(on_board(*cfg, a[j as int]));
            lemma_index_column_row(*cfg, b.0 as int, b.1 as int);
            assert forall|k: int| 0 <= k < n implies (a.take(j + 1).contains(position(*cfg, k))
                <==> a.take(j as int).contains(position(*cfg, k)) || k == cfg.index(
                b.0 as int,
                b.1 as int,
            )) by {
                lemma_contains_take_step(a, j as int, position(*cfg, k));
                assert(cfg.column(k) >= 0);
            }
        }
        state.set(cfg, b.0, b.1, Cell::Empty);
        j += 1;
    }
    proof {
        assert(a.take(j as int) =~= a);
        assert(state@ =~= clue_grid(*cfg, a));
    }
    state
}

} // verus!
