//! Cells, board configurations, boards, and the score of a board.

use vstd::prelude::*;

verus! {

/// What a board shows in one cell. `Empty` stands both for a cell that has
/// not been revealed yet and for a bomb: the two are never told apart in a
/// board, only in the statistics over arrangements.
#[derive(Copy, Clone, Debug, Hash, PartialEq, Eq, Structural)]
pub enum Cell {
    Empty,
    Green,
    Blue,
    Red,
}

/// The largest board, in cells, that the state table can key.
pub const MAX_CELLS: usize = 32;

/// The largest number of bombs that a board of any shape can carry: with
/// no more bombs, no neighborhood holds more than the colors cover.
pub const MAX_BOMBS: usize = 4;

/// The largest number of bombs in a 3x3 neighborhood that has a color.
pub const MAX_NEIGHBORS: usize = 4;

/// What a revealed green cell is worth.
pub const GREEN_REWARD: u64 = 1;

/// What a revealed blue cell is worth.
pub const BLUE_REWARD: u64 = 5;

/// What a revealed red cell is worth.
pub const RED_REWARD: u64 = 20;

/// The dimensions of the board and the number of bombs on it.
#[derive(Copy, Clone, Debug)]
pub struct Config {
    pub width: usize,
    pub height: usize,
    pub num_bombs: usize,
}

impl Config {
    /// The number of cells of the board.
    pub open spec fn cells(&self) -> nat {
        (self.width * self.height) as nat
    }

    /// The number of cells fits a machine word.
    pub open spec fn sized(&self) -> bool {
        self.width * self.height <= usize::MAX
    }

    /// No neighborhood of the board can hold more bombs than the colors
    /// cover: there are at most `MAX_BOMBS` bombs, or the board is a single
    /// row or column, where a neighborhood has three cells.
    pub open spec fn covered(&self) -> bool {
        self.num_bombs <= MAX_BOMBS || self.width <= 1 || self.height <= 1
    }

    /// A board that the table can key, whose bombs fit on it, and whose
    /// neighborhoods the colors cover.
    pub open spec fn wf(&self) -> bool {
        &&& self.width * self.height <= MAX_CELLS
        &&& self.num_bombs <= self.width * self.height
        &&& self.covered()
    }

    /// The place of the cell in column `x` and row `y` in a board.
    pub open spec fn index(&self, x: int, y: int) -> int {
        y * self.width + x
    }

    /// The column of the cell at place `i`.
    pub open spec fn column(&self, i: int) -> int {
        i % (self.width as int)
    }

    /// The row of the cell at place `i`.
    pub open spec fn row(&self, i: int) -> int {
        i / (self.width as int)
    }

    /// The configuration with these numbers, if it is well formed.
    pub fn new(width: usize, height: usize, num_bombs: usize) -> (r: Option<Config>)
        ensures
            r == (if (Config { width, height, num_bombs }).wf() {
                Some(Config { width, height, num_bombs })
            } else {
                None
            }),
    {
        if width == 0 || height == 0 {
            if num_bombs == 0 {
                assert(width * height == 0) by (nonlinear_arith)
                    requires
                        width == 0 || height == 0,
                ;
                return Some(Config { width, height, num_bombs });
            }
            assert(width * height == 0) by (nonlinear_arith)
                requires
                    width == 0 || height == 0,
            ;
            return None;
        }
        if width > MAX_CELLS || height > MAX_CELLS {
            assert(width * height > MAX_CELLS) by (nonlinear_arith)
                requires
                    width >= 1,
                    height >= 1,
                    width > MAX_CELLS || height > MAX_CELLS,
            ;
            return None;
        }
        assert(width * height <= 1024) by (nonlinear_arith)
            requires
                width <= 32,
                height <= 32,
        ;
        let cells: usize = width * height;
        let covered = num_bombs <= MAX_BOMBS || width <= 1 || height <= 1;
        if cells <= MAX_CELLS && num_bombs <= cells && covered {
            Some(Config { width, height, num_bombs })
        } else {
            None
        }
    }

    /// The number of cells of the board.
    pub fn num_cells(&self) -> (n: usize)
        requires
            self.sized(),
        ensures
            n == self.cells(),
    {
        self.width * self.height
    }
}

/// Every place on the board is the place of its own column and row, and a
/// column and a row on the board give a place whose column and row they are.
pub proof fn lemma_index_column_row(cfg: Config, x: int, y: int)
    requires
        0 <= x < cfg.width,
        0 <= y < cfg.height,
    ensures
        0 <= cfg.index(x, y) < cfg.cells(),
        cfg.column(cfg.index(x, y)) == x,
        cfg.row(cfg.index(x, y)) == y,
{
    let w = cfg.width as int;
    let h = cfg.height as int;
    assert(y * w + x < w * h) by (nonlinear_arith)
        requires
            0 <= x < w,
            0 <= y < h,
    ;
    assert(0 <= y * w + x) by (nonlinear_arith)
        requires
            0 <= x,
            0 <= y,
            0 <= w,
    ;
    vstd::arithmetic::div_mod::lemma_fundamental_div_mod_converse(y * w + x, w, y, x);
}

/// A place on the board has its column and row on the board, and is the
/// place that they give.
pub proof fn lemma_column_row_index(cfg: Config, i: int)
    requires
        0 <= i < cfg.cells(),
    ensures
        0 <= cfg.column(i) < cfg.width,
        0 <= cfg.row(i) < cfg.height,
        cfg.index(cfg.column(i), cfg.row(i)) == i,
{
    let w = cfg.width as int;
    let h = cfg.height as int;
    assert(w > 0) by (nonlinear_arith)
        requires
            0 <= i < w * h,
            w >= 0,
    ;
    vstd::arithmetic::div_mod::lemma_fundamental_div_mod(i, w);
    vstd::arithmetic::div_mod::lemma_mod_bound(i, w);
    let q = i / w;
    let r = i % w;
    assert(q >= 0 && q < h) by (nonlinear_arith)
        requires
            i == w * q + r,
            0 <= r < w,
            0 <= i < w * h,
    ;
    assert(q * w == w * q) by (nonlinear_arith);
}

/// How often the color `c` occurs in `s`.
pub open spec fn count_of(s: Seq<Cell>, c: Cell) -> nat
    decreases s.len(),
{
    if s.len() == 0 {
        0
    } else {
        count_of(s.drop_last(), c) + if s.last() == c {
            1nat
        } else {
            0nat
        }
    }
}

/// What a revealed cell of this color is worth.
pub open spec fn reward(c: Cell) -> nat {
    match c {
        Cell::Empty => 0,
        Cell::Green => GREEN_REWARD as nat,
        Cell::Blue => BLUE_REWARD as nat,
        Cell::Red => RED_REWARD as nat,
    }
}

/// The score of a board if play stopped now: each revealed cell pays the
/// reward of its color, wherever it lies.
pub open spec fn terminal_value(s: Seq<Cell>) -> nat {
    count_of(s, Cell::Green) * (GREEN_REWARD as nat) + count_of(s, Cell::Blue) * (
    BLUE_REWARD as nat) + count_of(s, Cell::Red) * (RED_REWARD as nat)
}

/// The number of cells of `s` that show a color.
pub open spec fn revealed_count(s: Seq<Cell>) -> nat {
    (s.len() - count_of(s, Cell::Empty)) as nat
}

/// Each cell has exactly one of the four tags.
pub proof fn lemma_count_total(s: Seq<Cell>)
    ensures
        count_of(s, Cell::Empty) + count_of(s, Cell::Green) + count_of(s, Cell::Blue) + count_of(
            s,
            Cell::Red,
        ) == s.len(),
    decreases s.len(),
{
    if s.len() > 0 {
        lemma_count_total(s.drop_last());
    }
}

/// Counting is additive over concatenation.
pub proof fn lemma_count_concat(a: Seq<Cell>, b: Seq<Cell>, c: Cell)
    ensures
        count_of(a + b, c) == count_of(a, c) + count_of(b, c),
    decreases b.len(),
{
    if b.len() == 0 {
        assert(a + b =~= a);
    } else {
        assert((a + b).drop_last() =~= a + b.drop_last());
        assert((a + b).last() == b.last());
        lemma_count_concat(a, b.drop_last(), c);
    }
}

/// The count of a color is the multiplicity of that color in the board
/// taken as a multiset, so it does not depend on where the cells lie.
pub proof fn lemma_count_is_multiplicity(s: Seq<Cell>, c: Cell)
    ensures
        count_of(s, c) == s.to_multiset().count(c),
    decreases s.len(),
{
    broadcast use vstd::seq_lib::group_to_multiset_ensures;

    if s.len() == 0 {
        assert(s.to_multiset().len() == 0);
    } else {
        lemma_count_is_multiplicity(s.drop_last(), c);
        assert(s =~= s.drop_last().push(s.last()));
        assert(s.to_multiset() =~= s.drop_last().to_multiset().insert(s.last()));
    }
}

/// The terminal value is additive: the score of two boards laid end to end
/// is the sum of their scores.
pub proof fn lemma_terminal_value_additive(a: Seq<Cell>, b: Seq<Cell>)
    ensures
        terminal_value(a + b) == terminal_value(a) + terminal_value(b),
{
    lemma_count_concat(a, b, Cell::Green);
    lemma_count_concat(a, b, Cell::Blue);
    lemma_count_concat(a, b, Cell::Red);
    assert(terminal_value(a + b) == terminal_value(a) + terminal_value(b)) by (nonlinear_arith)
        requires
            count_of(a + b, Cell::Green) == count_of(a, Cell::Green) + count_of(b, Cell::Green),
            count_of(a + b, Cell::Blue) == count_of(a, Cell::Blue) + count_of(b, Cell::Blue),
            count_of(a + b, Cell::Red) == count_of(a, Cell::Red) + count_of(b, Cell::Red),
            terminal_value(a + b) == count_of(a + b, Cell::Green) * 1 + count_of(a + b, Cell::Blue)
                * 5 + count_of(a + b, Cell::Red) * 20,
            terminal_value(a) == count_of(a, Cell::Green) * 1 + count_of(a, Cell::Blue) * 5
                + count_of(a, Cell::Red) * 20,
            terminal_value(b) == count_of(b, Cell::Green) * 1 + count_of(b, Cell::Blue) * 5
                + count_of(b, Cell::Red) * 20,
    ;
}

/// Two boards with the same cells in another order have the same terminal
/// value.
pub proof fn lemma_terminal_value_ignores_positions(a: Seq<Cell>, b: Seq<Cell>)
    requires
        a.to_multiset() == b.to_multiset(),
    ensures
        terminal_value(a) == terminal_value(b),
{
    lemma_count_is_multiplicity(a, Cell::Green);
    lemma_count_is_multiplicity(a, Cell::Blue);
    lemma_count_is_multiplicity(a, Cell::Red);
    lemma_count_is_multiplicity(b, Cell::Green);
    lemma_count_is_multiplicity(b, Cell::Blue);
    lemma_count_is_multiplicity(b, Cell::Red);
}

/// The terminal value is at most the largest reward for each revealed cell.
pub proof fn lemma_terminal_value_bound(s: Seq<Cell>)
    ensures
        terminal_value(s) <= RED_REWARD * revealed_count(s),
        count_of(s, Cell::Empty) <= s.len(),
{
    lemma_count_total(s);
}

/// Changing one cell moves one unit of count from the old color to the new.
pub proof fn lemma_count_update(s: Seq<Cell>, i: int, c: Cell, d: Cell)
    requires
        0 <= i < s.len(),
    ensures
        count_of(s.update(i, c), d) == count_of(s, d) - (if s[i] == d {
            1int
        } else {
            0int
        }) + (if c == d {
            1int
        } else {
            0int
        }),
    decreases s.len(),
{
    let t = s.update(i, c);
    if i == s.len() - 1 {
        assert(t.drop_last() =~= s.drop_last());
    } else {
        assert(t.drop_last() =~= s.drop_last().update(i, c));
        lemma_count_update(s.drop_last(), i, c, d);
    }
}

/// The count of a color, taken from the front.
pub proof fn lemma_count_first(s: Seq<Cell>, c: Cell)
    requires
        s.len() > 0,
    ensures
        count_of(s, c) == count_of(s.drop_first(), c) + (if s[0] == c {
            1nat
        } else {
            0nat
        }),
{
    let head = seq![s[0]];
    assert(s =~= head + s.drop_first());
    lemma_count_concat(head, s.drop_first(), c);
    assert(head.drop_last() =~= Seq::<Cell>::empty());
    assert(count_of(head.drop_last(), c) == 0);
}

/// Revealing a color in a hidden cell raises the terminal value by the
/// reward of the color.
pub proof fn lemma_terminal_value_reveal(s: Seq<Cell>, i: int, c: Cell)
    requires
        0 <= i < s.len(),
        s[i] == Cell::Empty,
    ensures
        terminal_value(s.update(i, c)) == terminal_value(s) + reward(c),
{
    lemma_count_update(s, i, c, Cell::Green);
    lemma_count_update(s, i, c, Cell::Blue);
    lemma_count_update(s, i, c, Cell::Red);
}

/// A color that a board shows is shown in some cell.
pub proof fn lemma_count_witness(s: Seq<Cell>, c: Cell)
    requires
        count_of(s, c) > 0,
    ensures
        exists|i: int| 0 <= i < s.len() && #[trigger] s[i] == c,
    decreases s.len(),
{
    if s.len() > 0 {
        if s.last() == c {
            assert(s[s.len() - 1] == c);
        } else {
            lemma_count_witness(s.drop_last(), c);
            let i = choose|i: int| 0 <= i < s.drop_last().len() && #[trigger] s.drop_last()[i] == c;
            assert(s[i] == c);
        }
    }
}

/// A board: the cells row by row, the cell in column `x` and row `y` at place
/// `y * width + x`.
#[derive(Debug)]
pub struct State {
    pub cells: Vec<Cell>,
}

impl View for State {
    type V = Seq<Cell>;

    open spec fn view(&self) -> Seq<Cell> {
        self.cells@
    }
}

impl State {
    /// The board with every cell hidden.
    pub fn hidden(cfg: &Config) -> (s: State)
        requires
            cfg.sized(),
        ensures
            s@ == Seq::new(cfg.cells(), |i: int| Cell::Empty),
    {
        let n = cfg.num_cells();
        let mut cells: Vec<Cell> = Vec::new();
        let mut i: usize = 0;
        while i < n
            invariant
                i <= n,
                cells@ == Seq::new(i as nat, |j: int| Cell::Empty),
            decreases n - i,
        {
            cells.push(Cell::Empty);
            i += 1;
            assert(cells@ =~= Seq::new(i as nat, |j: int| Cell::Empty));
        }
        State { cells }
    }

    /// The cell in column `x` and row `y`.
    pub fn get(&self, cfg: &Config, x: usize, y: usize) -> (c: Cell)
        requires
            self@.len() == cfg.cells(),
            x < cfg.width,
            y < cfg.height,
        ensures
            c == self@[cfg.index(x as int, y as int)],
    {
        let n = self.cells.len();
        proof {
            lemma_index_column_row(*cfg, x as int, y as int);
            assert(y * cfg.width <= y * cfg.width + x < n);
        }
        self.cells[y * cfg.width + x]
    }

    /// Puts `c` in column `x` and row `y` and leaves the other cells alone.
    pub fn set(&mut self, cfg: &Config, x: usize, y: usize, c: Cell)
        requires
            old(self)@.len() == cfg.cells(),
            x < cfg.width,
            y < cfg.height,
        ensures
            final(self)@ == old(self)@.update(cfg.index(x as int, y as int), c),
    {
        let n = self.cells.len();
        proof {
            lemma_index_column_row(*cfg, x as int, y as int);
            assert(y * cfg.width <= y * cfg.width + x < n);
        }
        self.cells.set(y * cfg.width + x, c);
    }
}

/// The score of the board if play stopped now.
pub fn compute_terminal_state_value(state: &State) -> (value: u64)
    requires
        state@.len() * RED_REWARD <= u64::MAX,
    ensures
        value == terminal_value(state@),
{
    let n = state.cells.len();
    let mut value: u64 = 0;
    let mut i: usize = 0;
    while i < n
        invariant
            i <= n,
            n == state@.len(),
            n * RED_REWARD <= u64::MAX,
            value == terminal_value(state@.take(i as int)),
            value <= RED_REWARD * i,
        decreases n - i,
    {
        let ghost before = state@.take(i as int);
        let ghost after = state@.take(i + 1);
        proof {
            assert(after.drop_last() =~= before);
            assert(after.last() == state@[i as int]);
        }
        match state.cells[i] {
            Cell::Green => {
                value += GREEN_REWARD;
            },
            Cell::Blue => {
                value += BLUE_REWARD;
            },
            Cell::Red => {
                value += RED_REWARD;
            },
            Cell::Empty => {},
        }
        i += 1;
    }
    proof {
        assert(state@.take(n as int) =~= state@);
    }
    value
}

} // verus!
