//! The table of boards seen while indexing: for each board the number of
//! arrangements that agree with it, and its value once it has been solved.

use crate::grid::{Cell, Config, MAX_CELLS, State};
use vstd::arithmetic::power2::{lemma2_to64, lemma_pow2_strictly_increases, lemma_pow2_unfold, pow2};
use vstd::prelude::*;

verus! {

/// What the table records of one board.
#[derive(Clone, Copy, Debug)]
pub struct StateInfo {
    /// How many arrangements agree with the board.
    pub cnt_completions: u64,
    /// The best expected score from the board on, multiplied by
    /// `cnt_completions`; `None` until the board has been solved.
    pub value: Option<u64>,
}

/// The number that stands for a cell in a key.
pub open spec fn cell_code(c: Cell) -> nat {
    match c {
        Cell::Empty => 0,
        Cell::Green => 1,
        Cell::Blue => 2,
        Cell::Red => 3,
    }
}

/// The board read as a number in base four, the first cell leading.
pub open spec fn encode(s: Seq<Cell>) -> nat
    decreases s.len(),
{
    if s.len() == 0 {
        0
    } else {
        4 * encode(s.drop_last()) + cell_code(s.last())
    }
}

/// The key under which the table holds a board of at most `MAX_CELLS` cells.
pub open spec fn key_of(s: Seq<Cell>) -> u64 {
    encode(s) as u64
}

/// A board of `n` cells encodes to a number below `4^n`.
pub proof fn lemma_encode_bound(s: Seq<Cell>)
    ensures
        encode(s) < pow2(2 * s.len()),
    decreases s.len(),
{
    if s.len() == 0 {
        lemma2_to64();
    } else {
        lemma_encode_bound(s.drop_last());
        lemma_pow2_unfold(2 * s.len());
        lemma_pow2_unfold((2 * s.len() - 1) as nat);
    }
}

/// A board that the table can key encodes to a number that fits the key.
pub proof fn lemma_encode_fits(s: Seq<Cell>)
    requires
        s.len() <= MAX_CELLS,
    ensures
        encode(s) <= u64::MAX,
        key_of(s) == encode(s),
{
    lemma_encode_bound(s);
    lemma2_to64();
    if s.len() < MAX_CELLS {
        lemma_pow2_strictly_increases(2 * s.len(), 64);
    }
}

/// Two boards of the same size with the same encoding are the same board.
pub proof fn lemma_encode_injective(a: Seq<Cell>, b: Seq<Cell>)
    requires
        a.len() == b.len(),
        encode(a) == encode(b),
    ensures
        a == b,
    decreases a.len(),
{
    if a.len() == 0 {
        assert(a =~= b);
    } else {
        lemma_encode_injective(a.drop_last(), b.drop_last());
        assert(a =~= a.drop_last().push(a.last()));
        assert(b =~= b.drop_last().push(b.last()));
    }
}

/// Two boards of the same size that the table can key have the same key only
/// if they are the same board.
pub proof fn lemma_key_injective(a: Seq<Cell>, b: Seq<Cell>)
    requires
        a.len() == b.len(),
        a.len() <= MAX_CELLS,
        key_of(a) == key_of(b),
    ensures
        a == b,
{
    lemma_encode_fits(a);
    lemma_encode_fits(b);
    lemma_encode_injective(a, b);
}

/// The cell that a number below four stands for in a key.
pub open spec fn code_cell(code: nat) -> Cell {
    if code == 0 {
        Cell::Empty
    } else if code == 1 {
        Cell::Green
    } else if code == 2 {
        Cell::Blue
    } else {
        Cell::Red
    }
}

/// The board of `n` cells that encodes to `code`.
pub open spec fn decode(code: nat, n: nat) -> Seq<Cell>
    decreases n,
{
    if n == 0 {
        Seq::<Cell>::empty()
    } else {
        decode(code / 4, (n - 1) as nat).push(code_cell(code % 4))
    }
}

/// Every number below `4^n` is the encoding of a board of `n` cells.
pub proof fn lemma_decode(code: nat, n: nat)
    requires
        code < pow2(2 * n),
    ensures
        decode(code, n).len() == n,
        encode(decode(code, n)) == code,
    decreases n,
{
    if n == 0 {
        lemma2_to64();
    } else {
        lemma_pow2_unfold(2 * n);
        lemma_pow2_unfold((2 * n - 1) as nat);
        lemma_decode(code / 4, (n - 1) as nat);
        let front = decode(code / 4, (n - 1) as nat);
        let s = decode(code, n);
        assert(s.drop_last() =~= front);
    }
}

/// The key of a board.
pub fn state_key(state: &State) -> (key: u64)
    requires
        state@.len() <= MAX_CELLS,
    ensures
        key == key_of(state@),
{
    let n = state.cells.len();
    let mut key: u64 = 0;
    let mut i: usize = 0;
    while i < n
        invariant
            i <= n,
            n == state@.len(),
            n <= MAX_CELLS,
            key == encode(state@.take(i as int)),
        decreases n - i,
    {
        let code: u64 = match state.cells[i] {
            Cell::Empty => 0,
            Cell::Green => 1,
            Cell::Blue => 2,
            Cell::Red => 3,
        };
        proof {
            let next = state@.take(i + 1);
            assert(next.drop_last() =~= state@.take(i as int));
            assert(next.last() == state@[i as int]);
            lemma_encode_fits(next);
        }
        key = key * 4 + code;
        i += 1;
    }
    proof {
        assert(state@.take(n as int) =~= state@);
        lemma_encode_fits(state@);
    }
    key
}

/// The `hashbrown::HashMap` that holds the table, keyed by the keys of the
/// boards. The verifier does not look inside it: what it holds goes by the
/// name `raw_entries`, and the functions below say what hashbrown's methods
/// do to that.
#[verifier::external_body]
pub struct RawTable {
    map: hashbrown::HashMap<u64, StateInfo>,
}

/// What a raw table holds: the record stored under each key.
pub uninterp spec fn raw_entries(t: RawTable) -> Map<u64, StateInfo>;

/// `hashbrown::HashMap::new`: the new map holds nothing.
#[verifier::external_body]
fn raw_new() -> (t: RawTable)
    ensures
        raw_entries(t).dom() == Set::<u64>::empty(),
{
    RawTable { map: hashbrown::HashMap::new() }
}

/// `hashbrown::HashMap::len`: the number of keys that the map holds.
#[verifier::external_body]
fn raw_len(t: &RawTable) -> (n: usize)
    ensures
        n == raw_entries(*t).dom().len(),
{
    t.map.len()
}

/// `hashbrown::HashMap::get`: the record stored under `key`, if there is one.
#[verifier::external_body]
fn raw_get(t: &RawTable, key: u64) -> (r: Option<&StateInfo>)
    ensures
        r == (if raw_entries(*t).contains_key(key) {
            Some(&raw_entries(*t)[key])
        } else {
            None
        }),
{
    t.map.get(&key)
}

/// `hashbrown::HashMap::entry` followed by `Entry::or_insert`: if `key` is
/// absent, `default` is stored under it. The result refers to the record
/// under `key`; what the caller leaves in it is what the map then holds
/// there, and no other key changes.
#[verifier::external_body]
fn raw_entry_or_insert(t: &mut RawTable, key: u64, default: StateInfo) -> (r: &mut StateInfo)
    ensures
        *r == (if raw_entries(*old(t)).contains_key(key) {
            raw_entries(*old(t))[key]
        } else {
            default
        }),
        raw_entries(*final(t)) == raw_entries(*old(t)).insert(key, *final(r)),
{
    t.map.entry(key).or_insert(default)
}

/// `hashbrown::HashMap::get_mut`: a reference to the record under `key`, if
/// there is one. What the caller leaves in it is what the map then holds
/// there; no other key changes, and without a record nothing changes.
#[verifier::external_body]
fn raw_get_mut(t: &mut RawTable, key: u64) -> (r: Option<&mut StateInfo>)
    ensures
        match r {
            Some(info) => raw_entries(*old(t)).contains_key(key) && *info == raw_entries(*old(t))[key]
                && raw_entries(*final(t)) == raw_entries(*old(t)).insert(key, *final(info)),
            None => !raw_entries(*old(t)).contains_key(key) && raw_entries(*final(t))
                == raw_entries(*old(t)),
        },
{
    t.map.get_mut(&key)
}

/// The table of the boards of one size.
pub struct StateMap {
    cells: usize,
    table: RawTable,
}

impl View for StateMap {
    type V = Map<Seq<Cell>, StateInfo>;

    /// The table as a map from boards to records.
    open spec fn view(&self) -> Map<Seq<Cell>, StateInfo> {
        Map::new(
            |s: Seq<Cell>| s.len() == self.cells() && self.entries().contains_key(key_of(s)),
            |s: Seq<Cell>| self.entries()[key_of(s)],
        )
    }
}

/// The number of arrangements that `m` records for the board `s`.
pub open spec fn count_in(m: Map<Seq<Cell>, StateInfo>, s: Seq<Cell>) -> nat {
    if m.contains_key(s) {
        m[s].cnt_completions as nat
    } else {
        0
    }
}

/// The value that `m` records for the board `s`.
pub open spec fn value_in(m: Map<Seq<Cell>, StateInfo>, s: Seq<Cell>) -> Option<u64> {
    if m.contains_key(s) {
        m[s].value
    } else {
        None
    }
}

impl StateMap {
    /// The records by key.
    pub closed spec fn entries(&self) -> Map<u64, StateInfo> {
        raw_entries(self.table)
    }

    /// The size of the boards that the table holds.
    pub closed spec fn cells(&self) -> nat {
        self.cells as nat
    }

    /// The boards of the table can be keyed, and every key in it is the key
    /// of a board.
    pub closed spec fn wf(&self) -> bool {
        &&& self.cells <= MAX_CELLS
        &&& self.entries().dom().finite()
        &&& forall|key: u64| #[trigger] self.entries().contains_key(key) ==> key < pow2(2 * self.cells())
    }

    /// Storing `info` under the key of `s` stores it for the board `s` and
    /// for no other board.
    proof fn lemma_insert(self, after: StateMap, s: Seq<Cell>, info: StateInfo)
        requires
            self.wf(),
            after.cells == self.cells,
            s.len() == self.cells(),
            after.entries() == self.entries().insert(key_of(s), info),
        ensures
            after@ == self@.insert(s, info),
            after.wf(),
    {
        lemma_encode_bound(s);
        lemma_encode_fits(s);
        assert forall|t: Seq<Cell>| t.len() == self.cells() && key_of(t) == key_of(s) implies t
            == s by {
            lemma_key_injective(t, s);
        }
        assert(after@ =~= self@.insert(s, info));
    }

    /// The boards of a table are as many as its keys.
    proof fn lemma_boards_are_keys(self)
        requires
            self.wf(),
        ensures
            self@.dom().finite(),
            self@.dom().len() == self.entries().dom().len(),
    {
        let n = self.cells();
        let keys = self.entries().dom();
        let f = |key: u64| decode(key as nat, n);
        assert forall|k1: u64, k2: u64|
            keys.contains(k1) && keys.contains(k2) && #[trigger] f(k1) == #[trigger] f(
                k2,
            ) implies k1 == k2 by {
            lemma_decode(k1 as nat, n);
            lemma_decode(k2 as nat, n);
        }
        assert(vstd::relations::injective_on(f, keys));
        assert forall|s: Seq<Cell>| keys.map(f).contains(s) <==> self@.dom().contains(s) by {
            if keys.map(f).contains(s) {
                let key = choose|key: u64| keys.contains(key) && s == f(key);
                lemma_decode(key as nat, n);
            }
            if self@.dom().contains(s) {
                let key = key_of(s);
                lemma_encode_fits(s);
                lemma_decode(key as nat, n);
                lemma_encode_injective(decode(key as nat, n), s);
                assert(keys.contains(key) && s == f(key));
            }
        }
        assert(keys.map(f) =~= self@.dom());
        vstd::set_lib::lemma_map_size(keys, self@.dom(), f);
    }

    /// The number of boards in the table.
    pub fn len(&self) -> (n: usize)
        requires
            self.wf(),
        ensures
            self@.dom().finite(),
            n == self@.dom().len(),
    {
        proof {
            self.lemma_boards_are_keys();
        }
        raw_len(&self.table)
    }

    /// An empty table for the boards of `cfg`.
    pub fn new(cfg: &Config) -> (m: StateMap)
        requires
            cfg.cells() <= MAX_CELLS,
        ensures
            m.wf(),
            m.cells() == cfg.cells(),
            m@ == Map::<Seq<Cell>, StateInfo>::empty(),
    {
        let m = StateMap { cells: cfg.num_cells(), table: raw_new() };
        assert(m@ =~= Map::<Seq<Cell>, StateInfo>::empty());
        m
    }

    /// The record of a board, if the table has one.
    pub fn get(&self, state: &State) -> (r: Option<StateInfo>)
        requires
            self.wf(),
            state@.len() == self.cells(),
        ensures
            r == (if self@.contains_key(state@) {
                Some(self@[state@])
            } else {
                None
            }),
    {
        let key = state_key(state);
        match raw_get(&self.table, key) {
            Some(info) => Some(*info),
            None => None,
        }
    }

    /// The number of arrangements recorded for a board: zero if the table
    /// has no record of it.
    pub fn completion_count(&self, state: &State) -> (n: u64)
        requires
            self.wf(),
            state@.len() == self.cells(),
        ensures
            n == count_in(self@, state@),
    {
        match self.get(state) {
            Some(info) => info.cnt_completions,
            None => 0,
        }
    }

    /// Counts one more arrangement for a board. A board that is new to the
    /// table starts from zero arrangements and no value.
    pub fn add_completion(&mut self, state: &State)
        requires
            old(self).wf(),
            state@.len() == old(self).cells(),
            count_in(old(self)@, state@) < u64::MAX,
        ensures
            final(self).wf(),
            final(self).cells() == old(self).cells(),
            final(self)@ == old(self)@.insert(
                state@,
                (StateInfo {
                    cnt_completions: (count_in(old(self)@, state@) + 1) as u64,
                    value: value_in(old(self)@, state@),
                }),
            ),
    {
        let key = state_key(state);
        let ghost before = *self;
        let info = raw_entry_or_insert(
            &mut self.table,
            key,
            StateInfo { cnt_completions: 0, value: None },
        );
        info.cnt_completions += 1;
        proof {
            before.lemma_insert(
                *self,
                state@,
                StateInfo {
                    cnt_completions: (count_in(before@, state@) + 1) as u64,
                    value: value_in(before@, state@),
                },
            );
        }
    }

    /// Records the value of a board that the table holds.
    pub fn set_value(&mut self, state: &State, value: u64)
        requires
            old(self).wf(),
            state@.len() == old(self).cells(),
            old(self)@.contains_key(state@),
        ensures
            final(self).wf(),
            final(self).cells() == old(self).cells(),
            final(self)@ == old(self)@.insert(
                state@,
                (StateInfo {
                    cnt_completions: old(self)@[state@].cnt_completions,
                    value: Some(value),
                }),
            ),
    {
        let key = state_key(state);
        let ghost before = *self;
        match raw_get_mut(&mut self.table, key) {
            Some(info) => {
                info.value = Some(value);
            },
            None => {},
        }
        proof {
            before.lemma_insert(
                *self,
                state@,
                StateInfo { cnt_completions: before@[state@].cnt_completions, value: Some(value) },
            );
        }
    }
}

} // verus!
