use std::collections::HashMap;
use vstd::prelude::*;
use crate::action::{action_at, action_code, Action};
use crate::state::State;

verus! {

broadcast use vstd::std_specs::hash::group_hash_axioms;

/// Fixed-point scale of table values: `SCALE` stands for a value of 1.
pub const SCALE: i64 = 1_000_000_000;

/// The base that separates the two coordinates of a state in a key.
pub open spec fn key_base() -> int {
    0x1_0000_0000_0000_0000
}

/// The integer key of a state: its two coordinates side by side.
pub open spec fn state_key(s: State) -> u128 {
    (s.x as int * key_base() + s.y as int) as u128
}

proof fn lemma_key_bounds(s: State)
    ensures
        0 <= s.x as int * key_base() + s.y as int <= u128::MAX,
{
    assert(0 <= s.x as int * key_base() <= (u64::MAX as int) * key_base()) by (nonlinear_arith)
        requires
            s.x <= u64::MAX,
            key_base() > 0,
    ;
}

/// Distinct states have distinct keys.
proof fn lemma_key_injective(a: State, b: State)
    requires
        state_key(a) == state_key(b),
    ensures
        a == b,
{
    lemma_key_bounds(a);
    lemma_key_bounds(b);
    let m = key_base();
    let (xa, ya, xb, yb) = (a.x as int, a.y as int, b.x as int, b.y as int);
    assert(xa == xb) by (nonlinear_arith)
        requires
            xa * m + ya == xb * m + yb,
            0 <= ya < m,
            0 <= yb < m,
            xa >= 0,
            xb >= 0,
    ;
}

fn key_of(s: State) -> (r: u128)
    ensures
        r == state_key(s),
{
    proof {
        lemma_key_bounds(s);
    }
    (s.x as u128) * 0x1_0000_0000_0000_0000u128 + (s.y as u128)
}

/// A table entry as it is persisted: column, row, action code and value.
pub type Record = (usize, usize, u8, i64);

/// The value stored for `(s, a)`, or 0 where the table has none.
pub open spec fn value_or_zero(t: Map<(State, Action), i64>, s: State, a: Action) -> i64 {
    if t.contains_key((s, a)) {
        t[(s, a)]
    } else {
        0
    }
}

/// The state-action value table: a sparse map from `(State, Action)` to a
/// fixed-point estimate, where an absent entry reads as 0.
///
/// The entries are kept in the order of their first insertion; one key index
/// per action maps the key of a state to the entry's position.
pub struct QTable {
    entries: Vec<(State, Action, i64)>,
    up: HashMap<u128, usize>,
    down: HashMap<u128, usize>,
    left: HashMap<u128, usize>,
    right: HashMap<u128, usize>,
}

impl View for QTable {
    type V = Map<(State, Action), i64>;

    closed spec fn view(&self) -> Map<(State, Action), i64> {
        Map::new(
            |k: (State, Action)| self.index(k.1).contains_key(state_key(k.0)),
            |k: (State, Action)| self.entries@[self.index(k.1)[state_key(k.0)] as int].2,
        )
    }
}

impl QTable {
    /// The key index of the entries for action `a`.
    pub closed spec fn index(&self, a: Action) -> Map<u128, usize> {
        match a {
            Action::Up => self.up@,
            Action::Down => self.down@,
            Action::Left => self.left@,
            Action::Right => self.right@,
        }
    }

    /// Every entry is indexed under its own position, and every index points
    /// at an entry with that state and action.
    pub closed spec fn wf(&self) -> bool {
        &&& forall|i: int|
            0 <= i < self.entries@.len() ==> {
                let e = #[trigger] self.entries@[i];
                &&& self.index(e.1).contains_key(state_key(e.0))
                &&& self.index(e.1)[state_key(e.0)] == i
            }
        &&& forall|a: Action, k: u128| #[trigger]
            self.index(a).contains_key(k) ==> {
                let i = self.index(a)[k] as int;
                &&& 0 <= i < self.entries@.len()
                &&& state_key(self.entries@[i].0) == k
                &&& self.entries@[i].1 == a
            }
    }

    /// An empty table.
    pub fn new() -> (r: QTable)
        ensures
            r.wf(),
            r@ == Map::<(State, Action), i64>::empty(),
    {
        let r = QTable {
            entries: Vec::new(),
            up: HashMap::new(),
            down: HashMap::new(),
            left: HashMap::new(),
            right: HashMap::new(),
        };
        assert(r@ =~= Map::<(State, Action), i64>::empty());
        r
    }

    fn position(&self, state: &State, action: &Action) -> (r: Option<usize>)
        requires
            self.wf(),
        ensures
            r == (if self.index(*action).contains_key(state_key(*state)) {
                Some(self.index(*action)[state_key(*state)])
            } else {
                None
            }),
    {
        let k = key_of(*state);
        let found = match action {
            Action::Up => self.up.get(&k),
            Action::Down => self.down.get(&k),
            Action::Left => self.left.get(&k),
            Action::Right => self.right.get(&k),
        };
        match found {
            Some(i) => Some(*i),
            None => None,
        }
    }

    /// The value stored for `(state, action)`, or 0 where there is none.
    pub fn get(&self, state: &State, action: &Action) -> (r: i64)
        requires
            self.wf(),
        ensures
            r == value_or_zero(self@, *state, *action),
            !self@.contains_key((*state, *action)) ==> r == 0,
    {
        match self.position(state, action) {
            Some(i) => self.entries[i].2,
            None => 0,
        }
    }

    /// Stores `value` for `(state, action)`, in place of any earlier value.
    pub fn insert(&mut self, state: State, action: Action, value: i64)
        requires
            old(self).wf(),
        ensures
            final(self).wf(),
            final(self)@ == old(self)@.insert((state, action), value),
    {
        let k = key_of(state);
        match self.position(&state, &action) {
            Some(i) => {
                self.entries.set(i, (state, action, value));
                proof {
                    assert forall|j: int| 0 <= j < self.entries@.len() && j != i implies
                        #[trigger] self.entries@[j] == old(self).entries@[j] by {}
                    assert(state_key(old(self).entries@[i as int].0) == state_key(state));
                    lemma_key_injective(old(self).entries@[i as int].0, state);
                }
            },
            None => {
                let n = self.entries.len();
                self.entries.push((state, action, value));
                match action {
                    Action::Up => {
                        self.up.insert(k, n);
                    },
                    Action::Down => {
                        self.down.insert(k, n);
                    },
                    Action::Left => {
                        self.left.insert(k, n);
                    },
                    Action::Right => {
                        self.right.insert(k, n);
                    },
                }
            },
        }
        proof {
            assert forall|a: Action, kk: u128| #[trigger]
                self.index(a).contains_key(kk) implies {
                    let i = self.index(a)[kk] as int;
                    &&& 0 <= i < self.entries@.len()
                    &&& state_key(self.entries@[i].0) == kk
                    &&& self.entries@[i].1 == a
                } by {
                if !(a == action && kk == k) {
                    assert(old(self).index(a).contains_key(kk));
                }
            }
            assert forall|key: (State, Action)| #[trigger] self@.contains_key(key) implies
                old(self)@.insert((state, action), value).contains_key(key) by {
                if key != (state, action) {
                    assert(old(self).index(key.1).contains_key(state_key(key.0)));
                }
            }
            assert forall|key: (State, Action)| #[trigger]
                old(self)@.insert((state, action), value).contains_key(key) implies
                self@.contains_key(key) by {
            }
            assert forall|key: (State, Action)| #[trigger] self@.contains_key(key) implies
                self@[key] == old(self)@.insert((state, action), value)[key] by {
                if key.1 == action && state_key(key.0) == k {
                    lemma_key_injective(key.0, state);
                } else {
                    assert(old(self).index(key.1).contains_key(state_key(key.0)));
                }
            }
            assert(self@ =~= old(self)@.insert((state, action), value));
        }
    }
}


/// Why persisted bytes could not be turned back into a table.
#[derive(Clone, Copy, Debug, PartialEq, Eq, Structural)]
pub enum DecodeError {
    /// The bytes do not encode a list of records.
    Malformed,
    /// A record names an action code outside the four actions.
    UnknownAction,
}

/// The state and action that a record is about.
pub open spec fn record_key(r: Record) -> (State, Action) {
    (State { x: r.0, y: r.1 }, action_at(r.2 as int))
}

/// Every record names one of the four actions.
pub open spec fn records_valid(rs: Seq<Record>) -> bool {
    forall|i: int| 0 <= i < rs.len() ==> (#[trigger] rs[i]).2 < 4
}

/// The table that storing the records one after another gives: a later
/// record for the same key wins.
pub open spec fn table_of(rs: Seq<Record>) -> Map<(State, Action), i64>
    decreases rs.len(),
{
    if rs.len() == 0 {
        Map::empty()
    } else {
        table_of(rs.drop_last()).insert(record_key(rs.last()), rs.last().3)
    }
}

/// The bytes that the binary encoding gives for a list of records.
pub uninterp spec fn encoding_of(rs: Seq<Record>) -> Seq<u8>;

/// Relies on bincode::serialize: a vector of integer tuples always encodes
/// (its length is known and no size limit is set), and the bytes depend on
/// the records alone.
#[verifier::external_body]
fn encode_records(rs: &Vec<Record>) -> (r: Option<Vec<u8>>)
    ensures
        r is Some,
        r->Some_0@ == encoding_of(rs@),
{
    bincode::serialize(rs).ok()
}

/// The records that the binary decoding reads from `bytes`, if it reads any.
pub uninterp spec fn decoding_of(bytes: Seq<u8>) -> Option<Seq<Record>>;

/// Relies on bincode::deserialize: its outcome depends on the bytes alone,
/// and the encoding of a vector of records decodes back to the same records.
#[verifier::external_body]
fn decode_records(bytes: &[u8]) -> (r: Option<Vec<Record>>)
    ensures
        r is Some <==> decoding_of(bytes@) is Some,
        r is Some ==> decoding_of(bytes@) == Some(r->Some_0@),
        forall|rs: Seq<Record>| #[trigger]
            encoding_of(rs) == bytes@ ==> r is Some && r->Some_0@ == rs,
{
    bincode::deserialize(bytes).ok()
}

/// What decoding `bytes` must give: `Malformed` where they hold no list of
/// records, else the table of the records they hold, or `UnknownAction` where
/// one of those names no action. Bytes that encode some records hold those.
pub open spec fn decodes_to(bytes: Seq<u8>, r: Result<QTable, DecodeError>) -> bool {
    &&& forall|rs: Seq<Record>| #[trigger]
        encoding_of(rs) == bytes ==> match r {
            Ok(t) => records_valid(rs) && t@ == table_of(rs),
            Err(e) => !records_valid(rs) && e == DecodeError::UnknownAction,
        }
    &&& decoding_of(bytes) is None ==> r == Err::<QTable, DecodeError>(DecodeError::Malformed)
    &&& decoding_of(bytes) is Some ==> match r {
        Ok(t) => records_valid(decoding_of(bytes)->Some_0) && t@ == table_of(
            decoding_of(bytes)->Some_0,
        ),
        Err(e) => !records_valid(decoding_of(bytes)->Some_0) && e == DecodeError::UnknownAction,
    }
    &&& r matches Ok(t) ==> t.wf()
}

impl QTable {
    /// The table's entries as records, in the order of first insertion.
    pub closed spec fn records(&self) -> Seq<Record> {
        self.entries@.map_values(|e: (State, Action, i64)| (e.0.x, e.0.y, action_code(e.1), e.2))
    }

    /// The records of the entries at positions below `n`, as a table.
    closed spec fn prefix_view(&self, n: int) -> Map<(State, Action), i64> {
        Map::new(
            |k: (State, Action)|
                self.index(k.1).contains_key(state_key(k.0)) && self.index(k.1)[state_key(
                    k.0,
                )] < n,
            |k: (State, Action)| self.entries@[self.index(k.1)[state_key(k.0)] as int].2,
        )
    }

    /// The table's records: each names a valid action, and storing them in
    /// order rebuilds the table.
    pub fn to_records(&self) -> (r: Vec<Record>)
        requires
            self.wf(),
        ensures
            r@ == self.records(),
            records_valid(r@),
            table_of(r@) == self@,
    {
        let mut out: Vec<Record> = Vec::new();
        let mut i: usize = 0;
        while i < self.entries.len()
            invariant
                self.wf(),
                i <= self.entries@.len(),
                out@ == self.records().take(i as int),
            decreases self.entries@.len() - i,
        {
            let e = self.entries[i];
            out.push((e.0.x, e.0.y, e.1.code(), e.2));
            proof {
                assert(out@ =~= self.records().take(i + 1));
            }
            i = i + 1;
        }
        proof {
            assert(out@ =~= self.records());
            lemma_records_rebuild(*self);
        }
        out
    }

    /// The table that storing `records` in order gives, or `UnknownAction`
    /// where a record names no action.
    pub fn from_records(records: &Vec<Record>) -> (r: Result<QTable, DecodeError>)
        ensures
            records_valid(records@) <==> r is Ok,
            r matches Ok(t) ==> t.wf() && t@ == table_of(records@),
            r matches Err(e) ==> e == DecodeError::UnknownAction,
    {
        let mut t = QTable::new();
        let mut i: usize = 0;
        while i < records.len()
            invariant
                i <= records@.len(),
                t.wf(),
                t@ == table_of(records@.take(i as int)),
                records_valid(records@.take(i as int)),
            decreases records@.len() - i,
        {
            let rec = records[i];
            match Action::from_code(rec.2) {
                Some(a) => {
                    proof {
                        assert(records@.take(i + 1).drop_last() =~= records@.take(i as int));
                        assert(record_key(rec) == (State { x: rec.0, y: rec.1 }, a));
                    }
                    t.insert(State { x: rec.0, y: rec.1 }, a, rec.3);
                    proof {
                        assert(records_valid(records@.take(i + 1))) by {
                            assert forall|j: int| 0 <= j < i + 1 implies (#[trigger] records@.take(
                                i + 1,
                            )[j]).2 < 4 by {
                                if j < i {
                                    assert(records@.take(i + 1)[j] == records@.take(i as int)[j]);
                                }
                            }
                        }
                    }
                },
                None => {
                    proof {
                        assert(records@[i as int].2 >= 4);
                    }
                    return Err(DecodeError::UnknownAction);
                },
            }
            i = i + 1;
        }
        proof {
            assert(records@.take(i as int) =~= records@);
        }
        Ok(t)
    }

    /// The table as bytes: the binary encoding of its records.
    pub fn serialize(&self) -> (r: Vec<u8>)
        requires
            self.wf(),
        ensures
            r@ == encoding_of(self.records()),
    {
        let records = self.to_records();
        match encode_records(&records) {
            Some(b) => b,
            None => Vec::new(),
        }
    }

    /// The table that `bytes` encode; `Malformed` where they encode no list
    /// of records.
    pub fn deserialize(bytes: &[u8]) -> (r: Result<QTable, DecodeError>)
        ensures
            decodes_to(bytes@, r),
    {
        match decode_records(bytes) {
            Some(records) => QTable::from_records(&records),
            None => Err(DecodeError::Malformed),
        }
    }
}

/// Storing the records of the entries below `n` gives the part of the table
/// that those entries hold.
proof fn lemma_records_prefix(t: QTable, n: int)
    requires
        t.wf(),
        0 <= n <= t.entries@.len(),
    ensures
        records_valid(t.records().take(n)),
        table_of(t.records().take(n)) == t.prefix_view(n),
    decreases n,
{
    if n == 0 {
        assert(t.prefix_view(0) =~= Map::<(State, Action), i64>::empty());
        assert(t.records().take(0) =~= Seq::<Record>::empty());
    } else {
        let i = n - 1;
        lemma_records_prefix(t, i);
        let e = t.entries@[i];
        let rs = t.records().take(n);
        assert(rs.drop_last() =~= t.records().take(i));
        assert(record_key(rs.last()) == (e.0, e.1));
        assert(t.index(e.1)[state_key(e.0)] == i);
        assert forall|k: (State, Action)| #[trigger]
            t.prefix_view(n).contains_key(k) implies k == (e.0, e.1) || t.prefix_view(
            i,
        ).contains_key(k) by {
            let j = t.index(k.1)[state_key(k.0)] as int;
            if j == i {
                lemma_key_injective(t.entries@[j].0, k.0);
            }
        }
        assert(t.prefix_view(n) =~= t.prefix_view(i).insert((e.0, e.1), e.2));
        assert forall|j: int| 0 <= j < n implies (#[trigger] rs[j]).2 < 4 by {
            assert(rs[j] == t.records()[j]);
        }
    }
}

/// Every well-formed table's records name valid actions and rebuild it.
pub proof fn lemma_records_rebuild(t: QTable)
    requires
        t.wf(),
    ensures
        records_valid(t.records()),
        table_of(t.records()) == t@,
{
    lemma_records_prefix(t, t.entries@.len() as int);
    assert(t.records().take(t.entries@.len() as int) =~= t.records());
    assert(t.prefix_view(t.entries@.len() as int) =~= t@);
}

/// Decoding the bytes that `serialize` gives yields a table with the same
/// value for every state and action.
pub proof fn lemma_round_trip(t: QTable, bytes: Seq<u8>, decoded: Result<QTable, DecodeError>)
    requires
        t.wf(),
        bytes == encoding_of(t.records()),
        decodes_to(bytes, decoded),
    ensures
        decoded matches Ok(u) && u@ == t@,
{
    lemma_records_rebuild(t);
    assert(encoding_of(t.records()) == bytes);
}

} // verus!
