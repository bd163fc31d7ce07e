//! The in-memory sorted table of the most recent write to every key.
//!
//! Entries are kept in one vector, strictly sorted by key ascending, each key
//! at most once; a deletion is stored as a tombstone entry so that later
//! compaction can drop older versions found on disk. `size` is the exact sum
//! of the serialized cost of the stored entries (key bytes + value bytes +
//! 16 bytes of timestamp + 1 tombstone flag); the write path uses it to
//! decide when to flush the table to disk.

use vstd::prelude::*;
use crate::keyorder::{KeyOrder, cmp_keys, lex_lt, lemma_lex_lt_irreflexive,
    lemma_lex_lt_asymmetric, lemma_lex_lt_transitive, lemma_lex_lt_total};

verus! {

/// Specification-level image of one table entry.
pub ghost struct EntrySpec {
    pub key: Seq<u8>,
    pub value: Option<Seq<u8>>,
    pub timestamp: u128,
    pub deleted: bool,
}

impl EntrySpec {
    /// A live write of `value` under `key`.
    pub open spec fn live(key: Seq<u8>, value: Seq<u8>, timestamp: u128) -> EntrySpec {
        EntrySpec { key, value: Some(value), timestamp, deleted: false }
    }

    /// A tombstone recording the deletion of `key`.
    pub open spec fn tombstone(key: Seq<u8>, timestamp: u128) -> EntrySpec {
        EntrySpec { key, value: None, timestamp, deleted: true }
    }

    /// An entry is a tombstone exactly when it has no value.
    pub open spec fn wf(self) -> bool {
        self.deleted <==> self.value is None
    }

    pub open spec fn value_len(self) -> nat {
        match self.value {
            Some(v) => v.len(),
            None => 0,
        }
    }

    /// Serialized cost of the entry: key + value + timestamp (16) + flag (1).
    pub open spec fn cost(self) -> nat {
        self.key.len() + self.value_len() + 17
    }
}

/// Strictly sorted by key ascending; implies each key appears at most once.
pub open spec fn sorted(s: Seq<EntrySpec>) -> bool {
    forall|i: int, j: int| 0 <= i < j < s.len() ==> lex_lt(s[i].key, s[j].key)
}

pub open spec fn entries_wf(s: Seq<EntrySpec>) -> bool {
    forall|i: int| 0 <= i < s.len() ==> s[i].wf()
}

/// Total serialized cost of a sequence of entries.
pub open spec fn tbl_cost(s: Seq<EntrySpec>) -> nat
    decreases s.len(),
{
    if s.len() == 0 {
        0
    } else {
        s[0].cost() + tbl_cost(s.skip(1))
    }
}

/// The stored entry for `key`, if any.
pub open spec fn tbl_get(s: Seq<EntrySpec>, key: Seq<u8>) -> Option<EntrySpec>
    decreases s.len(),
{
    if s.len() == 0 {
        None
    } else if s[0].key == key {
        Some(s[0])
    } else {
        tbl_get(s.skip(1), key)
    }
}

/// `s` with `e` replacing the entry that shares its key, or inserted at its
/// sorted position. This one operation models both `set` (a live entry) and
/// `delete` (a tombstone).
pub open spec fn tbl_set(s: Seq<EntrySpec>, e: EntrySpec) -> Seq<EntrySpec>
    decreases s.len(),
{
    if s.len() == 0 {
        seq![e]
    } else if lex_lt(s[0].key, e.key) {
        seq![s[0]] + tbl_set(s.skip(1), e)
    } else if s[0].key == e.key {
        seq![e] + s.skip(1)
    } else {
        seq![e] + s
    }
}

/// How many entries carry `key`.
pub open spec fn key_count(s: Seq<EntrySpec>, key: Seq<u8>) -> nat
    decreases s.len(),
{
    if s.len() == 0 {
        0
    } else {
        (if s[0].key == key { 1 as nat } else { 0 as nat }) + key_count(s.skip(1), key)
    }
}

pub proof fn lemma_sorted_skip(s: Seq<EntrySpec>)
    requires
        sorted(s),
        s.len() > 0,
    ensures
        sorted(s.skip(1)),
{
    assert forall|i: int, j: int| 0 <= i < j < s.skip(1).len() implies lex_lt(
        s.skip(1)[i].key,
        s.skip(1)[j].key,
    ) by {
        assert(s.skip(1)[i] == s[i + 1]);
        assert(s.skip(1)[j] == s[j + 1]);
    }
}

/// In a sorted table, distinct keys: an entry at `i` is the unique holder of
/// its key, and `tbl_get` finds exactly it.
pub proof fn lemma_tbl_get_found(s: Seq<EntrySpec>, key: Seq<u8>, i: int)
    requires
        sorted(s),
        0 <= i < s.len(),
        s[i].key == key,
    ensures
        tbl_get(s, key) == Some(s[i]),
    decreases s.len(),
{
    if i == 0 {
    } else {
        assert(lex_lt(s[0].key, key));
        if s[0].key == key {
            lemma_lex_lt_irreflexive(key);
        }
        lemma_sorted_skip(s);
        lemma_tbl_get_found(s.skip(1), key, i - 1);
    }
}

pub proof fn lemma_tbl_get_absent(s: Seq<EntrySpec>, key: Seq<u8>)
    requires
        forall|j: int| 0 <= j < s.len() ==> s[j].key != key,
    ensures
        tbl_get(s, key) is None,
    decreases s.len(),
{
    if s.len() > 0 {
        assert(forall|j: int|
            0 <= j < s.skip(1).len() ==> #[trigger] s.skip(1)[j] == s[j + 1]);
        lemma_tbl_get_absent(s.skip(1), key);
    }
}

/// When `e.key` is already at position `i`, `tbl_set` is a point update.
pub proof fn lemma_tbl_set_is_update(s: Seq<EntrySpec>, e: EntrySpec, i: int)
    requires
        sorted(s),
        0 <= i < s.len(),
        s[i].key == e.key,
    ensures
        tbl_set(s, e) == s.update(i, e),
    decreases s.len(),
{
    if i == 0 {
        lemma_lex_lt_irreflexive(e.key);
        assert(seq![e] + s.skip(1) =~= s.update(0, e));
    } else {
        assert(lex_lt(s[0].key, e.key));
        lemma_sorted_skip(s);
        assert(s.skip(1)[i - 1] == s[i]);
        lemma_tbl_set_is_update(s.skip(1), e, i - 1);
        assert(seq![s[0]] + s.skip(1).update(i - 1, e) =~= s.update(i, e));
    }
}

/// When `e.key` is absent and `i` is its sorted position, `tbl_set` is an
/// insertion at `i`.
pub proof fn lemma_tbl_set_is_insert(s: Seq<EntrySpec>, e: EntrySpec, i: int)
    requires
        sorted(s),
        0 <= i <= s.len(),
        forall|j: int| 0 <= j < i ==> lex_lt(#[trigger] s[j].key, e.key),
        forall|j: int| i <= j < s.len() ==> lex_lt(e.key, #[trigger] s[j].key),
    ensures
        tbl_set(s, e) == s.insert(i, e),
    decreases s.len(),
{
    if s.len() == 0 {
        assert(tbl_set(s, e) =~= s.insert(0, e));
    } else if i == 0 {
        lemma_lex_lt_asymmetric(s[0].key, e.key);
        if s[0].key == e.key {
            lemma_lex_lt_irreflexive(e.key);
        }
        assert(seq![e] + s =~= s.insert(0, e));
    } else {
        assert(lex_lt(s[0].key, e.key));
        lemma_sorted_skip(s);
        assert(forall|j: int|
            0 <= j < s.skip(1).len() ==> #[trigger] s.skip(1)[j] == s[j + 1]);
        lemma_tbl_set_is_insert(s.skip(1), e, i - 1);
        assert(seq![s[0]] + s.skip(1).insert(i - 1, e) =~= s.insert(i, e));
    }
}

pub proof fn lemma_tbl_cost_update(s: Seq<EntrySpec>, i: int, e: EntrySpec)
    requires
        0 <= i < s.len(),
    ensures
        tbl_cost(s.update(i, e)) + s[i].cost() == tbl_cost(s) + e.cost(),
    decreases i,
{
    if i == 0 {
        assert(s.update(0, e).skip(1) =~= s.skip(1));
        assert(s.update(0, e)[0] == e);
    } else {
        assert(s.update(i, e).skip(1) =~= s.skip(1).update(i - 1, e));
        assert(s.skip(1)[i - 1] == s[i]);
        lemma_tbl_cost_update(s.skip(1), i - 1, e);
        assert(s.update(i, e)[0] == s[0]);
    }
}

pub proof fn lemma_tbl_cost_insert(s: Seq<EntrySpec>, i: int, e: EntrySpec)
    requires
        0 <= i <= s.len(),
    ensures
        tbl_cost(s.insert(i, e)) == tbl_cost(s) + e.cost(),
    decreases i,
{
    if i == 0 {
        assert(s.insert(0, e).skip(1) =~= s);
        assert(s.insert(0, e)[0] == e);
    } else {
        assert(s.insert(i, e).skip(1) =~= s.skip(1).insert(i - 1, e));
        lemma_tbl_cost_insert(s.skip(1), i - 1, e);
        assert(s.insert(i, e)[0] == s[0]);
    }
}

/// One write grows the total cost by at most the written entry's cost.
pub proof fn lemma_tbl_cost_set(s: Seq<EntrySpec>, e: EntrySpec)
    ensures
        tbl_cost(tbl_set(s, e)) <= tbl_cost(s) + e.cost(),
    decreases s.len(),
{
    let t = tbl_set(s, e);
    if s.len() == 0 {
        assert(t.skip(1) =~= Seq::<EntrySpec>::empty());
        assert(tbl_cost(t) == e.cost() + tbl_cost(t.skip(1)));
        assert(tbl_cost(Seq::<EntrySpec>::empty()) == 0);
    } else if lex_lt(s[0].key, e.key) {
        lemma_tbl_cost_set(s.skip(1), e);
        assert(t[0] == s[0]);
        assert(t.skip(1) =~= tbl_set(s.skip(1), e));
        assert(tbl_cost(t) == s[0].cost() + tbl_cost(t.skip(1)));
        assert(tbl_cost(s) == s[0].cost() + tbl_cost(s.skip(1)));
    } else if s[0].key == e.key {
        assert(t[0] == e);
        assert(t.skip(1) =~= s.skip(1));
        assert(tbl_cost(t) == e.cost() + tbl_cost(t.skip(1)));
        assert(tbl_cost(s) == s[0].cost() + tbl_cost(s.skip(1)));
    } else {
        assert(t[0] == e);
        assert(t.skip(1) =~= s);
        assert(tbl_cost(t) == e.cost() + tbl_cost(t.skip(1)));
    }
}

/// The total cost covers each stored entry's cost.
pub proof fn lemma_tbl_cost_covers_entry(s: Seq<EntrySpec>, i: int)
    requires
        0 <= i < s.len(),
    ensures
        tbl_cost(s) >= s[i].cost(),
    decreases i,
{
    if i > 0 {
        assert(s.skip(1)[i - 1] == s[i]);
        lemma_tbl_cost_covers_entry(s.skip(1), i - 1);
    }
}

/// After `tbl_set`, the written entry is the one found under its key, the
/// key occurs exactly once, sortedness is kept, and other keys are untouched.
pub proof fn lemma_tbl_set_get(s: Seq<EntrySpec>, e: EntrySpec)
    requires
        sorted(s),
    ensures
        sorted(tbl_set(s, e)),
        tbl_get(tbl_set(s, e), e.key) == Some(e),
        key_count(tbl_set(s, e), e.key) == 1,
        forall|k: Seq<u8>| k != e.key ==> tbl_get(tbl_set(s, e), k) == tbl_get(s, k),
    decreases s.len(),
{
    if s.len() == 0 {
        let t = tbl_set(s, e);
        assert(t.skip(1) =~= Seq::<EntrySpec>::empty());
        assert forall|k: Seq<u8>| k != e.key implies tbl_get(t, k) == tbl_get(s, k) by {
            assert(tbl_get(t, k) == tbl_get(t.skip(1), k));
        }
        assert(t[0] == e);
        assert(key_count(t, e.key) == 1 + key_count(t.skip(1), e.key));
        assert(key_count(Seq::<EntrySpec>::empty(), e.key) == 0);
        assert(key_count(t, e.key) == 1);
    } else if lex_lt(s[0].key, e.key) {
        lemma_sorted_skip(s);
        lemma_tbl_set_get(s.skip(1), e);
        let t = tbl_set(s, e);
        let u = tbl_set(s.skip(1), e);
        assert(t == seq![s[0]] + u);
        assert(t[0] == s[0] && t.skip(1) =~= u);
        if s[0].key == e.key {
            lemma_lex_lt_irreflexive(e.key);
        }
        assert forall|i: int, j: int| 0 <= i < j < t.len() implies lex_lt(t[i].key, t[j].key) by {
            if i == 0 {
                lemma_tbl_set_in_range(s.skip(1), e, j - 1);
                if u[j - 1].key != e.key {
                    let w = choose|w: int|
                        0 <= w < s.skip(1).len() && u[j - 1].key == #[trigger] s.skip(1)[w].key;
                    assert(s.skip(1)[w] == s[w + 1]);
                }
            } else {
                assert(t[i] == u[i - 1] && t[j] == u[j - 1]);
            }
        }
        assert forall|k: Seq<u8>| k != e.key implies tbl_get(t, k) == tbl_get(s, k) by {
            if s[0].key != k {
                assert(tbl_get(t, k) == tbl_get(t.skip(1), k));
                assert(tbl_get(s, k) == tbl_get(s.skip(1), k));
            }
        }
        assert(key_count(t, e.key) == 1);
    } else if s[0].key == e.key {
        let t = tbl_set(s, e);
        assert(t[0] == e && t.skip(1) =~= s.skip(1));
        lemma_sorted_skip(s);
        assert forall|j: int| 0 <= j < s.skip(1).len() implies s.skip(1)[j].key != e.key by {
            if s.skip(1)[j].key == e.key {
                lemma_lex_lt_irreflexive(e.key);
            }
        }
        lemma_key_count_zero_when_absent_all(s.skip(1), e.key);
        assert forall|i: int, j: int| 0 <= i < j < t.len() implies lex_lt(t[i].key, t[j].key) by {
            if i > 0 {
                assert(t[i] == s[i] && t[j] == s[j]);
            } else {
                assert(t[j] == s[j]);
            }
        }
        assert forall|k: Seq<u8>| k != e.key implies tbl_get(t, k) == tbl_get(s, k) by {
            assert(tbl_get(t, k) == tbl_get(t.skip(1), k));
            assert(tbl_get(s, k) == tbl_get(s.skip(1), k));
        }
    } else {
        lemma_lex_lt_total(s[0].key, e.key);
        assert(lex_lt(e.key, s[0].key));
        let t = tbl_set(s, e);
        assert(t[0] == e && t.skip(1) =~= s);
        assert forall|j: int| 0 <= j < s.len() implies s[j].key != e.key by {
            if s[j].key == e.key {
                if j > 0 {
                    lemma_lex_lt_transitive(e.key, s[0].key, s[j].key);
                }
                lemma_lex_lt_irreflexive(e.key);
            }
        }
        lemma_key_count_zero_when_absent_all(s, e.key);
        assert forall|i: int, j: int| 0 <= i < j < t.len() implies lex_lt(t[i].key, t[j].key) by {
            if i == 0 {
                if j > 1 {
                    lemma_lex_lt_transitive(e.key, s[0].key, s[j - 1].key);
                }
            } else {
                assert(t[i] == s[i - 1] && t[j] == s[j - 1]);
            }
        }
    }
}

/// Every key absent from `s` has count zero.
proof fn lemma_key_count_zero_when_absent_all(s: Seq<EntrySpec>, key: Seq<u8>)
    requires
        forall|j: int| 0 <= j < s.len() ==> s[j].key != key,
    ensures
        key_count(s, key) == 0,
        tbl_get(s, key) is None,
    decreases s.len(),
{
    if s.len() > 0 {
        assert(forall|j: int|
            0 <= j < s.skip(1).len() ==> #[trigger] s.skip(1)[j] == s[j + 1]);
        lemma_key_count_zero_when_absent_all(s.skip(1), key);
    }
}

/// Every key in `tbl_set(s, e)` is `e`'s key or one of `s`'s keys.
proof fn lemma_tbl_set_in_range(s: Seq<EntrySpec>, e: EntrySpec, j: int)
    requires
        sorted(s),
        0 <= j < tbl_set(s, e).len(),
    ensures
        tbl_set(s, e)[j].key == e.key || exists|i: int|
            0 <= i < s.len() && tbl_set(s, e)[j].key == #[trigger] s[i].key,
    decreases s.len(),
{
    if s.len() == 0 {
    } else if lex_lt(s[0].key, e.key) {
        lemma_sorted_skip(s);
        if j > 0 {
            lemma_tbl_set_in_range(s.skip(1), e, j - 1);
            let t = tbl_set(s, e);
            assert(t[j] == tbl_set(s.skip(1), e)[j - 1]);
            if tbl_set(s.skip(1), e)[j - 1].key != e.key {
                let i = choose|i: int|
                    0 <= i < s.skip(1).len() && tbl_set(s.skip(1), e)[j - 1].key
                        == #[trigger] s.skip(1)[i].key;
                assert(s.skip(1)[i] == s[i + 1]);
                assert(t[j].key == s[i + 1].key);
            }
        } else {
            assert(tbl_set(s, e)[0] == s[0]);
        }
    } else if s[0].key == e.key {
        let t = tbl_set(s, e);
        if j > 0 {
            assert(t[j] == s[j]);
        }
    } else {
        let t = tbl_set(s, e);
        if j > 0 {
            assert(t[j] == s[j - 1]);
        }
    }
}

/// Writing `k` twice in a row leaves exactly one entry for `k`, holding the
/// second value and timestamp, live.
pub proof fn lemma_idempotent_overwrite(
    s: Seq<EntrySpec>,
    k: Seq<u8>,
    v1: Seq<u8>,
    t1: u128,
    v2: Seq<u8>,
    t2: u128,
)
    requires
        sorted(s),
    ensures
        ({
            let s2 = tbl_set(tbl_set(s, EntrySpec::live(k, v1, t1)), EntrySpec::live(k, v2, t2));
            &&& key_count(s2, k) == 1
            &&& tbl_get(s2, k) == Some(EntrySpec::live(k, v2, t2))
        }),
{
    lemma_tbl_set_get(s, EntrySpec::live(k, v1, t1));
    lemma_tbl_set_get(tbl_set(s, EntrySpec::live(k, v1, t1)), EntrySpec::live(k, v2, t2));
}

/// Deleting `k` in an empty table stores exactly the tombstone `(k, None,
/// t, deleted)`, and a lookup of `k` returns it.
pub proof fn lemma_tombstone_roundtrip(k: Seq<u8>, t: u128)
    ensures
        tbl_get(tbl_set(Seq::empty(), EntrySpec::tombstone(k, t)), k) == Some(
            EntrySpec::tombstone(k, t),
        ),
        tbl_set(Seq::empty(), EntrySpec::tombstone(k, t)) == seq![EntrySpec::tombstone(k, t)],
{
}

/// An entry in the MemTable. `value` is `None` exactly on tombstones.
pub struct MemTableEntry {
    pub key: Vec<u8>,
    /// Value of the entry; `None` when the entry is a tombstone.
    pub value: Option<Vec<u8>>,
    /// Time of the write in microseconds; carried through for compaction,
    /// not interpreted by the table itself.
    pub timestamp: u128,
    /// Tombstone mark.
    pub deleted: bool,
}

impl View for MemTableEntry {
    type V = EntrySpec;

    open spec fn view(&self) -> EntrySpec {
        EntrySpec {
            key: self.key@,
            value: match self.value {
                Some(v) => Some(v@),
                None => None,
            },
            timestamp: self.timestamp,
            deleted: self.deleted,
        }
    }
}

/// The in-memory table of the latest written records, strictly sorted by key.
///
/// Writes are duplicated to the WAL so the table can be rebuilt after a
/// restart; when `size` passes a capacity threshold the caller flushes the
/// table to disk as a Plain Table.
pub struct MemTable {
    pub entries: Vec<MemTableEntry>,
    /// Exact total serialized cost of `entries`: for every entry, key bytes
    /// plus value bytes (tombstones count zero) plus 17. Kept exact here,
    /// including when a tombstone is overwritten by a live value, so that it
    /// is a faithful flush trigger.
    pub size: usize,
}

impl View for MemTable {
    type V = Seq<EntrySpec>;

    open spec fn view(&self) -> Seq<EntrySpec> {
        Seq::new(self.entries@.len(), |i: int| self.entries@[i]@)
    }
}

impl MemTable {
    /// Sorted, tombstones well formed, and `size` exactly the total cost.
    pub open spec fn wf(&self) -> bool {
        &&& sorted(self@)
        &&& entries_wf(self@)
        &&& self.size == tbl_cost(self@)
    }

    pub fn new() -> (r: MemTable)
        ensures
            r.wf(),
            r@ == Seq::<EntrySpec>::empty(),
    {
        let r = MemTable { entries: Vec::new(), size: 0 };
        proof {
            assert(r@ =~= Seq::<EntrySpec>::empty());
        }
        r
    }

    /// Binary search for `key`: `Ok` with the index of its entry, or `Err`
    /// with the position at which it would be inserted in sorted order.
    fn get_index(&self, key: &[u8]) -> (r: Result<usize, usize>)
        requires
            sorted(self@),
        ensures
            match r {
                Ok(i) => 0 <= i < self@.len() && self@[i as int].key == key@,
                Err(i) => {
                    &&& 0 <= i <= self@.len()
                    &&& forall|j: int| 0 <= j < i ==> lex_lt(#[trigger] self@[j].key, key@)
                    &&& forall|j: int|
                        i <= j < self@.len() ==> lex_lt(key@, #[trigger] self@[j].key)
                },
            },
    {
        let mut lo: usize = 0;
        let mut hi: usize = self.entries.len();
        while lo < hi
            invariant
                0 <= lo <= hi <= self@.len(),
                self@.len() == self.entries@.len(),
                sorted(self@),
                forall|j: int| 0 <= j < lo ==> lex_lt(#[trigger] self@[j].key, key@),
                forall|j: int| hi <= j < self@.len() ==> lex_lt(key@, #[trigger] self@[j].key),
            decreases hi - lo,
        {
            let mid = lo + (hi - lo) / 2;
            let ord = cmp_keys(self.entries[mid].key.as_slice(), key);
            match ord {
                KeyOrder::Less => {
                    proof {
                        assert forall|j: int| 0 <= j < mid + 1 implies lex_lt(
                            #[trigger] self@[j].key,
                            key@,
                        ) by {
                            if j < mid {
                                lemma_lex_lt_transitive(self@[j].key, self@[mid as int].key, key@);
                            }
                        }
                    }
                    lo = mid + 1;
                }
                KeyOrder::Equal => {
                    return Ok(mid);
                }
                KeyOrder::Greater => {
                    proof {
                        assert forall|j: int| mid <= j < self@.len() implies lex_lt(
                            key@,
                            #[trigger] self@[j].key,
                        ) by {
                            if j > mid {
                                lemma_lex_lt_transitive(key@, self@[mid as int].key, self@[j].key);
                            }
                        }
                    }
                    hi = mid;
                }
            }
        }
        Err(lo)
    }

    /// Look up `key`; returns the stored entry (live or tombstone) or `None`.
    pub fn get(&self, key: &[u8]) -> (r: Option<&MemTableEntry>)
        requires
            self.wf(),
        ensures
            match r {
                Some(e) => tbl_get(self@, key@) == Some(e@),
                None => tbl_get(self@, key@) is None,
            },
    {
        match self.get_index(key) {
            Ok(idx) => {
                let e = &self.entries[idx];
                proof {
                    lemma_tbl_get_found(self@, key@, idx as int);
                }
                Some(e)
            }
            Err(i) => {
                proof {
                    assert forall|j: int| 0 <= j < self@.len() implies self@[j].key != key@ by {
                        if self@[j].key == key@ {
                            lemma_lex_lt_irreflexive(key@);
                        }
                    }
                    lemma_tbl_get_absent(self@, key@);
                }
                None
            }
        }
    }

    /// Store `value` under `key`, replacing any previous entry for the key
    /// (tombstone included) and keeping `size` exact.
    pub fn set(&mut self, key: &[u8], value: &[u8], timestamp: u128)
        requires
            old(self).wf(),
            old(self).size + key@.len() + value@.len() + 17 <= usize::MAX,
        ensures
            final(self).wf(),
            final(self)@ == tbl_set(old(self)@, EntrySpec::live(key@, value@, timestamp)),
    {
        let entry = MemTableEntry {
            key: vstd::slice::slice_to_vec(key),
            value: Some(vstd::slice::slice_to_vec(value)),
            timestamp,
            deleted: false,
        };
        let ghost e = EntrySpec::live(key@, value@, timestamp);
        assert(entry@ == e);
        self.apply(entry, Ghost(e));
    }

    /// Record the deletion of `key` by storing a tombstone, replacing any
    /// previous entry for the key and keeping `size` exact.
    pub fn delete(&mut self, key: &[u8], timestamp: u128)
        requires
            old(self).wf(),
            old(self).size + key@.len() + 17 <= usize::MAX,
        ensures
            final(self).wf(),
            final(self)@ == tbl_set(old(self)@, EntrySpec::tombstone(key@, timestamp)),
    {
        let entry = MemTableEntry {
            key: vstd::slice::slice_to_vec(key),
            value: None,
            timestamp,
            deleted: true,
        };
        let ghost e = EntrySpec::tombstone(key@, timestamp);
        assert(entry@ == e);
        self.apply(entry, Ghost(e));
    }

    /// Place `entry` at its sorted position, replacing an entry with the
    /// same key, and adjust `size` by the exact cost delta.
    fn apply(&mut self, entry: MemTableEntry, Ghost(e): Ghost<EntrySpec>)
        requires
            old(self).wf(),
            entry@ == e,
            e.wf(),
            old(self).size + e.cost() <= usize::MAX,
        ensures
            final(self).wf(),
            final(self)@ == tbl_set(old(self)@, e),
    {
        let ghost s0 = self@;
        match self.get_index(entry.key.as_slice()) {
            Ok(idx) => {
                proof {
                    lemma_tbl_cost_covers_entry(s0, idx as int);
                    lemma_tbl_set_is_update(s0, e, idx as int);
                    lemma_tbl_cost_update(s0, idx as int, e);
                }
                let old_cost = Self::entry_cost(&self.entries[idx]);
                let new_cost = Self::entry_cost(&entry);
                if new_cost < old_cost {
                    self.size = self.size - (old_cost - new_cost);
                } else {
                    self.size = self.size + (new_cost - old_cost);
                }
                self.entries.remove(idx);
                self.entries.insert(idx, entry);
                proof {
                    assert(self.entries@ =~= old(self).entries@.update(idx as int, entry));
                    assert(self@ =~= s0.update(idx as int, e));
                    assert forall|i: int, j: int| 0 <= i < j < self@.len() implies lex_lt(
                        self@[i].key,
                        self@[j].key,
                    ) by {
                        assert(s0[i].key == self@[i].key && s0[j].key == self@[j].key);
                    }
                }
            }
            Err(idx) => {
                let new_cost = Self::entry_cost(&entry);
                self.size = self.size + new_cost;
                self.entries.insert(idx, entry);
                proof {
                    lemma_tbl_set_is_insert(s0, e, idx as int);
                    lemma_tbl_cost_insert(s0, idx as int, e);
                    assert(self@ =~= s0.insert(idx as int, e));
                    assert forall|i: int, j: int| 0 <= i < j < self@.len() implies lex_lt(
                        self@[i].key,
                        self@[j].key,
                    ) by {
                        let ii = idx as int;
                        if i < ii && j > ii {
                            assert(self@[i] == s0[i] && self@[j] == s0[j - 1]);
                            lemma_lex_lt_transitive(s0[i].key, e.key, s0[j - 1].key);
                        } else if i == ii {
                            assert(self@[j] == s0[j - 1]);
                        } else if j == ii {
                            assert(self@[i] == s0[i]);
                        } else if j < ii {
                            assert(self@[i] == s0[i] && self@[j] == s0[j]);
                        } else {
                            assert(self@[i] == s0[i - 1] && self@[j] == s0[j - 1]);
                        }
                    }
                    assert(entries_wf(self@));
                }
            }
        }
    }

    /// Serialized cost of one entry, as stored in `size`.
    fn entry_cost(entry: &MemTableEntry) -> (r: usize)
        requires
            entry@.cost() <= usize::MAX,
        ensures
            r == entry@.cost(),
    {
        let vlen = match &entry.value {
            Some(v) => v.len(),
            None => 0,
        };
        entry.key.len() + vlen + 17
    }

    /// Number of stored entries, tombstones included.
    pub fn len(&self) -> (r: usize)
        ensures
            r == self@.len(),
    {
        self.entries.len()
    }
}

} // verus!
