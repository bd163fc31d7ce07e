//! Write-ahead log records: binary encoding, decoding, replay and the
//! recovery/consolidation protocol.
//!
//! One record is laid out little-endian as
//!
//! ```text
//! [8B key length][1B tombstone flag][8B value length - only if flag == 0]
//! [key bytes][value bytes - only if flag == 0][16B timestamp]
//! ```
//!
//! Decoding stops silently at a short read: a torn trailing write is the
//! natural truncation point of an unclean shutdown, not an error.
//!
//! The file handling around these records (creating, appending to and
//! removing `<timestamp>.wal` files) lives with the caller; everything here
//! works on the bytes themselves.

use vstd::prelude::*;
use crate::lebytes::{le_bytes, le_val, byte_space, lemma_le_bytes_len, lemma_le_val_of_le_bytes,
    lemma_le_val_bound, lemma_byte_space_values, push_le_bytes, push_bytes, read_le_bytes};
use crate::memtable::{MemTable, EntrySpec, tbl_set, tbl_cost, entries_wf};

verus! {

/// One decoded WAL record. `value` is `None` exactly on tombstones.
pub struct WalEntry {
    pub key: Vec<u8>,
    pub value: Option<Vec<u8>>,
    pub timestamp: u128,
    pub deleted: bool,
}

impl View for WalEntry {
    type V = EntrySpec;

    open spec fn view(&self) -> EntrySpec {
        EntrySpec {
            key: self.key@,
            value: match self.value {
                Some(v) => Some(v@),
                None => None,
            },
            timestamp: self.timestamp,
            deleted: self.deleted,
        }
    }
}

/// The records denoted by a sequence of decoded entries.
pub open spec fn wal_views(s: Seq<WalEntry>) -> Seq<EntrySpec> {
    Seq::new(s.len(), |i: int| s[i]@)
}

/// The on-disk encoding of one record.
pub open spec fn wal_enc(e: EntrySpec) -> Seq<u8> {
    if e.deleted {
        le_bytes(e.key.len(), 8) + seq![1u8] + e.key + le_bytes(e.timestamp as nat, 16)
    } else {
        le_bytes(e.key.len(), 8) + seq![0u8] + le_bytes(e.value_len(), 8) + e.key
            + e.value->Some_0 + le_bytes(e.timestamp as nat, 16)
    }
}

/// Decode one record from the front of `data`: the entry and the number of
/// bytes it occupies, or `None` when the bytes are a truncated tail.
pub open spec fn wal_dec(data: Seq<u8>) -> Option<(EntrySpec, int)> {
    if data.len() < 9 {
        None
    } else {
        let kl = le_val(data.subrange(0, 8)) as int;
        if data[8] != 0 {
            if 9 + kl + 16 <= data.len() {
                let key = data.subrange(9, 9 + kl);
                let ts = le_val(data.subrange(9 + kl, 9 + kl + 16));
                Some((EntrySpec::tombstone(key, ts as u128), 9 + kl + 16))
            } else {
                None
            }
        } else {
            if data.len() < 17 {
                None
            } else {
                let vl = le_val(data.subrange(9, 17)) as int;
                if 17 + kl + vl + 16 <= data.len() {
                    let key = data.subrange(17, 17 + kl);
                    let value = data.subrange(17 + kl, 17 + kl + vl);
                    let ts = le_val(data.subrange(17 + kl + vl, 17 + kl + vl + 16));
                    Some((EntrySpec::live(key, value, ts as u128), 17 + kl + vl + 16))
                } else {
                    None
                }
            }
        }
    }
}

/// What a successful decode guarantees: the record is well formed, its
/// fields fit their length prefixes, it occupies at least its header, its
/// re-encoding is as long as the bytes it was read from, and its cost in
/// the MemTable is below the bytes consumed.
pub proof fn lemma_wal_dec_some(data: Seq<u8>)
    requires
        wal_dec(data) is Some,
    ensures
        ({
            let (e, n) = wal_dec(data)->Some_0;
            &&& 25 <= n <= data.len()
            &&& e.wf()
            &&& e.key.len() < byte_space(8)
            &&& e.value_len() < byte_space(8)
            &&& wal_enc(e).len() == n
            &&& e.cost() + 8 <= n
        }),
{
    let (e, n) = wal_dec(data)->Some_0;
    let kl = le_val(data.subrange(0, 8)) as int;
    lemma_le_val_bound(data.subrange(0, 8));
    lemma_le_bytes_len(e.key.len(), 8);
    lemma_le_bytes_len(e.timestamp as nat, 16);
    if data[8] != 0 {
        assert(e.key.len() == kl);
    } else {
        let vl = le_val(data.subrange(9, 17)) as int;
        lemma_le_val_bound(data.subrange(9, 17));
        lemma_le_bytes_len(e.value_len(), 8);
        assert(e.key.len() == kl && e.value_len() == vl);
    }
}

/// Decoding inverts encoding: a well-formed record followed by anything
/// decodes to exactly itself, consuming exactly its encoding.
pub proof fn lemma_wal_dec_enc(e: EntrySpec, rest: Seq<u8>)
    requires
        e.wf(),
        e.key.len() < byte_space(8),
        e.value_len() < byte_space(8),
    ensures
        wal_dec(wal_enc(e) + rest) == Some((e, wal_enc(e).len() as int)),
{
    let kl = e.key.len() as int;
    let all = wal_enc(e) + rest;
    lemma_le_bytes_len(e.key.len(), 8);
    lemma_le_bytes_len(e.timestamp as nat, 16);
    assert((e.timestamp as nat) < byte_space(16)) by {
        lemma_byte_space_values();
    }
    if e.deleted {
        assert(wal_enc(e).len() == 25 + kl);
        assert(all.subrange(0, 8) =~= le_bytes(e.key.len(), 8));
        lemma_le_val_of_le_bytes(e.key.len(), 8);
        assert(all[8] == 1u8);
        assert(all.subrange(9, 9 + kl) =~= e.key);
        assert(all.subrange(9 + kl, 9 + kl + 16) =~= le_bytes(e.timestamp as nat, 16));
        lemma_le_val_of_le_bytes(e.timestamp as nat, 16);
        assert(e == EntrySpec::tombstone(e.key, e.timestamp));
    } else {
        let vl = e.value_len() as int;
        lemma_le_bytes_len(e.value_len(), 8);
        assert(wal_enc(e).len() == 33 + kl + vl);
        assert(all.subrange(0, 8) =~= le_bytes(e.key.len(), 8));
        lemma_le_val_of_le_bytes(e.key.len(), 8);
        assert(all[8] == 0u8);
        assert(all.subrange(9, 17) =~= le_bytes(e.value_len(), 8));
        lemma_le_val_of_le_bytes(e.value_len(), 8);
        assert(all.subrange(17, 17 + kl) =~= e.key);
        assert(all.subrange(17 + kl, 17 + kl + vl) =~= e.value->Some_0);
        assert(all.subrange(17 + kl + vl, 17 + kl + vl + 16) =~= le_bytes(
            e.timestamp as nat,
            16,
        ));
        lemma_le_val_of_le_bytes(e.timestamp as nat, 16);
        assert(e == EntrySpec::live(e.key, e.value->Some_0, e.timestamp));
    }
}

/// All records decodable from `data`, in on-disk order, up to the first
/// truncated tail.
pub open spec fn wal_dec_all(data: Seq<u8>) -> Seq<EntrySpec>
    decreases data.len(),
{
    match wal_dec(data) {
        Some((e, n)) => {
            if 0 < n <= data.len() {
                seq![e] + wal_dec_all(data.skip(n))
            } else {
                Seq::empty()
            }
        },
        None => Seq::empty(),
    }
}

/// The concatenated encodings of a sequence of records.
pub open spec fn enc_all(entries: Seq<EntrySpec>) -> Seq<u8>
    decreases entries.len(),
{
    if entries.len() == 0 {
        Seq::empty()
    } else {
        wal_enc(entries[0]) + enc_all(entries.skip(1))
    }
}

/// The state of a table after replaying `entries` in order, each applied
/// as the `set` or `delete` it records.
pub open spec fn apply_all(s: Seq<EntrySpec>, entries: Seq<EntrySpec>) -> Seq<EntrySpec>
    decreases entries.len(),
{
    if entries.len() == 0 {
        s
    } else {
        apply_all(tbl_set(s, entries[0]), entries.skip(1))
    }
}

/// Field lengths fit their 8-byte length prefixes.
pub open spec fn entries_bounded(s: Seq<EntrySpec>) -> bool {
    forall|i: int|
        0 <= i < s.len() ==> (#[trigger] s[i]).key.len() < byte_space(8) && s[i].value_len()
            < byte_space(8)
}

/// Replaying one more record is one more write.
pub proof fn lemma_apply_all_snoc(s: Seq<EntrySpec>, es: Seq<EntrySpec>, e: EntrySpec)
    ensures
        apply_all(s, es.push(e)) == tbl_set(apply_all(s, es), e),
    decreases es.len(),
{
    if es.len() == 0 {
        assert(es.push(e)[0] == e);
        assert(es.push(e).skip(1) =~= Seq::<EntrySpec>::empty());
        assert(apply_all(s, es.push(e)) == apply_all(tbl_set(s, e), es.push(e).skip(1)));
        assert(apply_all(tbl_set(s, e), es.push(e).skip(1)) == tbl_set(s, e));
        assert(apply_all(s, es) == s);
    } else {
        assert(es.push(e)[0] == es[0]);
        assert(es.push(e).skip(1) =~= es.skip(1).push(e));
        lemma_apply_all_snoc(tbl_set(s, es[0]), es.skip(1), e);
        assert(apply_all(s, es.push(e)) == apply_all(tbl_set(s, es[0]), es.skip(1).push(e)));
        assert(apply_all(s, es) == apply_all(tbl_set(s, es[0]), es.skip(1)));
    }
}

/// Replaying a concatenation is replaying both parts in turn.
pub proof fn lemma_apply_all_concat(s: Seq<EntrySpec>, a: Seq<EntrySpec>, b: Seq<EntrySpec>)
    ensures
        apply_all(s, a + b) == apply_all(apply_all(s, a), b),
    decreases a.len(),
{
    if a.len() == 0 {
        assert(a + b =~= b);
    } else {
        assert((a + b)[0] == a[0]);
        assert((a + b).skip(1) =~= a.skip(1) + b);
        lemma_apply_all_concat(tbl_set(s, a[0]), a.skip(1), b);
    }
}

/// Replay grows the table's cost by at most the records' total cost.
pub proof fn lemma_apply_all_cost(s: Seq<EntrySpec>, es: Seq<EntrySpec>)
    ensures
        tbl_cost(apply_all(s, es)) <= tbl_cost(s) + tbl_cost(es),
    decreases es.len(),
{
    if es.len() > 0 {
        crate::memtable::lemma_tbl_cost_set(s, es[0]);
        lemma_apply_all_cost(tbl_set(s, es[0]), es.skip(1));
    }
}

/// Everything decoded from one log is well formed and bounded, and both its
/// cost and its re-encoded length stay within the log's own length.
pub proof fn lemma_dec_all_wf(data: Seq<u8>)
    ensures
        entries_wf(wal_dec_all(data)),
        entries_bounded(wal_dec_all(data)),
        tbl_cost(wal_dec_all(data)) <= data.len(),
        enc_all(wal_dec_all(data)).len() <= data.len(),
    decreases data.len(),
{
    if wal_dec(data) is Some {
        let (e, n) = wal_dec(data)->Some_0;
        lemma_wal_dec_some(data);
        lemma_dec_all_wf(data.skip(n));
        let es = wal_dec_all(data);
        let rest = wal_dec_all(data.skip(n));
        assert(es[0] == e);
        assert(es.skip(1) =~= rest);
        assert(forall|i: int| 0 <= i < rest.len() ==> #[trigger] es[i + 1] == rest[i]);
        assert(entries_wf(es));
        assert(entries_bounded(es));
        assert(enc_all(es) == wal_enc(e) + enc_all(rest));
    }
}

/// Replay equivalence: records written to a log decode back to exactly the
/// operations written, so replaying the log into a fresh table applies the
/// same operations in the same order as running them directly.
pub proof fn lemma_replay_equivalence(entries: Seq<EntrySpec>)
    requires
        entries_wf(entries),
        entries_bounded(entries),
    ensures
        wal_dec_all(enc_all(entries)) == entries,
        apply_all(Seq::empty(), wal_dec_all(enc_all(entries))) == apply_all(
            Seq::empty(),
            entries,
        ),
    decreases entries.len(),
{
    if entries.len() == 0 {
        assert(wal_dec_all(enc_all(entries)) =~= entries);
    } else {
        let e = entries[0];
        let rest = enc_all(entries.skip(1));
        assert(e.wf() && e.key.len() < byte_space(8) && e.value_len() < byte_space(8));
        lemma_wal_dec_enc(e, rest);
        lemma_le_bytes_len(e.key.len(), 8);
        lemma_le_bytes_len(e.value_len(), 8);
        lemma_le_bytes_len(e.timestamp as nat, 16);
        let n = wal_enc(e).len() as int;
        assert(n >= 25);
        assert((wal_enc(e) + rest).skip(n) =~= rest);
        assert(forall|i: int|
            0 <= i < entries.skip(1).len() ==> #[trigger] entries.skip(1)[i] == entries[i + 1]);
        lemma_replay_equivalence(entries.skip(1));
        assert(wal_dec_all(enc_all(entries)) =~= entries);
    }
}

/// Total length of a set of log files.
pub open spec fn total_len(files: Seq<Seq<u8>>) -> nat
    decreases files.len(),
{
    if files.len() == 0 {
        0
    } else {
        files[0].len() + total_len(files.skip(1))
    }
}

/// The contents of a sequence of log buffers.
pub open spec fn files_views(files: Seq<Vec<u8>>) -> Seq<Seq<u8>> {
    Seq::new(files.len(), |i: int| files[i]@)
}

/// The records of several logs, in log order then record order: the order
/// in which recovery replays them.
pub open spec fn dec_files(files: Seq<Seq<u8>>) -> Seq<EntrySpec>
    decreases files.len(),
{
    if files.len() == 0 {
        Seq::empty()
    } else {
        wal_dec_all(files[0]) + dec_files(files.skip(1))
    }
}

pub proof fn lemma_dec_files_snoc(files: Seq<Seq<u8>>, f: Seq<u8>)
    ensures
        dec_files(files.push(f)) == dec_files(files) + wal_dec_all(f),
    decreases files.len(),
{
    if files.len() == 0 {
        assert(files.push(f)[0] == f);
        assert(files.push(f).skip(1) =~= Seq::<Seq<u8>>::empty());
        assert(wal_dec_all(f) + dec_files(Seq::empty()) =~= Seq::empty() + wal_dec_all(f));
    } else {
        assert(files.push(f)[0] == files[0]);
        assert(files.push(f).skip(1) =~= files.skip(1).push(f));
        lemma_dec_files_snoc(files.skip(1), f);
        assert(wal_dec_all(files[0]) + (dec_files(files.skip(1)) + wal_dec_all(f)) =~= (
        wal_dec_all(files[0]) + dec_files(files.skip(1))) + wal_dec_all(f));
    }
}

/// The records of several logs are well formed and bounded, at a total cost
/// within the logs' total length.
pub proof fn lemma_dec_files_wf(files: Seq<Seq<u8>>)
    ensures
        entries_wf(dec_files(files)),
        entries_bounded(dec_files(files)),
        tbl_cost(dec_files(files)) <= total_len(files),
    decreases files.len(),
{
    if files.len() > 0 {
        lemma_dec_all_wf(files[0]);
        lemma_dec_files_wf(files.skip(1));
        let a = wal_dec_all(files[0]);
        let b = dec_files(files.skip(1));
        assert(forall|i: int| 0 <= i < a.len() ==> (a + b)[i] == #[trigger] a[i]);
        assert(forall|i: int|
            0 <= i < b.len() ==> (a + b)[a.len() + i] == #[trigger] b[i]);
        assert(entries_wf(a + b));
        assert(entries_bounded(a + b));
        lemma_tbl_cost_concat(a, b);
    }
}

/// Cost distributes over concatenation.
pub proof fn lemma_tbl_cost_concat(a: Seq<EntrySpec>, b: Seq<EntrySpec>)
    ensures
        tbl_cost(a + b) == tbl_cost(a) + tbl_cost(b),
    decreases a.len(),
{
    if a.len() == 0 {
        assert(a + b =~= b);
    } else {
        assert((a + b)[0] == a[0]);
        assert((a + b).skip(1) =~= a.skip(1) + b);
        lemma_tbl_cost_concat(a.skip(1), b);
    }
}

/// Consolidation keeps meaning: the one log that re-encodes everything
/// recovered from a set of logs decodes back to exactly those records, so
/// replaying it alone rebuilds the same table as replaying all the inputs
/// in order.
pub proof fn lemma_consolidation_equivalent(files: Seq<Seq<u8>>)
    ensures
        wal_dec_all(enc_all(dec_files(files))) == dec_files(files),
        apply_all(Seq::empty(), wal_dec_all(enc_all(dec_files(files)))) == apply_all(
            Seq::empty(),
            dec_files(files),
        ),
{
    lemma_dec_files_wf(files);
    lemma_replay_equivalence(dec_files(files));
}

/// Append the record of a live write: the operation `Wal::set` logs.
pub fn encode_set(out: &mut Vec<u8>, key: &[u8], value: &[u8], timestamp: u128)
    ensures
        final(out)@ == old(out)@ + wal_enc(EntrySpec::live(key@, value@, timestamp)),
{
    push_le_bytes(out, key.len() as u128, 8);
    out.push(0u8);
    push_le_bytes(out, value.len() as u128, 8);
    push_bytes(out, key);
    push_bytes(out, value);
    push_le_bytes(out, timestamp, 16);
    proof {
        let e = EntrySpec::live(key@, value@, timestamp);
        assert(out@ =~= old(out)@ + wal_enc(e));
    }
}

/// Append the record of a deletion: the operation `Wal::delete` logs.
pub fn encode_delete(out: &mut Vec<u8>, key: &[u8], timestamp: u128)
    ensures
        final(out)@ == old(out)@ + wal_enc(EntrySpec::tombstone(key@, timestamp)),
{
    push_le_bytes(out, key.len() as u128, 8);
    out.push(1u8);
    push_bytes(out, key);
    push_le_bytes(out, timestamp, 16);
    proof {
        let e = EntrySpec::tombstone(key@, timestamp);
        assert(out@ =~= old(out)@ + wal_enc(e));
    }
}

/// Decode the record starting at `pos`, or `None` when the bytes from `pos`
/// on are a truncated tail.
pub fn decode_entry(data: &[u8], pos: usize) -> (r: Option<(WalEntry, usize)>)
    requires
        pos <= data@.len(),
    ensures
        match r {
            Some(p) => {
                &&& wal_dec(data@.skip(pos as int)) == Some((p.0@, p.1 - pos as int))
                &&& pos < p.1 <= data@.len()
                &&& p.0@.wf()
            },
            None => wal_dec(data@.skip(pos as int)) is None,
        },
{
    let dlen = data.len();
    let ghost tail = data@.skip(pos as int);
    proof {
        assert(tail.len() == dlen - pos);
    }
    if dlen - pos < 9 {
        return None;
    }
    let key_len_v = read_le_bytes(data, pos, 8);
    proof {
        assert(tail.subrange(0, 8) =~= data@.subrange(pos as int, pos + 8));
        crate::lebytes::lemma_le_val_bound(data@.subrange(pos as int, pos + 8));
        lemma_byte_space_values();
    }
    let deleted = data[pos + 8] != 0;
    proof {
        assert(tail[8] == data@[pos + 8]);
    }
    let remaining = (dlen - pos) as u128;
    if deleted {
        if key_len_v + 25 > remaining {
            return None;
        }
        let kl = key_len_v as usize;
        let key = vstd::slice::slice_to_vec(vstd::slice::slice_subrange(data, pos + 9, pos + 9
            + kl));
        let ts = read_le_bytes(data, pos + 9 + kl, 16);
        proof {
            assert(tail.subrange(9, 9 + kl as int) =~= data@.subrange(pos + 9, pos + 9 + kl));
            assert(tail.subrange(9 + kl as int, 9 + kl + 16) =~= data@.subrange(
                pos + 9 + kl,
                pos + 9 + kl + 16,
            ));
            crate::lebytes::lemma_le_val_bound(tail.subrange(9 + kl as int, 9 + kl + 16));
            lemma_byte_space_values();
        }
        let e = WalEntry { key, value: None, timestamp: ts, deleted: true };
        proof {
            assert(e@ == EntrySpec::tombstone(tail.subrange(9, 9 + kl as int), ts));
        }
        Some((e, pos + 9 + kl + 16))
    } else {
        if dlen - pos < 17 {
            return None;
        }
        let value_len_v = read_le_bytes(data, pos + 9, 8);
        proof {
            assert(tail.subrange(9, 17) =~= data@.subrange(pos + 9, pos + 17));
            crate::lebytes::lemma_le_val_bound(data@.subrange(pos + 9, pos + 17));
        }
        if key_len_v + value_len_v + 33 > remaining {
            return None;
        }
        let kl = key_len_v as usize;
        let vl = value_len_v as usize;
        let key = vstd::slice::slice_to_vec(vstd::slice::slice_subrange(data, pos + 17, pos + 17
            + kl));
        let value = vstd::slice::slice_to_vec(vstd::slice::slice_subrange(data, pos + 17 + kl, pos
            + 17 + kl + vl));
        let ts = read_le_bytes(data, pos + 17 + kl + vl, 16);
        proof {
            assert(tail.subrange(17, 17 + kl as int) =~= data@.subrange(pos + 17, pos + 17 + kl));
            assert(tail.subrange(17 + kl as int, 17 + kl + vl as int) =~= data@.subrange(
                pos + 17 + kl,
                pos + 17 + kl + vl,
            ));
            assert(tail.subrange(17 + kl + vl as int, 17 + kl + vl + 16) =~= data@.subrange(
                pos + 17 + kl + vl,
                pos + 17 + kl + vl + 16,
            ));
            crate::lebytes::lemma_le_val_bound(tail.subrange(17 + kl + vl as int, 17 + kl + vl
                + 16));
            lemma_byte_space_values();
        }
        let e = WalEntry { key, value: Some(value), timestamp: ts, deleted: false };
        proof {
            assert(e@ == EntrySpec::live(
                tail.subrange(17, 17 + kl as int),
                tail.subrange(17 + kl as int, 17 + kl + vl as int),
                ts,
            ));
        }
        Some((e, pos + 17 + kl + vl + 16))
    }
}

/// Decode every record in the buffer in on-disk order, stopping silently at
/// a torn trailing write.
pub fn decode_all(data: &[u8]) -> (r: Vec<WalEntry>)
    ensures
        wal_views(r@) == wal_dec_all(data@),
        entries_wf(wal_views(r@)),
{
    let mut res: Vec<WalEntry> = Vec::new();
    let mut pos: usize = 0;
    proof {
        assert(data@.skip(0) =~= data@);
        assert(wal_views(res@) + wal_dec_all(data@) =~= wal_dec_all(data@));
    }
    loop
        invariant_except_break
            pos <= data@.len(),
            wal_dec_all(data@) == wal_views(res@) + wal_dec_all(data@.skip(pos as int)),
            entries_wf(wal_views(res@)),
        ensures
            wal_views(res@) == wal_dec_all(data@),
            entries_wf(wal_views(res@)),
        decreases data@.len() - pos,
    {
        let ghost tail = data@.skip(pos as int);
        match decode_entry(data, pos) {
            Some(p) => {
                let (e, next) = p;
                proof {
                    let n = next - pos as int;
                    assert(wal_dec_all(tail) == seq![e@] + wal_dec_all(tail.skip(n)));
                    assert(tail.skip(n) =~= data@.skip(next as int));
                    assert(wal_views(res@.push(e)) =~= wal_views(res@) + seq![e@]);
                    assert((wal_views(res@) + seq![e@]) + wal_dec_all(data@.skip(next as int))
                        =~= wal_views(res@) + (seq![e@] + wal_dec_all(data@.skip(next as int))));
                    assert(forall|i: int|
                        0 <= i < res@.len() ==> #[trigger] wal_views(res@.push(e))[i]
                            == wal_views(res@)[i]);
                }
                res.push(e);
                pos = next;
            },
            None => {
                proof {
                    assert(wal_dec_all(tail) =~= Seq::<EntrySpec>::empty());
                    assert(wal_views(res@) + wal_dec_all(tail) =~= wal_views(res@));
                }
                break;
            },
        }
    }
    res
}

/// Replay decoded records into `table` in order: a live record is applied
/// as a `set`, a tombstone as a `delete`. This rebuilds exactly the state
/// the table had when the records were written.
pub fn replay(table: &mut MemTable, entries: &Vec<WalEntry>)
    requires
        old(table).wf(),
        entries_wf(wal_views(entries@)),
        old(table).size + tbl_cost(wal_views(entries@)) <= usize::MAX,
    ensures
        final(table).wf(),
        final(table)@ == apply_all(old(table)@, wal_views(entries@)),
{
    let ghost views = wal_views(entries@);
    let n = entries.len();
    let mut i: usize = 0;
    proof {
        assert(views.take(0) =~= Seq::<EntrySpec>::empty());
        assert(views.skip(0) =~= views);
    }
    while i < n
        invariant
            i <= n,
            n == entries@.len(),
            views == wal_views(entries@),
            entries_wf(views),
            table.wf(),
            table@ == apply_all(old(table)@, views.take(i as int)),
            table.size + tbl_cost(views.skip(i as int)) <= usize::MAX,
        decreases n - i,
    {
        let e = &entries[i];
        let ghost ev = views[i as int];
        proof {
            assert(ev == e@);
            assert(ev.wf());
            assert(views.skip(i as int)[0] == ev);
            assert(views.skip(i as int).skip(1) =~= views.skip(i + 1));
            assert(tbl_cost(views.skip(i as int)) == ev.cost() + tbl_cost(views.skip(i + 1)));
            crate::memtable::lemma_tbl_cost_set(table@, ev);
            lemma_apply_all_snoc(old(table)@, views.take(i as int), ev);
            assert(views.take(i + 1) =~= views.take(i as int).push(ev));
        }
        if e.deleted {
            table.delete(e.key.as_slice(), e.timestamp);
            proof {
                assert(EntrySpec::tombstone(e.key@, e.timestamp) == ev);
            }
        } else {
            match &e.value {
                Some(v) => {
                    table.set(e.key.as_slice(), v.as_slice(), e.timestamp);
                    proof {
                        assert(EntrySpec::live(e.key@, v@, e.timestamp) == ev);
                    }
                },
                None => {
                    proof {
                        assert(false);
                    }
                },
            }
        }
        i = i + 1;
    }
    proof {
        assert(views.take(n as int) =~= views);
    }
}

/// Encoding distributes over concatenation.
pub proof fn lemma_enc_all_concat(a: Seq<EntrySpec>, b: Seq<EntrySpec>)
    ensures
        enc_all(a + b) == enc_all(a) + enc_all(b),
    decreases a.len(),
{
    if a.len() == 0 {
        assert(a + b =~= b);
        assert(enc_all(a) + enc_all(b) =~= enc_all(b));
    } else {
        assert((a + b)[0] == a[0]);
        assert((a + b).skip(1) =~= a.skip(1) + b);
        lemma_enc_all_concat(a.skip(1), b);
        assert(wal_enc(a[0]) + (enc_all(a.skip(1)) + enc_all(b)) =~= (wal_enc(a[0]) + enc_all(
        a.skip(1))) + enc_all(b));
    }
}

/// The recovery/consolidation protocol, on the bytes of the log files found
/// in one directory, already in chronological (file-name) order: replay
/// every record of every file, in order, into one fresh table, and write
/// every record into one fresh consolidated log. The caller persists the
/// returned log as the single new WAL file and removes the old ones.
pub fn recover(files: &Vec<Vec<u8>>) -> (r: (MemTable, Vec<u8>))
    requires
        total_len(files_views(files@)) <= usize::MAX,
    ensures
        r.0.wf(),
        r.0@ == apply_all(Seq::empty(), dec_files(files_views(files@))),
        r.1@ == enc_all(dec_files(files_views(files@))),
{
    let ghost fviews = files_views(files@);
    let mut table = MemTable::new();
    let mut log: Vec<u8> = Vec::new();
    let nf = files.len();
    let mut fi: usize = 0;
    proof {
        assert(fviews.take(0) =~= Seq::<Seq<u8>>::empty());
        assert(fviews.skip(0) =~= fviews);
        assert(log@ =~= enc_all(dec_files(fviews.take(0))));
    }
    while fi < nf
        invariant
            fi <= nf,
            nf == files@.len(),
            fviews == files_views(files@),
            table.wf(),
            table@ == apply_all(Seq::empty(), dec_files(fviews.take(fi as int))),
            log@ == enc_all(dec_files(fviews.take(fi as int))),
            table.size + total_len(fviews.skip(fi as int)) <= usize::MAX,
        decreases nf - fi,
    {
        let ghost done = dec_files(fviews.take(fi as int));
        let file = &files[fi];
        let ghost fbytes = fviews[fi as int];
        proof {
            assert(fbytes == file@);
            assert(fviews.skip(fi as int)[0] == fbytes);
            assert(fviews.skip(fi as int).skip(1) =~= fviews.skip(fi + 1));
            assert(total_len(fviews.skip(fi as int)) == fbytes.len() + total_len(
                fviews.skip(fi + 1)));
            lemma_dec_all_wf(fbytes);
        }
        let entries = decode_all(file.as_slice());
        let ghost eviews = wal_views(entries@);
        proof {
            assert(eviews == wal_dec_all(fbytes));
            lemma_apply_all_cost(table@, eviews);
        }
        replay(&mut table, &entries);
        proof {
            assert(fviews.take(fi + 1) =~= fviews.take(fi as int).push(fbytes));
            lemma_dec_files_snoc(fviews.take(fi as int), fbytes);
            lemma_apply_all_concat(Seq::empty(), done, eviews);
        }
        let ne = entries.len();
        let mut j: usize = 0;
        proof {
            assert(eviews.take(0) =~= Seq::<EntrySpec>::empty());
            assert(log@ + enc_all(eviews.take(0)) =~= log@);
        }
        let ghost log0 = log@;
        while j < ne
            invariant
                j <= ne,
                ne == entries@.len(),
                eviews == wal_views(entries@),
                entries_wf(eviews),
                log@ == log0 + enc_all(eviews.take(j as int)),
            decreases ne - j,
        {
            let e = &entries[j];
            let ghost ev = eviews[j as int];
            proof {
                assert(ev == e@ && ev.wf());
                assert(eviews.take(j + 1) =~= eviews.take(j as int).push(ev));
                assert(eviews.take(j as int).push(ev) =~= eviews.take(j as int) + seq![ev]);
                lemma_enc_all_concat(eviews.take(j as int), seq![ev]);
                assert(seq![ev].skip(1) =~= Seq::<EntrySpec>::empty());
                assert(seq![ev].len() == 1 && seq![ev][0] == ev);
                assert(enc_all(seq![ev]) == wal_enc(ev) + enc_all(seq![ev].skip(1)));
                assert(enc_all(seq![ev].skip(1)) == Seq::<u8>::empty());
                assert(wal_enc(ev) + Seq::<u8>::empty() =~= wal_enc(ev));
            }
            if e.deleted {
                encode_delete(&mut log, e.key.as_slice(), e.timestamp);
                proof {
                    assert(EntrySpec::tombstone(e.key@, e.timestamp) == ev);
                    assert(log@ =~= log0 + enc_all(eviews.take(j + 1)));
                }
            } else {
                match &e.value {
                    Some(v) => {
                        encode_set(&mut log, e.key.as_slice(), v.as_slice(), e.timestamp);
                        proof {
                            assert(EntrySpec::live(e.key@, v@, e.timestamp) == ev);
                            assert(log@ =~= log0 + enc_all(eviews.take(j + 1)));
                        }
                    },
                    None => {
                        proof {
                            assert(false);
                        }
                    },
                }
            }
            j = j + 1;
        }
        proof {
            assert(eviews.take(ne as int) =~= eviews);
            lemma_enc_all_concat(done, eviews);
            assert(log@ =~= enc_all(dec_files(fviews.take(fi + 1))));
        }
        fi = fi + 1;
    }
    proof {
        assert(fviews.take(nf as int) =~= fviews);
    }
    (table, log)
}

} // verus!
