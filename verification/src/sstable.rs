//! The Plain Table: an immutable, sorted, on-disk key-value file format,
//! read through a prefix-hash index over a memory-mapped file.
//!
//! A row is laid out little-endian as
//!
//! ```text
//! [4B key length][key bytes][8B packed trailer][4B value length][value bytes]
//! ```
//!
//! with the trailer packing the row type tag in its top 8 bits and a 56-bit
//! sequence id below. Rows are concatenated in strictly ascending key
//! order, followed by a property block (row count, smallest key, largest
//! key, raw data size) and a fixed-size footer (property block offset and
//! length, then a magic number) that lets a reader locate the metadata
//! without a full scan.
//!
//! The format limits a file to at most 2^31 - 1 bytes and to keys of at
//! least `PREFIX_LENGTH` bytes, since point lookups go through an index
//! over the first `PREFIX_LENGTH` key bytes; rows sharing that prefix are
//! contiguous because rows are sorted.

use vstd::prelude::*;
use crate::keyorder::{KeyOrder, cmp_keys, lex_lt, lemma_lex_lt_irreflexive,
    lemma_lex_lt_transitive, lemma_prefix_between};
use crate::lebytes::{le_bytes, le_val, byte_space, lemma_le_bytes_len, lemma_le_val_of_le_bytes,
    lemma_le_val_bound, lemma_le_bytes_of_le_val, lemma_le_val_injective, lemma_byte_space_values,
    push_le_bytes, read_le_bytes, push_bytes};
use crate::memtable::{MemTable, EntrySpec, entries_wf};
use std::collections::HashMap;

verus! {

/// Keys below this length cannot be looked up: the prefix index is built
/// over the first `PREFIX_LENGTH` bytes of each key.
pub const PREFIX_LENGTH: usize = 10;

/// Identifies a complete Plain Table footer.
pub const PLAIN_TABLE_MAGIC: u64 = 0x8242_4c54_4e4c_5054;

/// Errors surfaced by the Plain Table reader, in place of any abort.
#[derive(Clone, Copy, PartialEq, Eq, Structural, Debug)]
pub enum TableError {
    /// A key shorter than `PREFIX_LENGTH` was looked up: a validation
    /// error, reported before anything is read.
    KeyTooShort,
    /// A corrupt or invalid encoding: an unrecognized row-type tag, a
    /// truncated key, trailer or value region, a stored key too short to
    /// index, rows out of order, or a wrong magic number.
    CorruptData,
    /// An incomplete record structure: an image too short to hold the
    /// fixed-size footer, or metadata whose geometry does not describe
    /// the rows.
    CorruptEntry,
}

/// Type of a row, stored as the tag byte in the packed trailer.
#[derive(Clone, Copy, PartialEq, Eq, Structural, Debug)]
pub enum RowType {
    Deletion,
    Value,
    Merge,
}

impl RowType {
    /// The stored tag: Deletion = 0, Value = 1, Merge = 2.
    pub open spec fn tag_spec(self) -> u8 {
        match self {
            RowType::Deletion => 0,
            RowType::Value => 1,
            RowType::Merge => 2,
        }
    }

    pub fn tag(self) -> (r: u8)
        ensures
            r == self.tag_spec(),
    {
        match self {
            RowType::Deletion => 0,
            RowType::Value => 1,
            RowType::Merge => 2,
        }
    }

    /// Checked construction from a stored byte; anything outside the three
    /// known tags is rejected, never a panic.
    pub open spec fn from_tag_spec(t: u8) -> Option<RowType> {
        if t == 0 {
            Some(RowType::Deletion)
        } else if t == 1 {
            Some(RowType::Value)
        } else if t == 2 {
            Some(RowType::Merge)
        } else {
            None
        }
    }

    pub fn from_tag(t: u8) -> (r: Option<RowType>)
        ensures
            r == Self::from_tag_spec(t),
    {
        if t == 0 {
            Some(RowType::Deletion)
        } else if t == 1 {
            Some(RowType::Value)
        } else if t == 2 {
            Some(RowType::Merge)
        } else {
            None
        }
    }
}

/// Specification-level image of one row.
pub ghost struct RowSpec {
    pub key: Seq<u8>,
    pub row_type: RowType,
    pub sequence_id: u64,
    pub value: Seq<u8>,
}

impl RowSpec {
    /// Fields fit their length prefixes, the sequence id its 56 bits, and
    /// the key is long enough to index.
    pub open spec fn wf(self) -> bool {
        &&& self.key.len() < byte_space(4)
        &&& self.value.len() < byte_space(4)
        &&& (self.sequence_id as nat) < 0x100_0000_0000_0000
        &&& self.key.len() >= PREFIX_LENGTH
    }
}

/// A row read out of a Plain Table.
#[derive(Debug, PartialEq, Eq)]
pub struct SSTableRow {
    pub key: Vec<u8>,
    pub row_type: RowType,
    pub sequence_id: u64,
    pub value: Vec<u8>,
}

impl View for SSTableRow {
    type V = RowSpec;

    open spec fn view(&self) -> RowSpec {
        RowSpec {
            key: self.key@,
            row_type: self.row_type,
            sequence_id: self.sequence_id,
            value: self.value@,
        }
    }
}

/// The packed trailer: type tag in the top 8 bits, sequence id below.
pub open spec fn trailer_val(t: RowType, sequence_id: u64) -> nat {
    (t.tag_spec() * 0x100_0000_0000_0000 + (sequence_id as nat) % 0x100_0000_0000_0000) as nat
}

/// The encoding of one row.
pub open spec fn row_enc(r: RowSpec) -> Seq<u8> {
    le_bytes(r.key.len(), 4) + r.key + le_bytes(trailer_val(r.row_type, r.sequence_id), 8)
        + le_bytes(r.value.len(), 4) + r.value
}

/// Decode one row from the front of `data`: the row and the bytes it
/// occupies. A truncated field, an unknown type tag and a key too short
/// to index are all `CorruptData`.
pub open spec fn row_dec(data: Seq<u8>) -> Result<(RowSpec, int), TableError> {
    if data.len() < 4 {
        Err(TableError::CorruptData)
    } else {
        let kl = le_val(data.subrange(0, 4)) as int;
        if 4 + kl + 12 > data.len() {
            Err(TableError::CorruptData)
        } else if kl < PREFIX_LENGTH {
            Err(TableError::CorruptData)
        } else {
            let key = data.subrange(4, 4 + kl);
            let trailer = le_val(data.subrange(4 + kl, 4 + kl + 8));
            let tag = (trailer / 0x100_0000_0000_0000) as u8;
            let sid = (trailer % 0x100_0000_0000_0000) as u64;
            match RowType::from_tag_spec(tag) {
                None => Err(TableError::CorruptData),
                Some(rt) => {
                    let vl = le_val(data.subrange(4 + kl + 8, 4 + kl + 12)) as int;
                    if 4 + kl + 12 + vl > data.len() {
                        Err(TableError::CorruptData)
                    } else {
                        let value = data.subrange(4 + kl + 12, 4 + kl + 12 + vl);
                        Ok((
                            RowSpec { key, row_type: rt, sequence_id: sid, value },
                            16 + kl + vl,
                        ))
                    }
                },
            }
        }
    }
}

/// What a successful row decode guarantees, including that the consumed
/// bytes are exactly the row's re-encoding.
pub proof fn lemma_row_dec_some(data: Seq<u8>)
    requires
        row_dec(data) is Ok,
    ensures
        ({
            let (r, n) = row_dec(data)->Ok_0;
            &&& 16 <= n <= data.len()
            &&& r.wf()
            &&& row_enc(r).len() == n
            &&& data.subrange(0, n) == row_enc(r)
        }),
{
    let (r, n) = row_dec(data)->Ok_0;
    let kl = le_val(data.subrange(0, 4)) as int;
    let vl = le_val(data.subrange(4 + kl + 8, 4 + kl + 12)) as int;
    let trailer = le_val(data.subrange(4 + kl, 4 + kl + 8));
    lemma_le_val_bound(data.subrange(0, 4));
    lemma_le_val_bound(data.subrange(4 + kl + 8, 4 + kl + 12));
    lemma_le_val_bound(data.subrange(4 + kl, 4 + kl + 8));
    lemma_byte_space_values();
    assert((r.sequence_id as nat) == trailer % 0x100_0000_0000_0000);
    lemma_le_bytes_len(r.key.len(), 4);
    lemma_le_bytes_len(r.value.len(), 4);
    lemma_le_bytes_len(trailer_val(r.row_type, r.sequence_id), 8);
    assert(trailer_val(r.row_type, r.sequence_id) == trailer) by (nonlinear_arith)
        requires
            trailer < 0x1_0000_0000_0000_0000,
            r.row_type.tag_spec() == trailer / 0x100_0000_0000_0000,
            (r.sequence_id as nat) == trailer % 0x100_0000_0000_0000,
            trailer_val(r.row_type, r.sequence_id) == r.row_type.tag_spec()
                * 0x100_0000_0000_0000 + (r.sequence_id as nat) % 0x100_0000_0000_0000,
    ;
    lemma_le_bytes_of_le_val(data.subrange(0, 4));
    lemma_le_bytes_of_le_val(data.subrange(4 + kl, 4 + kl + 8));
    lemma_le_bytes_of_le_val(data.subrange(4 + kl + 8, 4 + kl + 12));
    assert(data.subrange(0, n) =~= row_enc(r)) by {
        assert(le_bytes(r.key.len(), 4) == data.subrange(0, 4));
        assert(r.key == data.subrange(4, 4 + kl));
        assert(le_bytes(trailer_val(r.row_type, r.sequence_id), 8) == data.subrange(
            4 + kl,
            4 + kl + 8,
        ));
        assert(le_bytes(r.value.len(), 4) == data.subrange(4 + kl + 8, 4 + kl + 12));
        assert(r.value == data.subrange(4 + kl + 12, 4 + kl + 12 + vl));
    }
}

/// Decoding inverts encoding for any well-formed row.
pub proof fn lemma_row_dec_enc(r: RowSpec, rest: Seq<u8>)
    requires
        r.wf(),
    ensures
        row_dec(row_enc(r) + rest) == Ok::<_, TableError>((r, row_enc(r).len() as int)),
{
    let kl = r.key.len() as int;
    let vl = r.value.len() as int;
    let tr = trailer_val(r.row_type, r.sequence_id);
    let all = row_enc(r) + rest;
    lemma_le_bytes_len(r.key.len(), 4);
    lemma_le_bytes_len(r.value.len(), 4);
    lemma_le_bytes_len(tr, 8);
    lemma_byte_space_values();
    assert(tr < byte_space(8)) by (nonlinear_arith)
        requires
            tr == r.row_type.tag_spec() * 0x100_0000_0000_0000 + (r.sequence_id as nat)
                % 0x100_0000_0000_0000,
            r.row_type.tag_spec() <= 2,
            byte_space(8) == 0x1_0000_0000_0000_0000,
    ;
    assert(all.subrange(0, 4) =~= le_bytes(r.key.len(), 4));
    lemma_le_val_of_le_bytes(r.key.len(), 4);
    assert(all.subrange(4, 4 + kl) =~= r.key);
    assert(all.subrange(4 + kl, 4 + kl + 8) =~= le_bytes(tr, 8));
    lemma_le_val_of_le_bytes(tr, 8);
    assert(tr / 0x100_0000_0000_0000 == r.row_type.tag_spec() && tr % 0x100_0000_0000_0000
        == r.sequence_id as nat) by (nonlinear_arith)
        requires
            tr == r.row_type.tag_spec() * 0x100_0000_0000_0000 + (r.sequence_id as nat)
                % 0x100_0000_0000_0000,
            r.row_type.tag_spec() <= 2,
            (r.sequence_id as nat) < 0x100_0000_0000_0000,
    ;
    assert(RowType::from_tag_spec(r.row_type.tag_spec()) == Some(r.row_type));
    assert(all.subrange(4 + kl + 8, 4 + kl + 12) =~= le_bytes(r.value.len(), 4));
    lemma_le_val_of_le_bytes(r.value.len(), 4);
    assert(all.subrange(4 + kl + 12, 4 + kl + 12 + vl) =~= r.value);
}

/// The concatenated encodings of a sequence of rows: the data region.
pub open spec fn rows_enc(rows: Seq<RowSpec>) -> Seq<u8>
    decreases rows.len(),
{
    if rows.len() == 0 {
        Seq::empty()
    } else {
        row_enc(rows[0]) + rows_enc(rows.skip(1))
    }
}

pub proof fn lemma_rows_enc_snoc(rows: Seq<RowSpec>, r: RowSpec)
    ensures
        rows_enc(rows.push(r)) == rows_enc(rows) + row_enc(r),
    decreases rows.len(),
{
    if rows.len() == 0 {
        assert(rows.push(r)[0] == r);
        assert(rows.push(r).skip(1) =~= Seq::<RowSpec>::empty());
        assert(rows_enc(Seq::<RowSpec>::empty()) == Seq::<u8>::empty());
        assert(rows_enc(rows.push(r)) == row_enc(r) + rows_enc(rows.push(r).skip(1)));
        assert(rows_enc(rows) == Seq::<u8>::empty());
        assert(row_enc(r) + Seq::<u8>::empty() =~= row_enc(r));
        assert(Seq::<u8>::empty() + row_enc(r) =~= row_enc(r));
    } else {
        assert(rows.push(r)[0] == rows[0]);
        assert(rows.push(r).skip(1) =~= rows.skip(1).push(r));
        lemma_rows_enc_snoc(rows.skip(1), r);
        assert(row_enc(rows[0]) + (rows_enc(rows.skip(1)) + row_enc(r)) =~= (row_enc(rows[0])
            + rows_enc(rows.skip(1))) + row_enc(r));
    }
}

/// The property block: row count, smallest key, largest key, raw data size.
pub open spec fn prop_enc(rows: Seq<RowSpec>, raw_size: nat) -> Seq<u8> {
    let min_key = if rows.len() == 0 { Seq::<u8>::empty() } else { rows[0].key };
    let max_key = if rows.len() == 0 { Seq::<u8>::empty() } else { rows[rows.len() - 1].key };
    le_bytes(rows.len(), 4) + le_bytes(min_key.len(), 4) + min_key + le_bytes(max_key.len(), 4)
        + max_key + le_bytes(raw_size, 4)
}

/// The fixed-size footer: property block offset and length, then the magic.
pub open spec fn footer_enc(prop_off: nat, prop_len: nat) -> Seq<u8> {
    le_bytes(prop_off, 4) + le_bytes(prop_len, 4) + le_bytes(PLAIN_TABLE_MAGIC as nat, 8)
}

/// A complete Plain Table image: rows, property block, footer.
pub open spec fn table_enc(rows: Seq<RowSpec>) -> Seq<u8> {
    let raw = rows_enc(rows);
    let prop = prop_enc(rows, raw.len());
    raw + prop + footer_enc(raw.len(), prop.len())
}

/// The row that a flushed MemTable entry becomes: a live entry a Value
/// row, a tombstone a Deletion row with an empty value.
pub open spec fn row_of(e: EntrySpec, sequence_id: u64) -> RowSpec {
    RowSpec {
        key: e.key,
        row_type: if e.deleted {
            RowType::Deletion
        } else {
            RowType::Value
        },
        sequence_id,
        value: if e.deleted {
            Seq::<u8>::empty()
        } else {
            e.value->Some_0
        },
    }
}

/// The rows of a table flushed from `entries`, with sequence ids assigned
/// monotonically from `start_seq`.
pub open spec fn rows_of(entries: Seq<EntrySpec>, start_seq: u64) -> Seq<RowSpec> {
    Seq::new(entries.len(), |i: int| row_of(entries[i], (start_seq + i) as u64))
}

impl MemTable {
    /// Largest `size` a MemTable may reach and still be flushed: keeps the
    /// whole table image, metadata included, under the format's limit of
    /// 2^31 - 1 bytes. Tables are flushed at far smaller thresholds.
    pub open spec fn flush_size_limit() -> nat {
        0x1fff_ffff
    }
}

/// Serialize a MemTable's sorted entries into a complete Plain Table
/// image: rows in key order, then the property block, then the footer.
/// `start_seq` is the sequence id of the first row; later rows get
/// successive ids, so ids stay monotone across flushes when the caller
/// threads the counter through.
pub fn write_table(table: &MemTable, start_seq: u64) -> (r: Vec<u8>)
    requires
        table.wf(),
        forall|i: int|
            0 <= i < table@.len() ==> (#[trigger] table@[i]).key.len() >= PREFIX_LENGTH,
        (start_seq as nat) + table@.len() < 0x100_0000_0000_0000,
        table.size <= MemTable::flush_size_limit(),
    ensures
        r@ == table_enc(rows_of(table@, start_seq)),
{
    let ghost rows = rows_of(table@, start_seq);
    let mut out: Vec<u8> = Vec::new();
    let n = table.entries.len();
    let mut i: usize = 0;
    proof {
        assert(rows.take(0) =~= Seq::<RowSpec>::empty());
        assert(out@ =~= rows_enc(rows.take(0)));
    }
    while i < n
        invariant
            i <= n,
            n == table@.len(),
            table.wf(),
            rows == rows_of(table@, start_seq),
            (start_seq as nat) + n < 0x100_0000_0000_0000,
            out@ == rows_enc(rows.take(i as int)),
        decreases n - i,
    {
        let entry = &table.entries[i];
        let ghost e = table@[i as int];
        let ghost row = rows[i as int];
        let sid: u64 = start_seq + (i as u64);
        let rt = if entry.deleted {
            RowType::Deletion
        } else {
            RowType::Value
        };
        proof {
            assert(entry@ == e);
            assert(row == row_of(e, sid));
            assert(e.wf());
            assert(trailer_val(rt, sid) == rt.tag_spec() * 0x100_0000_0000_0000 + sid);
        }
        let trailer: u64 = (rt.tag() as u64) * 0x100_0000_0000_0000 + sid;
        let ghost out0 = out@;
        push_le_bytes(&mut out, entry.key.len() as u128, 4);
        push_bytes(&mut out, entry.key.as_slice());
        push_le_bytes(&mut out, trailer as u128, 8);
        match &entry.value {
            Some(v) => {
                push_le_bytes(&mut out, v.len() as u128, 4);
                push_bytes(&mut out, v.as_slice());
            },
            None => {
                push_le_bytes(&mut out, 0u128, 4);
                proof {
                    assert(le_bytes(0, 4) + Seq::<u8>::empty() =~= le_bytes(0, 4));
                }
            },
        }
        proof {
            assert(out@ =~= out0 + row_enc(row));
            lemma_rows_enc_snoc(rows.take(i as int), row);
            assert(rows.take(i + 1) =~= rows.take(i as int).push(row));
        }
        i = i + 1;
    }
    proof {
        assert(rows.take(n as int) =~= rows);
    }
    let raw_size = out.len();
    let ghost raw = out@;
    push_le_bytes(&mut out, n as u128, 4);
    if n == 0 {
        push_le_bytes(&mut out, 0u128, 4);
        push_le_bytes(&mut out, 0u128, 4);
    } else {
        let min_key = &table.entries[0].key;
        push_le_bytes(&mut out, min_key.len() as u128, 4);
        push_bytes(&mut out, min_key.as_slice());
        let max_key = &table.entries[n - 1].key;
        push_le_bytes(&mut out, max_key.len() as u128, 4);
        push_bytes(&mut out, max_key.as_slice());
    }
    push_le_bytes(&mut out, raw_size as u128, 4);
    let prop_len = out.len() - raw_size;
    proof {
        if n == 0 {
            assert(le_bytes(0, 4) + Seq::<u8>::empty() =~= le_bytes(0, 4));
        }
        assert(out@ =~= raw + prop_enc(rows, raw.len()));
    }
    push_le_bytes(&mut out, raw_size as u128, 4);
    push_le_bytes(&mut out, prop_len as u128, 4);
    push_le_bytes(&mut out, PLAIN_TABLE_MAGIC as u128, 8);
    proof {
        assert(out@ =~= table_enc(rows));
    }
    out
}

/// Rows decoded from the front of a data region, each checked to sort
/// strictly after the one before it (`prev` is the previous row's key).
pub open spec fn rows_parse(data: Seq<u8>, prev: Option<Seq<u8>>) -> Result<
    Seq<RowSpec>,
    TableError,
>
    decreases data.len(),
{
    if data.len() == 0 {
        Ok(Seq::empty())
    } else {
        match row_dec(data) {
            Err(e) => Err(e),
            Ok((r, n)) => {
                if prev is Some && !lex_lt(prev->0, r.key) {
                    Err(TableError::CorruptData)
                } else if 0 < n <= data.len() {
                    match rows_parse(data.skip(n), Some(r.key)) {
                        Ok(rest) => Ok(seq![r] + rest),
                        Err(e) => Err(e),
                    }
                } else {
                    Err(TableError::CorruptData)
                }
            },
        }
    }
}

/// A scan that has produced `pre` and still has `data` before it.
pub open spec fn parse_cont(pre: Seq<RowSpec>, data: Seq<u8>, prev: Option<Seq<u8>>) -> Result<
    Seq<RowSpec>,
    TableError,
> {
    match rows_parse(data, prev) {
        Ok(rest) => Ok(pre + rest),
        Err(e) => Err(e),
    }
}

/// Taking one decoded row off the front of the remaining data moves it
/// onto the scanned prefix.
pub proof fn lemma_parse_cont_step(pre: Seq<RowSpec>, data: Seq<u8>, prev: Option<Seq<u8>>)
    requires
        data.len() > 0,
        row_dec(data) is Ok,
        ({
            let (r, n) = row_dec(data)->Ok_0;
            prev is Some ==> lex_lt(prev->0, r.key)
        }),
    ensures
        ({
            let (r, n) = row_dec(data)->Ok_0;
            parse_cont(pre, data, prev) == parse_cont(pre.push(r), data.skip(n), Some(r.key))
        }),
{
    let (r, n) = row_dec(data)->Ok_0;
    lemma_row_dec_some(data);
    match rows_parse(data.skip(n), Some(r.key)) {
        Ok(rest) => {
            assert(pre + (seq![r] + rest) =~= pre.push(r) + rest);
        },
        Err(e) => {},
    }
}

/// Parse a complete Plain Table image: footer, geometry, then the rows.
/// The prefix index is rebuilt from the data region, so the property block
/// is located but its contents are not interpreted.
pub open spec fn table_parse(bytes: Seq<u8>) -> Result<Seq<RowSpec>, TableError> {
    if bytes.len() < 16 {
        Err(TableError::CorruptEntry)
    } else {
        let n = bytes.len() as int;
        let prop_off = le_val(bytes.subrange(n - 16, n - 12)) as int;
        let prop_len = le_val(bytes.subrange(n - 12, n - 8)) as int;
        let magic = le_val(bytes.subrange(n - 8, n));
        if magic != PLAIN_TABLE_MAGIC as nat {
            Err(TableError::CorruptData)
        } else if prop_off + prop_len + 16 != n {
            Err(TableError::CorruptEntry)
        } else {
            rows_parse(bytes.subrange(0, prop_off), None)
        }
    }
}

/// The stored row for `key`, if any.
pub open spec fn row_get(rows: Seq<RowSpec>, key: Seq<u8>) -> Option<RowSpec>
    decreases rows.len(),
{
    if rows.len() == 0 {
        None
    } else if rows[0].key == key {
        Some(rows[0])
    } else {
        row_get(rows.skip(1), key)
    }
}

/// The largest sequence id among `rows`, or 0 when there are none: the
/// high-water mark a restarted writer resumes its counter from.
pub open spec fn rows_max_seq(rows: Seq<RowSpec>) -> u64
    decreases rows.len(),
{
    if rows.len() == 0 {
        0
    } else {
        let m = rows_max_seq(rows.drop_last());
        if rows.last().sequence_id > m {
            rows.last().sequence_id
        } else {
            m
        }
    }
}

/// The table's stored high-water mark is the rows' largest sequence id.
/// Opaque so that only the places that maintain or read it unfold it.
#[verifier::opaque]
pub open spec fn max_seq_ok(m: u64, rows: Seq<RowSpec>) -> bool {
    m == rows_max_seq(rows)
}

/// Strictly sorted by key ascending.
pub open spec fn sorted_rows(rows: Seq<RowSpec>) -> bool {
    forall|i: int, j: int| 0 <= i < j < rows.len() ==> lex_lt(rows[i].key, rows[j].key)
}

pub proof fn lemma_row_get_found(rows: Seq<RowSpec>, key: Seq<u8>, i: int)
    requires
        sorted_rows(rows),
        0 <= i < rows.len(),
        rows[i].key == key,
    ensures
        row_get(rows, key) == Some(rows[i]),
    decreases rows.len(),
{
    if i == 0 {
    } else {
        assert(lex_lt(rows[0].key, key));
        if rows[0].key == key {
            lemma_lex_lt_irreflexive(key);
        }
        assert forall|a: int, b: int| 0 <= a < b < rows.skip(1).len() implies lex_lt(
            rows.skip(1)[a].key,
            rows.skip(1)[b].key,
        ) by {
            assert(rows.skip(1)[a] == rows[a + 1] && rows.skip(1)[b] == rows[b + 1]);
        }
        assert(rows.skip(1)[i - 1] == rows[i]);
        lemma_row_get_found(rows.skip(1), key, i - 1);
    }
}

pub proof fn lemma_row_get_absent(rows: Seq<RowSpec>, key: Seq<u8>)
    requires
        forall|j: int| 0 <= j < rows.len() ==> rows[j].key != key,
    ensures
        row_get(rows, key) is None,
    decreases rows.len(),
{
    if rows.len() > 0 {
        assert(forall|j: int|
            0 <= j < rows.skip(1).len() ==> #[trigger] rows.skip(1)[j] == rows[j + 1]);
        lemma_row_get_absent(rows.skip(1), key);
    }
}

/// The index key of a row: its first `PREFIX_LENGTH` key bytes, read as a
/// little-endian integer. Injective over prefixes, so two keys collide
/// exactly when their prefixes are the same bytes.
pub open spec fn prefix_u128(key: Seq<u8>) -> u128 {
    le_val(key.take(PREFIX_LENGTH as int)) as u128
}

pub proof fn lemma_prefix_u128_eq(k1: Seq<u8>, k2: Seq<u8>)
    requires
        k1.len() >= PREFIX_LENGTH,
        k2.len() >= PREFIX_LENGTH,
    ensures
        prefix_u128(k1) == prefix_u128(k2) <==> k1.take(PREFIX_LENGTH as int) == k2.take(
            PREFIX_LENGTH as int,
        ),
{
    let p = PREFIX_LENGTH as int;
    lemma_le_val_bound(k1.take(p));
    lemma_le_val_bound(k2.take(p));
    crate::lebytes::lemma_byte_space_monotonic((PREFIX_LENGTH) as nat, 16);
    lemma_byte_space_values();
    if prefix_u128(k1) == prefix_u128(k2) {
        lemma_le_val_injective(k1.take(p), k2.take(p));
    }
}

/// Decode the row starting at `pos`, surfacing corruption as a structured
/// error, never an abort.
pub fn decode_row(data: &[u8], pos: usize) -> (r: Result<(SSTableRow, usize), TableError>)
    requires
        pos <= data@.len(),
    ensures
        match r {
            Ok(p) => {
                &&& row_dec(data@.skip(pos as int)) == Ok::<_, TableError>((
                    p.0@,
                    p.1 - pos as int,
                ))
                &&& pos < p.1 <= data@.len()
                &&& p.0@.wf()
            },
            Err(e) => row_dec(data@.skip(pos as int)) == Err::<(RowSpec, int), _>(e),
        },
{
    let dlen = data.len();
    let ghost tail = data@.skip(pos as int);
    if dlen - pos < 4 {
        return Err(TableError::CorruptData);
    }
    let kl_v = read_le_bytes(data, pos, 4);
    proof {
        assert(tail.subrange(0, 4) =~= data@.subrange(pos as int, pos + 4));
        crate::lebytes::lemma_le_val_bound(data@.subrange(pos as int, pos + 4));
        crate::lebytes::lemma_byte_space_monotonic(4, 16);
        lemma_byte_space_values();
    }
    let remaining = (dlen - pos) as u128;
    if kl_v + 16 > remaining {
        return Err(TableError::CorruptData);
    }
    if kl_v < PREFIX_LENGTH as u128 {
        return Err(TableError::CorruptData);
    }
    let kl = kl_v as usize;
    let trailer = read_le_bytes(data, pos + 4 + kl, 8);
    proof {
        assert(tail.subrange(4 + kl as int, 4 + kl + 8) =~= data@.subrange(
            pos + 4 + kl,
            pos + 4 + kl + 8,
        ));
        crate::lebytes::lemma_le_val_bound(data@.subrange(pos + 4 + kl, pos + 4 + kl + 8));
    }
    let tag = (trailer / 0x100_0000_0000_0000) as u8;
    let sid = (trailer % 0x100_0000_0000_0000) as u64;
    let rt = match RowType::from_tag(tag) {
        Some(rt) => rt,
        None => {
            return Err(TableError::CorruptData);
        },
    };
    let vl_v = read_le_bytes(data, pos + 4 + kl + 8, 4);
    proof {
        assert(tail.subrange(4 + kl + 8, 4 + kl + 12) =~= data@.subrange(
            pos + 4 + kl + 8,
            pos + 4 + kl + 12,
        ));
        crate::lebytes::lemma_le_val_bound(data@.subrange(pos + 4 + kl + 8, pos + 4 + kl + 12));
    }
    if kl_v + vl_v + 16 > remaining {
        return Err(TableError::CorruptData);
    }
    let vl = vl_v as usize;
    let key = vstd::slice::slice_to_vec(vstd::slice::slice_subrange(data, pos + 4, pos + 4 + kl));
    let value = vstd::slice::slice_to_vec(vstd::slice::slice_subrange(data, pos + 4 + kl + 12, pos
        + 4 + kl + 12 + vl));
    proof {
        assert(tail.subrange(4, 4 + kl as int) =~= data@.subrange(pos + 4, pos + 4 + kl));
        assert(tail.subrange(4 + kl + 12, 4 + kl + 12 + vl as int) =~= data@.subrange(
            pos + 4 + kl + 12,
            pos + 4 + kl + 12 + vl,
        ));
    }
    let row = SSTableRow { key, row_type: rt, sequence_id: sid, value };
    Ok((row, pos + 16 + kl + vl))
}

/// Shifting the flush by one entry shifts the rows by one.
proof fn lemma_rows_of_skip(entries: Seq<EntrySpec>, start_seq: u64)
    requires
        entries.len() > 0,
        (start_seq as nat) + entries.len() < 0x100_0000_0000_0000,
    ensures
        rows_of(entries, start_seq).skip(1) == rows_of(entries.skip(1), (start_seq + 1) as u64),
{
    let a = rows_of(entries, start_seq).skip(1);
    let b = rows_of(entries.skip(1), (start_seq + 1) as u64);
    assert forall|i: int| 0 <= i < a.len() implies a[i] == b[i] by {
        assert(a[i] == rows_of(entries, start_seq)[i + 1]);
        assert(entries.skip(1)[i] == entries[i + 1]);
    }
    assert(a =~= b);
}

/// A flushed row costs one byte less than its MemTable entry, so the whole
/// data region fits within the table's exact size.
proof fn lemma_rows_enc_len_bound(entries: Seq<EntrySpec>, start_seq: u64)
    requires
        entries_wf(entries),
        (start_seq as nat) + entries.len() < 0x100_0000_0000_0000,
    ensures
        rows_enc(rows_of(entries, start_seq)).len() <= crate::memtable::tbl_cost(entries),
    decreases entries.len(),
{
    let rows = rows_of(entries, start_seq);
    if entries.len() == 0 {
        assert(rows =~= Seq::<RowSpec>::empty());
    } else {
        let r = rows[0];
        lemma_le_bytes_len(r.key.len(), 4);
        lemma_le_bytes_len(r.value.len(), 4);
        lemma_le_bytes_len(trailer_val(r.row_type, r.sequence_id), 8);
        lemma_rows_of_skip(entries, start_seq);
        assert(forall|i: int|
            0 <= i < entries.skip(1).len() ==> #[trigger] entries.skip(1)[i] == entries[i + 1]);
        lemma_rows_enc_len_bound(entries.skip(1), (start_seq + 1) as u64);
        assert(entries[0].wf());
        assert(r.value.len() == entries[0].value_len());
        assert(row_enc(r).len() == 16 + r.key.len() + r.value.len());
        assert(crate::memtable::tbl_cost(entries) == entries[0].cost()
            + crate::memtable::tbl_cost(entries.skip(1)));
    }
}

/// A strictly sorted, well-formed data region parses back to exactly the
/// rows that were encoded into it.
#[verifier::rlimit(100)]
proof fn lemma_rows_parse_enc(rows: Seq<RowSpec>, prev: Option<Seq<u8>>)
    requires
        forall|i: int| 0 <= i < rows.len() ==> (#[trigger] rows[i]).wf(),
        sorted_rows(rows),
        prev is Some && rows.len() > 0 ==> lex_lt(prev->0, rows[0].key),
    ensures
        rows_parse(rows_enc(rows), prev) == Ok::<_, TableError>(rows),
    decreases rows.len(),
{
    if rows.len() == 0 {
        assert(rows_enc(rows).len() == 0);
        assert(rows =~= Seq::<RowSpec>::empty());
    } else {
        let r = rows[0];
        let rest = rows_enc(rows.skip(1));
        let data = rows_enc(rows);
        assert(data == row_enc(r) + rest);
        lemma_row_dec_enc(r, rest);
        lemma_le_bytes_len(r.key.len(), 4);
        assert(data.len() > 0);
        assert(data.skip(row_enc(r).len() as int) =~= rest);
        assert forall|a: int, b: int| 0 <= a < b < rows.skip(1).len() implies lex_lt(
            rows.skip(1)[a].key,
            rows.skip(1)[b].key,
        ) by {
            assert(rows.skip(1)[a] == rows[a + 1] && rows.skip(1)[b] == rows[b + 1]);
        }
        assert(forall|i: int|
            0 <= i < rows.skip(1).len() ==> #[trigger] rows.skip(1)[i] == rows[i + 1]);
        lemma_rows_parse_enc(rows.skip(1), Some(r.key));
        assert(seq![r] + rows.skip(1) =~= rows);
    }
}

/// Flush and reopen keep every row: the complete image written for a
/// sorted table parses back to exactly the rows that were flushed, so a
/// reader sees precisely what the MemTable held.
pub proof fn lemma_table_roundtrip(entries: Seq<EntrySpec>, start_seq: u64)
    requires
        crate::memtable::sorted(entries),
        entries_wf(entries),
        forall|i: int| 0 <= i < entries.len() ==> (#[trigger] entries[i]).key.len()
            >= PREFIX_LENGTH,
        (start_seq as nat) + entries.len() < 0x100_0000_0000_0000,
        crate::memtable::tbl_cost(entries) <= MemTable::flush_size_limit(),
    ensures
        table_parse(table_enc(rows_of(entries, start_seq))) == Ok::<_, TableError>(rows_of(
            entries,
            start_seq,
        )),
{
    let rows = rows_of(entries, start_seq);
    let raw = rows_enc(rows);
    let prop = prop_enc(rows, raw.len());
    let bytes = table_enc(rows);
    lemma_byte_space_values();
    assert forall|i: int| 0 <= i < rows.len() implies (#[trigger] rows[i]).wf() by {
        crate::memtable::lemma_tbl_cost_covers_entry(entries, i);
        assert(rows[i] == row_of(entries[i], (start_seq + i) as u64));
        assert(entries[i].wf());
        assert(rows[i].key.len() <= entries[i].cost());
        assert(rows[i].value.len() == entries[i].value_len());
    }
    lemma_rows_enc_len_bound(entries, start_seq);
    let minl: nat = if rows.len() == 0 { 0 } else { rows[0].key.len() };
    let maxl: nat = if rows.len() == 0 { 0 } else { rows[rows.len() - 1].key.len() };
    if rows.len() > 0 {
        crate::memtable::lemma_tbl_cost_covers_entry(entries, 0);
        crate::memtable::lemma_tbl_cost_covers_entry(entries, entries.len() - 1);
    }
    lemma_le_bytes_len(rows.len(), 4);
    lemma_le_bytes_len(minl, 4);
    lemma_le_bytes_len(maxl, 4);
    lemma_le_bytes_len(raw.len(), 4);
    lemma_le_bytes_len(raw.len(), 4);
    lemma_le_bytes_len(prop.len(), 4);
    lemma_le_bytes_len(PLAIN_TABLE_MAGIC as nat, 8);
    assert(prop.len() == 16 + minl + maxl);
    let n = bytes.len() as int;
    assert(n == raw.len() + prop.len() + 16);
    assert(bytes.subrange(n - 16, n - 12) =~= le_bytes(raw.len(), 4));
    assert(bytes.subrange(n - 12, n - 8) =~= le_bytes(prop.len(), 4));
    assert(bytes.subrange(n - 8, n) =~= le_bytes(PLAIN_TABLE_MAGIC as nat, 8));
    lemma_le_val_of_le_bytes(raw.len(), 4);
    lemma_le_val_of_le_bytes(prop.len(), 4);
    lemma_le_val_of_le_bytes(PLAIN_TABLE_MAGIC as nat, 8);
    assert(bytes.subrange(0, raw.len() as int) =~= raw);
    assert forall|i: int, j: int| 0 <= i < j < rows.len() implies lex_lt(
        rows[i].key,
        rows[j].key,
    ) by {
        assert(rows[i].key == entries[i].key && rows[j].key == entries[j].key);
    }
    lemma_rows_parse_enc(rows, None);
}

/// A lookup in the flushed rows answers exactly as a lookup in the
/// MemTable they came from: the same key found as the corresponding row,
/// the same keys absent.
pub proof fn lemma_flush_preserves_get(entries: Seq<EntrySpec>, start_seq: u64, k: Seq<u8>)
    requires
        (start_seq as nat) + entries.len() < 0x100_0000_0000_0000,
    ensures
        ({
            let rows = rows_of(entries, start_seq);
            match crate::memtable::tbl_get(entries, k) {
                Some(e) => exists|i: int|
                    0 <= i < entries.len() && entries[i] == e && #[trigger] row_get(rows, k)
                        == Some(row_of(e, (start_seq + i) as u64)),
                None => row_get(rows, k) is None,
            }
        }),
    decreases entries.len(),
{
    let rows = rows_of(entries, start_seq);
    if entries.len() == 0 {
    } else {
        assert(rows[0] == row_of(entries[0], start_seq));
        if entries[0].key == k {
            assert(row_get(rows, k) == Some(row_of(entries[0], (start_seq + 0) as u64)));
        } else {
            lemma_rows_of_skip(entries, start_seq);
            lemma_flush_preserves_get(entries.skip(1), (start_seq + 1) as u64, k);
            assert(row_get(rows, k) == row_get(rows.skip(1), k));
            assert(crate::memtable::tbl_get(entries, k) == crate::memtable::tbl_get(
                entries.skip(1),
                k,
            ));
            match crate::memtable::tbl_get(entries.skip(1), k) {
                Some(e) => {
                    let i = choose|i: int|
                        0 <= i < entries.skip(1).len() && entries.skip(1)[i] == e
                            && #[trigger] row_get(rows_of(entries.skip(1), (start_seq + 1) as u64), k)
                            == Some(row_of(e, ((start_seq + 1) as u64 + i) as u64));
                    assert(entries[i + 1] == e);
                    assert(((start_seq + 1) as u64 + i) as u64 == (start_seq + (i + 1)) as u64);
                    assert(row_get(rows, k) == Some(row_of(e, (start_seq + (i + 1)) as u64)));
                },
                None => {},
            }
        }
    }
}

/// The bytes of a read-only memory-mapped file.
#[verifier::external_type_specification]
#[verifier::external_body]
pub struct ExMmap(memmap2::Mmap);

pub uninterp spec fn mmap_bytes(m: memmap2::Mmap) -> Seq<u8>;

/// Relies on memmap2::Mmap's Deref to `[u8]`: a read-only mapping is an
/// immutable byte slice covering the mapped region.
#[verifier::external_body]
fn mmap_as_slice(m: &memmap2::Mmap) -> (r: &[u8])
    ensures
        r@ == mmap_bytes(*m),
{
    &m[..]
}

/// Row `j` is the first row whose key starts with the indexed prefix.
pub open spec fn is_first_with_prefix(rows: Seq<RowSpec>, pv: u128, j: int) -> bool {
    &&& 0 <= j < rows.len()
    &&& prefix_u128(rows[j].key) == pv
    &&& forall|m: int| 0 <= m < j ==> prefix_u128(#[trigger] rows[m].key) != pv
}


/// A key of a new prefix sorts after every stored row, so its prefix is
/// nowhere among them.
proof fn lemma_prefix_fresh(rows: Seq<RowSpec>, nk: Seq<u8>)
    requires
        sorted_rows(rows),
        rows.len() > 0,
        forall|i: int| 0 <= i < rows.len() ==> (#[trigger] rows[i]).wf(),
        nk.len() >= PREFIX_LENGTH,
        lex_lt(rows[rows.len() - 1].key, nk),
        prefix_u128(rows[rows.len() - 1].key) != prefix_u128(nk),
    ensures
        forall|m: int|
            0 <= m < rows.len() ==> prefix_u128((#[trigger] rows[m]).key) != prefix_u128(nk),
{
    let last = rows.len() - 1;
    assert forall|m: int| 0 <= m < rows.len() implies prefix_u128((#[trigger] rows[m]).key)
        != prefix_u128(nk) by {
        if m < last && prefix_u128(rows[m].key) == prefix_u128(nk) {
            lemma_prefix_u128_eq(rows[m].key, nk);
            lemma_prefix_between(rows[m].key, rows[last].key, nk, PREFIX_LENGTH as int);
            lemma_prefix_u128_eq(rows[last].key, nk);
        }
    }
}

/// Appending a row that sorts after the last keeps the table sorted.
proof fn lemma_sorted_rows_push(rows: Seq<RowSpec>, r: RowSpec)
    requires
        sorted_rows(rows),
        rows.len() == 0 || lex_lt(rows[rows.len() - 1].key, r.key),
    ensures
        sorted_rows(rows.push(r)),
{
    let nrows = rows.push(r);
    assert forall|i: int, j: int| 0 <= i < j < nrows.len() implies lex_lt(
        nrows[i].key,
        nrows[j].key,
    ) by {
        if j == nrows.len() - 1 {
            let last = rows.len() - 1;
            if 0 <= i < last {
                assert(nrows[i] == rows[i]);
                lemma_lex_lt_transitive(rows[i].key, rows[last].key, r.key);
            }
        } else {
            assert(nrows[i] == rows[i] && nrows[j] == rows[j]);
        }
    }
}

/// Appending a row keeps the prefix index exact: every indexed prefix
/// still maps to the offset of its first row, and every stored prefix is
/// indexed. `fresh` says whether the new row opened a new prefix run.
proof fn lemma_index_extend(
    m0: Map<u128, usize>,
    m1: Map<u128, usize>,
    rows0: Seq<RowSpec>,
    offs0: Seq<int>,
    r: RowSpec,
    next: int,
    v: usize,
    fresh: bool,
)
    requires
        offs0.len() == rows0.len() + 1,
        forall|i: int|
            0 <= i < rows0.len() ==> m0.dom().contains(prefix_u128(
                (#[trigger] rows0[i]).key,
            )),
        forall|pv: u128|
            #![trigger m0.dom().contains(pv)]
            m0.dom().contains(pv) ==> exists|j: int|
                is_first_with_prefix(rows0, pv, j) && m0[pv] as int == #[trigger] offs0[j],
        fresh ==> m1 == m0.insert(prefix_u128(r.key), v) && v as int == offs0[rows0.len() as int]
            && forall|m: int|
            0 <= m < rows0.len() ==> prefix_u128((#[trigger] rows0[m]).key) != prefix_u128(r.key),
        !fresh ==> m1 == m0 && rows0.len() > 0 && prefix_u128(rows0[rows0.len() - 1].key)
            == prefix_u128(r.key),
    ensures
        forall|i: int|
            0 <= i < rows0.push(r).len() ==> m1.dom().contains(prefix_u128(
                (#[trigger] rows0.push(r)[i]).key,
            )),
        forall|pv: u128|
            #![trigger m1.dom().contains(pv)]
            m1.dom().contains(pv) ==> exists|j: int|
                is_first_with_prefix(rows0.push(r), pv, j) && m1[pv] as int
                    == #[trigger] offs0.push(next)[j],
{
    let rows1 = rows0.push(r);
    let offs1 = offs0.push(next);
    assert(rows1.drop_last() =~= rows0);
    assert(offs1.drop_last() =~= offs0);
    assert forall|i: int| 0 <= i < rows1.len() implies m1.dom().contains(prefix_u128(
        (#[trigger] rows1[i]).key,
    )) by {
        if i < rows0.len() {
            assert(rows1[i] == rows0[i]);
        } else {
            assert(rows1[i] == r);
            if !fresh {
                assert(m1.dom().contains(prefix_u128(rows0[rows0.len() - 1].key)));
            }
        }
    }
    assert forall|pv: u128| #![trigger m1.dom().contains(pv)]
        m1.dom().contains(pv) implies exists|j: int|
        is_first_with_prefix(rows1, pv, j) && m1[pv] as int == #[trigger] offs1[j] by {
        if fresh && pv == prefix_u128(r.key) {
            let j = rows1.len() - 1;
            assert(rows1[j] == r);
            assert(is_first_with_prefix(rows1, pv, j));
            assert(offs1[j] == offs0[rows0.len() as int]);
            assert(m1[pv] as int == offs1[j]);
        } else {
            assert(m0.dom().contains(pv));
            let j = choose|j: int|
                is_first_with_prefix(rows0, pv, j) && m0[pv] as int == #[trigger] offs0[j];
            assert(rows1[j] == rows0[j]);
            assert forall|m: int| 0 <= m < j implies prefix_u128(
                (#[trigger] rows1[m]).key,
            ) != pv by {
                assert(rows1[m] == rows0[m]);
            }
            assert(is_first_with_prefix(rows1, pv, j));
            assert(m1[pv] == m0[pv]);
            assert(offs1[j] == offs0[j]);
        }
    }
}

/// An immutable Plain Table over a memory-mapped file, with the prefix
/// index rebuilt from the data region at open time.
pub struct PlainTable {
    /// The file image, mapped read-only.
    data: memmap2::Mmap,
    /// End of the data region: the property block's offset.
    rows_end: usize,
    /// First `PREFIX_LENGTH` key bytes, as an integer, to the byte offset
    /// of the first row whose key starts with them.
    index: HashMap<u128, usize>,
    /// The largest sequence id stored in the table, found during the scan.
    max_seq: u64,
    rows: Ghost<Seq<RowSpec>>,
    offsets: Ghost<Seq<int>>,
}

impl PlainTable {
    /// The mapped file image.
    pub closed spec fn bytes(&self) -> Seq<u8> {
        mmap_bytes(self.data)
    }

    /// The rows stored in the table, in on-disk (key) order.
    pub closed spec fn rows(&self) -> Seq<RowSpec> {
        self.rows@
    }

    pub closed spec fn wf(&self) -> bool {
        let region = self.bytes().subrange(0, self.rows_end as int);
        let rows = self.rows@;
        let offs = self.offsets@;
        &&& self.rows_end <= self.bytes().len()
        &&& offs.len() == rows.len() + 1
        &&& offs[0] == 0
        &&& offs[rows.len() as int] == self.rows_end as int
        &&& forall|i: int, k: int|
            #![trigger offs[i], offs[k]]
            0 <= i < k < offs.len() ==> offs[i] < offs[k]
        &&& forall|i: int| 0 <= i < offs.len() ==> 0 <= #[trigger] offs[i] <= self.rows_end
        &&& forall|i: int|
            #![trigger rows[i]]
            0 <= i < rows.len() ==> region.subrange(offs[i], offs[i + 1]) == row_enc(rows[i])
        &&& forall|i: int| 0 <= i < rows.len() ==> (#[trigger] rows[i]).wf()
        &&& sorted_rows(rows)
        &&& max_seq_ok(self.max_seq, rows)
        &&& forall|i: int|
            0 <= i < rows.len() ==> self.index@.dom().contains(prefix_u128(
                (#[trigger] rows[i]).key,
            ))
        &&& forall|pv: u128|
            #![trigger self.index@.dom().contains(pv)]
            self.index@.dom().contains(pv) ==> exists|j: int|
                is_first_with_prefix(rows, pv, j) && self.index@[pv] as int == #[trigger] offs[j]
    }

    /// In a well-formed table, each row sits encoded at its offset, so
    /// decoding there yields exactly that row.
    #[verifier::rlimit(100)]
    proof fn row_dec_at(&self, j: int)
        requires
            self.wf(),
            0 <= j < self.rows@.len(),
        ensures
            ({
                let region = self.bytes().subrange(0, self.rows_end as int);
                row_dec(region.skip(self.offsets@[j])) == Ok::<_, TableError>((
                    self.rows@[j],
                    self.offsets@[j + 1] - self.offsets@[j],
                ))
            }),
    {
        let region = self.bytes().subrange(0, self.rows_end as int);
        let rows = self.rows@;
        let offs = self.offsets@;
        assert(region.subrange(offs[j], offs[j + 1]) == row_enc(rows[j]));
        assert(region.skip(offs[j]) =~= row_enc(rows[j]) + region.skip(offs[j + 1])) by {
            assert(forall|i: int|
                0 <= i < row_enc(rows[j]).len() ==> #[trigger] row_enc(rows[j])[i]
                    == region.subrange(offs[j], offs[j + 1])[i]);
        }
        lemma_row_dec_enc(rows[j], region.skip(offs[j + 1]));
    }

    /// Once a scan has left the contiguous run of a prefix without a
    /// match, the key is nowhere in the table: rows before the run have
    /// other prefixes because the run starts at the first occurrence, rows
    /// after it have other prefixes because rows are sorted, and the run
    /// itself was scanned.
    #[verifier::rlimit(100)]
    proof fn absent_outside_run(&self, key: Seq<u8>, pv: u128, j0: int, j: int)
        requires
            self.wf(),
            key.len() >= PREFIX_LENGTH,
            pv == prefix_u128(key),
            is_first_with_prefix(self.rows@, pv, j0),
            j0 <= j <= self.rows@.len(),
            forall|m: int| j0 <= m < j ==> (#[trigger] self.rows@[m]).key != key,
            j < self.rows@.len() ==> prefix_u128(self.rows@[j as int].key) != pv,
        ensures
            forall|m: int| 0 <= m < self.rows@.len() ==> (#[trigger] self.rows@[m]).key != key,
            row_get(self.rows@, key) is None,
    {
        let rows = self.rows@;
        assert forall|m: int| 0 <= m < rows.len() implies (#[trigger] rows[m]).key != key by {
            if rows[m].key == key {
                assert(prefix_u128(rows[m].key) == pv);
                if m < j0 {
                } else if m < j {
                } else {
                    assert(j < rows.len());
                    assert(j0 < j);
                    lemma_prefix_u128_eq(rows[j0].key, rows[m].key);
                    lemma_prefix_between(
                        rows[j0].key,
                        rows[j as int].key,
                        rows[m].key,
                        PREFIX_LENGTH as int,
                    );
                    lemma_prefix_u128_eq(rows[j as int].key, rows[j0].key);
                }
            }
        }
        lemma_row_get_absent(rows, key);
    }

    /// Open a Plain Table over a complete file image: check the footer,
    /// then build the prefix index by one forward scan of the data region,
    /// verifying the sort order as it goes. Corruption is reported as a
    /// structured error, never an abort.
    #[verifier::rlimit(100)]
    pub fn open(data: memmap2::Mmap) -> (r: Result<PlainTable, TableError>)
        ensures
            match r {
                Ok(t) => {
                    &&& t.wf()
                    &&& t.bytes() == mmap_bytes(data)
                    &&& table_parse(mmap_bytes(data)) == Ok::<_, TableError>(t.rows())
                },
                Err(e) => table_parse(mmap_bytes(data)) == Err::<Seq<RowSpec>, _>(e),
            },
    {
        broadcast use vstd::std_specs::hash::group_hash_axioms;

        let slice = mmap_as_slice(&data);
        let dlen = slice.len();
        if dlen < 16 {
            return Err(TableError::CorruptEntry);
        }
        let prop_off_v = read_le_bytes(slice, dlen - 16, 4);
        let prop_len_v = read_le_bytes(slice, dlen - 12, 4);
        let magic_v = read_le_bytes(slice, dlen - 8, 8);
        proof {
            lemma_le_val_bound(slice@.subrange(dlen - 16, dlen - 12));
            lemma_le_val_bound(slice@.subrange(dlen - 12, dlen - 8));
            lemma_le_val_bound(slice@.subrange(dlen - 8, dlen as int));
            lemma_byte_space_values();
        }
        if magic_v != PLAIN_TABLE_MAGIC as u128 {
            return Err(TableError::CorruptData);
        }
        if prop_off_v + prop_len_v + 16 != dlen as u128 {
            return Err(TableError::CorruptEntry);
        }
        let rows_end = prop_off_v as usize;
        proof {
            assert(rows_end <= dlen);
        }
        let region = vstd::slice::slice_subrange(slice, 0, rows_end);
        let ghost regv = mmap_bytes(data).subrange(0, rows_end as int);
        let mut index: HashMap<u128, usize> = HashMap::new();
        let ghost rows_init: Seq<RowSpec> = Seq::empty();
        let ghost offs_init: Seq<int> = seq![0int];
        let mut rows: Ghost<Seq<RowSpec>> = Ghost(rows_init);
        let mut offsets: Ghost<Seq<int>> = Ghost(offs_init);
        let mut prev_row: Option<SSTableRow> = None;
        let mut max_seq: u64 = 0;
        let mut pos: usize = 0;
        proof {
            assert(regv.skip(0) =~= regv);
            assert(rows@ + Seq::<RowSpec>::empty() =~= rows@);
            assert(mmap_bytes(data).subrange(0, rows_end as int) == regv);
            assert(table_parse(mmap_bytes(data)) == rows_parse(regv, None));
            assert(max_seq_ok(0, rows@)) by {
                reveal(max_seq_ok);
            }
        }
        while pos < rows_end
            invariant
                pos <= rows_end,
                rows_end <= mmap_bytes(data).len(),
                regv.len() == rows_end as int,
                regv == mmap_bytes(data).subrange(0, rows_end as int),
                table_parse(mmap_bytes(data)) == rows_parse(regv, None),
                region@ == regv,
                offsets@.len() == rows@.len() + 1,
                offsets@[0] == 0,
                offsets@[rows@.len() as int] == pos as int,
                forall|i: int, k: int|
                    #![trigger offsets@[i], offsets@[k]]
                    0 <= i < k < offsets@.len() ==> offsets@[i] < offsets@[k],
                forall|i: int| 0 <= i < offsets@.len() ==> 0 <= #[trigger] offsets@[i] <= pos,
                forall|i: int|
                    #![trigger rows@[i]]
                    0 <= i < rows@.len() ==> regv.subrange(offsets@[i], offsets@[i + 1])
                        == row_enc(rows@[i]),
                forall|i: int| 0 <= i < rows@.len() ==> (#[trigger] rows@[i]).wf(),
                sorted_rows(rows@),
                max_seq_ok(max_seq, rows@),
                match prev_row {
                    Some(pr) => rows@.len() > 0 && pr@.key == rows@[rows@.len() - 1].key
                        && pr@.key.len() >= PREFIX_LENGTH,
                    None => rows@.len() == 0,
                },
                forall|i: int|
                    0 <= i < rows@.len() ==> index@.dom().contains(prefix_u128(
                        (#[trigger] rows@[i]).key,
                    )),
                forall|pv: u128|
                    #![trigger index@.dom().contains(pv)]
                    index@.dom().contains(pv) ==> exists|j: int|
                        is_first_with_prefix(rows@, pv, j) && index@[pv] as int
                            == #[trigger] offsets@[j],
                rows_parse(regv, None) == parse_cont(
                    rows@,
                    regv.skip(pos as int),
                    match prev_row {
                        Some(pr) => Some(pr@.key),
                        None => None,
                    },
                ),
            decreases rows_end - pos,
        {
            broadcast use vstd::std_specs::hash::group_hash_axioms;

            let ghost prev_keys: Option<Seq<u8>> = match &prev_row {
                Some(pr) => Some(pr@.key),
                None => None,
            };
            let step = decode_row(region, pos);
            let (row, next) = match step {
                Ok(p) => p,
                Err(e) => {
                    proof {
                        assert(regv.skip(pos as int).len() > 0);
                        assert(rows_parse(regv.skip(pos as int), prev_keys)
                            == Err::<Seq<RowSpec>, _>(e));
                        assert(rows_parse(regv, None) == Err::<Seq<RowSpec>, _>(e));
                    }
                    return Err(e);
                },
            };
            let ghost rv = row@;
            match &prev_row {
                Some(pr) => {
                    let ord = cmp_keys(pr.key.as_slice(), row.key.as_slice());
                    if !matches!(ord, KeyOrder::Less) {
                        proof {
                            assert(regv.skip(pos as int).len() > 0);
                            assert(!lex_lt(prev_keys->0, rv.key));
                            assert(rows_parse(regv.skip(pos as int), prev_keys)
                                == Err::<Seq<RowSpec>, _>(TableError::CorruptData));
                            assert(rows_parse(regv, None)
                                == Err::<Seq<RowSpec>, _>(TableError::CorruptData));
                        }
                        return Err(TableError::CorruptData);
                    }
                },
                None => {},
            }
            proof {
                lemma_parse_cont_step(rows@, regv.skip(pos as int), prev_keys);
                assert(regv.skip(pos as int).skip(next - pos as int) =~= regv.skip(next as int));
                lemma_row_dec_some(regv.skip(pos as int));
                assert(regv.subrange(pos as int, next as int) =~= regv.skip(
                    pos as int,
                ).subrange(0, next - pos as int));
            }
            let row_pv = read_le_bytes(row.key.as_slice(), 0, PREFIX_LENGTH);
            proof {
                assert(row.key@.subrange(0, PREFIX_LENGTH as int) =~= row.key@.take(
                    PREFIX_LENGTH as int,
                ));
                lemma_le_val_bound(row.key@.take(PREFIX_LENGTH as int));
                crate::lebytes::lemma_byte_space_monotonic(PREFIX_LENGTH as nat, 16);
                lemma_byte_space_values();
                assert(row_pv == prefix_u128(rv.key));
            }
            let fresh_prefix: bool = match &prev_row {
                Some(pr) => {
                    let prev_pv = read_le_bytes(pr.key.as_slice(), 0, PREFIX_LENGTH);
                    proof {
                        assert(pr.key@.subrange(0, PREFIX_LENGTH as int) =~= pr.key@.take(
                            PREFIX_LENGTH as int,
                        ));
                        lemma_le_val_bound(pr.key@.take(PREFIX_LENGTH as int));
                        assert(prev_pv == prefix_u128(pr@.key));
                    }
                    prev_pv != row_pv
                },
                None => true,
            };
            let ghost m0 = index@;
            if fresh_prefix {
                proof {
                    if rows@.len() > 0 {
                        lemma_prefix_fresh(rows@, rv.key);
                    }
                }
                index.insert(row_pv, pos);
            }
            proof {
                lemma_sorted_rows_push(rows@, rv);
                lemma_index_extend(
                    m0,
                    index@,
                    rows@,
                    offsets@,
                    rv,
                    next as int,
                    pos,
                    fresh_prefix,
                );
            }
            let new_max = if row.sequence_id > max_seq {
                row.sequence_id
            } else {
                max_seq
            };
            proof {
                assert(rows@.push(rv).drop_last() =~= rows@);
                assert(rows@.push(rv).last() == rv);
                assert(max_seq_ok(new_max, rows@.push(rv))) by {
                    reveal(max_seq_ok);
                }
                rows@ = rows@.push(rv);
                offsets@ = offsets@.push(next as int);
            }
            max_seq = new_max;
            prev_row = Some(row);
            pos = next;
        }
        proof {
            assert(regv.skip(pos as int).len() == 0);
            assert(regv.skip(pos as int) =~= Seq::<u8>::empty());
            assert(rows@ + Seq::<RowSpec>::empty() =~= rows@);
        }
        let t = PlainTable { data, rows_end, index, max_seq, rows, offsets };
        Ok(t)
    }

    /// The largest sequence id stored in the table, or 0 when it is
    /// empty: a restarted writer takes the maximum over its tables and
    /// continues its monotone counter above it.
    pub fn max_sequence_id(&self) -> (r: u64)
        requires
            self.wf(),
        ensures
            r == rows_max_seq(self.rows()),
    {
        proof {
            reveal(max_seq_ok);
        }
        self.max_seq
    }

    /// Look up `key`: the stored row, `None` when the table holds no row
    /// for it, or `KeyTooShort` exactly when the key is shorter than
    /// `PREFIX_LENGTH`, never a panic or an out-of-bounds read. When the
    /// prefix is indexed, the scan walks only the prefix's contiguous run
    /// and stops at the first row of another prefix.
    #[verifier::rlimit(100)]
    pub fn get(&self, key: &[u8]) -> (r: Result<Option<SSTableRow>, TableError>)
        requires
            self.wf(),
        ensures
            match r {
                Ok(Some(row)) => key@.len() >= PREFIX_LENGTH && row_get(self.rows(), key@)
                    == Some(row@),
                Ok(None) => key@.len() >= PREFIX_LENGTH && row_get(self.rows(), key@) is None,
                Err(e) => e == TableError::KeyTooShort && key@.len() < PREFIX_LENGTH,
            },
    {
        broadcast use vstd::std_specs::hash::group_hash_axioms;

        if key.len() < PREFIX_LENGTH {
            return Err(TableError::KeyTooShort);
        }
        let pv = read_le_bytes(key, 0, PREFIX_LENGTH);
        proof {
            assert(key@.subrange(0, PREFIX_LENGTH as int) =~= key@.take(PREFIX_LENGTH as int));
            lemma_le_val_bound(key@.take(PREFIX_LENGTH as int));
            crate::lebytes::lemma_byte_space_monotonic(PREFIX_LENGTH as nat, 16);
            lemma_byte_space_values();
            assert(pv == prefix_u128(key@));
        }
        let start = match self.index.get(&pv) {
            Some(off) => *off,
            None => {
                proof {
                    assert forall|m: int| 0 <= m < self.rows@.len() implies (
                    #[trigger] self.rows@[m]).key != key@ by {
                        if self.rows@[m].key == key@ {
                            assert(self.index@.dom().contains(prefix_u128(self.rows@[m].key)));
                        }
                    }
                    lemma_row_get_absent(self.rows@, key@);
                }
                return Ok(None);
            },
        };
        let ghost j0 = choose|j: int|
            is_first_with_prefix(self.rows@, pv, j) && self.index@[pv] as int
                == #[trigger] self.offsets@[j];
        let slice = mmap_as_slice(&self.data);
        let region = vstd::slice::slice_subrange(slice, 0, self.rows_end);
        let ghost regv = self.bytes().subrange(0, self.rows_end as int);
        let mut offset = start;
        let ghost mut j = j0;
        loop
            invariant_except_break
                self.wf(),
                key@.len() >= PREFIX_LENGTH,
                pv == prefix_u128(key@),
                region@ == regv,
                regv == self.bytes().subrange(0, self.rows_end as int),
                is_first_with_prefix(self.rows@, pv, j0),
                j0 <= j <= self.rows@.len(),
                offset as int == self.offsets@[j],
                forall|m: int| j0 <= m < j ==> (#[trigger] self.rows@[m]).key != key@,
            ensures
                key@.len() >= PREFIX_LENGTH,
                row_get(self.rows@, key@) is None,
            decreases self.rows@.len() - j,
        {
            if offset >= self.rows_end {
                proof {
                    assert(j == self.rows@.len());
                    self.absent_outside_run(key@, pv, j0, j);
                }
                break;
            }
            proof {
                assert(j < self.rows@.len());
                self.row_dec_at(j);
            }
            let step = decode_row(region, offset);
            let (row, next) = match step {
                Ok(p) => p,
                // A well-formed table has a decodable row at every offset.
                Err(_) => vstd::pervasive::unreached(),
            };
            proof {
                assert(row@ == self.rows@[j]);
                assert(next as int == self.offsets@[j + 1]);
            }
            let ord = cmp_keys(row.key.as_slice(), key);
            if matches!(ord, KeyOrder::Equal) {
                proof {
                    lemma_row_get_found(self.rows@, key@, j);
                }
                return Ok(Some(row));
            }
            let row_pv = read_le_bytes(row.key.as_slice(), 0, PREFIX_LENGTH);
            proof {
                assert(row.key@.subrange(0, PREFIX_LENGTH as int) =~= row.key@.take(
                    PREFIX_LENGTH as int,
                ));
                lemma_le_val_bound(row.key@.take(PREFIX_LENGTH as int));
                assert(row_pv == prefix_u128(row.key@));
            }
            if row_pv != pv {
                proof {
                    self.absent_outside_run(key@, pv, j0, j);
                }
                break;
            }
            offset = next;
            proof {
                j = j + 1;
            }
        }
        Ok(None)
    }
}

} // verus!
