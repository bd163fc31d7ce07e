use lsm_core::memtable::MemTable;
use lsm_core::sstable::{write_table, PlainTable, RowType, TableError, PLAIN_TABLE_MAGIC,
    PREFIX_LENGTH};

fn table_from_bytes(bytes: &[u8]) -> Result<PlainTable, TableError> {
    let mut map = memmap2::MmapOptions::new().len(bytes.len().max(1)).map_anon().unwrap();
    map[..bytes.len()].copy_from_slice(bytes);
    let map = map.make_read_only().unwrap();
    PlainTable::open(map)
}

fn open_err(bytes: &[u8]) -> TableError {
    match table_from_bytes(bytes) {
        Err(e) => e,
        Ok(_) => panic!("expected the image to be rejected"),
    }
}

fn sample_table() -> MemTable {
    // All keys share the 10-byte prefix "fruit-box:".
    let mut table = MemTable::new();
    table.set(b"fruit-box:Apple", b"Apple Smoothie", 1);
    table.set(b"fruit-box:Lime", b"Lime Smoothie", 2);
    table.set(b"fruit-box:Orange", b"Orange Smoothie", 3);
    table.delete(b"fruit-box:Plum", 4);
    table
}

#[test]
fn test_plain_table_lookup_shared_prefix() {
    let bytes = write_table(&sample_table(), 100);
    let table = table_from_bytes(&bytes).unwrap();

    let row = table.get(b"fruit-box:Apple").unwrap().unwrap();
    assert_eq!(row.key, b"fruit-box:Apple");
    assert_eq!(row.value, b"Apple Smoothie");
    assert_eq!(row.row_type, RowType::Value);
    assert_eq!(row.sequence_id, 100);

    let row = table.get(b"fruit-box:Orange").unwrap().unwrap();
    assert_eq!(row.value, b"Orange Smoothie");
    assert_eq!(row.row_type, RowType::Value);
    assert_eq!(row.sequence_id, 102);

    let row = table.get(b"fruit-box:Plum").unwrap().unwrap();
    assert_eq!(row.value, b"");
    assert_eq!(row.row_type, RowType::Deletion);
    assert_eq!(row.sequence_id, 103);
}

#[test]
fn test_plain_table_absent_key_known_prefix() {
    let bytes = write_table(&sample_table(), 100);
    let table = table_from_bytes(&bytes).unwrap();

    // Same 10-byte prefix as the stored rows, but no such key: the scan
    // stops inside the prefix run and reports absence.
    assert_eq!(table.get(b"fruit-box:Banana").unwrap(), None);
    // A prefix that is not indexed at all.
    assert_eq!(table.get(b"vegetables:Potato").unwrap(), None);
}

#[test]
fn test_plain_table_rejects_short_key() {
    let bytes = write_table(&sample_table(), 100);
    let table = table_from_bytes(&bytes).unwrap();

    assert_eq!(table.get(b"fruit"), Err(TableError::KeyTooShort));
    assert_eq!(table.get(b""), Err(TableError::KeyTooShort));
    assert_eq!(table.get(b"123456789"), Err(TableError::KeyTooShort));
    // Exactly PREFIX_LENGTH bytes is accepted.
    assert_eq!(PREFIX_LENGTH, 10);
    assert_eq!(table.get(b"fruit-box:").unwrap(), None);
}

#[test]
fn test_plain_table_bad_magic() {
    let mut bytes = write_table(&sample_table(), 100);
    let n = bytes.len();
    bytes[n - 1] ^= 0xff;
    assert_eq!(open_err(&bytes), TableError::CorruptData);
}

#[test]
fn test_plain_table_truncated_image() {
    assert_eq!(open_err(b"short"), TableError::CorruptEntry);

    // Keep the footer but cut the geometry: offsets no longer add up.
    let bytes = write_table(&sample_table(), 100);
    let n = bytes.len();
    let mut cut = Vec::new();
    cut.extend_from_slice(&bytes[..8]);
    cut.extend_from_slice(&bytes[n - 16..]);
    assert_eq!(open_err(&cut), TableError::CorruptEntry);
}

#[test]
fn test_plain_table_bad_row_type_tag() {
    let table = sample_table();
    let mut bytes = write_table(&table, 100);
    // The first row starts at offset 0: [4B key length][key][8B trailer].
    // Overwrite the trailer's top byte (the type tag) with an unknown tag.
    let key_len = table.entries[0].key.len();
    bytes[4 + key_len + 7] = 9;
    assert_eq!(open_err(&bytes), TableError::CorruptData);
}

#[test]
fn test_plain_table_unsorted_rows_rejected() {
    let sorted = write_table(&sample_table(), 100);
    // Find the data region and swap the first two rows.
    let n = sorted.len();
    let prop_off = u32::from_le_bytes(sorted[n - 16..n - 12].try_into().unwrap()) as usize;
    let row_len = |at: usize| -> usize {
        let kl = u32::from_le_bytes(sorted[at..at + 4].try_into().unwrap()) as usize;
        let vl = u32::from_le_bytes(sorted[at + 4 + kl + 8..at + 4 + kl + 12].try_into().unwrap())
            as usize;
        16 + kl + vl
    };
    let r0 = row_len(0);
    let r1 = row_len(r0);
    let mut swapped = Vec::new();
    swapped.extend_from_slice(&sorted[r0..r0 + r1]);
    swapped.extend_from_slice(&sorted[..r0]);
    swapped.extend_from_slice(&sorted[r0 + r1..prop_off]);
    swapped.extend_from_slice(&sorted[prop_off..]);
    assert_eq!(open_err(&swapped), TableError::CorruptData);
}

#[test]
fn test_plain_table_empty_table() {
    let bytes = write_table(&MemTable::new(), 0);
    let table = table_from_bytes(&bytes).unwrap();
    assert_eq!(table.get(b"fruit-box:Apple").unwrap(), None);
}

#[test]
fn test_plain_table_truncated_row() {
    // A consistent footer over a 4-byte data region whose declared key
    // length runs past the region: a truncated field is corrupt data.
    let mut img = vec![1u8, 0, 0, 0];
    img.extend_from_slice(&4u32.to_le_bytes());
    img.extend_from_slice(&0u32.to_le_bytes());
    img.extend_from_slice(&PLAIN_TABLE_MAGIC.to_le_bytes());
    assert_eq!(open_err(&img), TableError::CorruptData);

    // Likewise with an absurd declared key length.
    let mut img = vec![255u8, 255, 255, 255];
    img.extend_from_slice(&4u32.to_le_bytes());
    img.extend_from_slice(&0u32.to_le_bytes());
    img.extend_from_slice(&PLAIN_TABLE_MAGIC.to_le_bytes());
    assert_eq!(open_err(&img), TableError::CorruptData);
}

#[test]
fn test_plain_table_max_sequence_id() {
    let bytes = write_table(&sample_table(), 100);
    let table = table_from_bytes(&bytes).unwrap();
    // Four rows, ids 100..=103: the high-water mark a restarted writer
    // resumes from.
    assert_eq!(table.max_sequence_id(), 103);

    let empty = write_table(&MemTable::new(), 0);
    let table = table_from_bytes(&empty).unwrap();
    assert_eq!(table.max_sequence_id(), 0);
}
