use lsm_core::wal::{decode_all, encode_delete, encode_set, recover, replay};
use lsm_core::memtable::MemTable;
use std::time::{SystemTime, UNIX_EPOCH};

/// Check one record at `*pos` in an encoded log, field by field, and
/// advance past it.
fn check_entry(buf: &[u8], pos: &mut usize, key: &[u8], value: Option<&[u8]>, timestamp: u128,
    deleted: bool) {
    let mut p = *pos;
    let file_key_len = u64::from_le_bytes(buf[p..p + 8].try_into().unwrap()) as usize;
    p += 8;
    assert_eq!(file_key_len, key.len());

    let file_deleted = buf[p] != 0;
    p += 1;
    assert_eq!(file_deleted, deleted);

    if deleted {
        assert_eq!(&buf[p..p + file_key_len], key);
        p += file_key_len;
    } else {
        let file_value_len = u64::from_le_bytes(buf[p..p + 8].try_into().unwrap()) as usize;
        p += 8;
        assert_eq!(file_value_len, value.unwrap().len());
        assert_eq!(&buf[p..p + file_key_len], key);
        p += file_key_len;
        assert_eq!(&buf[p..p + file_value_len], value.unwrap());
        p += file_value_len;
    }

    let file_timestamp = u128::from_le_bytes(buf[p..p + 16].try_into().unwrap());
    p += 16;
    assert_eq!(file_timestamp, timestamp);
    *pos = p;
}

#[test]
fn test_write_one() {
    let timestamp = SystemTime::now().duration_since(UNIX_EPOCH).unwrap().as_micros();

    let mut wal: Vec<u8> = Vec::new();
    encode_set(&mut wal, b"Lime", b"Lime Smoothie", timestamp);

    let mut pos = 0;
    check_entry(&wal, &mut pos, b"Lime", Some(b"Lime Smoothie"), timestamp, false);
    assert_eq!(pos, wal.len());
}

#[test]
fn test_write_many() {
    let timestamp = SystemTime::now().duration_since(UNIX_EPOCH).unwrap().as_micros();

    let entries: Vec<(&[u8], Option<&[u8]>)> = vec![
        (b"Apple", Some(b"Apple Smoothie")),
        (b"Lime", Some(b"Lime Smoothie")),
        (b"Orange", Some(b"Orange Smoothie")),
    ];

    let mut wal: Vec<u8> = Vec::new();
    for e in entries.iter() {
        encode_set(&mut wal, e.0, e.1.unwrap(), timestamp);
    }

    let mut pos = 0;
    for e in entries.iter() {
        check_entry(&wal, &mut pos, e.0, e.1, timestamp, false);
    }
    assert_eq!(pos, wal.len());
}

#[test]
fn test_write_delete() {
    let timestamp = SystemTime::now().duration_since(UNIX_EPOCH).unwrap().as_micros();

    let entries: Vec<(&[u8], Option<&[u8]>)> = vec![
        (b"Apple", Some(b"Apple Smoothie")),
        (b"Lime", Some(b"Lime Smoothie")),
        (b"Orange", Some(b"Orange Smoothie")),
    ];

    let mut wal: Vec<u8> = Vec::new();
    for e in entries.iter() {
        encode_set(&mut wal, e.0, e.1.unwrap(), timestamp);
    }
    for e in entries.iter() {
        encode_delete(&mut wal, e.0, timestamp);
    }

    let mut pos = 0;
    for e in entries.iter() {
        check_entry(&wal, &mut pos, e.0, e.1, timestamp, false);
    }
    for e in entries.iter() {
        check_entry(&wal, &mut pos, e.0, None, timestamp, true);
    }
    assert_eq!(pos, wal.len());
}

#[test]
fn test_read_wal_none() {
    let files: Vec<Vec<u8>> = Vec::new();

    let (new_mem_table, new_wal) = recover(&files);
    assert_eq!(new_mem_table.len(), 0);
    assert_eq!(new_wal.len(), 0);
}

#[test]
fn test_read_wal_one() {
    let entries: Vec<(&[u8], Option<&[u8]>)> = vec![
        (b"Apple", Some(b"Apple Smoothie")),
        (b"Lime", Some(b"Lime Smoothie")),
        (b"Orange", Some(b"Orange Smoothie")),
    ];

    let mut wal: Vec<u8> = Vec::new();
    for (i, e) in entries.iter().enumerate() {
        encode_set(&mut wal, e.0, e.1.unwrap(), i as u128);
    }

    let (new_mem_table, new_wal) = recover(&vec![wal]);

    let mut pos = 0;
    for (i, e) in entries.iter().enumerate() {
        check_entry(&new_wal, &mut pos, e.0, e.1, i as u128, false);

        let mem_e = new_mem_table.get(e.0).unwrap();
        assert_eq!(mem_e.key, e.0);
        assert_eq!(mem_e.value.as_ref().unwrap().as_slice(), e.1.unwrap());
        assert_eq!(mem_e.timestamp, i as u128);
    }
    assert_eq!(pos, new_wal.len());
}

#[test]
fn test_read_wal_multiple() {
    let entries_1: Vec<(&[u8], Option<&[u8]>)> = vec![
        (b"Apple", Some(b"Apple Smoothie")),
        (b"Lime", Some(b"Lime Smoothie")),
        (b"Orange", Some(b"Orange Smoothie")),
    ];
    let mut wal_1: Vec<u8> = Vec::new();
    for (i, e) in entries_1.iter().enumerate() {
        encode_set(&mut wal_1, e.0, e.1.unwrap(), i as u128);
    }

    let entries_2: Vec<(&[u8], Option<&[u8]>)> = vec![
        (b"Strawberry", Some(b"Strawberry Smoothie")),
        (b"Blueberry", Some(b"Blueberry Smoothie")),
        (b"Orange", Some(b"Orange Milkshake")),
    ];
    let mut wal_2: Vec<u8> = Vec::new();
    for (i, e) in entries_2.iter().enumerate() {
        encode_set(&mut wal_2, e.0, e.1.unwrap(), (i + 3) as u128);
    }

    let (new_mem_table, new_wal) = recover(&vec![wal_1, wal_2]);

    let mut pos = 0;
    for (i, e) in entries_1.iter().enumerate() {
        check_entry(&new_wal, &mut pos, e.0, e.1, i as u128, false);

        let mem_e = new_mem_table.get(e.0).unwrap();
        if i != 2 {
            assert_eq!(mem_e.key, e.0);
            assert_eq!(mem_e.value.as_ref().unwrap().as_slice(), e.1.unwrap());
            assert_eq!(mem_e.timestamp, i as u128);
        } else {
            assert_eq!(mem_e.key, e.0);
            assert_ne!(mem_e.value.as_ref().unwrap().as_slice(), e.1.unwrap());
            assert_ne!(mem_e.timestamp, i as u128);
        }
    }
    for (i, e) in entries_2.iter().enumerate() {
        check_entry(&new_wal, &mut pos, e.0, e.1, (i + 3) as u128, false);

        let mem_e = new_mem_table.get(e.0).unwrap();
        assert_eq!(mem_e.key, e.0);
        assert_eq!(mem_e.value.as_ref().unwrap().as_slice(), e.1.unwrap());
        assert_eq!(mem_e.timestamp, (i + 3) as u128);
    }
    assert_eq!(pos, new_wal.len());
}

/// Replaying a decoded log reproduces the same table state as running the
/// same operations directly, in the same order.
#[test]
fn test_replay_matches_direct_operations() {
    let mut log: Vec<u8> = Vec::new();
    encode_set(&mut log, b"Apple", b"Apple Smoothie", 1);
    encode_set(&mut log, b"Lime", b"Lime Smoothie", 2);
    encode_delete(&mut log, b"Apple", 3);
    encode_set(&mut log, b"Lime", b"Lime Juice", 4);

    let mut direct = MemTable::new();
    direct.set(b"Apple", b"Apple Smoothie", 1);
    direct.set(b"Lime", b"Lime Smoothie", 2);
    direct.delete(b"Apple", 3);
    direct.set(b"Lime", b"Lime Juice", 4);

    let entries = decode_all(&log);
    assert_eq!(entries.len(), 4);
    let mut replayed = MemTable::new();
    replay(&mut replayed, &entries);

    assert_eq!(replayed.len(), direct.len());
    for key in [b"Apple".as_slice(), b"Lime".as_slice(), b"Orange".as_slice()] {
        match (replayed.get(key), direct.get(key)) {
            (Some(a), Some(b)) => {
                assert_eq!(a.key, b.key);
                assert_eq!(a.value, b.value);
                assert_eq!(a.timestamp, b.timestamp);
                assert_eq!(a.deleted, b.deleted);
            }
            (None, None) => {}
            _ => panic!("replayed and direct tables disagree"),
        }
    }
}

/// A torn trailing write ends decoding silently instead of failing.
#[test]
fn test_decode_stops_at_torn_tail() {
    let mut log: Vec<u8> = Vec::new();
    encode_set(&mut log, b"Apple", b"Apple Smoothie", 7);
    let whole = log.len();
    encode_set(&mut log, b"Lime", b"Lime Smoothie", 8);
    log.truncate(whole + 20);

    let entries = decode_all(&log);
    assert_eq!(entries.len(), 1);
    assert_eq!(entries[0].key, b"Apple");
    assert_eq!(entries[0].value.as_ref().unwrap(), b"Apple Smoothie");
    assert_eq!(entries[0].timestamp, 7);
    assert!(!entries[0].deleted);
}
