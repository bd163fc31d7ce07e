use lsm_core::memtable::MemTable;

#[test]
fn test_mem_table_put_start() {
    let mut table = MemTable::new();
    table.set(b"Lime", b"Lime Smoothie", 0); // 17 + 16 + 1
    table.set(b"Orange", b"Orange Smoothie", 10); // 21 + 16 + 1

    table.set(b"Apple", b"Apple Smoothie", 20); // 19 + 16 + 1

    assert_eq!(table.entries[0].key, b"Apple");
    assert_eq!(table.entries[0].value.as_ref().unwrap(), b"Apple Smoothie");
    assert_eq!(table.entries[0].timestamp, 20);
    assert!(!table.entries[0].deleted);
    assert_eq!(table.entries[1].key, b"Lime");
    assert_eq!(table.entries[1].value.as_ref().unwrap(), b"Lime Smoothie");
    assert_eq!(table.entries[1].timestamp, 0);
    assert!(!table.entries[1].deleted);
    assert_eq!(table.entries[2].key, b"Orange");
    assert_eq!(table.entries[2].value.as_ref().unwrap(), b"Orange Smoothie");
    assert_eq!(table.entries[2].timestamp, 10);
    assert!(!table.entries[2].deleted);

    assert_eq!(table.size, 108);
}

#[test]
fn test_mem_table_put_middle() {
    let mut table = MemTable::new();
    table.set(b"Apple", b"Apple Smoothie", 0);
    table.set(b"Orange", b"Orange Smoothie", 10);

    table.set(b"Lime", b"Lime Smoothie", 20);

    assert_eq!(table.entries[0].key, b"Apple");
    assert_eq!(table.entries[0].value.as_ref().unwrap(), b"Apple Smoothie");
    assert_eq!(table.entries[0].timestamp, 0);
    assert!(!table.entries[0].deleted);
    assert_eq!(table.entries[1].key, b"Lime");
    assert_eq!(table.entries[1].value.as_ref().unwrap(), b"Lime Smoothie");
    assert_eq!(table.entries[1].timestamp, 20);
    assert!(!table.entries[1].deleted);
    assert_eq!(table.entries[2].key, b"Orange");
    assert_eq!(table.entries[2].value.as_ref().unwrap(), b"Orange Smoothie");
    assert_eq!(table.entries[2].timestamp, 10);
    assert!(!table.entries[2].deleted);

    assert_eq!(table.size, 108);
}

#[test]
fn test_mem_table_put_end() {
    let mut table = MemTable::new();
    table.set(b"Apple", b"Apple Smoothie", 0);
    table.set(b"Lime", b"Lime Smoothie", 10);

    table.set(b"Orange", b"Orange Smoothie", 20);

    assert_eq!(table.entries[0].key, b"Apple");
    assert_eq!(table.entries[0].value.as_ref().unwrap(), b"Apple Smoothie");
    assert_eq!(table.entries[0].timestamp, 0);
    assert!(!table.entries[0].deleted);
    assert_eq!(table.entries[1].key, b"Lime");
    assert_eq!(table.entries[1].value.as_ref().unwrap(), b"Lime Smoothie");
    assert_eq!(table.entries[1].timestamp, 10);
    assert!(!table.entries[1].deleted);
    assert_eq!(table.entries[2].key, b"Orange");
    assert_eq!(table.entries[2].value.as_ref().unwrap(), b"Orange Smoothie");
    assert_eq!(table.entries[2].timestamp, 20);
    assert!(!table.entries[2].deleted);

    assert_eq!(table.size, 108);
}

#[test]
fn test_mem_table_put_overwrite() {
    let mut table = MemTable::new();
    table.set(b"Apple", b"Apple Smoothie", 0);
    table.set(b"Lime", b"Lime Smoothie", 10);
    table.set(b"Orange", b"Orange Smoothie", 20);

    table.set(b"Lime", b"A sour fruit", 30);

    assert_eq!(table.entries[0].key, b"Apple");
    assert_eq!(table.entries[0].value.as_ref().unwrap(), b"Apple Smoothie");
    assert_eq!(table.entries[0].timestamp, 0);
    assert!(!table.entries[0].deleted);
    assert_eq!(table.entries[1].key, b"Lime");
    assert_eq!(table.entries[1].value.as_ref().unwrap(), b"A sour fruit");
    assert_eq!(table.entries[1].timestamp, 30);
    assert!(!table.entries[1].deleted);
    assert_eq!(table.entries[2].key, b"Orange");
    assert_eq!(table.entries[2].value.as_ref().unwrap(), b"Orange Smoothie");
    assert_eq!(table.entries[2].timestamp, 20);
    assert!(!table.entries[2].deleted);

    assert_eq!(table.size, 107);
}

#[test]
fn test_mem_table_get_exists() {
    let mut table = MemTable::new();
    table.set(b"Apple", b"Apple Smoothie", 0);
    table.set(b"Lime", b"Lime Smoothie", 10);
    table.set(b"Orange", b"Orange Smoothie", 20);

    let entry = table.get(b"Orange").unwrap();

    assert_eq!(entry.key, b"Orange");
    assert_eq!(entry.value.as_ref().unwrap(), b"Orange Smoothie");
    assert_eq!(entry.timestamp, 20);
}

#[test]
fn test_mem_table_get_not_exists() {
    let mut table = MemTable::new();
    table.set(b"Apple", b"Apple Smoothie", 0);
    table.set(b"Lime", b"Lime Smoothie", 0);
    table.set(b"Orange", b"Orange Smoothie", 0);

    let res = table.get(b"Potato");
    assert!(res.is_none());
}

#[test]
fn test_mem_table_delete_exists() {
    let mut table = MemTable::new();
    table.set(b"Apple", b"Apple Smoothie", 0);

    table.delete(b"Apple", 10);

    let res = table.get(b"Apple").unwrap();
    assert_eq!(res.key, b"Apple");
    assert_eq!(res.value, None);
    assert_eq!(res.timestamp, 10);
    assert!(res.deleted);

    assert_eq!(table.entries[0].key, b"Apple");
    assert_eq!(table.entries[0].value, None);
    assert_eq!(table.entries[0].timestamp, 10);
    assert!(table.entries[0].deleted);

    assert_eq!(table.size, 22);
}

#[test]
fn test_mem_table_delete_empty() {
    let mut table = MemTable::new();

    table.delete(b"Apple", 10);

    let res = table.get(b"Apple").unwrap();
    assert_eq!(res.key, b"Apple");
    assert_eq!(res.value, None);
    assert_eq!(res.timestamp, 10);
    assert!(res.deleted);

    assert_eq!(table.entries[0].key, b"Apple");
    assert_eq!(table.entries[0].value, None);
    assert_eq!(table.entries[0].timestamp, 10);
    assert!(table.entries[0].deleted);

    assert_eq!(table.size, 22);
}

#[test]
fn test_mem_table_len_counts_tombstones() {
    let mut table = MemTable::new();
    assert_eq!(table.len(), 0);
    table.set(b"Apple", b"Apple Smoothie", 0);
    table.delete(b"Banana", 1);
    assert_eq!(table.len(), 2);
    table.delete(b"Apple", 2);
    assert_eq!(table.len(), 2);
}
