//! Storage core of a log-structured-merge key-value engine: an in-memory
//! sorted table of recent writes (`MemTable`), the binary encoding and
//! recovery protocol of a write-ahead log (WAL), and an immutable on-disk
//! sorted table format ("Plain Table") read through a prefix-hash index
//! over a memory-mapped file.

pub mod keyorder;
pub mod lebytes;
pub mod memtable;
pub mod wal;
pub mod sstable;
