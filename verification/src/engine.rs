pub mod memtable;
pub mod operation;
pub mod sstable;
pub mod wal;
