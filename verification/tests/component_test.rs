use kassantra::Database;
use kassantra::ascii_letter_from_index;
use kassantra::engine::memtable::MemTable;
use kassantra::engine::operation::Operation;
use kassantra::engine::sstable::SSTable;
use kassantra::engine::wal::Wal;
use kassantra::errors::KvError;

#[test]
fn test_last_write_wins_over_a_sequence() {
    // A sequence of sets and deletes: every read observes the last operation
    // recorded for its key.
    let mut database = Database::new("data_last_write");
    database.set(b"a".to_vec(), b"1".to_vec());
    database.set(b"b".to_vec(), b"2".to_vec());
    database.set(b"a".to_vec(), b"3".to_vec());
    database.delete(&b"b".to_vec());
    database.set(b"c".to_vec(), b"4".to_vec());
    database.delete(&b"c".to_vec());
    database.set(b"c".to_vec(), b"5".to_vec());

    assert_eq!(database.get(&b"a".to_vec()), Some(b"3".to_vec()));
    assert_eq!(database.get(&b"b".to_vec()), None);
    assert_eq!(database.get(&b"c".to_vec()), Some(b"5".to_vec()));
    assert_eq!(database.get(&b"d".to_vec()), None);
}

#[test]
fn test_memtable_size_accounting() {
    // size_bytes equals the sum over entries of len(key) + len(value), with
    // tombstones counting zero value bytes, through overwrites and deletes.
    let mut mem = MemTable::new();
    let mut wal = Wal::new();
    assert_eq!(mem.size_bytes(), 0);

    mem.set(b"foo".to_vec(), b"bar".to_vec(), &mut wal);
    assert_eq!(mem.size_bytes(), 6);

    mem.set(b"foo".to_vec(), b"barbar".to_vec(), &mut wal);
    assert_eq!(mem.size_bytes(), 9);

    mem.delete(&b"foo".to_vec(), &mut wal);
    assert_eq!(mem.size_bytes(), 3);

    mem.set(b"b".to_vec(), b"x".to_vec(), &mut wal);
    assert_eq!(mem.size_bytes(), 5);

    mem.clear(&mut wal);
    assert_eq!(mem.size_bytes(), 0);
}

#[test]
fn test_wal_replay_rebuilds_the_same_map() {
    // Replaying the log an engine wrote reproduces its in-memory table,
    // tombstones included.
    let mut database = Database::new("data_roundtrip");
    database.set(b"foo".to_vec(), b"bar".to_vec());
    database.set(b"boo".to_vec(), b"waz".to_vec());
    database.delete(&b"boo".to_vec());

    let wal = database.wal_snapshot();
    let mut mem = MemTable::new();
    mem.replay_wal(&wal).unwrap();

    assert_eq!(mem.get(&b"foo".to_vec()), Some(&Operation::Insert(b"bar".to_vec())));
    assert_eq!(mem.get(&b"boo".to_vec()), Some(&Operation::Delete));
    assert_eq!(mem.get(&b"zzz".to_vec()), None);
}

#[test]
fn test_wal_replay_discards_partial_trailing_record() {
    // A record cut short by a crash has no terminator and is discarded.
    let mut data = Vec::new();
    data.extend_from_slice(b"INSERT\tfoo\tbar\n");
    data.extend_from_slice(b"INSERT\tzz");
    let wal = Wal::from_data(data);

    let mut mem = MemTable::new();
    mem.replay_wal(&wal).unwrap();

    assert_eq!(mem.get(&b"foo".to_vec()), Some(&Operation::Insert(b"bar".to_vec())));
    assert_eq!(mem.get(&b"zz".to_vec()), None);
}

#[test]
fn test_wal_replay_rejects_unknown_tag() {
    let wal = Wal::from_data(b"UPSERT\tfoo\tbar\n".to_vec());
    let mut mem = MemTable::new();
    assert_eq!(mem.replay_wal(&wal), Err(KvError::CorruptLog));
    assert!(mem.is_empty());
}

#[test]
fn test_compaction_of_single_sstable_is_identity() {
    // Compacting a one-run list reproduces the run record for record.
    let mut database = Database::new("data_idempotent");
    database.set(b"foo".to_vec(), b"bar".to_vec());
    database.set(b"boo".to_vec(), b"waz".to_vec());
    database.delete(&b"baz".to_vec());
    database.flush_memtable_to_sstable();

    let before = database.sstables()[0].read_all();
    database.compact_sstables();
    let after = database.sstables()[0].read_all();

    assert_eq!(database.sstables().len(), 1);
    assert_eq!(before, after);
}

#[test]
fn test_recency_key_in_multiple_sstables() {
    // A key present in several runs reads from the newest one holding it.
    let mut database = Database::new("data_recency");
    database.set(b"k".to_vec(), b"v1".to_vec());
    database.flush_memtable_to_sstable();
    database.set(b"k".to_vec(), b"v2".to_vec());
    database.flush_memtable_to_sstable();
    database.set(b"k".to_vec(), b"v3".to_vec());
    database.flush_memtable_to_sstable();

    assert_eq!(database.sstables().len(), 3);
    assert_eq!(database.get(&b"k".to_vec()), Some(b"v3".to_vec()));
}

#[test]
fn test_sstable_record_format() {
    // One record: u32-LE key length, u32-LE value length, key, value.
    let mut database = Database::new("data_format");
    database.set(b"foo".to_vec(), b"ba".to_vec());
    database.flush_memtable_to_sstable();

    let sstables = database.sstables();
    let bytes = sstables[0].bytes();
    let mut expected = Vec::new();
    expected.extend_from_slice(&[3u8, 0, 0, 0]);
    expected.extend_from_slice(&[2u8, 0, 0, 0]);
    expected.extend_from_slice(b"foo");
    expected.extend_from_slice(b"ba");
    assert_eq!(bytes, &expected);

    let item = sstables[0].read_item_at(0).unwrap().unwrap();
    assert_eq!(item.0, b"foo".to_vec());
    assert_eq!(item.1, 13);
    assert_eq!(item.2, Operation::Insert(b"ba".to_vec()));
    assert_eq!(sstables[0].read_item_at(13).unwrap(), None);
}

#[test]
fn test_sstable_tombstone_stored_as_literal() {
    let mut database = Database::new("data_tombstone");
    database.delete(&b"k".to_vec());
    database.flush_memtable_to_sstable();

    let sstables = database.sstables();
    let mut expected = Vec::new();
    expected.extend_from_slice(&[1u8, 0, 0, 0]);
    expected.extend_from_slice(&[9u8, 0, 0, 0]);
    expected.extend_from_slice(b"k");
    expected.extend_from_slice(b"TOMBSTONE");
    assert_eq!(sstables[0].bytes(), &expected);

    let item = sstables[0].read_item_at(0).unwrap().unwrap();
    assert_eq!(item.2, Operation::Delete);
}

#[test]
fn test_sstable_read_at_bad_offset_is_corrupt() {
    let mut database = Database::new("data_corrupt");
    database.set(b"foo".to_vec(), b"bar".to_vec());
    database.flush_memtable_to_sstable();

    let sstables = database.sstables();
    // Mid-file offsets that leave fewer than a record header are corrupt.
    assert_eq!(sstables[0].read_item_at(10), Err(KvError::CorruptSSTable));
    // Offsets past the end are corrupt, not a clean end of file.
    assert_eq!(sstables[0].read_item_at(100), Err(KvError::CorruptSSTable));
}

#[test]
fn test_sstable_batch_read_and_write_offsets() {
    let mut database = Database::new("data_batch");
    database.set(b"aa".to_vec(), b"1".to_vec());
    database.set(b"bb".to_vec(), b"22".to_vec());
    database.set(b"cc".to_vec(), b"333".to_vec());
    database.flush_memtable_to_sstable();

    let sstables = database.sstables();
    let (recs, next) = sstables[0].batch_read(2, 0).unwrap();
    assert_eq!(recs.len(), 2);
    assert_eq!(recs[0], (b"aa".to_vec(), Operation::Insert(b"1".to_vec())));
    assert_eq!(recs[1], (b"bb".to_vec(), Operation::Insert(b"22".to_vec())));
    assert_eq!(next, 11 + 12);

    let (rest, end) = sstables[0].batch_read(10, next).unwrap();
    assert_eq!(rest.len(), 1);
    assert_eq!(rest[0], (b"cc".to_vec(), Operation::Insert(b"333".to_vec())));
    assert_eq!(end, 11 + 12 + 13);
}

#[test]
fn test_find_key_on_empty_sstable_scans_from_zero() {
    // An empty run has an empty sparse index; the lookup must still answer.
    let mut database = Database::new("data_empty_run");
    database.flush_memtable_to_sstable();
    assert_eq!(database.sstables().len(), 1);
    assert_eq!(database.sstables()[0].find_key(&b"foo".to_vec()), None);
    assert_eq!(database.get(&b"foo".to_vec()), None);
}

#[test]
fn test_find_key_beyond_sparse_index_stride() {
    // More entries than the index stride: keys before, at, between, and
    // after the indexed positions are all found.
    let mut database = Database::new("data_stride");
    let mut keys = Vec::new();
    for i in 0..25u8 {
        let k = vec![b'k', b'0' + i / 10, b'0' + i % 10];
        database.set(k.clone(), vec![i]);
        keys.push(k);
    }
    database.flush_memtable_to_sstable();
    for (i, k) in keys.iter().enumerate() {
        assert_eq!(database.get(k), Some(vec![i as u8]));
    }
    assert_eq!(database.get(&b"k99".to_vec()), None);
    assert_eq!(database.get(&b"a".to_vec()), None);
}

#[test]
fn test_flush_happens_when_memtable_is_full() {
    // The default threshold is 1024 bytes: a large value forces a flush and
    // truncates the log.
    let mut database = Database::new("data_autoflush");
    database.set(b"big".to_vec(), vec![b'x'; 1500]);
    assert!(database.memtable_is_empty());
    assert_eq!(database.sstables().len(), 1);
    assert_eq!(database.get(&b"big".to_vec()), Some(vec![b'x'; 1500]));
}

#[test]
fn test_operation_size_bytes() {
    assert_eq!(Operation::Insert(b"abc".to_vec()).size_bytes(), 3);
    assert_eq!(Operation::Delete.size_bytes(), 0);
}

#[test]
fn test_wal_record_format() {
    let mut database = Database::new("data_wal_format");
    database.set(b"foo".to_vec(), b"bar".to_vec());
    database.delete(&b"boo".to_vec());
    let wal = database.wal_snapshot();
    assert_eq!(wal.bytes(), &b"INSERT\tfoo\tbar\nDELETE\tboo\n".to_vec());
}

#[test]
fn test_delete_sstables_forgets_all_runs() {
    let mut database = Database::new("data_forget");
    database.set(b"foo".to_vec(), b"bar".to_vec());
    database.flush_memtable_to_sstable();
    assert_eq!(database.sstables().len(), 1);
    database.delete_sstables();
    assert_eq!(database.sstables().len(), 0);
    assert_eq!(database.get(&b"foo".to_vec()), None);
}

#[test]
fn test_empty_sstable_roundtrip() {
    let t = SSTable::new();
    assert_eq!(t.read_all(), Vec::<(Vec<u8>, Operation)>::new());
    assert_eq!(t.read_item_at(0), Ok(None));
    assert_eq!(t.index_stride(), 10);
}

#[test]
fn test_ascii_letter_from_index() {
    assert_eq!(ascii_letter_from_index(0), 'a');
    assert_eq!(ascii_letter_from_index(1), 'b');
    assert_eq!(ascii_letter_from_index(24), 'y');
    // The span between `a` and `z` is 25, so index 25 wraps back to `a` and
    // `z` itself is never produced.
    assert_eq!(ascii_letter_from_index(25), 'a');
    assert_eq!(ascii_letter_from_index(26), 'b');
}

#[test]
fn test_from_data_adopts_a_flushed_image() {
    let mut database = Database::new("data_adopt");
    database.set(b"aa".to_vec(), b"1".to_vec());
    database.set(b"bb".to_vec(), b"2".to_vec());
    database.delete(&b"cc".to_vec());
    database.flush_memtable_to_sstable();

    let image = database.sstables()[0].bytes().clone();
    let reopened = SSTable::from_data(image).unwrap();
    assert_eq!(reopened.read_all(), database.sstables()[0].read_all());
    assert_eq!(
        reopened.find_key(&b"bb".to_vec()),
        Some(Operation::Insert(b"2".to_vec()))
    );
    assert_eq!(reopened.find_key(&b"cc".to_vec()), Some(Operation::Delete));
    assert_eq!(reopened.find_key(&b"zz".to_vec()), None);
}

#[test]
fn test_from_data_rejects_truncated_image() {
    let mut database = Database::new("data_truncated");
    database.set(b"aa".to_vec(), b"11".to_vec());
    database.flush_memtable_to_sstable();

    let mut image = database.sstables()[0].bytes().clone();
    image.pop();
    assert!(matches!(
        SSTable::from_data(image),
        Err(KvError::CorruptSSTable)
    ));
}

#[test]
fn test_from_data_rejects_unsorted_image() {
    // Two well-formed records in descending key order.
    let mut image = Vec::new();
    for key in [b"b", b"a"] {
        image.extend_from_slice(&[1u8, 0, 0, 0]);
        image.extend_from_slice(&[1u8, 0, 0, 0]);
        image.extend_from_slice(key);
        image.extend_from_slice(b"x");
    }
    assert!(matches!(
        SSTable::from_data(image),
        Err(KvError::CorruptSSTable)
    ));
}

#[test]
fn test_read_prefix_stops_at_truncated_record() {
    // Two whole records and one cut short: the whole ones are read, the
    // remainder is treated as absent.
    let mut database = Database::new("data_prefix");
    database.set(b"aa".to_vec(), b"1".to_vec());
    database.set(b"bb".to_vec(), b"2".to_vec());
    database.set(b"cc".to_vec(), b"3".to_vec());
    database.flush_memtable_to_sstable();

    let mut image = database.sstables()[0].bytes().clone();
    image.truncate(image.len() - 2);
    let recs = kassantra::engine::sstable::read_prefix(&image);
    assert_eq!(recs.len(), 2);
    assert_eq!(recs[0], (b"aa".to_vec(), Operation::Insert(b"1".to_vec())));
    assert_eq!(recs[1], (b"bb".to_vec(), Operation::Insert(b"2".to_vec())));

    // On the intact image it recovers every record.
    let all = kassantra::engine::sstable::read_prefix(database.sstables()[0].bytes());
    assert_eq!(all, database.sstables()[0].read_all());
}

#[test]
fn test_wal_positional_read() {
    let mut database = Database::new("data_wal_read");
    database.set(b"foo".to_vec(), b"bar".to_vec());
    let wal = database.wal_snapshot();
    assert_eq!(wal.read(0, 6), b"INSERT".to_vec());
    assert_eq!(wal.read(7, 3), b"foo".to_vec());
    assert_eq!(wal.read(11, 3), b"bar".to_vec());
}
