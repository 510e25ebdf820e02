use kassantra::Database;
use kassantra::engine::operation::Operation;
use kassantra::compact::CompactionPriorityQueueItem;
use priority_queue::PriorityQueue;
use std::cmp::Reverse;

#[test]
fn test_wal_replay() {
    let mut database = Database::new("data_wal_replay");

    database.set(b"foo".to_vec(), b"bar".to_vec());
    database.set(b"foo".to_vec(), b"baz".to_vec());

    let mut database2 = Database::new("data_wal_replay_2");

    assert_eq!(database2.get(&b"foo".to_vec()), None);

    database2
        .replay_from_wal(&database.wal_snapshot())
        .unwrap();

    assert_eq!(database2.get(&b"foo".to_vec()), Some(b"baz".to_vec()));
}

#[test]
fn test_read_from_sstable_when_memtable_is_empty() {
    let mut database = Database::new("data_read_flushed");

    database.set(b"foo".to_vec(), b"bar".to_vec());

    database.flush_memtable_to_sstable();

    assert_eq!(database.memtable_is_empty(), true);

    assert_eq!(database.get(&b"foo".to_vec()), Some(b"bar".to_vec()));
}

#[test]
fn test_read_from_sstable_find_in_older_sstable() {
    let mut database = Database::new("data_older_sstable");

    database.set(b"foo".to_vec(), b"bar".to_vec());

    database.flush_memtable_to_sstable();

    database.set(b"boo".to_vec(), b"waz".to_vec());

    database.flush_memtable_to_sstable();

    assert_eq!(database.memtable_is_empty(), true);

    assert_eq!(database.get(&b"foo".to_vec()), Some(b"bar".to_vec()));
    assert_eq!(database.get(&b"boo".to_vec()), Some(b"waz".to_vec()));
}

#[test]
fn test_deletions_work_in_memtable() {
    let mut database = Database::new("data_delete_memtable");

    database.set(b"foo".to_vec(), b"bar".to_vec());
    database.set(b"boo".to_vec(), b"waz".to_vec());

    database.delete(&b"foo".to_vec());

    assert_eq!(database.get(&b"foo".to_vec()), None);
    assert_eq!(database.get(&b"boo".to_vec()), Some(b"waz".to_vec()));
}

#[test]
fn test_deletions_work_in_sstable() {
    let mut database = Database::new("data_delete_sstable");

    database.set(b"foo".to_vec(), b"bar".to_vec());
    database.set(b"boo".to_vec(), b"waz".to_vec());

    database.flush_memtable_to_sstable();

    database.delete(&b"foo".to_vec());

    assert_eq!(database.get(&b"foo".to_vec()), None);
    assert_eq!(database.get(&b"boo".to_vec()), Some(b"waz".to_vec()));
}

#[test]
fn test_updates_work_in_memtable() {
    let mut database = Database::new("data_update_memtable");

    database.set(b"foo".to_vec(), b"bar".to_vec());
    database.set(b"foo".to_vec(), b"baz".to_vec());

    assert_eq!(database.get(&b"foo".to_vec()), Some(b"baz".to_vec()));
}

#[test]
fn test_updates_work_in_sstable() {
    let mut database = Database::new("data_update_sstable");

    database.set(b"foo".to_vec(), b"bar".to_vec());
    database.set(b"foo".to_vec(), b"baz".to_vec());

    database.flush_memtable_to_sstable();

    assert_eq!(database.get(&b"foo".to_vec()), Some(b"baz".to_vec()));
}

#[test]
fn test_sstable_entries_are_written_in_alphabetical_order() {
    let mut database = Database::new("data_alphabetical");

    database.set(b"foo".to_vec(), b"bar".to_vec());
    database.set(b"boo".to_vec(), b"waz".to_vec());
    database.set(b"baz".to_vec(), b"qux".to_vec());

    database.flush_memtable_to_sstable();

    assert_eq!(database.memtable_is_empty(), true);

    let sstables = database.sstables();
    let sstable = &sstables[0];

    let operations = sstable.read_all();

    assert_eq!(operations[0].0, b"baz".to_vec());
    assert_eq!(operations[1].0, b"boo".to_vec());
    assert_eq!(operations[2].0, b"foo".to_vec());
}

#[test]
fn test_sstable_compaction() {
    let mut database = Database::new("data_compaction");

    database.set(b"foo".to_vec(), b"bar".to_vec());
    database.set(b"boo".to_vec(), b"waz".to_vec());
    database.set(b"baz".to_vec(), b"qux".to_vec());

    database.flush_memtable_to_sstable();

    database.set(b"foo".to_vec(), b"baz2".to_vec());
    database.set(b"boo".to_vec(), b"waz2".to_vec());
    database.delete(&b"baz".to_vec());

    database.flush_memtable_to_sstable();

    assert_eq!(database.memtable_is_empty(), true);

    database.compact_sstables();

    let sstables = database.sstables();
    let sstable = &sstables[0];

    let operations = sstable.read_all();

    assert!(operations.len() == 3);
    assert_eq!(operations[0], (b"baz".to_vec(), Operation::Delete));
    assert_eq!(
        operations[1],
        (b"boo".to_vec(), Operation::Insert(b"waz2".to_vec()))
    );
    assert_eq!(
        operations[2],
        (b"foo".to_vec(), Operation::Insert(b"baz2".to_vec()))
    );

    let nonexistent_second_sstable = sstables.get(1);
    assert!(nonexistent_second_sstable.is_none());
}

#[test]
fn test_sstable_compaction_keys_are_ordered_after_compaction() {
    let mut database = Database::new("data_compaction_order");

    database.set(b"fff".to_vec(), b"fff".to_vec());
    database.set(b"eee".to_vec(), b"eee".to_vec());
    database.set(b"ddd".to_vec(), b"ddd".to_vec());

    database.flush_memtable_to_sstable();

    database.set(b"ccc".to_vec(), b"ccc".to_vec());
    database.set(b"bbb".to_vec(), b"bbb".to_vec());
    database.set(b"aaa".to_vec(), b"aaa".to_vec());

    database.flush_memtable_to_sstable();

    database.compact_sstables();

    let sstables = database.sstables();

    let sstable = &sstables[0];

    let operations = sstable.read_all();

    println!("{:?}", operations);
    assert!(operations.len() == 6);

    assert_eq!(
        operations[0],
        (b"aaa".to_vec(), Operation::Insert(b"aaa".to_vec()))
    );
    assert_eq!(
        operations[1],
        (b"bbb".to_vec(), Operation::Insert(b"bbb".to_vec()))
    );
    assert_eq!(
        operations[2],
        (b"ccc".to_vec(), Operation::Insert(b"ccc".to_vec()))
    );
    assert_eq!(
        operations[3],
        (b"ddd".to_vec(), Operation::Insert(b"ddd".to_vec()))
    );
    assert_eq!(
        operations[4],
        (b"eee".to_vec(), Operation::Insert(b"eee".to_vec()))
    );
    assert_eq!(
        operations[5],
        (b"fff".to_vec(), Operation::Insert(b"fff".to_vec()))
    );
}

#[test]
fn test_compaction_priority_queue_item_ordering() {
    let item1 = CompactionPriorityQueueItem {
        key: b"aaa".to_vec(),
        sstable_index: 0,
        operation: Operation::Insert(b"aaa".to_vec()),
    };
    let item2 = CompactionPriorityQueueItem {
        key: b"bbb".to_vec(),
        sstable_index: 0,
        operation: Operation::Insert(b"bbb".to_vec()),
    };

    assert!(item1 > item2);

    let item1 = CompactionPriorityQueueItem {
        key: b"bbb".to_vec(),
        sstable_index: 0,
        operation: Operation::Insert(b"bbb".to_vec()),
    };

    let item2 = CompactionPriorityQueueItem {
        key: b"bbb".to_vec(),
        sstable_index: 1,
        operation: Operation::Insert(b"bbb".to_vec()),
    };

    let item3 = CompactionPriorityQueueItem {
        key: b"aaa".to_vec(),
        sstable_index: 0,
        operation: Operation::Insert(b"aaa".to_vec()),
    };

    assert!(item1 < item2);
    assert!(item2 < item3);

    // The compactor's queue orders by reversed key bytes, then run index.
    let mut pq = PriorityQueue::new();

    pq.push(0, (Reverse(item1.key.clone()), item1.sstable_index));
    pq.push(1, (Reverse(item2.key.clone()), item2.sstable_index));
    pq.push(2, (Reverse(item3.key.clone()), item3.sstable_index));

    assert_eq!(
        pq.pop().unwrap(),
        (2, (Reverse(item3.key.clone()), item3.sstable_index))
    );
    assert_eq!(
        pq.pop().unwrap(),
        (1, (Reverse(item2.key.clone()), item2.sstable_index))
    );
    assert_eq!(
        pq.pop().unwrap(),
        (0, (Reverse(item1.key.clone()), item1.sstable_index))
    );
}
