use std::collections::VecDeque;
use std::ops::Bound;

use topazdb::error::LsmError;
use topazdb::iterators::StorageIterator;
use topazdb::lsm_storage::{Flushed, LsmStorage, Request};
use topazdb::opt::LsmOptions;
use topazdb::table::file_object::FileObject;

/// The files of a database, as a test keeps them.
struct Disk {
    manifest: Vec<u8>,
    tables: Vec<(u64, Vec<u8>)>,
    logs: Vec<(usize, Vec<u8>)>,
}

fn tempdir() -> Disk {
    Disk {
        manifest: vec![],
        tables: vec![],
        logs: vec![],
    }
}

fn open_with(opts: LsmOptions, disk: &Disk) -> LsmStorage {
    let files = disk
        .tables
        .iter()
        .map(|(id, image)| (*id, FileObject::open(image.clone()).unwrap()))
        .collect();
    LsmStorage::open(opts, &disk.manifest, files, disk.logs.clone()).unwrap()
}

fn open(disk: &Disk) -> LsmStorage {
    open_with(LsmOptions::default(), disk)
}

fn save_logs(storage: &mut LsmStorage, disk: &mut Disk) {
    for (id, bytes) in storage.take_wal_records() {
        match disk.logs.iter_mut().find(|(log, _)| *log == id) {
            Some((_, log)) => log.extend(bytes),
            None => disk.logs.push((id, bytes)),
        }
    }
}

fn save_flush(storage: &mut LsmStorage, disk: &mut Disk, flushed: Option<Flushed>) {
    save_logs(storage, disk);
    if let Some(flushed) = flushed {
        if let Some(table) = flushed.table {
            disk.tables.push((table.id(), table.file().image()));
        }
        disk.manifest.extend(storage.take_manifest_records());
        disk.logs.retain(|(id, _)| !flushed.logs.contains(id));
    }
}

fn sync(storage: &mut LsmStorage, disk: &mut Disk) {
    save_logs(storage, disk);
    let flushed = storage.sync().unwrap();
    save_flush(storage, disk, flushed);
}

fn close(mut storage: LsmStorage, disk: &mut Disk) {
    sync(&mut storage, disk);
}

fn as_bytes(x: &[u8]) -> Vec<u8> {
    x.to_vec()
}

fn key_of(idx: usize) -> Vec<u8> {
    format!("key_{:04}", idx).into_bytes()
}

fn value_of(idx: usize, info: &str) -> Vec<u8> {
    format!("value_{:04}_{}", idx, info).into_bytes()
}

fn check_iter_result(iter: impl StorageIterator, expected: Vec<(Vec<u8>, Vec<u8>)>) {
    let mut iter = iter;
    for (k, v) in expected {
        assert!(iter.is_valid());
        assert_eq!(
            k,
            iter.key(),
            "expected key: {:?}, actual key: {:?}",
            k,
            as_bytes(iter.key()),
        );
        assert_eq!(
            v,
            iter.value(),
            "expected value: {:?}, actual value: {:?}",
            v,
            as_bytes(iter.value()),
        );
        iter.next().unwrap();
    }
    assert!(!iter.is_valid());
}

fn pair(k: &str, v: &str) -> (Vec<u8>, Vec<u8>) {
    (k.as_bytes().to_vec(), v.as_bytes().to_vec())
}

#[test]
fn test_storage_get() {
    let dir = tempdir();
    let mut storage = open(&dir);
    storage.put(b"1", b"233").unwrap();
    storage.put(b"2", b"2333").unwrap();
    storage.put(b"3", b"23333").unwrap();
    assert_eq!(&storage.get(b"1").unwrap().unwrap()[..], b"233");
    assert_eq!(&storage.get(b"2").unwrap().unwrap()[..], b"2333");
    assert_eq!(&storage.get(b"3").unwrap().unwrap()[..], b"23333");
    storage.delete(b"2").unwrap();
    assert!(storage.get(b"2").unwrap().is_none());
    assert_eq!(&storage.get(b"3").unwrap().unwrap()[..], b"23333");
}

#[test]
fn test_storage_channel_put() {
    let dir = tempdir();
    let mut storage = open(&dir);
    let mut queue = VecDeque::new();
    let kvs = (0..3)
        .map(|idx| (as_bytes(&key_of(idx)), as_bytes(&value_of(idx, ""))))
        .collect::<Vec<_>>();
    for (ticket, kv) in kvs.iter().enumerate() {
        let entries = vec![kv.clone()];
        queue.push_back(Request {
            entries,
            sender: Some(ticket),
        });
    }
    let (senders, result) = storage.start_write(&mut queue);
    assert_eq!(senders, vec![0, 1, 2]);
    result.unwrap();
    assert!(queue.is_empty());
    for kv in kvs {
        assert_eq!(storage.get(&kv.0).unwrap().unwrap(), kv.1);
    }
}

#[test]
fn test_storage_batch_put() {
    let dir = tempdir();
    let mut storage = open(&dir);

    let kvs = (0..3)
        .map(|idx| (as_bytes(&key_of(idx)), as_bytes(&value_of(idx, ""))))
        .collect::<Vec<_>>();
    storage.batch_put(&kvs).unwrap();
    for kv in kvs {
        assert_eq!(storage.get(&kv.0).unwrap().unwrap(), kv.1);
    }
}

#[test]
fn test_storage_scan_memtable_1() {
    let dir = tempdir();
    let mut storage = open(&dir);
    storage.put(b"1", b"233").unwrap();
    storage.put(b"2", b"2333").unwrap();
    storage.put(b"3", b"23333").unwrap();
    storage.delete(b"2").unwrap();
    check_iter_result(
        storage.scan(Bound::Unbounded, Bound::Unbounded).unwrap(),
        vec![pair("1", "233"), pair("3", "23333")],
    );
    check_iter_result(
        storage
            .scan(Bound::Included(b"1"), Bound::Included(b"2"))
            .unwrap(),
        vec![pair("1", "233")],
    );
    check_iter_result(
        storage
            .scan(Bound::Excluded(b"1"), Bound::Excluded(b"3"))
            .unwrap(),
        vec![],
    );
}

#[test]
fn test_storage_scan_memtable_2() {
    let dir = tempdir();
    let mut storage = open(&dir);
    storage.put(b"1", b"233").unwrap();
    storage.put(b"2", b"2333").unwrap();
    storage.put(b"3", b"23333").unwrap();
    storage.delete(b"1").unwrap();
    check_iter_result(
        storage.scan(Bound::Unbounded, Bound::Unbounded).unwrap(),
        vec![pair("2", "2333"), pair("3", "23333")],
    );
    check_iter_result(
        storage
            .scan(Bound::Included(b"1"), Bound::Included(b"2"))
            .unwrap(),
        vec![pair("2", "2333")],
    );
    check_iter_result(
        storage
            .scan(Bound::Excluded(b"1"), Bound::Excluded(b"3"))
            .unwrap(),
        vec![pair("2", "2333")],
    );
}

#[test]
fn test_storage_get_after_sync() {
    let mut dir = tempdir();
    let mut storage = open(&dir);
    storage.put(b"1", b"233").unwrap();
    storage.put(b"2", b"2333").unwrap();
    sync(&mut storage, &mut dir);
    storage.put(b"3", b"23333").unwrap();
    assert_eq!(&storage.get(b"1").unwrap().unwrap()[..], b"233");
    assert_eq!(&storage.get(b"2").unwrap().unwrap()[..], b"2333");
    assert_eq!(&storage.get(b"3").unwrap().unwrap()[..], b"23333");
    storage.delete(b"2").unwrap();
    assert!(storage.get(b"2").unwrap().is_none());
}

#[test]
fn test_storage_scan_memtable_1_after_sync() {
    let mut dir = tempdir();
    let mut storage = open(&dir);
    storage.put(b"1", b"233").unwrap();
    storage.put(b"2", b"2333").unwrap();
    sync(&mut storage, &mut dir);
    storage.put(b"3", b"23333").unwrap();
    storage.delete(b"2").unwrap();
    check_iter_result(
        storage.scan(Bound::Unbounded, Bound::Unbounded).unwrap(),
        vec![pair("1", "233"), pair("3", "23333")],
    );
    check_iter_result(
        storage
            .scan(Bound::Included(b"1"), Bound::Included(b"2"))
            .unwrap(),
        vec![pair("1", "233")],
    );
    check_iter_result(
        storage
            .scan(Bound::Excluded(b"1"), Bound::Excluded(b"3"))
            .unwrap(),
        vec![],
    );
}

#[test]
fn test_storage_scan_memtable_2_after_sync() {
    let mut dir = tempdir();
    let mut storage = open(&dir);
    storage.put(b"1", b"233").unwrap();
    storage.put(b"2", b"2333").unwrap();
    sync(&mut storage, &mut dir);
    storage.put(b"3", b"23333").unwrap();
    sync(&mut storage, &mut dir);
    storage.delete(b"1").unwrap();
    check_iter_result(
        storage.scan(Bound::Unbounded, Bound::Unbounded).unwrap(),
        vec![pair("2", "2333"), pair("3", "23333")],
    );
    check_iter_result(
        storage
            .scan(Bound::Included(b"1"), Bound::Included(b"2"))
            .unwrap(),
        vec![pair("2", "2333")],
    );
    check_iter_result(
        storage
            .scan(Bound::Excluded(b"1"), Bound::Excluded(b"3"))
            .unwrap(),
        vec![pair("2", "2333")],
    );
}

#[test]
fn test_storage_close() {
    let mut dir = tempdir();
    let mut storage = open(&dir);
    storage.put(b"1", b"233").unwrap();
    assert_eq!(&storage.get(b"1").unwrap().unwrap()[..], b"233");
    close(storage, &mut dir);
    let storage = open(&dir);
    assert_eq!(&storage.get(b"1").unwrap().unwrap()[..], b"233");
}

#[test]
fn test_storage_close2() {
    let mut dir = tempdir();
    let mut storage = open(&dir);
    storage.put(b"1", b"233").unwrap();
    assert_eq!(&storage.get(b"1").unwrap().unwrap()[..], b"233");
    close(storage, &mut dir);
    let mut storage = open(&dir);
    storage.put(b"2", b"233").unwrap();
    assert_eq!(&storage.get(b"2").unwrap().unwrap()[..], b"233");
    assert_eq!(&storage.get(b"1").unwrap().unwrap()[..], b"233");
}

#[test]
fn writes_survive_in_the_log_without_a_flush() {
    let mut dir = tempdir();
    let mut storage = open(&dir);
    storage.put(b"1", b"233").unwrap();
    storage.delete(b"1").unwrap();
    storage.put(b"2", b"2333").unwrap();
    save_logs(&mut storage, &mut dir);
    drop(storage);
    assert!(dir.tables.is_empty());
    assert_eq!(dir.logs.len(), 1);
    assert_eq!(dir.logs[0].0, 1);
    let storage = open(&dir);
    assert_eq!(storage.get(b"1").unwrap(), None);
    assert_eq!(storage.get(b"2").unwrap(), Some(b"2333".to_vec()));
}

#[test]
fn empty_keys_and_values_are_refused() {
    let dir = tempdir();
    let mut storage = open(&dir);
    assert_eq!(storage.put(b"", b"v"), Err(LsmError::EmptyKey));
    assert_eq!(storage.put(b"", b""), Err(LsmError::EmptyKey));
    assert_eq!(storage.put(b"k", b""), Err(LsmError::EmptyValue));
    assert_eq!(storage.delete(b""), Err(LsmError::EmptyKey));
    assert_eq!(storage.get(b""), Err(LsmError::EmptyKey));
    assert_eq!(storage.delete(b"k"), Ok(()));
    assert_eq!(storage.get(b"k"), Ok(None));
    let long = vec![7u8; 65536];
    assert_eq!(storage.put(&long, b"v"), Err(LsmError::Overflow));
    assert_eq!(storage.put(b"k", &long), Err(LsmError::Overflow));
    assert_eq!(storage.get(b"k"), Ok(None));
    assert_eq!(
        storage.batch_put(&[(b"a".to_vec(), b"1".to_vec()), (vec![], b"2".to_vec())]),
        Err(LsmError::EmptyKey)
    );
    assert_eq!(storage.get(b"a"), Ok(None));
}

#[test]
fn flush_and_l0_lookup() {
    let mut dir = tempdir();
    let mut storage = open(&dir);
    for i in 0..10 {
        storage.put(&key_of(i), &value_of(9, "old")).unwrap();
    }
    sync(&mut storage, &mut dir);
    assert_eq!(dir.tables.len(), 1);
    for i in 0..10 {
        assert_eq!(storage.get(&key_of(i)).unwrap().unwrap(), value_of(9, "old"));
    }
    for i in 0..10 {
        storage.put(&key_of(i), &value_of(9, "new")).unwrap();
    }
    for i in 0..10 {
        assert_eq!(storage.get(&key_of(i)).unwrap().unwrap(), value_of(9, "new"));
    }
    sync(&mut storage, &mut dir);
    for i in 0..10 {
        assert_eq!(storage.get(&key_of(i)).unwrap().unwrap(), value_of(9, "new"));
    }
    close(storage, &mut dir);
    let storage = open(&dir);
    for i in 0..10 {
        assert_eq!(storage.get(&key_of(i)).unwrap().unwrap(), value_of(9, "new"));
    }
}

#[test]
fn newer_memtables_win_in_a_flush() {
    let mut opts = LsmOptions::default();
    opts.memtable_size = 16;
    opts.min_memtable_to_merge = 2;
    let dir = tempdir();
    let mut storage = open_with(opts, &dir);
    // Each write outgrows the memtable, so each lands in a memtable of its own.
    storage.put(b"key", b"a first long value").unwrap();
    assert!(storage.start_flush(false).unwrap().is_none());
    storage.put(b"key", b"the second long value").unwrap();
    storage.put(b"other", b"another long value").unwrap();
    let flushed = storage.start_flush(false).unwrap().unwrap();
    assert_eq!(flushed.logs, vec![1, 2, 3]);
    assert!(flushed.table.is_some());
    assert!(storage.start_flush(false).unwrap().is_none());
    assert_eq!(
        storage.get(b"key").unwrap(),
        Some(b"the second long value".to_vec())
    );
    assert_eq!(
        storage.get(b"other").unwrap(),
        Some(b"another long value".to_vec())
    );
    storage.delete(b"key").unwrap();
    let flushed = storage.start_flush(true);
    assert!(flushed.unwrap().is_none());
    assert_eq!(storage.get(b"key").unwrap(), None);
}

#[test]
fn urgent_flush_does_not_wait_for_the_regular_number() {
    let mut opts = LsmOptions::default();
    opts.memtable_size = 4;
    opts.min_memtable_to_merge = 10;
    opts.max_memtable_num = 3;
    let dir = tempdir();
    let mut storage = open_with(opts, &dir);
    storage.put(b"k1", b"value").unwrap();
    assert!(storage.start_flush(true).unwrap().is_none());
    storage.put(b"k2", b"value").unwrap();
    assert!(storage.start_flush(false).unwrap().is_none());
    let flushed = storage.start_flush(true).unwrap().unwrap();
    assert_eq!(flushed.logs.len(), 2);
    assert_eq!(storage.get(b"k1").unwrap(), Some(b"value".to_vec()));
    assert_eq!(storage.get(b"k2").unwrap(), Some(b"value".to_vec()));
}

#[test]
fn write_coalescer_equivalence() {
    let mut opts = LsmOptions::default();
    opts.wait_entry_num = 100;
    let dir = tempdir();
    let mut storage = open_with(opts, &dir);
    let mut queue = VecDeque::new();
    for i in 0..500 {
        queue.push_back(Request {
            entries: vec![(key_of(i), value_of(i, "c"))],
            sender: Some(i),
        });
    }
    let mut answered = Vec::new();
    let mut rounds = 0;
    while !queue.is_empty() {
        let (senders, result) = storage.start_write(&mut queue);
        result.unwrap();
        assert!(senders.len() <= 101);
        answered.extend(senders);
        rounds += 1;
    }
    assert_eq!(rounds, 5);
    assert_eq!(answered, (0..500).collect::<Vec<_>>());
    for i in 0..500 {
        assert_eq!(storage.get(&key_of(i)).unwrap().unwrap(), value_of(i, "c"));
    }
}

#[test]
fn a_round_of_the_write_worker_takes_whole_requests() {
    let mut opts = LsmOptions::default();
    opts.wait_entry_num = 2;
    let dir = tempdir();
    let mut storage = open_with(opts, &dir);
    let mut queue = VecDeque::new();
    queue.push_back(Request {
        entries: vec![pair("a", "1"), pair("b", "2")],
        sender: Some("first"),
    });
    queue.push_back(Request {
        entries: vec![pair("c", "3")],
        sender: None,
    });
    queue.push_back(Request {
        entries: vec![pair("d", "4")],
        sender: Some("third"),
    });
    let (senders, result) = storage.start_write(&mut queue);
    assert_eq!(result, Ok(()));
    assert_eq!(senders, vec!["first"]);
    assert_eq!(queue.len(), 1);
    assert_eq!(storage.get(b"c").unwrap(), Some(b"3".to_vec()));
    assert_eq!(storage.get(b"d").unwrap(), None);
    // A batch with an empty key fails as a whole, and its senders learn of it.
    queue.push_back(Request {
        entries: vec![(vec![], b"5".to_vec())],
        sender: Some("fourth"),
    });
    let (senders, result) = storage.start_write(&mut queue);
    assert_eq!(result, Err(LsmError::EmptyKey));
    assert_eq!(senders, vec!["third", "fourth"]);
    assert_eq!(storage.get(b"d").unwrap(), None);
    let (senders, result) = storage.start_write(&mut queue);
    assert!(senders.is_empty());
    assert_eq!(result, Ok(()));
}

#[test]
fn scan_merges_memtables_over_tables() {
    let mut dir = tempdir();
    let mut storage = open(&dir);
    for i in 0..20 {
        storage.put(&key_of(i), &value_of(i, "a")).unwrap();
    }
    sync(&mut storage, &mut dir);
    for i in 10..30 {
        storage.put(&key_of(i), &value_of(i, "b")).unwrap();
    }
    sync(&mut storage, &mut dir);
    for i in 25..35 {
        storage.put(&key_of(i), &value_of(i, "c")).unwrap();
    }
    storage.delete(&key_of(5)).unwrap();
    storage.delete(&key_of(15)).unwrap();
    let expect = |from: usize, to: usize| -> Vec<(Vec<u8>, Vec<u8>)> {
        (from..to)
            .filter(|i| *i != 5 && *i != 15)
            .map(|i| {
                let info = if i >= 25 {
                    "c"
                } else if i >= 10 {
                    "b"
                } else {
                    "a"
                };
                (key_of(i), value_of(i, info))
            })
            .collect()
    };
    check_iter_result(
        storage.scan(Bound::Unbounded, Bound::Unbounded).unwrap(),
        expect(0, 35),
    );
    let low = key_of(8);
    let high = key_of(27);
    check_iter_result(
        storage
            .scan(Bound::Included(&low), Bound::Included(&high))
            .unwrap(),
        expect(8, 28),
    );
    check_iter_result(
        storage
            .scan(Bound::Excluded(&low), Bound::Excluded(&high))
            .unwrap(),
        expect(9, 27),
    );
    // The first entry of a table that lies above the bound is not shown.
    let low = b"key_0004x".to_vec();
    let high = b"key_0005x".to_vec();
    check_iter_result(
        storage
            .scan(Bound::Included(&low), Bound::Included(&high))
            .unwrap(),
        vec![],
    );
    let mut iter = storage
        .scan(Bound::Included(&high), Bound::Included(&low))
        .unwrap();
    assert!(!iter.is_valid());
    iter.next().unwrap();
    assert!(!iter.is_valid());
}

#[test]
fn compaction_keeps_what_readers_are_shown() {
    let mut opts = LsmOptions::default();
    opts.max_bytes_for_level_base = 1 << 20;
    opts.target_file_size_base = 1 << 18;
    opts.block_size = 256;
    let mut dir = tempdir();
    let mut storage = open_with(opts.duplicate(), &dir);
    let mut expect = std::collections::BTreeMap::new();
    for i in 0..10 {
        for j in i * 50..i * 50 + 70 {
            let value = value_of(j, &i.to_string());
            storage.put(&key_of(j), &value).unwrap();
            expect.insert(key_of(j), value);
        }
        sync(&mut storage, &mut dir);
    }
    assert_eq!(dir.tables.len(), 10);
    let done = storage.run_compactor(0);
    assert_eq!(done.len(), 1);
    assert_eq!(done[0].task.this_level_id, 0);
    assert_eq!(done[0].task.this_tables.len(), 10);
    for (key, value) in &expect {
        assert_eq!(&storage.get(key).unwrap().unwrap(), value);
    }
    check_iter_result(
        storage.scan(Bound::Unbounded, Bound::Unbounded).unwrap(),
        expect.clone().into_iter().collect(),
    );
    // What the compaction has done goes to the files, and a reopened
    // database shows the same.
    for compacted in done {
        for table in &compacted.created {
            dir.tables.push((table.id(), table.file().image()));
        }
        let gone: Vec<u64> = compacted
            .task
            .this_tables
            .iter()
            .chain(compacted.task.next_tables.iter())
            .map(|t| t.id())
            .collect();
        dir.tables.retain(|(id, _)| !gone.contains(id));
    }
    dir.manifest.extend(storage.take_manifest_records());
    close(storage, &mut dir);
    let storage = open_with(opts, &dir);
    for (key, value) in &expect {
        assert_eq!(&storage.get(key).unwrap().unwrap(), value);
    }
}

#[test]
fn a_flush_keeps_what_readers_are_shown() {
    let mut disk = tempdir();
    let mut storage = open(&disk);
    // Three generations of writes, each in a memtable of its own.
    for round in 0..3 {
        for idx in round * 5..round * 5 + 10 {
            storage
                .put(&key_of(idx), &value_of(idx, &round.to_string()))
                .unwrap();
        }
        storage.delete(&key_of(round)).unwrap();
        if round < 2 {
            let flushed = storage.sync().unwrap();
            save_flush(&mut storage, &mut disk, flushed);
        }
    }
    let before: Vec<Option<Vec<u8>>> = (0..25).map(|i| storage.get(&key_of(i)).unwrap()).collect();
    assert_eq!(before[0], None);
    assert_eq!(before[2], None);
    assert_eq!(before[5], Some(value_of(5, "1")));
    assert_eq!(before[12], Some(value_of(12, "2")));
    assert_eq!(before[20], None);
    let flushed = storage.sync().unwrap();
    assert!(flushed.is_some());
    save_flush(&mut storage, &mut disk, flushed);
    let after: Vec<Option<Vec<u8>>> = (0..25).map(|i| storage.get(&key_of(i)).unwrap()).collect();
    assert_eq!(before, after);
    assert!(storage.start_flush(true).unwrap().is_none());
    let again: Vec<Option<Vec<u8>>> = (0..25).map(|i| storage.get(&key_of(i)).unwrap()).collect();
    assert_eq!(before, again);
}


#[test]
fn a_flush_without_entries_makes_no_table() {
    let disk = tempdir();
    let mut storage = open(&disk);
    // No memtable waits: neither round of the flush worker does anything.
    assert!(storage.start_flush(false).unwrap().is_none());
    assert!(storage.start_flush(true).unwrap().is_none());
    // A flush of everything lets the empty memtable wait and drops it.
    let flushed = storage.sync().unwrap().unwrap();
    assert!(flushed.table.is_none());
    assert_eq!(flushed.logs, vec![1]);
    assert_eq!(storage.take_manifest_records(), Vec::<u8>::new());
    // With an entry there is a table of level 0, under the first id.
    storage.put(b"k", b"v").unwrap();
    let flushed = storage.sync().unwrap().unwrap();
    let table = flushed.table.unwrap();
    assert_eq!(table.id(), 0);
    assert_eq!(flushed.logs, vec![2]);
    assert_eq!(storage.get(b"k").unwrap(), Some(b"v".to_vec()));
}

#[test]
fn a_refused_write_changes_nothing() {
    let disk = tempdir();
    let mut storage = open(&disk);
    storage.put(b"k", b"v").unwrap();
    let long = vec![1u8; 65536];
    assert_eq!(storage.put(b"", b"v"), Err(LsmError::EmptyKey));
    assert_eq!(storage.put(b"k", b""), Err(LsmError::EmptyValue));
    assert_eq!(storage.put(&long, b"v"), Err(LsmError::Overflow));
    assert_eq!(storage.delete(b""), Err(LsmError::EmptyKey));
    assert_eq!(
        storage.batch_put(&[(b"a".to_vec(), b"1".to_vec()), (vec![], b"2".to_vec())]),
        Err(LsmError::EmptyKey)
    );
    assert_eq!(
        storage.batch_put(&[(b"a".to_vec(), b"1".to_vec()), (long, b"2".to_vec())]),
        Err(LsmError::Overflow)
    );
    // Only the one write that was taken is in the log and in the memtable.
    let records = storage.take_wal_records();
    assert_eq!(records.len(), 1);
    assert_eq!(records[0].0, 1);
    assert_eq!(records[0].1, vec![0, 1, b'k', 0, 1, b'v']);
    assert_eq!(storage.get(b"a").unwrap(), None);
    assert_eq!(storage.get(b"k").unwrap(), Some(b"v".to_vec()));
    // Nothing is pending once the records are taken.
    let again = storage.take_wal_records();
    assert_eq!(again.len(), 1);
    assert!(again[0].1.is_empty());
}

#[test]
fn a_flush_fails_as_its_first_entry_fails_to_be_laid_out() {
    let disk = tempdir();
    let mut storage = open_with(LsmOptions::default().block_size(16), &disk);
    storage.put(b"a", b"1").unwrap();
    storage.put(b"a key that no block of this size holds", b"2").unwrap();
    assert!(matches!(storage.sync(), Err(LsmError::Overflow)));
    // The memtables wait on, and readers are shown what they were shown.
    assert_eq!(storage.get(b"a").unwrap(), Some(b"1".to_vec()));
    assert!(matches!(storage.start_flush(true), Ok(None)));
    assert!(matches!(storage.start_flush(false), Ok(None)));
    assert_eq!(storage.take_manifest_records(), Vec::<u8>::new());
}
