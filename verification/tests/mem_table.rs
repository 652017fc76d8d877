use std::ops::Bound;
use std::sync::Arc;

use topazdb::error::LsmError;
use topazdb::iterators::StorageIterator;
use topazdb::mem_table::{MemTable, MemTables};
use topazdb::opt::LsmOptions;
use topazdb::table::{SsTableBuilder, SsTableIterator};

fn create_for_test() -> MemTable {
    MemTable::create(0)
}

#[test]
fn test_memtable_get() {
    let mut memtable = create_for_test();
    memtable.put(b"key1", b"value1").unwrap();
    memtable.put(b"key2", b"value2").unwrap();
    memtable.put(b"key3", b"value3").unwrap();
    assert_eq!(&memtable.get(b"key1").unwrap()[..], b"value1");
    assert_eq!(&memtable.get(b"key2").unwrap()[..], b"value2");
    assert_eq!(&memtable.get(b"key3").unwrap()[..], b"value3");
}

#[test]
fn test_memtable_overwrite() {
    let mut memtable = create_for_test();
    memtable.put(b"key1", b"value1").unwrap();
    memtable.put(b"key2", b"value2").unwrap();
    memtable.put(b"key3", b"value3").unwrap();
    memtable.put(b"key1", b"value11").unwrap();
    memtable.put(b"key2", b"value22").unwrap();
    memtable.put(b"key3", b"value33").unwrap();
    assert_eq!(&memtable.get(b"key1").unwrap()[..], b"value11");
    assert_eq!(&memtable.get(b"key2").unwrap()[..], b"value22");
    assert_eq!(&memtable.get(b"key3").unwrap()[..], b"value33");
}

#[test]
fn test_memtable_flush() {
    let mut memtable = create_for_test();
    memtable.put(b"key1", b"value1").unwrap();
    memtable.put(b"key2", b"value2").unwrap();
    memtable.put(b"key3", b"value3").unwrap();
    let mut builder = SsTableBuilder::new(LsmOptions::default().block_size(128));
    memtable.flush(&mut builder).unwrap();
    let sst = builder.build(0).unwrap();
    let mut iter = SsTableIterator::create_and_seek_to_first(Arc::new(sst)).unwrap();
    assert_eq!(iter.key(), b"key1");
    assert_eq!(iter.value(), b"value1");
    iter.next().unwrap();
    assert_eq!(iter.key(), b"key2");
    assert_eq!(iter.value(), b"value2");
    iter.next().unwrap();
    assert_eq!(iter.key(), b"key3");
    assert_eq!(iter.value(), b"value3");
    iter.next().unwrap();
    assert!(!iter.is_valid());
}

#[test]
fn test_memtable_iter() {
    let mut memtable = create_for_test();
    memtable.put(b"key1", b"value1").unwrap();
    memtable.put(b"key2", b"value2").unwrap();
    memtable.put(b"key3", b"value3").unwrap();

    {
        let mut iter = memtable.scan(Bound::Unbounded, Bound::Unbounded);
        assert_eq!(iter.key(), b"key1");
        assert_eq!(iter.value(), b"value1");
        iter.next().unwrap();
        assert_eq!(iter.key(), b"key2");
        assert_eq!(iter.value(), b"value2");
        iter.next().unwrap();
        assert_eq!(iter.key(), b"key3");
        assert_eq!(iter.value(), b"value3");
        iter.next().unwrap();
        assert!(!iter.is_valid());
    }

    {
        let mut iter = memtable.scan(Bound::Included(b"key1"), Bound::Included(b"key2"));
        assert_eq!(iter.key(), b"key1");
        assert_eq!(iter.value(), b"value1");
        iter.next().unwrap();
        assert_eq!(iter.key(), b"key2");
        assert_eq!(iter.value(), b"value2");
        iter.next().unwrap();
        assert!(!iter.is_valid());
    }

    {
        let mut iter = memtable.scan(Bound::Excluded(b"key1"), Bound::Excluded(b"key3"));
        assert_eq!(iter.key(), b"key2");
        assert_eq!(iter.value(), b"value2");
        iter.next().unwrap();
        assert!(!iter.is_valid());
    }
}

#[test]
fn test_memtable_replay() {
    let mut memtable = MemTable::create(1);
    memtable.put(b"key1", b"value1").unwrap();
    memtable.put(b"key2", b"value2").unwrap();
    memtable.put(b"key3", b"value3").unwrap();
    let log = memtable.take_wal_records();
    drop(memtable);
    let memtable = MemTable::open(1, log);
    assert_eq!(&memtable.get(b"key1").unwrap()[..], b"value1");
    assert_eq!(&memtable.get(b"key2").unwrap()[..], b"value2");
    assert_eq!(&memtable.get(b"key3").unwrap()[..], b"value3");
}

#[test]
fn size_counts_keys_and_values() {
    let mut memtable = MemTable::create(3);
    assert_eq!(memtable.id(), 3);
    assert_eq!(memtable.size(), 0);
    memtable.put(b"key1", b"value1").unwrap();
    assert_eq!(memtable.size(), 10);
    memtable.put(b"k", b"").unwrap();
    assert_eq!(memtable.size(), 11);
    memtable.put(b"key1", b"v").unwrap();
    assert_eq!(memtable.size(), 6);
    memtable.put(b"key1", b"a longer value").unwrap();
    assert_eq!(memtable.size(), 19);
    assert_eq!(memtable.get(b"k"), Some(vec![]));
    assert_eq!(memtable.get(b"absent"), None);
}

#[test]
fn scan_is_in_the_order_of_the_bytes() {
    let mut memtable = MemTable::create(0);
    for key in [&b"b"[..], b"a", b"ab", b"\xff", b"B", b"a\x00"] {
        memtable.put(key, b"v").unwrap();
    }
    let mut iter = memtable.scan(Bound::Unbounded, Bound::Unbounded);
    let mut keys = Vec::new();
    while iter.is_valid() {
        keys.push(iter.key().to_vec());
        iter.next().unwrap();
    }
    assert_eq!(
        keys,
        vec![
            b"B".to_vec(),
            b"a".to_vec(),
            b"a\x00".to_vec(),
            b"ab".to_vec(),
            b"b".to_vec(),
            b"\xff".to_vec()
        ]
    );
    let mut iter = memtable.scan(Bound::Included(b"z"), Bound::Included(b"a"));
    assert!(!iter.is_valid());
    iter.next().unwrap();
    assert!(!iter.is_valid());
}

#[test]
fn first_entry_of_a_key_in_a_batch_stays() {
    let mut memtable = MemTable::create(0);
    memtable.put(b"k", b"old").unwrap();
    memtable
        .put_entries(&[
            (b"k".to_vec(), b"first".to_vec()),
            (b"k".to_vec(), b"second".to_vec()),
            (b"j".to_vec(), b"x".to_vec()),
        ])
        .unwrap();
    assert_eq!(memtable.get(b"k"), Some(b"first".to_vec()));
    assert_eq!(memtable.get(b"j"), Some(b"x".to_vec()));
    assert_eq!(memtable.size(), 6 + 2);
    memtable.put(b"k", b"newest").unwrap();
    assert_eq!(memtable.get(b"k"), Some(b"newest".to_vec()));
}

#[test]
fn refused_writes_change_nothing() {
    let mut memtable = MemTable::create(0);
    assert_eq!(memtable.put(b"", b"v"), Err(LsmError::EmptyKey));
    let long = vec![0u8; 70000];
    assert_eq!(memtable.put(&long, b"v"), Err(LsmError::Overflow));
    assert_eq!(memtable.put(b"k", &long), Err(LsmError::Overflow));
    assert_eq!(
        memtable.put_entries(&[(b"a".to_vec(), b"1".to_vec()), (vec![], b"2".to_vec())]),
        Err(LsmError::EmptyKey)
    );
    assert_eq!(memtable.get(b"a"), None);
    assert_eq!(memtable.size(), 0);
    assert_eq!(memtable.take_wal_records(), Vec::<u8>::new());
    let mut replayed = MemTable::open(4, vec![0, 1, b'k', 0, 1, b'v']);
    assert_eq!(replayed.get(b"k"), Some(b"v".to_vec()));
    assert_eq!(replayed.size(), 2);
    assert_eq!(replayed.put(b"x", b"y"), Err(LsmError::WalReadOnly));
    assert_eq!(replayed.get(b"x"), None);
}

#[test]
fn replay_lets_the_last_record_of_a_key_win() {
    let mut memtable = MemTable::create(0);
    memtable.put(b"k", b"1").unwrap();
    memtable.put(b"k", b"2").unwrap();
    memtable.put(b"j", b"3").unwrap();
    memtable.put(b"k", b"").unwrap();
    let log = memtable.take_wal_records();
    let replayed = MemTable::open(0, log);
    assert_eq!(replayed.get(b"k"), Some(vec![]));
    assert_eq!(replayed.get(b"j"), Some(b"3".to_vec()));
}

#[test]
fn memtables_open_in_the_order_of_their_numbers() {
    let log = |k: &[u8], v: &[u8]| {
        let mut m = MemTable::create(0);
        m.put(k, v).unwrap();
        m.take_wal_records()
    };
    let logs = vec![
        (7usize, log(b"k", b"seven")),
        (2, log(b"k", b"two")),
        (5, log(b"j", b"five")),
    ];
    let mut tables = MemTables::new(LsmOptions::default(), logs).unwrap();
    assert_eq!(tables.imm_len(), 3);
    assert_eq!(tables.immutable(0).id(), 2);
    assert_eq!(tables.immutable(1).id(), 5);
    assert_eq!(tables.immutable(2).id(), 7);
    assert_eq!(tables.memtable().id(), 8);
    let view = tables.view();
    assert_eq!(view.len(), 4);
    assert_eq!(view[0].get(b"k"), Some(b"two".to_vec()));
    assert_eq!(view[3].get(b"k"), None);
    drop(view);
    tables.put(b"k", b"new").unwrap();
    tables.use_new_table().unwrap();
    assert_eq!(tables.imm_len(), 4);
    assert_eq!(tables.immutable(3).get(b"k"), Some(b"new".to_vec()));
    assert_eq!(tables.memtable().id(), 9);
    assert_eq!(tables.drop_oldest(2), vec![2, 5]);
    assert_eq!(tables.immutable(0).id(), 7);
    let fresh = MemTables::new(LsmOptions::default(), vec![]).unwrap();
    assert_eq!(fresh.memtable().id(), 1);
    assert_eq!(fresh.imm_len(), 0);
}

#[test]
fn the_numbers_of_the_logs_leave_room_for_a_new_memtable() {
    let opened = MemTables::new(LsmOptions::default(), vec![(usize::MAX - 2, vec![])]).unwrap();
    assert_eq!(opened.memtable().id(), usize::MAX - 1);
    assert!(matches!(
        MemTables::new(LsmOptions::default(), vec![(usize::MAX - 1, vec![])]),
        Err(LsmError::Overflow)
    ));
    assert!(matches!(
        MemTables::new(LsmOptions::default(), vec![(3, vec![]), (usize::MAX, vec![])]),
        Err(LsmError::Overflow)
    ));
}

#[test]
fn a_write_fails_for_its_first_fault() {
    let long = vec![1u8; 65536];
    let mut table = MemTable::create(1);
    assert_eq!(table.put(b"", &long), Err(LsmError::EmptyKey));
    assert_eq!(table.put(b"k", &long), Err(LsmError::Overflow));
    assert_eq!(
        table.put_entries(&[(long.clone(), b"v".to_vec()), (vec![], b"v".to_vec())]),
        Err(LsmError::EmptyKey)
    );
    assert_eq!(
        table.put_entries(&[(b"k".to_vec(), b"v".to_vec()), (long, b"v".to_vec())]),
        Err(LsmError::Overflow)
    );
    assert_eq!(table.get(b"k"), None);
    let mut replayed = MemTable::open(2, vec![]);
    assert_eq!(replayed.put(b"k", b"v"), Err(LsmError::WalReadOnly));
    assert_eq!(replayed.put(b"", b"v"), Err(LsmError::EmptyKey));
}
