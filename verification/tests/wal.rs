use topazdb::error::LsmError;
use topazdb::wal::iterator::WalIterator;
use topazdb::wal::Wal;

#[test]
fn test_replay() {
    let mut wal = Wal::create();
    let input = vec![
        (&b"aaa"[..], &b"bbb"[..]),
        (&b"aaa"[..], &b"bbb"[..]),
        (&b"cccc"[..], &b"bbb"[..]),
        (&b"aaa"[..], &b"aaa"[..]),
        (&b"m"[..], &b"n"[..]),
    ];
    for (key, value) in &input {
        wal.add(key, value).unwrap();
    }
    let file = wal.take_pending();
    drop(wal);
    let r_wal = Wal::open(file);
    let mut iter = r_wal.iter().unwrap();
    for (key, value) in input {
        assert!(iter.is_valid());
        assert_eq!(iter.key(), key);
        assert_eq!(iter.value(), value);
        iter.next();
    }
}

#[test]
fn test_replay_add_entries() {
    let mut wal = Wal::create();
    let input = vec![
        (b"key1".to_vec(), b"value1".to_vec()),
        (b"key2".to_vec(), b"value2".to_vec()),
        (b"key3".to_vec(), b"value3".to_vec()),
    ];
    wal.add_entries(&input).unwrap();
    let file = wal.take_pending();
    drop(wal);
    let r_wal = Wal::open(file);
    let mut iter = r_wal.iter().unwrap();
    for (key, value) in input {
        assert!(iter.is_valid());
        assert_eq!(iter.key(), key);
        assert_eq!(iter.value(), value);
        iter.next();
    }
    assert!(!iter.is_valid());
}

#[test]
fn record_is_lengths_and_bytes() {
    let mut wal = Wal::create();
    assert_eq!(wal.add(b"ab", b"xyz"), Ok(1));
    assert_eq!(wal.add(b"c", b""), Ok(2));
    assert_eq!(
        wal.take_pending(),
        vec![0, 2, b'a', b'b', 0, 3, b'x', b'y', b'z', 0, 1, b'c', 0, 0]
    );
    assert_eq!(wal.take_pending(), Vec::<u8>::new());
    assert_eq!(wal.add(b"d", b"e"), Ok(3));
    assert_eq!(wal.take_pending(), vec![0, 1, b'd', 0, 1, b'e']);
}

#[test]
fn batch_counts_as_one_append() {
    let mut wal = Wal::create();
    let batch = vec![(b"a".to_vec(), b"1".to_vec()), (b"b".to_vec(), b"2".to_vec())];
    assert_eq!(wal.add_entries(&batch), Ok(1));
    assert_eq!(wal.add_entries(&[]), Ok(2));
    assert_eq!(wal.add(b"c", b"3"), Ok(3));
}

#[test]
fn torn_tail_is_dropped() {
    let mut wal = Wal::create();
    wal.add(b"key1", b"value1").unwrap();
    wal.add(b"key2", b"value2").unwrap();
    let whole = wal.take_pending();
    for cut in 0..whole.len() {
        let torn = whole[..cut].to_vec();
        let mut iter = WalIterator::create(&torn);
        let mut seen = Vec::new();
        while iter.is_valid() {
            seen.push((iter.key().to_vec(), iter.value().to_vec()));
            iter.next();
        }
        let expect = if cut < 14 { 0 } else { 1 };
        assert_eq!(seen.len(), expect, "cut at {cut}");
        if expect == 1 {
            assert_eq!(seen[0], (b"key1".to_vec(), b"value1".to_vec()));
        }
    }
}

#[test]
fn next_past_the_end_stays_there() {
    let mut iter = WalIterator::create(&[0, 1, b'k', 0, 1, b'v']);
    assert!(iter.is_valid());
    iter.next();
    assert!(!iter.is_valid());
    assert_eq!(iter.key(), b"");
    iter.next();
    assert!(!iter.is_valid());
    let empty = WalIterator::create(&[]);
    assert!(!empty.is_valid());
}

#[test]
fn readers_do_not_write_and_writers_do_not_replay() {
    let mut reader = Wal::open(vec![]);
    assert_eq!(reader.add(b"k", b"v"), Err(LsmError::WalReadOnly));
    assert_eq!(
        reader.add_entries(&[(b"k".to_vec(), b"v".to_vec())]),
        Err(LsmError::WalReadOnly)
    );
    let writer = Wal::create();
    assert!(matches!(writer.iter(), Err(LsmError::WalWriteOnly)));
}

#[test]
fn overlong_parts_are_refused() {
    let mut wal = Wal::create();
    let long = vec![1u8; 65536];
    assert_eq!(wal.add(&long, b"v"), Err(LsmError::Overflow));
    assert_eq!(wal.add(b"k", &long), Err(LsmError::Overflow));
    assert_eq!(wal.take_pending(), Vec::<u8>::new());
    let fits = vec![1u8; 65535];
    assert_eq!(wal.add(&fits, &fits), Ok(1));
}

#[test]
fn the_first_fault_of_an_append_decides_its_error() {
    let long = vec![1u8; 65536];
    // A part that does not fit is found before the log is asked.
    let mut reader = Wal::open(vec![]);
    assert_eq!(reader.add(&long, b"v"), Err(LsmError::Overflow));
    assert_eq!(
        reader.add_entries(&[(b"k".to_vec(), b"v".to_vec()), (b"j".to_vec(), long.clone())]),
        Err(LsmError::Overflow)
    );
    assert_eq!(reader.add(b"k", b"v"), Err(LsmError::WalReadOnly));
    // A batch is written whole or not at all.
    let mut writer = Wal::create();
    assert_eq!(
        writer.add_entries(&[(b"k".to_vec(), b"v".to_vec()), (long, b"v".to_vec())]),
        Err(LsmError::Overflow)
    );
    assert_eq!(writer.take_pending(), Vec::<u8>::new());
    assert_eq!(writer.add_entries(&[]), Ok(1));
    assert_eq!(writer.add(b"k", b""), Ok(2));
}
