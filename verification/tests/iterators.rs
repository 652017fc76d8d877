use std::ops::Bound;
use std::sync::Arc;

use topazdb::iterators::merge_iterator::MergeIterator;
use topazdb::iterators::two_merge_iterator::TwoMergeIterator;
use topazdb::iterators::StorageIterator;
use topazdb::lsm_iterator::{FusedIterator, LsmIterator};
use topazdb::mem_table::{MemTable, MemTableIterator};
use topazdb::opt::LsmOptions;
use topazdb::table::{SsTableBuilder, SsTableIterator};

fn mem(entries: &[(&str, &str)]) -> MemTableIterator {
    let mut table = MemTable::create(0);
    for (k, v) in entries {
        table.put(k.as_bytes(), v.as_bytes()).unwrap();
    }
    table.scan(Bound::Unbounded, Bound::Unbounded)
}

fn sst(entries: &[(&str, &str)]) -> SsTableIterator {
    let mut builder = SsTableBuilder::new(LsmOptions::default().block_size(32));
    for (k, v) in entries {
        builder.add(k.as_bytes(), v.as_bytes()).unwrap();
    }
    let table = Arc::new(builder.build(0).unwrap());
    SsTableIterator::create_and_seek_to_first(table).unwrap()
}

fn collect(mut iter: impl StorageIterator) -> Vec<(String, String)> {
    let mut out = Vec::new();
    while iter.is_valid() {
        out.push((
            String::from_utf8(iter.key().to_vec()).unwrap(),
            String::from_utf8(iter.value().to_vec()).unwrap(),
        ));
        iter.next().unwrap();
    }
    iter.next().unwrap();
    assert!(!iter.is_valid());
    out
}

fn pairs(entries: &[(&str, &str)]) -> Vec<(String, String)> {
    entries
        .iter()
        .map(|(k, v)| (k.to_string(), v.to_string()))
        .collect()
}

#[test]
fn merge_prefers_the_earlier_source() {
    let a = mem(&[("a", "1.1"), ("b", "2.1"), ("c", "3.1")]);
    let b = mem(&[("a", "1.2"), ("b", "2.2"), ("c", "3.2"), ("d", "4.2")]);
    let c = mem(&[("b", "2.3"), ("c", "3.3"), ("d", "4.3")]);
    let merged = MergeIterator::create(vec![Box::new(a), Box::new(b), Box::new(c)]);
    assert_eq!(
        collect(merged),
        pairs(&[("a", "1.1"), ("b", "2.1"), ("c", "3.1"), ("d", "4.2")])
    );
    let a = mem(&[("a", "1.1"), ("b", "2.1"), ("c", "3.1")]);
    let b = mem(&[("a", "1.2"), ("b", "2.2"), ("c", "3.2"), ("d", "4.2")]);
    let c = mem(&[("b", "2.3"), ("c", "3.3"), ("d", "4.3")]);
    let merged = MergeIterator::create(vec![Box::new(c), Box::new(b), Box::new(a)]);
    assert_eq!(
        collect(merged),
        pairs(&[("a", "1.2"), ("b", "2.3"), ("c", "3.3"), ("d", "4.3")])
    );
}

#[test]
fn merge_of_nothing_is_empty() {
    let none: Vec<Box<MemTableIterator>> = vec![];
    let mut merged = MergeIterator::create(none);
    assert!(!merged.is_valid());
    merged.next().unwrap();
    assert!(!merged.is_valid());
    let merged = MergeIterator::create(vec![Box::new(mem(&[])), Box::new(mem(&[]))]);
    assert!(!merged.is_valid());
    let merged = MergeIterator::create(vec![
        Box::new(mem(&[])),
        Box::new(mem(&[("k", "v")])),
        Box::new(mem(&[])),
    ]);
    assert_eq!(collect(merged), pairs(&[("k", "v")]));
}

#[test]
fn merge_interleaves_tables() {
    let a = sst(&[("a", "1"), ("d", "4"), ("g", "7"), ("j", "10")]);
    let b = sst(&[("b", "2"), ("e", "5"), ("h", "8")]);
    let c = sst(&[("c", "3"), ("f", "6"), ("i", "9"), ("j", "ten")]);
    let merged = MergeIterator::create(vec![Box::new(a), Box::new(b), Box::new(c)]);
    assert_eq!(
        collect(merged),
        pairs(&[
            ("a", "1"),
            ("b", "2"),
            ("c", "3"),
            ("d", "4"),
            ("e", "5"),
            ("f", "6"),
            ("g", "7"),
            ("h", "8"),
            ("i", "9"),
            ("j", "10")
        ])
    );
}

#[test]
fn two_merge_prefers_the_first() {
    let a = mem(&[("a", "1.1"), ("b", "2.1"), ("c", "3.1")]);
    let b = sst(&[("a", "1.2"), ("b", "2.2"), ("c", "3.2"), ("d", "4.2")]);
    let merged = TwoMergeIterator::create(a, b).unwrap();
    assert_eq!(
        collect(merged),
        pairs(&[("a", "1.1"), ("b", "2.1"), ("c", "3.1"), ("d", "4.2")])
    );
    let a = mem(&[("b", "2.1"), ("e", "5.1")]);
    let b = sst(&[("a", "1.2"), ("c", "3.2"), ("e", "5.2"), ("f", "6.2")]);
    let merged = TwoMergeIterator::create(a, b).unwrap();
    assert_eq!(
        collect(merged),
        pairs(&[
            ("a", "1.2"),
            ("b", "2.1"),
            ("c", "3.2"),
            ("e", "5.1"),
            ("f", "6.2")
        ])
    );
    let merged = TwoMergeIterator::create(mem(&[]), sst(&[("a", "1")])).unwrap();
    assert_eq!(collect(merged), pairs(&[("a", "1")]));
    let merged = TwoMergeIterator::create(mem(&[("a", "1")]), mem(&[])).unwrap();
    assert_eq!(collect(merged), pairs(&[("a", "1")]));
    let merged = TwoMergeIterator::create(mem(&[]), mem(&[])).unwrap();
    assert!(!merged.is_valid());
}

fn scan(
    mems: &[(&str, &str)],
    ssts: &[(&str, &str)],
    end: Bound<Vec<u8>>,
) -> Vec<(String, String)> {
    let mem_iter = MergeIterator::create(vec![Box::new(mem(mems))]);
    let sst_iter = MergeIterator::create(vec![Box::new(sst(ssts))]);
    let inner = TwoMergeIterator::create(mem_iter, sst_iter).unwrap();
    collect(FusedIterator::new(LsmIterator::new(inner, end).unwrap()))
}

#[test]
fn scan_hides_deleted_keys_and_stops_at_the_bound() {
    let mems = [("a", ""), ("c", "3"), ("e", "")];
    let ssts = [("a", "1"), ("b", "2"), ("d", ""), ("e", "5"), ("f", "6")];
    assert_eq!(
        scan(&mems, &ssts, Bound::Unbounded),
        pairs(&[("b", "2"), ("c", "3"), ("f", "6")])
    );
    assert_eq!(
        scan(&mems, &ssts, Bound::Included(b"c".to_vec())),
        pairs(&[("b", "2"), ("c", "3")])
    );
    assert_eq!(
        scan(&mems, &ssts, Bound::Excluded(b"c".to_vec())),
        pairs(&[("b", "2")])
    );
    assert_eq!(
        scan(&mems, &ssts, Bound::Included(b"e".to_vec())),
        pairs(&[("b", "2"), ("c", "3")])
    );
    assert_eq!(scan(&mems, &ssts, Bound::Excluded(b"a".to_vec())), vec![]);
    assert_eq!(scan(&mems, &ssts, Bound::Included(b"a".to_vec())), vec![]);
    assert_eq!(
        scan(&[("x", "1")], &[("y", "2")], Bound::Included(b"w".to_vec())),
        vec![]
    );
}
