use std::collections::BTreeMap;
use std::ops::Bound;
use std::sync::Arc;

use topazdb::error::LsmError;
use topazdb::iterators::StorageIterator;
use topazdb::level::order::{in_creation_order, sort_tables, TableOrder};
use topazdb::level::range::{RangeWithSize, RwsSlice};
use topazdb::level::task::{Score, Task, TaskPriority};
use topazdb::level::{sub_ranges, LevelController, LevelsControllerInner};
use topazdb::opt::LsmOptions;
use topazdb::table::file_object::FileObject;
use topazdb::table::{SsTable, SsTableBuilder, SsTableIterator};

fn key_of(idx: usize) -> Vec<u8> {
    format!("key_{:04}", idx).into_bytes()
}

fn value_of(idx: usize, info: &str) -> Vec<u8> {
    format!("value_{:04}_{}", idx, info).into_bytes()
}

fn generate_sst(lower: usize, upper: usize, id: u64, info: &str) -> SsTable {
    let mut builder = SsTableBuilder::new(LsmOptions::default());
    for idx in lower..upper {
        builder.add(&key_of(idx), &value_of(idx, info)).unwrap();
    }
    builder.build(id).unwrap()
}

#[test]
fn create_ranges() {
    let mut task = Task {
        this_level_id: 0,
        next_level_id: 1,
        ..Default::default()
    };
    for i in 0..3 {
        let table = generate_sst(i * 20, i * 50 + 50, i as u64, "l0");
        task.this_tables.push(Arc::new(table));
    }
    for i in 4..9 {
        let j = i - 4;
        let table = generate_sst(j * 50, (j + 1) * 50, i as u64, "l1");
        task.next_tables.push(Arc::new(table));
    }
    let rws = RwsSlice::create(&task);
    let mut key = rws.ranges[0].smallest_key.clone();
    for item in &rws.ranges {
        assert_eq!(item.smallest_key, key);
        key = item.biggest_key.clone();
    }
    assert_eq!(rws.ranges[0].smallest_key, key_of(0));
    assert_eq!(key, key_of(249));
    let keys: Vec<Vec<u8>> = rws.ranges.iter().map(|r| r.smallest_key.clone()).collect();
    assert_eq!(
        keys,
        vec![
            key_of(0),
            key_of(20),
            key_of(40),
            key_of(49),
            key_of(50),
            key_of(99),
            key_of(100),
            key_of(149),
            key_of(150),
            key_of(200)
        ]
    );
    let total: usize = rws.ranges.iter().map(|r| r.size).sum();
    assert_eq!(rws.total_size, total);
}

#[test]
fn ranges_split() {
    let ranges = vec![
        RangeWithSize {
            smallest_key: b"001".to_vec(),
            biggest_key: b"002".to_vec(),
            size: 10,
        },
        RangeWithSize {
            smallest_key: b"002".to_vec(),
            biggest_key: b"003".to_vec(),
            size: 10,
        },
        RangeWithSize {
            smallest_key: b"003".to_vec(),
            biggest_key: b"004".to_vec(),
            size: 20,
        },
        RangeWithSize {
            smallest_key: b"004".to_vec(),
            biggest_key: b"005".to_vec(),
            size: 14,
        },
    ];
    let total_size = 10 + 10 + 20 + 14;
    let rws = RwsSlice { ranges, total_size };
    let mean = 15;
    let exp = vec![
        (
            Bound::Included(b"001".to_vec()),
            Bound::Excluded(b"003".to_vec()),
        ),
        (
            Bound::Included(b"003".to_vec()),
            Bound::Excluded(b"004".to_vec()),
        ),
        (
            Bound::Included(b"004".to_vec()),
            Bound::Included(b"005".to_vec()),
        ),
    ];
    let bounds = rws.split(mean);
    assert_eq!(exp, bounds)
}

fn lvctl_new(manifest: &[u8], files: Vec<(u64, FileObject)>) -> LevelController {
    LevelController::open(LsmOptions::default(), manifest, files).unwrap()
}

#[test]
fn get_simple_key() {
    let mut lvctl = lvctl_new(&[], vec![]);
    let mut builder = SsTableBuilder::new(LsmOptions::default().block_size(64));
    for i in 0..10 {
        builder.add(&key_of(i), &value_of(i, "")).unwrap();
    }
    lvctl.l0_push_sstable(builder).unwrap();
    for i in 0..10 {
        assert_eq!(value_of(i, ""), lvctl.get(&key_of(i)).unwrap().unwrap());
    }
}

#[test]
fn get_simple_not_exist() {
    let mut lvctl = lvctl_new(&[], vec![]);
    assert_eq!(None, lvctl.get(b"aaaaa").unwrap());
    let mut builder = SsTableBuilder::new(LsmOptions::default().block_size(64));
    for i in 0..10 {
        builder.add(&key_of(i), &value_of(i, "")).unwrap();
    }
    lvctl.l0_push_sstable(builder).unwrap();
    assert_eq!(None, lvctl.get(b"aaaaa").unwrap());
}

#[test]
fn get_key_new_old() {
    let mut lvctl = lvctl_new(&[], vec![]);
    let mut builder = SsTableBuilder::new(LsmOptions::default().block_size(64));
    for i in 0..10 {
        builder.add(&key_of(i), &value_of(i, "old")).unwrap();
    }
    lvctl.l0_push_sstable(builder).unwrap();
    let mut builder = SsTableBuilder::new(LsmOptions::default().block_size(64));
    for i in 0..10 {
        builder.add(&key_of(i), &value_of(i, "new")).unwrap();
    }
    lvctl.l0_push_sstable(builder).unwrap();
    for i in 0..10 {
        assert_eq!(
            value_of(i, "new"),
            lvctl.get(&key_of(i)).unwrap().unwrap()
        );
    }
}

#[test]
fn get_key_delete() {
    let mut lvctl = lvctl_new(&[], vec![]);
    let mut builder = SsTableBuilder::new(LsmOptions::default().block_size(64));
    for i in 0..10 {
        builder.add(&key_of(i), &value_of(i, "old")).unwrap();
    }
    lvctl.l0_push_sstable(builder).unwrap();
    let mut builder = SsTableBuilder::new(LsmOptions::default().block_size(64));
    for i in 0..10 {
        builder.add(&key_of(i), b"").unwrap();
    }
    lvctl.l0_push_sstable(builder).unwrap();
    for i in 0..10 {
        assert_eq!(None, lvctl.get(&key_of(i)).unwrap());
    }
}

fn file_of(table: &SsTable) -> (u64, FileObject) {
    (
        table.id(),
        FileObject::open(table.file().image()).unwrap(),
    )
}

#[test]
fn get_key_drop() {
    let mut lvctl = lvctl_new(&[], vec![]);
    let mut builder = SsTableBuilder::new(LsmOptions::default().block_size(64));
    for i in 0..10 {
        builder.add(&key_of(i), &value_of(i, "")).unwrap();
    }
    let table = lvctl.l0_push_sstable(builder).unwrap();
    let manifest = lvctl.take_manifest_records();
    let files = vec![file_of(&table)];
    drop(lvctl);
    let lvctl = lvctl_new(&manifest, files);
    for i in 0..10 {
        assert_eq!(value_of(i, ""), lvctl.get(&key_of(i)).unwrap().unwrap());
    }
}

fn generate_inner() -> (
    LevelsControllerInner,
    BTreeMap<Vec<u8>, Vec<u8>>,
    Vec<Arc<SsTable>>,
) {
    let mut inner = LevelsControllerInner::new(LsmOptions::default(), &[], vec![]).unwrap();
    let mut map = BTreeMap::new();
    let mut tables = vec![];
    for i in 0..10 {
        let mut builder = SsTableBuilder::new(LsmOptions::default().block_size(64));
        for j in i * 50..i * 50 + 70 {
            let key = key_of(j);
            let val = value_of(j, &i.to_string());
            builder.add(&key, &val).unwrap();
            map.insert(key, val);
        }
        tables.push(inner.l0_push_sstable(builder).unwrap());
    }
    (inner, map, tables)
}

#[test]
fn open_drop() {
    let (mut inner, map, tables) = generate_inner();
    let manifest = inner.take_manifest_records();
    let files = tables.iter().rev().map(|t| file_of(t)).collect();
    drop(inner);
    let lvctl = lvctl_new(&manifest, files);
    for (key, val) in map.iter() {
        assert_eq!(&lvctl.get(key).unwrap().unwrap(), val);
    }
}

#[test]
fn simple_compact() {
    let (mut inner, map, _) = generate_inner();
    for (key, val) in map.iter() {
        assert_eq!(&inner.get(key).unwrap().unwrap(), val);
    }
    let done = inner
        .do_compact(
            0,
            TaskPriority {
                level: 0,
                score: Score { used: 1, limit: 1 },
            },
        )
        .unwrap()
        .unwrap();
    assert_eq!(done.task.this_tables.len(), 10);
    assert_eq!(done.task.next_tables.len(), 0);
    assert!(!done.created.is_empty());
    assert_eq!(done.created[0].id(), 10);
    for (key, val) in map.iter() {
        assert_eq!(&inner.get(key).unwrap().unwrap(), val);
    }
    assert!(inner.level_tables_sorted(Bound::Unbounded, Bound::Unbounded)
        .iter()
        .all(|t| t.id() >= 10));
    // The result is what a reopened database holds.
    let manifest = inner.take_manifest_records();
    let files = done.created.iter().map(|t| file_of(t)).collect();
    let again = lvctl_new(&manifest, files);
    for (key, val) in map.iter() {
        assert_eq!(&again.get(key).unwrap().unwrap(), val);
    }
}

#[test]
fn compaction_with_overlap_in_the_next_level() {
    let (mut inner, mut map, _) = generate_inner();
    inner
        .do_compact(
            0,
            TaskPriority::new(0, Score { used: 1, limit: 1 }),
        )
        .unwrap()
        .unwrap();
    // New writes over a part of level 1, and a delete.
    let mut builder = SsTableBuilder::new(LsmOptions::default().block_size(64));
    for j in 100..130 {
        let val = value_of(j, "newer");
        builder.add(&key_of(j), &val).unwrap();
        map.insert(key_of(j), val);
    }
    builder.add(&key_of(130), b"").unwrap();
    map.remove(&key_of(130));
    inner.l0_push_sstable(builder).unwrap();
    assert_eq!(inner.get(&key_of(130)).unwrap(), None);
    let done = inner
        .do_compact(1, TaskPriority::new(0, Score { used: 1, limit: 1 }))
        .unwrap()
        .unwrap();
    assert_eq!(done.task.this_tables.len(), 1);
    assert!(!done.task.next_tables.is_empty());
    for (key, val) in map.iter() {
        assert_eq!(&inner.get(key).unwrap().unwrap(), val);
    }
    assert_eq!(inner.get(&key_of(130)).unwrap(), None);
    // Nothing is left to compact in level 0.
    assert!(inner
        .do_compact(0, TaskPriority::new(0, Score { used: 1, limit: 1 }))
        .unwrap()
        .is_none());
}

#[test]
fn tasks_reserve_their_tables() {
    let (mut inner, _, _) = generate_inner();
    let task = inner.create_task(0).unwrap();
    assert_eq!(task.this_level_id, 0);
    assert_eq!(task.next_level_id, 1);
    let ids: Vec<u64> = task.this_tables.iter().map(|t| t.id()).collect();
    assert_eq!(ids, vec![9, 8, 7, 6, 5, 4, 3, 2, 1, 0]);
    assert!(task.next_tables.is_empty());
    // While the tables are reserved no second task takes them.
    assert!(inner.create_task(0).is_none());
    assert!(inner.fill_table_l0().is_none());
    assert_eq!(inner.level_size(0), 0);
    assert!(inner.fill_table(1).is_none());
}

#[test]
fn full_levels_are_picked() {
    let mut opt = LsmOptions::default();
    opt.max_bytes_for_level_base = 4096;
    opt.target_file_size_base = 1024;
    let mut inner = LevelsControllerInner::new(opt, &[], vec![]).unwrap();
    assert_eq!(inner.max_level_byte(0), 4096);
    assert_eq!(inner.max_level_byte(2), 409600);
    assert_eq!(inner.max_level_file(0), 4);
    assert_eq!(inner.max_level_file(1), 16);
    assert!(inner.pick_compact_levels().is_empty());
    for i in 0..4 {
        let mut builder = SsTableBuilder::new(LsmOptions::default());
        builder.add(&key_of(i), b"v").unwrap();
        inner.l0_push_sstable(builder).unwrap();
    }
    let prios = inner.pick_compact_levels();
    assert_eq!(prios.len(), 1);
    assert_eq!(prios[0].level, 0);
    assert_eq!(prios[0].score, Score { used: 4, limit: 4 });
    assert!(prios[0].score.is_full());
    assert!(Score { used: 3, limit: 2 }.above(Score { used: 4, limit: 3 }));
    assert!(!Score { used: 4, limit: 3 }.above(Score { used: 3, limit: 2 }));
    assert!(Score { used: 1, limit: 0 }.above(Score { used: 100, limit: 1 }));
    assert!(!Score { used: 0, limit: 0 }.above(Score { used: 0, limit: 1 }));
    assert!(!Score { used: 0, limit: 0 }.is_full());
    assert!(!Score { used: 3, limit: 4 }.is_full());
    // Tables of one block have no size between keys: the whole span is
    // compacted as one range, and nothing is lost.
    let done = inner.run_compactor(0);
    assert_eq!(done.len(), 1);
    assert_eq!(done[0].created.len(), 1);
    for i in 0..4 {
        assert_eq!(inner.get(&key_of(i)).unwrap(), Some(b"v".to_vec()));
    }
    assert!(inner.run_compactor(0).is_empty());
}

#[test]
fn tables_of_a_scan_are_newest_first_and_within_bounds() {
    let (mut inner, _, _) = generate_inner();
    let all = inner.level_tables_sorted(Bound::Unbounded, Bound::Unbounded);
    let ids: Vec<u64> = all.iter().map(|t| t.id()).collect();
    assert_eq!(ids, vec![9, 8, 7, 6, 5, 4, 3, 2, 1, 0]);
    let low = key_of(100);
    let high = key_of(120);
    let some = inner.level_tables_sorted(Bound::Included(&low), Bound::Excluded(&high));
    let ids: Vec<u64> = some.iter().map(|t| t.id()).collect();
    assert_eq!(ids, vec![2, 1]);
    let high = key_of(119);
    let edge = inner.level_tables_sorted(Bound::Excluded(&high), Bound::Unbounded);
    assert_eq!(edge.len(), 9);
    inner
        .do_compact(0, TaskPriority::new(0, Score { used: 1, limit: 1 }))
        .unwrap();
    let after = inner.level_tables_sorted(Bound::Unbounded, Bound::Unbounded);
    for pair in after.windows(2) {
        assert!(pair[0].smallest_key() <= pair[1].smallest_key());
    }
}

#[test]
fn opening_checks_manifest_and_files() {
    let (mut inner, _, tables) = generate_inner();
    let manifest = inner.take_manifest_records();
    let files = |skip: u64| -> Vec<(u64, FileObject)> {
        tables
            .iter()
            .filter(|t| t.id() != skip)
            .map(|t| file_of(t))
            .collect()
    };
    assert!(matches!(
        LevelController::open(LsmOptions::default(), &manifest, files(3)),
        Err(LsmError::MissingTable)
    ));
    let mut twice = files(99);
    twice.push(file_of(&tables[0]));
    assert!(matches!(
        LevelController::open(LsmOptions::default(), &manifest, twice),
        Err(LsmError::MissingTable)
    ));
    let mut few = LsmOptions::default();
    few.num_levels = 1;
    assert!(matches!(
        LevelController::open(few, &manifest, files(99)),
        Err(LsmError::InvalidLevel)
    ));
    let mut many = LsmOptions::default();
    many.num_levels = 7;
    assert!(matches!(
        LevelController::open(many, &manifest, files(99)),
        Err(LsmError::InvalidLevel)
    ));
    assert!(matches!(
        LevelController::open(LsmOptions::default(), &manifest[..5], files(99)),
        Err(LsmError::Truncated)
    ));
    // A file that is not live is left out.
    let mut more = files(99);
    let stray = generate_sst(0, 5, 77, "stray");
    more.push(file_of(&stray));
    let mut lvctl = LevelController::open(LsmOptions::default(), &manifest, more).unwrap();
    assert_eq!(lvctl.level_tables_sorted(Bound::Unbounded, Bound::Unbounded).len(), 10);
    // The next id is one above the largest live id.
    let mut builder = SsTableBuilder::new(LsmOptions::default());
    builder.add(b"k", b"v").unwrap();
    assert_eq!(lvctl.l0_push_sstable(builder).unwrap().id(), 10);
}

fn entries_of(tables: &[Arc<SsTable>]) -> Vec<(Vec<u8>, Vec<u8>)> {
    let mut entries = vec![];
    for table in tables {
        let mut iter = SsTableIterator::create_and_seek_to_first(table.clone()).unwrap();
        while iter.is_valid() {
            entries.push((iter.key().to_vec(), iter.value().to_vec()));
            iter.next().unwrap();
        }
    }
    entries
}

#[test]
fn compaction_makes_the_merge_of_its_tables() {
    let (mut inner, map, _) = generate_inner();
    let done = inner
        .do_compact(0, TaskPriority::new(0, Score { used: 1, limit: 1 }))
        .unwrap()
        .unwrap();
    assert_eq!(done.lower, key_of(0));
    assert_eq!(done.upper, key_of(519));
    let expected: Vec<(Vec<u8>, Vec<u8>)> =
        map.iter().map(|(k, v)| (k.clone(), v.clone())).collect();
    assert_eq!(entries_of(&done.created), expected);
}

#[test]
fn sub_ranges_cover_the_span_of_the_task() {
    let mut task = Task {
        this_level_id: 0,
        next_level_id: 1,
        ..Default::default()
    };
    task.this_tables.push(Arc::new(generate_sst(0, 50, 0, "l0")));
    task.this_tables.push(Arc::new(generate_sst(20, 100, 1, "l0")));
    task.next_tables.push(Arc::new(generate_sst(10, 200, 2, "l1")));
    for parts in 0..5 {
        let (ranges, lower, upper) = sub_ranges(&task, parts).unwrap();
        assert_eq!(lower, key_of(0));
        assert_eq!(upper, key_of(199));
        assert_eq!(ranges[0].0, Bound::Included(key_of(0)));
        assert_eq!(ranges[ranges.len() - 1].1, Bound::Included(key_of(199)));
        for i in 1..ranges.len() {
            match (&ranges[i - 1].1, &ranges[i].0) {
                (Bound::Excluded(end), Bound::Included(start)) => assert_eq!(end, start),
                _ => panic!("sub-ranges do not stand one behind the other"),
            }
        }
    }
    // A task with one key at which it could be split has no sub-range.
    let mut single = Task {
        this_level_id: 1,
        next_level_id: 2,
        ..Default::default()
    };
    single.this_tables.push(Arc::new(generate_sst(0, 50, 0, "l1")));
    assert!(sub_ranges(&single, 1).is_none());
}

#[test]
fn sorting_keeps_tables_that_stand_in_order() {
    let tables: Vec<Arc<SsTable>> = (0..4u64)
        .map(|i| Arc::new(generate_sst(i as usize * 10, i as usize * 10 + 5, i, "x")))
        .collect();
    let sorted = sort_tables(&tables, TableOrder::BySmallestKey);
    let ids: Vec<u64> = sorted.iter().map(|t| t.id()).collect();
    assert_eq!(ids, vec![0, 1, 2, 3]);
    let reversed: Vec<Arc<SsTable>> = tables.iter().rev().cloned().collect();
    let sorted = sort_tables(&reversed, TableOrder::BySmallestKey);
    let ids: Vec<u64> = sorted.iter().map(|t| t.id()).collect();
    assert_eq!(ids, vec![0, 1, 2, 3]);
}


#[test]
fn level_0_opens_in_the_order_of_creation() {
    let pool: Vec<Arc<SsTable>> = (0..4u64)
        .map(|i| Arc::new(generate_sst(i as usize * 10, i as usize * 10 + 5, i, "x")))
        .collect();
    let level = in_creation_order(pool.clone(), &vec![2, 9, 0, 2]);
    let ids: Vec<u64> = level.iter().map(|t| t.id()).collect();
    assert_eq!(ids, vec![2, 0, 1, 3]);
    let level = in_creation_order(pool, &vec![]);
    let ids: Vec<u64> = level.iter().map(|t| t.id()).collect();
    assert_eq!(ids, vec![0, 1, 2, 3]);
}

#[test]
fn a_round_of_the_compactor_compacts_the_full_levels() {
    // No level is full: nothing is done.
    let mut empty = LevelsControllerInner::new(LsmOptions::default(), &[], vec![]).unwrap();
    assert!(empty.run_compactor(0).is_empty());
    assert!(empty.pick_compact_levels().is_empty());
    // Level 0 is full by the number of its tables.
    let (mut inner, map, _) = generate_inner();
    let full = inner.pick_compact_levels();
    assert_eq!(full.len(), 1);
    assert_eq!(full[0].level, 0);
    let done = inner.run_compactor(0);
    assert_eq!(done.len(), 1);
    assert_eq!(done[0].task.this_level_id, 0);
    assert_eq!(done[0].task.this_tables.len(), 10);
    for (key, val) in map.iter() {
        assert_eq!(&inner.get(key).unwrap().unwrap(), val);
    }
    assert!(inner.run_compactor(0).is_empty());
}

#[test]
fn an_empty_database_opens_with_the_first_id() {
    let mut inner = LevelsControllerInner::new(LsmOptions::default(), &[], vec![]).unwrap();
    let mut builder = SsTableBuilder::new(LsmOptions::default());
    builder.add(b"k", b"v").unwrap();
    assert_eq!(inner.l0_push_sstable(builder).unwrap().id(), 0);
    // The next id of a database is one above its largest live id.
    let (first, _, tables) = generate_inner();
    let mut manifest = first;
    let records = manifest.take_manifest_records();
    let files = tables.iter().map(|t| file_of(t)).collect();
    let mut again = LevelsControllerInner::new(LsmOptions::default(), &records, files).unwrap();
    let order: Vec<u64> = again
        .level_tables_sorted(Bound::Unbounded, Bound::Unbounded)
        .iter()
        .map(|t| t.id())
        .collect();
    assert_eq!(order, vec![9, 8, 7, 6, 5, 4, 3, 2, 1, 0]);
    let mut builder = SsTableBuilder::new(LsmOptions::default());
    builder.add(b"k", b"v").unwrap();
    assert_eq!(again.l0_push_sstable(builder).unwrap().id(), 10);
}
