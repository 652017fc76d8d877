use std::collections::HashMap;

use topazdb::error::LsmError;
use topazdb::manifest::{Change, ManifestChangeSet, ManifestFile};

#[test]
fn create() {
    let (mut manifest, _) = ManifestFile::open(&[]).unwrap();
    manifest.apply_change(&Change::create(1, 1)).unwrap();
    let v = manifest.get_id_level();
    let exp = vec![(1, 1)].into_iter().collect::<HashMap<_, _>>();
    assert_eq!(exp, v);
}

#[test]
fn create_set() {
    let (mut manifest, _) = ManifestFile::open(&[]).unwrap();
    let mut set = Vec::new();
    for i in 1..5 {
        set.push(Change::create(i, i as usize));
    }
    let set = ManifestChangeSet { changes: set };
    manifest.apply_change_set(&set).unwrap();
    let v = manifest.get_id_level();
    let exp = vec![(1, 1), (2, 2), (3, 3), (4, 4)]
        .into_iter()
        .collect::<HashMap<_, _>>();
    assert_eq!(exp, v);
}

#[test]
fn delete() {
    let (mut manifest, _) = ManifestFile::open(&[]).unwrap();
    for i in 1..5 {
        manifest
            .apply_change(&Change::create(i, i as usize))
            .unwrap();
    }
    manifest.apply_change(&Change::delete(3)).unwrap();
    let v = manifest.get_id_level();
    let exp = vec![(1, 1), (2, 2), (4, 4)]
        .into_iter()
        .collect::<HashMap<_, _>>();
    assert_eq!(exp, v);
}

#[test]
fn replay() {
    let (mut manifest, _) = ManifestFile::open(&[]).unwrap();
    for i in 0..3 {
        manifest
            .apply_change(&Change::create(i, i as usize))
            .unwrap();
        manifest
            .apply_change(&Change::create(i + 10, i as usize))
            .unwrap();
    }
    manifest.apply_change(&Change::delete(1)).unwrap();
    let file = manifest.take_pending();
    drop(manifest);
    let (manifest, l0_ids) = ManifestFile::open(&file).unwrap();
    let v = manifest.get_id_level();
    let exp = vec![(0, 0), (10, 0), (11, 1), (2, 2), (12, 2)]
        .into_iter()
        .collect::<HashMap<_, _>>();
    assert_eq!(exp, v);
    assert_eq!(l0_ids, vec![0, 10]);
}

#[test]
fn records_are_tag_id_and_level() {
    let (mut manifest, _) = ManifestFile::open(&[]).unwrap();
    manifest.apply_change(&Change::create(0x0102, 3)).unwrap();
    manifest.apply_change(&Change::delete(0x0102)).unwrap();
    assert_eq!(
        manifest.take_pending(),
        vec![0, 0, 0, 0, 0, 0, 0, 1, 2, 3, 1, 0, 0, 0, 0, 0, 0, 1, 2]
    );
    assert_eq!(manifest.len(), 0);
    assert_eq!(manifest.take_pending(), Vec::<u8>::new());
}

#[test]
fn invalid_changes_are_refused() {
    let (mut manifest, _) = ManifestFile::open(&[]).unwrap();
    manifest.apply_change(&Change::create(1, 0)).unwrap();
    assert_eq!(
        manifest.apply_change(&Change::create(1, 2)),
        Err(LsmError::DuplicateTable { id: 1 })
    );
    assert_eq!(
        manifest.apply_change(&Change::delete(9)),
        Err(LsmError::UnknownTable { id: 9 })
    );
    assert_eq!(
        manifest.apply_change(&Change::create(2, 256)),
        Err(LsmError::InvalidLevel)
    );
    assert_eq!(manifest.level_of(1), Some(0));
    assert_eq!(manifest.level_of(2), None);
    assert_eq!(manifest.take_pending().len(), 10);
}

#[test]
fn a_set_with_an_invalid_change_changes_nothing() {
    let (mut manifest, _) = ManifestFile::open(&[]).unwrap();
    manifest.apply_change(&Change::create(1, 0)).unwrap();
    let written = manifest.take_pending();
    let set = ManifestChangeSet {
        changes: vec![
            Change::create(2, 1),
            Change::delete(1),
            Change::delete(7),
            Change::create(3, 1),
        ],
    };
    assert_eq!(
        manifest.apply_change_set(&set),
        Err(LsmError::UnknownTable { id: 7 })
    );
    assert_eq!(manifest.take_pending(), Vec::<u8>::new());
    let exp = vec![(1, 0)].into_iter().collect::<HashMap<_, _>>();
    assert_eq!(manifest.get_id_level(), exp);
    // A set may delete what it has created, and create again what it has deleted.
    let set = ManifestChangeSet {
        changes: vec![
            Change::create(2, 1),
            Change::delete(2),
            Change::delete(1),
            Change::create(1, 4),
        ],
    };
    manifest.apply_change_set(&set).unwrap();
    let exp = vec![(1, 4)].into_iter().collect::<HashMap<_, _>>();
    assert_eq!(manifest.get_id_level(), exp);
    let mut file = written;
    file.extend(manifest.take_pending());
    let (again, l0) = ManifestFile::open(&file).unwrap();
    assert_eq!(again.get_id_level(), exp);
    assert_eq!(l0, vec![1]);
}

#[test]
fn malformed_logs_are_refused() {
    assert!(matches!(
        ManifestFile::open(&[2, 0, 0, 0, 0, 0, 0, 0, 1]),
        Err(LsmError::MalformedManifest)
    ));
    assert!(matches!(
        ManifestFile::open(&[0, 0, 0, 0, 0, 0, 0, 0, 1]),
        Err(LsmError::Truncated)
    ));
    assert!(matches!(
        ManifestFile::open(&[1, 0, 0, 0]),
        Err(LsmError::Truncated)
    ));
    // A replay takes a table that is created twice at its last level, and
    // a table that is deleted without being live as not live.
    let log = [
        0, 0, 0, 0, 0, 0, 0, 0, 5, 0, //
        0, 0, 0, 0, 0, 0, 0, 0, 5, 2, //
        1, 0, 0, 0, 0, 0, 0, 0, 9,
    ];
    let (manifest, l0) = ManifestFile::open(&log).unwrap();
    assert_eq!(manifest.level_of(5), Some(2));
    assert_eq!(l0, vec![5]);
}
