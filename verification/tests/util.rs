use std::path::Path;
use topazdb::util::{memtable_file_path, path_mem, sstable_file_path, MEMTABLE_FILE_EXT};

#[test]
fn test_path_sst() {
    let path = sstable_file_path("./", 1);
    let buf = Path::new("./1.sst").to_path_buf();
    assert_eq!(Path::new(&path).to_path_buf(), buf)
}

#[test]
fn test_path_mem() {
    let path = path_mem("./", 1);
    let buf = Path::new("./00001.mem").to_path_buf();
    assert_eq!(Path::new(&path).to_path_buf(), buf)
}

#[test]
fn path_joins_like_a_directory() {
    assert_eq!(sstable_file_path("", 7), "7.sst");
    assert_eq!(sstable_file_path("db", 7), "db/7.sst");
    assert_eq!(sstable_file_path("db/", 7), "db/7.sst");
    assert_eq!(sstable_file_path("/var/db", 0), "/var/db/0.sst");
    assert_eq!(
        sstable_file_path("db", u64::MAX),
        "db/18446744073709551615.sst"
    );
}

#[test]
fn memtable_names_are_padded_to_five_digits() {
    assert_eq!(MEMTABLE_FILE_EXT, ".mem");
    assert_eq!(memtable_file_path("db", 0), "db/00000.mem");
    assert_eq!(memtable_file_path("db", 42), "db/00042.mem");
    assert_eq!(memtable_file_path("db", 99999), "db/99999.mem");
    assert_eq!(memtable_file_path("db", 100000), "db/100000.mem");
    assert_eq!(path_mem("db", 1234567), "db/1234567.mem");
}
