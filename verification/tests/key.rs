use topazdb::endian::{copy_range, get_u16, get_u32, get_u64, put_slice, put_u16, put_u32, put_u64};
use topazdb::error::{ErrorKind, LsmError};
use topazdb::key::{compare_keys, copy_bytes, key_equal, key_less, key_less_eq, KeyOrder};
use topazdb::opt::{saturating_product, LsmOptions};

#[test]
fn keys_compare_as_byte_strings() {
    let keys: Vec<&[u8]> = vec![b"", b"\x00", b"A", b"a", b"a\x00", b"ab", b"b", b"\xff"];
    for i in 0..keys.len() {
        for j in 0..keys.len() {
            let expect = if i < j {
                KeyOrder::Less
            } else if i == j {
                KeyOrder::Equal
            } else {
                KeyOrder::Greater
            };
            assert_eq!(compare_keys(keys[i], keys[j]), expect);
            assert_eq!(key_less(keys[i], keys[j]), keys[i] < keys[j]);
            assert_eq!(key_less_eq(keys[i], keys[j]), keys[i] <= keys[j]);
            assert_eq!(key_equal(keys[i], keys[j]), keys[i] == keys[j]);
        }
    }
    assert_eq!(copy_bytes(b"abc"), b"abc".to_vec());
}

#[test]
fn integers_are_stored_big_endian() {
    let mut buf = vec![];
    put_u16(&mut buf, 0x0102);
    put_u32(&mut buf, 0x0304_0506);
    put_u64(&mut buf, 0x0708_090a_0b0c_0d0e);
    put_slice(&mut buf, &[0xff]);
    assert_eq!(buf, vec![1, 2, 3, 4, 5, 6, 7, 8, 9, 10, 11, 12, 13, 14, 0xff]);
    assert_eq!(get_u16(&buf, 0), 0x0102);
    assert_eq!(get_u32(&buf, 2), 0x0304_0506);
    assert_eq!(get_u64(&buf, 6), 0x0708_090a_0b0c_0d0e);
    assert_eq!(get_u16(&buf, 13), 0x0eff);
    assert_eq!(copy_range(&buf, 3, 5), vec![4, 5]);
    let mut extremes = vec![];
    put_u16(&mut extremes, u16::MAX);
    put_u32(&mut extremes, u32::MAX);
    put_u64(&mut extremes, u64::MAX);
    assert_eq!(extremes, vec![0xff; 14]);
    assert_eq!(get_u64(&extremes, 6), u64::MAX);
}

#[test]
fn errors_fall_into_kinds() {
    assert_eq!(LsmError::EmptyKey.kind(), ErrorKind::Validation);
    assert_eq!(LsmError::EmptyValue.kind(), ErrorKind::Validation);
    assert_eq!(LsmError::InvalidBounds.kind(), ErrorKind::Validation);
    assert_eq!(LsmError::InvalidLevel.kind(), ErrorKind::Validation);
    assert_eq!(LsmError::UnknownCodec.kind(), ErrorKind::Corruption);
    assert_eq!(LsmError::Truncated.kind(), ErrorKind::Corruption);
    assert_eq!(LsmError::Overflow.kind(), ErrorKind::Corruption);
    assert_eq!(LsmError::MalformedManifest.kind(), ErrorKind::Corruption);
    assert_eq!(LsmError::MissingTable.kind(), ErrorKind::Corruption);
    assert_eq!(LsmError::Compression.kind(), ErrorKind::Compression);
    assert_eq!(LsmError::WalReadOnly.kind(), ErrorKind::State);
    assert_eq!(LsmError::WalWriteOnly.kind(), ErrorKind::State);
    assert_eq!(LsmError::DuplicateTable { id: 1 }.kind(), ErrorKind::State);
    assert_eq!(LsmError::UnknownTable { id: 1 }.kind(), ErrorKind::State);
}

#[test]
fn default_options() {
    let opt = LsmOptions::default();
    assert_eq!(opt.dir, "");
    assert_eq!(opt.block_size, 4096);
    assert_eq!(opt.num_levels, 6);
    assert_eq!(opt.memtable_size, 256 * 1024 * 1024);
    assert_eq!(opt.max_bytes_for_level_base, 2560 * 1024 * 1024);
    assert_eq!(opt.wait_entry_num, 10);
    assert_eq!(opt.bloom_millibits_per_key, 4793);
    assert_eq!(opt.bloom_probes, 3);
    let opt = opt.path("db").block_size(64);
    assert_eq!(opt.dir, "db");
    assert_eq!(opt.block_size, 64);
    assert_eq!(opt.filter_bits(0), 0);
    assert_eq!(opt.filter_bits(1), 5);
    assert_eq!(opt.filter_bits(1000), 4793);
    let copy = opt.duplicate();
    assert_eq!(copy.dir, "db");
    assert_eq!(copy.block_size, 64);
    assert_eq!(saturating_product(3, 4), 12);
    assert_eq!(saturating_product(usize::MAX, 2), usize::MAX);
    let storage = LsmOptions::default().open(&[], vec![], vec![]).unwrap();
    assert_eq!(storage.get(b"k"), Ok(None));
}
