use std::sync::Arc;

use topazdb::block::CompressOptions;
use topazdb::error::LsmError;
use topazdb::iterators::StorageIterator;
use topazdb::opt::LsmOptions;
use topazdb::table::file_object::FileObject;
use topazdb::table::{BlockMeta, SsTable, SsTableBuilder, SsTableIterator};

fn key_of(idx: usize) -> Vec<u8> {
    format!("key_{:03}", idx * 5).into_bytes()
}

fn value_of(idx: usize) -> Vec<u8> {
    format!("value_{:010}", idx).into_bytes()
}

fn options(codec: CompressOptions, bloom: bool) -> LsmOptions {
    let mut opt = LsmOptions::default().block_size(128);
    opt.compress_option = codec;
    if !bloom {
        opt.bloom_millibits_per_key = 0;
    }
    opt
}

fn generate_sst(opt: LsmOptions) -> SsTable {
    let mut builder = SsTableBuilder::new(opt);
    for idx in 0..100 {
        builder.add(&key_of(idx), &value_of(idx)).unwrap();
    }
    builder.build(7).unwrap()
}

fn entries(table: Arc<SsTable>) -> Vec<(Vec<u8>, Vec<u8>)> {
    let mut iter = SsTableIterator::create_and_seek_to_first(table).unwrap();
    let mut out = Vec::new();
    while iter.is_valid() {
        out.push((iter.key().to_vec(), iter.value().to_vec()));
        iter.next().unwrap();
    }
    out
}

#[test]
fn block_meta_is_offset_length_and_key() {
    let metas = vec![
        BlockMeta {
            offset: 0,
            first_key: b"a".to_vec(),
        },
        BlockMeta {
            offset: 0x0102_0304,
            first_key: b"key".to_vec(),
        },
    ];
    let mut buf = vec![9];
    BlockMeta::encode_block_meta(&metas, &mut buf);
    assert_eq!(
        buf,
        vec![9, 0, 0, 0, 0, 0, 1, b'a', 1, 2, 3, 4, 0, 3, b'k', b'e', b'y']
    );
    assert_eq!(BlockMeta::decode_block_meta(&buf[1..]).unwrap(), metas);
    assert_eq!(BlockMeta::decode_block_meta(&[]).unwrap(), vec![]);
    assert!(matches!(
        BlockMeta::decode_block_meta(&buf[1..buf.len() - 1]),
        Err(LsmError::Truncated)
    ));
    assert!(matches!(
        BlockMeta::decode_block_meta(&[0, 0, 0]),
        Err(LsmError::Truncated)
    ));
}

#[test]
fn table_yields_what_was_built_under_every_codec() {
    let expect: Vec<_> = (0..100).map(|i| (key_of(i), value_of(i))).collect();
    for codec in [
        CompressOptions::Uncompress,
        CompressOptions::Snappy,
        CompressOptions::Lz4,
    ] {
        for bloom in [true, false] {
            let table = generate_sst(options(codec, bloom));
            assert_eq!(table.id(), 7);
            assert!(table.num_of_blocks() > 10);
            assert_eq!(table.smallest_key(), &key_of(0)[..]);
            assert_eq!(table.biggest_key(), &key_of(99)[..]);
            assert_eq!(table.size(), table.file().size());
            let table = Arc::new(table);
            assert_eq!(entries(table.clone()), expect);
            // The same from the bytes of the file.
            let file = FileObject::open(table.file().image()).unwrap();
            let again = Arc::new(SsTable::open(7, file).unwrap());
            assert_eq!(again.num_of_blocks(), table.num_of_blocks());
            assert_eq!(again.smallest_key(), table.smallest_key());
            assert_eq!(again.biggest_key(), table.biggest_key());
            assert_eq!(entries(again), expect);
        }
    }
}

#[test]
fn keys_come_in_strictly_growing_order() {
    let table = Arc::new(generate_sst(options(CompressOptions::Snappy, true)));
    let all = entries(table);
    for pair in all.windows(2) {
        assert!(pair[0].0 < pair[1].0);
    }
}

#[test]
fn table_layout_ends_in_the_two_offsets() {
    let mut builder = SsTableBuilder::new(options(CompressOptions::Uncompress, false));
    builder.add(b"k", b"v").unwrap();
    let table = builder.build(1).unwrap();
    let block = [
        0, 1, 0, 0, 0, 1, b'k', 0, 1, b'v', //
    ];
    let crc = topazdb::checksum::calculate_checksum(&block).to_be_bytes();
    let mut expect = block.to_vec();
    expect.extend(crc);
    expect.push(1);
    assert_eq!(expect.len(), 15);
    expect.extend([0, 0, 0, 0, 0, 1, b'k']);
    expect.extend([0, 0, 0, 15]);
    expect.extend([0, 0, 0, 26]);
    assert_eq!(table.file().bytes(), &expect[..]);
    assert!(table.may_contain(b"anything"));

    let mut opt = options(CompressOptions::Uncompress, true);
    opt.bloom_millibits_per_key = 16000;
    opt.bloom_probes = 2;
    let mut builder = SsTableBuilder::new(opt);
    builder.add(b"k", b"v").unwrap();
    let table = builder.build(1).unwrap();
    let bytes = table.file().bytes();
    assert_eq!(bytes.len(), 26 + 3 + 4);
    assert_eq!(&bytes[..26], &expect[..26]);
    assert_eq!(bytes[28], 2);
    assert_eq!(&bytes[29..], &[0, 0, 0, 26]);
    assert!(table.may_contain(b"k"));
}

#[test]
fn find_block_idx_saturates_at_the_first_block() {
    let table = generate_sst(options(CompressOptions::Snappy, true));
    assert_eq!(table.find_block_idx(b""), 0);
    assert_eq!(table.find_block_idx(b"a"), 0);
    assert_eq!(table.find_block_idx(&key_of(0)), 0);
    assert_eq!(table.find_block_idx(b"zzz"), table.num_of_blocks() - 1);
    let mut last = 0;
    for i in 0..100 {
        let idx = table.find_block_idx(&key_of(i));
        assert!(idx == last || idx == last + 1);
        last = idx;
        let block = table.read_block(idx).unwrap();
        assert!(block.key(0) <= &key_of(i)[..]);
    }
    assert_eq!(last, table.num_of_blocks() - 1);
    assert_eq!(table.overlap_size(b"", b""), 0);
    assert_eq!(table.overlap_size(b"zzz", b""), 0);
    let whole = table.overlap_size(b"", b"zzz");
    assert!(whole > 0 && whole < table.size());
    assert_eq!(
        table.overlap_size(b"", &key_of(50)) + table.overlap_size(&key_of(50), b"zzz"),
        whole
    );
}

#[test]
fn seek_finds_the_first_key_at_or_after() {
    let table = Arc::new(generate_sst(options(CompressOptions::Lz4, true)));
    let mut iter = SsTableIterator::create_and_seek_to_key(table.clone(), &key_of(0)).unwrap();
    for offset in 1..=5 {
        for i in 0..100 {
            assert_eq!(iter.key(), &key_of(i)[..]);
            assert_eq!(iter.value(), &value_of(i)[..]);
            iter.seek_to_key(&format!("key_{:03}", i * 5 + offset).into_bytes())
                .unwrap();
        }
        assert!(!iter.is_valid());
        iter.seek_to_key(b"k").unwrap();
    }
    iter.seek_to_first().unwrap();
    assert_eq!(iter.key(), &key_of(0)[..]);
    let mut end = SsTableIterator::create_and_seek_to_key(table, b"zzz").unwrap();
    assert!(!end.is_valid());
    end.next().unwrap();
    assert!(!end.is_valid());
}

#[test]
fn bloom_filter_knows_the_keys_of_the_table() {
    let table = generate_sst(options(CompressOptions::Snappy, true));
    for i in 0..100 {
        assert!(table.may_contain(&key_of(i)));
    }
    let strangers = (0..1000)
        .filter(|i| table.may_contain(format!("stranger_{i}").as_bytes()))
        .count();
    assert!(strangers < 250);
    let plain = generate_sst(options(CompressOptions::Snappy, false));
    assert!(plain.may_contain(b"stranger"));
}

#[test]
fn open_refuses_what_is_not_a_table() {
    let table = generate_sst(options(CompressOptions::Uncompress, true));
    let good = table.file().bytes().to_vec();
    let open = |bytes: Vec<u8>| SsTable::open(1, FileObject::from_vec(bytes));
    assert!(open(good.clone()).is_ok());
    assert!(matches!(open(vec![]), Err(LsmError::Truncated)));
    assert!(matches!(open(vec![0; 7]), Err(LsmError::Truncated)));
    assert!(matches!(open(vec![0; 8]), Err(LsmError::Truncated)));
    assert!(matches!(open(vec![0xff; 64]), Err(LsmError::Truncated)));
    let mut cut = good.clone();
    cut.truncate(good.len() - 1);
    assert!(open(cut).is_err());
    // A flipped bit in a block shows when that block is read.
    let mut flipped = good.clone();
    flipped[3] ^= 1;
    let opened = open(flipped).unwrap();
    assert!(matches!(
        opened.read_block(0),
        Err(LsmError::ChecksumMismatch { .. })
    ));
    assert!(opened.read_block(1).is_ok());
    assert!(SsTableIterator::create_and_seek_to_first(Arc::new(opened)).is_err());
}

#[test]
fn builder_refuses_what_no_block_holds() {
    let mut builder = SsTableBuilder::new(LsmOptions::default().block_size(16));
    assert!(builder.is_empty());
    assert_eq!(builder.estimated_size(), 0);
    assert!(!builder.reach_capacity());
    assert_eq!(
        builder.add(b"a key that is too long", b"v"),
        Err(LsmError::Overflow)
    );
    let mut builder = SsTableBuilder::new(LsmOptions::default().block_size(16));
    builder.add(b"k1", b"v1").unwrap();
    assert!(!builder.is_empty());
    assert_eq!(builder.estimated_size(), 0);
    builder.add(b"k2", b"v2").unwrap();
    assert!(builder.estimated_size() > 0);
    assert_eq!(builder.opt().block_size, 16);
    let table = builder.build(3).unwrap();
    assert_eq!(table.num_of_blocks(), 2);
    let mut unknown = LsmOptions::default().block_size(16);
    unknown.compress_option = CompressOptions::Unkown;
    let mut builder = SsTableBuilder::new(unknown);
    builder.add(b"k1", b"v1").unwrap();
    assert!(matches!(builder.build(1), Err(LsmError::UnknownCodec)));
}
