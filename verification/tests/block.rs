use std::sync::Arc;

use topazdb::block::{Block, BlockBuilder, BlockIterator, CompressOptions, Entry, SIZEOF_U16};
use topazdb::error::LsmError;

fn key_of(idx: usize) -> Vec<u8> {
    format!("key_{:03}", idx * 5).into_bytes()
}

fn value_of(idx: usize) -> Vec<u8> {
    format!("value_{:010}", idx).into_bytes()
}

fn generate_block() -> Block {
    let mut builder = BlockBuilder::new(10000);
    for idx in 0..100 {
        assert!(builder.add(&key_of(idx), &value_of(idx)));
    }
    builder.build()
}

#[test]
fn entry_is_lengths_and_bytes() {
    let entry = Entry::new(b"ab", b"xyz");
    assert_eq!(entry.encode_len(), 9);
    assert_eq!(entry.encode(), vec![0, 2, b'a', b'b', 0, 3, b'x', b'y', b'z']);
    let tombstone = Entry::new(b"k", b"");
    assert_eq!(tombstone.encode_len(), 5);
    assert_eq!(tombstone.encode(), vec![0, 1, b'k', 0, 0]);
    let long = Entry::new(&[1u8; 300], b"");
    assert_eq!(&long.encode()[..2], &[1, 44]);
    assert_eq!(SIZEOF_U16, 2);
}

#[test]
fn block_is_full_at_the_exact_boundary() {
    // An entry of 4 + 1 + 1 bytes and the 2 bytes of its offset: 8 bytes.
    let mut builder = BlockBuilder::new(8);
    assert!(builder.is_empty());
    assert!(builder.add(b"k", b"v"));
    assert!(!builder.is_empty());
    assert!(!builder.add(b"l", b"w"));
    let mut builder = BlockBuilder::new(7);
    assert!(!builder.add(b"k", b"v"));
    assert!(builder.is_empty());
    // Two entries of 6 bytes: the second needs 6 + 6 + 2 = 14.
    let mut builder = BlockBuilder::new(14);
    assert!(builder.add(b"k", b"v"));
    assert!(builder.add(b"l", b"w"));
    assert!(!builder.add(b"m", b""));
    let mut builder = BlockBuilder::new(13);
    assert!(builder.add(b"k", b"v"));
    assert!(!builder.add(b"l", b"w"));
    assert!(builder.add(b"l", b""));
    let block = builder.build();
    assert_eq!(block.len(), 2);
    assert_eq!(block.offset(0), 0);
    assert_eq!(block.offset(1), 6);
    assert_eq!(block.data(), &[0, 1, b'k', 0, 1, b'v', 0, 1, b'l', 0, 0]);
    assert_eq!(block.uncompress_size(), 2 + 4 + 11);
}

#[test]
fn offsets_fit_sixteen_bits() {
    let mut builder = BlockBuilder::new(usize::MAX);
    let value = vec![0u8; 65000];
    assert!(builder.add(b"a", &value));
    assert!(builder.add(b"b", &value));
    assert!(!builder.add(b"c", b""));
    assert_eq!(builder.build().len(), 2);
}

#[test]
fn encoded_block_is_count_offsets_entries_and_checksum() {
    let mut builder = BlockBuilder::new(100);
    assert!(builder.add(b"k", b"v"));
    assert!(builder.add(b"l", b""));
    let block = builder.build();
    let bytes = block.encode(CompressOptions::Uncompress).unwrap();
    let body = [
        0, 2, 0, 0, 0, 6, 0, 1, b'k', 0, 1, b'v', 0, 1, b'l', 0, 0,
    ];
    assert_eq!(&bytes[..17], &body);
    let crc = topazdb::checksum::calculate_checksum(&body);
    assert_eq!(&bytes[17..21], &crc.to_be_bytes());
    assert_eq!(bytes[21], 1);
    assert_eq!(bytes.len(), 22);
}

#[test]
fn test_block_encode_decode_every_codec() {
    let block = generate_block();
    for codec in [
        CompressOptions::Uncompress,
        CompressOptions::Snappy,
        CompressOptions::Lz4,
    ] {
        let encoded = block.encode(codec).unwrap();
        let decoded = Block::decode(&encoded).unwrap();
        assert_eq!(decoded.len(), 100);
        assert_eq!(decoded.data(), block.data());
        for i in 0..100 {
            assert_eq!(decoded.offset(i), block.offset(i));
            assert_eq!(decoded.key(i), &key_of(i)[..]);
            assert_eq!(decoded.value(i), &value_of(i)[..]);
        }
    }
    assert_eq!(
        block.encode(CompressOptions::Unkown),
        Err(LsmError::UnknownCodec)
    );
}

#[test]
fn decode_refuses_what_is_not_a_block() {
    let block = generate_block();
    let good = block.encode(CompressOptions::Uncompress).unwrap();
    assert!(matches!(Block::decode(&[]), Err(LsmError::Truncated)));
    assert!(matches!(Block::decode(&[1]), Err(LsmError::Truncated)));
    assert!(matches!(
        Block::decode(&[0, 0, 0, 1]),
        Err(LsmError::Truncated)
    ));
    let mut flipped = good.clone();
    flipped[10] ^= 0x40;
    assert!(matches!(
        Block::decode(&flipped),
        Err(LsmError::ChecksumMismatch { .. })
    ));
    let mut tag = good.clone();
    *tag.last_mut().unwrap() = 9;
    assert!(matches!(Block::decode(&tag), Err(LsmError::UnknownCodec)));
    let mut cut = good.clone();
    cut.remove(40);
    assert!(Block::decode(&cut).is_err());

    let sealed = |body: &[u8]| -> Vec<u8> {
        let mut bytes = body.to_vec();
        bytes.extend(topazdb::checksum::calculate_checksum(body).to_be_bytes());
        bytes.push(1);
        bytes
    };
    // No entry at all.
    assert!(matches!(
        Block::decode(&sealed(&[0, 0])),
        Err(LsmError::Truncated)
    ));
    assert!(matches!(
        Block::parse_body(&[0]),
        Err(LsmError::Truncated)
    ));
    // More offsets than bytes.
    assert!(matches!(
        Block::decode(&sealed(&[0, 3, 0, 0])),
        Err(LsmError::Truncated)
    ));
    // An offset behind the entries.
    assert!(matches!(
        Block::decode(&sealed(&[0, 1, 0, 9, 0, 1, b'k', 0, 0])),
        Err(LsmError::Truncated)
    ));
    // A key that ends behind the entries.
    assert!(matches!(
        Block::decode(&sealed(&[0, 1, 0, 0, 0, 9, b'k', 0, 0])),
        Err(LsmError::Truncated)
    ));
    // An empty key.
    assert!(matches!(
        Block::decode(&sealed(&[0, 1, 0, 0, 0, 0, 0, 1, b'v'])),
        Err(LsmError::Truncated)
    ));
    let ok = Block::decode(&sealed(&[0, 1, 0, 0, 0, 1, b'k', 0, 0])).unwrap();
    assert_eq!(ok.key(0), b"k");
    assert_eq!(ok.value(0), b"");
}

#[test]
fn test_block_iterator() {
    let block = Arc::new(generate_block());
    let mut iter = BlockIterator::create_and_seek_to_first(block);
    for _ in 0..5 {
        for i in 0..100 {
            assert!(iter.is_valid());
            assert_eq!(iter.key(), &key_of(i)[..]);
            assert_eq!(iter.value(), &value_of(i)[..]);
            iter.next();
        }
        assert!(!iter.is_valid());
        assert_eq!(iter.key(), b"");
        iter.next();
        assert!(!iter.is_valid());
        iter.seek_to_first();
    }
    iter.seek_to_last();
    assert_eq!(iter.key(), &key_of(99)[..]);
    iter.next();
    assert!(!iter.is_valid());
}

#[test]
fn test_block_seek_key() {
    let block = Arc::new(generate_block());
    let mut iter = BlockIterator::create_and_seek_to_key(block, &key_of(0));
    for offset in 1..=5 {
        for i in 0..100 {
            assert_eq!(iter.key(), &key_of(i)[..]);
            assert_eq!(iter.value(), &value_of(i)[..]);
            iter.seek_to_key(&format!("key_{:03}", i * 5 + offset).into_bytes());
        }
        assert!(!iter.is_valid());
        iter.seek_to_key(b"k");
        assert_eq!(iter.key(), &key_of(0)[..]);
    }
    iter.seek_to_key(b"zzz");
    assert!(!iter.is_valid());
    iter.seek_to_key(b"");
    assert_eq!(iter.key(), &key_of(0)[..]);
    iter.seek_to_key(&key_of(42));
    assert_eq!(iter.value(), &value_of(42)[..]);
}

#[test]
fn an_entry_that_fills_the_block_to_the_byte_is_taken() {
    let mut builder = topazdb::block::BlockBuilder::new(10);
    assert!(builder.add(b"ab", b"cd"));
    assert!(!builder.is_empty());
    assert!(!builder.add(b"e", b""));
    let block = builder.build();
    assert_eq!(block.len(), 1);
    assert_eq!(block.offset(0), 0);
    assert_eq!(block.data(), &[0, 2, b'a', b'b', 0, 2, b'c', b'd'][..]);
    let mut small = topazdb::block::BlockBuilder::new(9);
    assert!(!small.add(b"ab", b"cd"));
    assert!(small.is_empty());
}
