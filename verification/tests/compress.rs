use topazdb::block::compress::{decode, encode};
use topazdb::block::{BlockBuilder, CompressOptions};
use topazdb::error::LsmError;

#[test]
fn test_option() {
    for i in 0..10 {
        assert_eq!(Into::<CompressOptions>::into(i), CompressOptions::from(i));
    }
}

#[test]
fn test_empty_data() {
    let str = b"";
    assert!(encode(str, CompressOptions::Unkown).is_err());
    assert!(decode(str).is_err());
}

#[test]
fn test_snappy() {
    let mut builder = BlockBuilder::new(2048);
    for i in 0..100 {
        if !builder.add(
            format!("key_{}", i).as_bytes(),
            format!("value_{}", i).as_bytes(),
        ) {
            break;
        }
    }
    let block = builder.build();
    let uncompress_size = block.uncompress_size();
    let compressed = block.encode(CompressOptions::Snappy).unwrap();
    println!(
        "uncompress_size: {uncompress_size}, snappy: {}",
        compressed.len()
    );
    assert!(uncompress_size - compressed.len() > uncompress_size / 10)
}

#[test]
fn test_lz4() {
    let mut builder = BlockBuilder::new(2048);
    for i in 0..100 {
        if !builder.add(
            format!("key_{}", i).as_bytes(),
            format!("value_{}", i).as_bytes(),
        ) {
            break;
        }
    }
    let block = builder.build();
    let uncompress_size = block.uncompress_size();
    let compressed = block.encode(CompressOptions::Lz4).unwrap();
    println!(
        "uncompress_size: {uncompress_size}, lz4: {}",
        compressed.len()
    );
    assert!(uncompress_size - compressed.len() > uncompress_size / 10)
}

#[test]
fn test_compress_and_uncompress_snap() {
    let str = b"a simple string";
    let compressed = encode(str, CompressOptions::Snappy).unwrap();
    let uncompressed = decode(&compressed).unwrap();
    assert_eq!(str[..], uncompressed);
}

#[test]
fn test_compress_and_uncompress_lz4() {
    let str = b"a simple string";
    let compressed = encode(str, CompressOptions::Lz4).unwrap();
    let uncompressed = decode(&compressed).unwrap();
    assert_eq!(str[..], uncompressed);
}

#[test]
fn tags_are_one_two_three() {
    assert_eq!(u8::from(CompressOptions::Unkown), 0);
    assert_eq!(u8::from(CompressOptions::Uncompress), 1);
    assert_eq!(u8::from(CompressOptions::Snappy), 2);
    assert_eq!(u8::from(CompressOptions::Lz4), 3);
    assert_eq!(CompressOptions::from(1), CompressOptions::Uncompress);
    assert_eq!(CompressOptions::from(2), CompressOptions::Snappy);
    assert_eq!(CompressOptions::from(3), CompressOptions::Lz4);
    assert_eq!(CompressOptions::from(0), CompressOptions::Unkown);
    assert_eq!(CompressOptions::from(200), CompressOptions::Unkown);
}

#[test]
fn uncompressed_envelope_is_payload_and_tag() {
    let out = encode(b"abc", CompressOptions::Uncompress).unwrap();
    assert_eq!(out, vec![b'a', b'b', b'c', 1]);
    assert_eq!(decode(&out).unwrap(), b"abc".to_vec());
    let empty = encode(b"", CompressOptions::Uncompress).unwrap();
    assert_eq!(empty, vec![1]);
    assert_eq!(decode(&empty).unwrap(), Vec::<u8>::new());
}

#[test]
fn envelopes_end_in_the_tag_of_their_codec() {
    let data = vec![7u8; 300];
    let snappy = encode(&data, CompressOptions::Snappy).unwrap();
    assert_eq!(*snappy.last().unwrap(), 2);
    assert!(snappy.len() < data.len());
    assert_ne!(&snappy[..snappy.len() - 1], &data[..]);
    let lz4 = encode(&data, CompressOptions::Lz4).unwrap();
    assert_eq!(*lz4.last().unwrap(), 3);
    assert!(lz4.len() < data.len());
    assert_eq!(decode(&snappy).unwrap(), data);
    assert_eq!(decode(&lz4).unwrap(), data);
}

#[test]
fn decode_names_its_errors() {
    assert_eq!(decode(b""), Err(LsmError::Truncated));
    assert_eq!(decode(&[1, 2, 3, 0]), Err(LsmError::UnknownCodec));
    assert_eq!(decode(&[1, 2, 3, 9]), Err(LsmError::UnknownCodec));
    assert_eq!(decode(&[0xff, 0xff, 0xff, 2]), Err(LsmError::Compression));
    assert_eq!(decode(&[1, 3]), Err(LsmError::Compression));
    assert_eq!(
        encode(b"abc", CompressOptions::Unkown),
        Err(LsmError::UnknownCodec)
    );
}
