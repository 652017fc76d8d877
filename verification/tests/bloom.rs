use topazdb::bloom::{BitSlice, BitSliceMut, Bloom};
use topazdb::table::hash_key;

fn bits_and_probes(n: usize, fpp: f64) -> (usize, u8) {
    let n = n as f64;
    let m = -(n * fpp.ln()) / std::f64::consts::LN_2.powi(2);
    let k = m / n * std::f64::consts::LN_2.powi(2);
    let k = (k.ceil() as u8).min(15).max(1);
    (m.ceil() as usize, k)
}

#[test]
fn test_small_bloom_filter() {
    let hash: Vec<_> = vec![b"key1".to_vec(), b"key2".to_vec()]
        .into_iter()
        .map(|x| hash_key(&x))
        .collect();

    let (bits, probes) = bits_and_probes(hash.len(), 0.1);
    let bloom = Bloom::from_keys(&hash, bits, probes);

    let check_hash: Vec<_> = vec![
        b"key1".to_vec(),
        b"key2".to_vec(),
        b"key3".to_vec(),
        b"key4".to_vec(),
    ]
    .into_iter()
    .map(|x| hash_key(&x))
    .collect();

    assert!(bloom.may_contain(check_hash[0]));
    assert!(bloom.may_contain(check_hash[1]));
    assert!(!bloom.may_contain(check_hash[2]));
    assert!(!bloom.may_contain(check_hash[3]));
}

#[test]
fn test_fpp_bloom_filter() {
    let hash: Vec<_> = (0..1000)
        .into_iter()
        .map(|x| format!("key_{x}"))
        .map(|x| hash_key(x.as_bytes()))
        .collect();
    let fpp = 0.01;
    let (bits, probes) = bits_and_probes(hash.len(), fpp);
    let bloom = Bloom::from_keys(&hash, bits, probes);
    for u in hash {
        assert!(bloom.may_contain(u));
    }

    let cnt = (20000..30000)
        .into_iter()
        .map(|x| format!("key_{x}"))
        .map(|x| hash_key(x.as_bytes()))
        .filter(|x| bloom.may_contain(*x))
        .count();
    assert!(cnt <= (10000.0 * (fpp + 0.005)).ceil() as usize)
}

#[test]
fn hash_is_xxh3_64() {
    assert_eq!(hash_key(b""), 0x2D06_8005_38D3_94C2);
    assert_ne!(hash_key(b"key1"), hash_key(b"key2"));
    assert_eq!(hash_key(b"key1"), hash_key(b"key1"));
}

#[test]
fn filter_of_no_keys_denies_everything() {
    let bloom = Bloom::from_keys(&[], 64, 3);
    for h in [0u64, 1, 77, u64::MAX, 0x1234_5678_9abc_def0] {
        assert!(!bloom.may_contain(h));
    }
    let none = Bloom::from_keys(&[], 0, 3);
    assert!(!none.may_contain(5));
    let bitless = Bloom::from_keys(&[5], 0, 3);
    assert!(!bitless.may_contain(5));
}

#[test]
fn filter_layout_is_bits_then_probes() {
    let bloom = Bloom::from_keys(&[], 9, 0);
    assert_eq!(bloom.encode(), vec![0, 0, 1]);
    let bloom = Bloom::from_keys(&[], 16, 200);
    assert_eq!(bloom.encode(), vec![0, 0, 15]);
    // One key with one probe sets the bit of the hash itself.
    let bloom = Bloom::from_keys(&[10], 16, 1);
    assert_eq!(bloom.encode(), vec![0, 0b100, 1]);
    // The second probe stands one rotation further: 10 + (10 << 30).
    let bloom = Bloom::from_keys(&[10], 16, 2);
    let second = (10u64 + (10u64 << 30)) % 16;
    assert_eq!(second, 10);
    assert_eq!(bloom.encode(), vec![0, 0b100, 2]);
    let bloom = Bloom::from_keys(&[1 << 34], 16, 2);
    // hash 2^34: first bit 0, delta = 1 | 2^64 wraps to 1, second bit 1.
    assert_eq!(bloom.encode(), vec![0b11, 0, 2]);
}

#[test]
fn decode_reads_what_encode_wrote() {
    let keys = [3u64, 99, 1 << 40, u64::MAX];
    let bloom = Bloom::from_keys(&keys, 128, 4);
    let bytes = bloom.encode();
    assert_eq!(bytes.len(), 17);
    assert_eq!(bytes[16], 4);
    let again = Bloom::decode(&bytes);
    for k in keys {
        assert!(again.may_contain(k));
    }
    assert!(!Bloom::decode(&[]).may_contain(1));
    assert!(!Bloom::decode(&[3]).may_contain(1));
    assert!(Bloom::decode(&[0xff, 0xff, 15]).may_contain(1));
    assert!(Bloom::decode(&[0xff, 0xff, 0]).may_contain(1));
}

#[test]
fn bits_are_set_and_read_one_by_one() {
    let mut bytes = vec![0u8; 2];
    assert_eq!(bytes.bit_len(), 16);
    bytes.bit_set(0, true);
    bytes.bit_set(9, true);
    assert_eq!(bytes, vec![1, 2]);
    assert!(bytes.bit_get(0));
    assert!(bytes.bit_get(9));
    assert!(!bytes.bit_get(1));
    bytes.bit_set(0, false);
    assert_eq!(bytes, vec![0, 2]);
    bytes.bit_set(15, true);
    assert_eq!(bytes, vec![0, 0x82]);
}
