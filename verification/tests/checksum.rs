use topazdb::checksum::{calculate_checksum, check_checksum, verify_checksum, CHECKSUM_SIZE};
use topazdb::error::{ErrorKind, LsmError};

#[test]
fn simple_test() {
    let data = &b"12312nskjdhsdi9823r1y3r9"[..];
    let checksum = calculate_checksum(data);
    verify_checksum(data, checksum).unwrap();
    assert!(verify_checksum(data, 123).is_err())
}

#[test]
fn checksum_is_crc32_of_the_bytes() {
    // The check value of CRC-32 (IEEE).
    assert_eq!(calculate_checksum(b"123456789"), 0xCBF4_3926);
    assert_eq!(calculate_checksum(b""), 0);
    assert_ne!(calculate_checksum(b"a"), calculate_checksum(b"b"));
    assert_eq!(CHECKSUM_SIZE, 4);
}

#[test]
fn mismatch_names_both_checksums() {
    let err = verify_checksum(b"123456789", 7).unwrap_err();
    assert_eq!(
        err,
        LsmError::ChecksumMismatch {
            expected: 7,
            actual: 0xCBF4_3926
        }
    );
    assert_eq!(err.kind(), ErrorKind::Corruption);
    assert_eq!(check_checksum(5, 5), Ok(()));
    assert_eq!(
        check_checksum(5, 6),
        Err(LsmError::ChecksumMismatch {
            expected: 6,
            actual: 5
        })
    );
}
