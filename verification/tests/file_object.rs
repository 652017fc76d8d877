use topazdb::error::LsmError;
use topazdb::table::file_object::FileObject;

#[test]
fn create_test() {
    let data = vec![1, 2, 3, 4, 5, 6, 7, 8, 9, 10];
    let obj = FileObject::create(&data);
    assert_eq!(obj.size(), 10);
}

#[test]
fn read_test() {
    let data = vec![1, 2, 3, 4, 5, 6, 7, 8, 9, 10];
    let obj = FileObject::create(&data);
    let image = obj.image();
    drop(obj);
    let obj = FileObject::open(image).unwrap();
    let data_read = obj.read(0, data.len()).unwrap();
    assert_eq!(data, data_read);
}

#[test]
fn image_is_content_and_checksum() {
    let obj = FileObject::create(b"123456789");
    let image = obj.image();
    assert_eq!(&image[..9], b"123456789");
    assert_eq!(&image[9..], &[0xCB, 0xF4, 0x39, 0x26]);
    let obj = FileObject::from_vec(vec![]);
    assert_eq!(obj.image(), vec![0, 0, 0, 0]);
}

#[test]
fn reads_are_ranges_of_the_content() {
    let obj = FileObject::create(&[1, 2, 3, 4, 5]);
    assert_eq!(obj.bytes(), &[1, 2, 3, 4, 5]);
    assert_eq!(obj.read(1, 3), Ok(vec![2, 3, 4]));
    assert_eq!(obj.read(5, 0), Ok(vec![]));
    assert_eq!(obj.read(3, 3), Err(LsmError::Truncated));
    assert_eq!(obj.read(6, 0), Err(LsmError::Truncated));
    assert_eq!(obj.read(usize::MAX, 2), Err(LsmError::Truncated));
}

#[test]
fn open_checks_the_checksum() {
    assert!(matches!(
        FileObject::open(vec![1, 2, 3]),
        Err(LsmError::Truncated)
    ));
    let mut image = FileObject::create(b"hello").image();
    image[0] ^= 1;
    assert!(matches!(
        FileObject::open(image),
        Err(LsmError::ChecksumMismatch { .. })
    ));
    let empty = FileObject::open(vec![0, 0, 0, 0]).unwrap();
    assert_eq!(empty.size(), 0);
}
