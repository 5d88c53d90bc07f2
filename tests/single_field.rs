use delta_encoding::single_field::SimpleDirectDeltaEncoding;
use delta_encoding::SDDEError;

#[test]
fn tests_patch_data() {
    let mut sdd = SimpleDirectDeltaEncoding::new("Test".as_bytes().to_vec());
    let new_data = "Test2".as_bytes();
    let diff_data = sdd.patch(new_data);
    assert_eq!(diff_data, vec![10, 49, 51, 54, 55, 54, 57, 54, 57, 55, 49, 6, 105, 58, 4, 45, 1, 50]);
}

#[test]
fn tests_apply_patch_data() {
    let mut sdd = SimpleDirectDeltaEncoding::new("Test".as_bytes().to_vec());
    let new_data = "Test2".as_bytes();
    let diff_data = sdd.patch(new_data);
    let mut sdd2 = SimpleDirectDeltaEncoding::new("Test".as_bytes().to_vec());
    let data = sdd2.apply_patch(&diff_data).ok();
    assert_eq!(sdd.data, data.unwrap());
}

#[test]
fn tests_apply_patch_data_1() {
    let mut sdd = SimpleDirectDeltaEncoding::new("Test".as_bytes().to_vec());
    let new_data = "TesNN".as_bytes();
    let diff_data = sdd.patch(new_data);
    let mut sdd2 = SimpleDirectDeltaEncoding::new("Test".as_bytes().to_vec());
    let data = sdd2.apply_patch(&diff_data).ok();
    assert_eq!(sdd.data, data.unwrap());
}

#[test]
fn single_field_shrink_round_trip() {
    let mut sdd = SimpleDirectDeltaEncoding::new(b"hello world".to_vec());
    let diff_data = sdd.patch(b"help");
    let mut sdd2 = SimpleDirectDeltaEncoding::new(b"hello world".to_vec());
    assert_eq!(sdd2.apply_patch(&diff_data).ok().unwrap(), b"help".to_vec());
    assert_eq!(sdd2.data, b"help".to_vec());
}

#[test]
fn single_field_crc_mismatch() {
    let mut sdd = SimpleDirectDeltaEncoding::new(b"Test".to_vec());
    let diff_data = sdd.patch(b"Test2");
    let mut other = SimpleDirectDeltaEncoding::new(b"Tost".to_vec());
    let before_crc = other.crc.clone();
    assert!(matches!(other.apply_patch(&diff_data), Err(SDDEError::CRC(_))));
    assert_eq!(other.data, b"Tost".to_vec());
    assert_eq!(other.crc, before_crc);
}

#[test]
fn single_field_truncated_patch() {
    let mut sdd = SimpleDirectDeltaEncoding::new(b"Test".to_vec());
    assert!(matches!(sdd.apply_patch(&[]), Err(SDDEError::DifferenceInvalid(_))));
    assert!(matches!(sdd.apply_patch(&[10, 49]), Err(SDDEError::DifferenceInvalid(_))));
}

#[test]
fn single_field_apply_with_a_given_crc() {
    let mut sdd = SimpleDirectDeltaEncoding::new(b"Test".to_vec());
    let diff_data = sdd.patch(b"Test2");
    let mut other = SimpleDirectDeltaEncoding::new(b"Test".to_vec());
    assert!(matches!(other.apply_patch_with_crc(&diff_data, b"1".to_vec()), Err(SDDEError::CRC(_))));
    let data = other.apply_patch_with_crc(&diff_data, b"1367696971".to_vec()).ok().unwrap();
    assert_eq!(data, b"Test2".to_vec());
}
