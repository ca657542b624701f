use kvlog::error::StoreError;
use kvlog::util;

#[test]
fn test_get_int_from_le_bytes_should_success_when_offset_zero() {
    let number: u32 = 123456;
    let bytes = number.to_le_bytes().to_vec();

    assert_eq!(util::get_int_from_le_bytes(&bytes, 0).unwrap(), number)
}

#[test]
fn test_get_int_from_le_bytes_should_success_when_offset_has_value() {
    let number: u32 = 123456;
    let mut content = vec![0, 0];
    content.extend_from_slice(&number.to_le_bytes());
    content.extend_from_slice(&[99, 99]);

    assert_eq!(util::get_int_from_le_bytes(&content, 2).unwrap(), number)
}

#[test]
fn test_get_int_from_le_bytes_should_fail_when_empty() {
    let content = vec![];
    let result = util::get_int_from_le_bytes(&content, 0);

    assert!(result.is_err());

    if let Err(e) = result {
        assert_eq!(e, StoreError::CorruptFrame);
    }
}

#[test]
fn get_int_fails_when_three_bytes_remain() {
    let content = vec![1, 2, 3, 4, 5];
    assert_eq!(
        util::get_int_from_le_bytes(&content, 2),
        Err(StoreError::CorruptFrame)
    );
    assert_eq!(util::get_int_from_le_bytes(&content, 1), Ok(0x05040302));
}
