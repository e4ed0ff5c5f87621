use hyprwindows::codec::{address_from_u64, address_to_u64, AddressError};

#[test]
fn round_trip_simple() {
    let id = address_to_u64("0x55a1b2c3").unwrap();
    assert_eq!(id, 0x55a1b2c3);
    assert_eq!(address_from_u64(id), "0x55a1b2c3".to_string());
}

#[test]
fn round_trip_canonicalizes_leading_zeros_and_case() {
    let id = address_to_u64("0x0000FF").unwrap();
    assert_eq!(id, 255);
    assert_eq!(address_from_u64(id), "0xff".to_string());
}

#[test]
fn decode_zero() {
    assert_eq!(address_from_u64(0), "0x0".to_string());
    assert_eq!(address_to_u64("0x0"), Ok(0));
}

#[test]
fn round_trip_largest_id() {
    assert_eq!(address_from_u64(u64::MAX), "0xffffffffffffffff".to_string());
    assert_eq!(address_to_u64("0xffffffffffffffff"), Ok(u64::MAX));
}

#[test]
fn encode_missing_prefix() {
    assert_eq!(address_to_u64("55a1b2c3"), Err(AddressError::MissingPrefix));
    assert_eq!(address_to_u64(""), Err(AddressError::MissingPrefix));
    assert_eq!(address_to_u64("0"), Err(AddressError::MissingPrefix));
    assert_eq!(address_to_u64("0y12"), Err(AddressError::MissingPrefix));
}

#[test]
fn encode_no_digits() {
    assert_eq!(address_to_u64("0x"), Err(AddressError::NoDigits));
}

#[test]
fn encode_invalid_digit() {
    assert_eq!(address_to_u64("0x12g4"), Err(AddressError::InvalidDigit));
    assert_eq!(address_to_u64("0x 1"), Err(AddressError::InvalidDigit));
}

#[test]
fn encode_overflow() {
    assert_eq!(
        address_to_u64("0x10000000000000000"),
        Err(AddressError::Overflow)
    );
}

#[test]
fn encode_ignores_leading_zeros_for_overflow() {
    assert_eq!(address_to_u64("0x00000000000000000001"), Ok(1));
}

#[test]
fn encode_accepts_uppercase() {
    assert_eq!(address_to_u64("0xAB"), Ok(171));
    assert_eq!(address_from_u64(171), "0xab".to_string());
}
