use lightctl::errors::{ApiError, LightError};
use lightctl::i2c::{decode_levels, encode_levels, identity_matches, validate_levels};

#[test]
fn levels_encode_big_endian() {
    let encoded = encode_levels(&vec![0x1234, 0, 65535]);
    assert_eq!(encoded, vec![0x12, 0x34, 0x00, 0x00, 0xff, 0xff]);
}

#[test]
fn levels_decode_big_endian_pairs() {
    let decoded = decode_levels(&vec![0x12, 0x34, 0x00, 0x01]);
    assert_eq!(decoded, vec![0x1234, 1]);
}

#[test]
fn encode_then_decode_returns_the_levels() {
    let levels = vec![0, 1, 255, 256, 4660, 65535];
    assert_eq!(decode_levels(&encode_levels(&levels)), levels);
}

#[test]
fn identity_byte_decides_presence() {
    assert!(identity_matches(0x10));
    assert!(!identity_matches(0x00));
    assert!(!identity_matches(0x11));
}

#[test]
fn wrong_length_is_rejected() {
    assert_eq!(validate_levels(&vec![1, 2, 3], 4), Err(LightError::InvalidInput));
    assert_eq!(validate_levels(&vec![1, 2, 3, 4, 5], 4), Err(LightError::InvalidInput));
}

#[test]
fn out_of_range_value_is_rejected() {
    assert_eq!(validate_levels(&vec![0, 65536], 2), Err(LightError::InvalidInput));
    assert_eq!(validate_levels(&vec![-1, 0], 2), Err(LightError::InvalidInput));
}

#[test]
fn exact_length_in_range_is_accepted() {
    assert_eq!(validate_levels(&vec![0, 65535], 2), Ok(()));
    assert_eq!(validate_levels(&Vec::new(), 0), Ok(()));
}

#[test]
fn status_codes_match_variants() {
    assert_eq!(ApiError::BadRequest.status_code(), 400);
    assert_eq!(ApiError::Unauthorized.status_code(), 401);
    assert_eq!(ApiError::Forbidden.status_code(), 403);
    assert_eq!(ApiError::NotFound.status_code(), 404);
    assert_eq!(ApiError::Conflict.status_code(), 409);
    assert_eq!(ApiError::TooManyRequests.status_code(), 429);
    assert_eq!(ApiError::InternalErr.status_code(), 500);
    assert_eq!(ApiError::NotImplemented.status_code(), 501);
    assert_eq!(ApiError::Unavailable.status_code(), 503);
}
