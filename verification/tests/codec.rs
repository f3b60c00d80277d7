use pathtree::base62::{decode, encode};
use pathtree::models::{id_from_bytes, uuid_to_label};

#[test]
fn test_encode() {
    assert_eq!(encode(0), "0");
    assert_eq!(encode(34441886726), "base62");
}

#[test]
fn test_decode() {
    assert_eq!(decode("0"), Some(0));
    assert_eq!(decode("1"), Some(1));
    assert_eq!(decode("10"), Some(62));
    assert_eq!(decode("zz"), Some(3843));
}

#[test]
fn round_trip_values() {
    for x in [
        0u128,
        1,
        61,
        62,
        63,
        3843,
        34441886726,
        u64::MAX as u128,
        u128::MAX - 1,
        u128::MAX,
    ] {
        assert_eq!(decode(&encode(x)), Some(x));
    }
}

#[test]
fn decode_rejects_long_input() {
    // 23 characters, all from the alphabet.
    assert_eq!(decode("00000000000000000000000"), None);
}

#[test]
fn decode_rejects_foreign_characters() {
    assert_eq!(decode("ab!"), None);
    assert_eq!(decode("a b"), None);
    assert_eq!(decode("caf\u{e9}"), None);
    assert_eq!(decode("-1"), None);
    assert_eq!(decode("1."), None);
}

#[test]
fn decode_rejects_overflow() {
    // 22 times 'z' stands for 62^22 - 1, which exceeds 128 bits.
    assert_eq!(decode("zzzzzzzzzzzzzzzzzzzzzz"), None);
    // The largest 128-bit value itself still decodes.
    let top = encode(u128::MAX);
    assert_eq!(decode(&top), Some(u128::MAX));
}

#[test]
fn decode_of_empty_is_zero() {
    // The empty string carries no digits and accumulates to 0, as in the
    // digit-by-digit reading; only encode(0) is the canonical "0".
    assert_eq!(decode(""), Some(0));
}

#[test]
fn id_bytes_big_endian() {
    let mut b = [0u8; 16];
    b[15] = 1;
    assert_eq!(id_from_bytes(&b), 1);
    let mut c = [0u8; 16];
    c[14] = 1;
    assert_eq!(id_from_bytes(&c), 256);
    let top = [0xffu8; 16];
    assert_eq!(id_from_bytes(&top), u128::MAX);
}

#[test]
fn label_of_uuid_bytes() {
    let mut b = [0u8; 16];
    b[15] = 62;
    assert_eq!(uuid_to_label(&b), "10");
    let z = [0u8; 16];
    assert_eq!(uuid_to_label(&z), "0");
}
