use consensus_encoding::MAX_VEC_SIZE;
use consensus_encoding::compact_size::{decode_compact_size, encode_compact_size};
use consensus_encoding::error::Error;
use consensus_encoding::records::{Key, Pair, ProprietaryKey};

fn key_roundtrip(type_value: u64, key_data: Vec<u8>) {
    let key = Key { type_value, key_data };
    let serialized = key.serialize();
    let (deserialized, used) =
        Key::decode(&serialized, 0).expect("roundtrip decode failed");
    assert_eq!(key, deserialized);
    assert_eq!(used, serialized.len());
}

#[test]
fn key_roundtrip_small_type() {
    // type_value = 0x0F uses 1-byte compact size encoding.
    key_roundtrip(0x0F, vec![0xAB, 0xCD]);
}

#[test]
fn key_roundtrip_large_type() {
    // type_value = 0xFD (253) uses 3-byte compact size encoding.
    key_roundtrip(0xFD, vec![0x01, 0x02, 0x03]);
}

#[test]
fn key_roundtrip_very_large_type() {
    // type_value = 0x10000 uses 5-byte compact size encoding.
    key_roundtrip(0x1_0000, vec![0xFF]);
}

#[test]
fn key_roundtrip_boundary_type() {
    // type_value = 0xFC (252) is the last value using 1-byte compact size encoding.
    // 0xFD (253) is the first to use 3-byte encoding. Test the boundary.
    key_roundtrip(0xFC, vec![0x01, 0x02]);
}

#[test]
fn key_decode_keylen_too_short_for_type() {
    // keylen = 1 but the type value starts with the 0xFD prefix, which
    // requires 3 bytes: the declared key length is inconsistent.
    let bytes: Vec<u8> = vec![0x01, 0xFD, 0xFD, 0x00];
    let result = Key::decode(&bytes, 0);
    assert!(result.is_err(), "should fail when keylen is shorter than type encoding");
    assert_eq!(result.unwrap_err(), Error::KeyLengthMismatch);
}

#[test]
fn key_serialize_large_type_has_correct_keylen() {
    // type_value = 0xFD (253) needs 3 bytes for compact size encoding.
    // With 3 bytes of key_data, keylen should be 3 + 3 = 6, not 3 + 1 = 4.
    let key = Key { type_value: 0xFD, key_data: vec![0x01, 0x02, 0x03] };
    let serialized = key.serialize();
    // First byte is keylen encoded as compact size; 6 < 253 so it's a single byte.
    assert_eq!(serialized[0], 6);
}

#[test]
fn key_decode_correctly_encoded_large_type() {
    // Hand-crafted bytes for type_value=0xFD, key_data=[0x01, 0x02, 0x03]:
    //   keylen = 6 (compact size: 0x06)
    //   type_value = 253 (compact size: 0xFD, 0xFD, 0x00)
    //   key_data = [0x01, 0x02, 0x03]
    let bytes: Vec<u8> = vec![0x06, 0xFD, 0xFD, 0x00, 0x01, 0x02, 0x03];
    let (key, used) = Key::decode(&bytes, 0).expect("decode failed");
    assert_eq!(key.type_value, 0xFD);
    assert_eq!(key.key_data, vec![0x01, 0x02, 0x03]);
    // Verify entire input was consumed.
    assert_eq!(used, bytes.len());
}

#[test]
fn key_decode_sentinel_is_no_more_pairs() {
    // A single zero byte is the end-of-map condition, not a parse error.
    let bytes: Vec<u8> = vec![0x00];
    assert_eq!(Key::decode(&bytes, 0).unwrap_err(), Error::NoMorePairs);
}

#[test]
fn key_decode_rejects_non_minimal_keylen() {
    // keylen written as [0xFD, 0xFC, 0x00]: 252 in 3-byte form must fail,
    // embedded at the front of a key.
    let bytes: Vec<u8> = vec![0xFD, 0xFC, 0x00, 0x01, 0x02];
    assert_eq!(Key::decode(&bytes, 0).unwrap_err(), Error::NonMinimal);
}

#[test]
fn key_decode_rejects_oversized_key_data() {
    // Declared key data length of MAX_VEC_SIZE + 1 must fail before any
    // allocation: keylen = MAX_VEC_SIZE + 2, type value one byte.
    let mut bytes = encode_compact_size((MAX_VEC_SIZE as u64) + 2);
    bytes.push(0x07);
    assert_eq!(Key::decode(&bytes, 0).unwrap_err(), Error::OversizedAllocation);
}

#[test]
fn key_decode_truncated_key_data() {
    // keylen = 4, type one byte, but only two of three data bytes present.
    let bytes: Vec<u8> = vec![0x04, 0x07, 0x01, 0x02];
    assert_eq!(Key::decode(&bytes, 0).unwrap_err(), Error::UnexpectedEof);
}

#[test]
fn compact_size_boundary_values() {
    // 0xFC is the last 1-byte value; 0xFD and 0x1_0000 cross into the
    // 3- and 5-byte forms; round trips hold exactly at each boundary.
    let cases: Vec<(u64, usize)> = vec![
        (0x00, 1),
        (0xFC, 1),
        (0xFD, 3),
        (0xFFFF, 3),
        (0x1_0000, 5),
        (0xFFFF_FFFF, 5),
        (0x1_0000_0000, 9),
        (u64::MAX, 9),
    ];
    for (value, len) in cases {
        let encoded = encode_compact_size(value);
        assert_eq!(encoded.len(), len, "encoded length for {value:#x}");
        let (decoded, used) = decode_compact_size(&encoded, 0).expect("boundary roundtrip");
        assert_eq!(decoded, value);
        assert_eq!(used, len);
    }
    assert_eq!(encode_compact_size(0xFD), vec![0xFD, 0xFD, 0x00]);
    assert_eq!(encode_compact_size(0x1_0000), vec![0xFE, 0x00, 0x00, 0x01, 0x00]);
}

#[test]
fn compact_size_rejects_non_minimal_standalone() {
    // Value 252 in 3-byte form must fail on its own.
    let bytes: Vec<u8> = vec![0xFD, 0xFC, 0x00];
    assert_eq!(decode_compact_size(&bytes, 0).unwrap_err(), Error::NonMinimal);
    // So must 0xFFFF in 5-byte form and 0xFFFF_FFFF in 9-byte form.
    let bytes: Vec<u8> = vec![0xFE, 0xFF, 0xFF, 0x00, 0x00];
    assert_eq!(decode_compact_size(&bytes, 0).unwrap_err(), Error::NonMinimal);
    let bytes: Vec<u8> = vec![0xFF, 0xFF, 0xFF, 0xFF, 0xFF, 0x00, 0x00, 0x00, 0x00];
    assert_eq!(decode_compact_size(&bytes, 0).unwrap_err(), Error::NonMinimal);
}

#[test]
fn pair_roundtrip() {
    let pair = Pair {
        key: Key { type_value: 0xFD, key_data: vec![0x01, 0x02] },
        value: vec![0xAA, 0xBB, 0xCC],
    };
    let serialized = pair.serialize();
    let (decoded, used) = Pair::decode(&serialized, 0).expect("pair roundtrip");
    assert_eq!(decoded, pair);
    assert_eq!(used, serialized.len());
    let deserialized = Pair::deserialize(&serialized).expect("pair deserialize");
    assert_eq!(deserialized, pair);
}

#[test]
fn pair_decode_truncated_value_fails() {
    // A valid key then a value announcing 3 bytes with only 1 present.
    let pair = Pair { key: Key { type_value: 1, key_data: vec![0x09] }, value: vec![1, 2, 3] };
    let serialized = pair.serialize();
    let truncated = &serialized[..serialized.len() - 2];
    assert_eq!(Pair::decode(truncated, 0).unwrap_err(), Error::UnexpectedEof);
}

#[test]
fn proprietary_key_roundtrip_through_key() {
    let pk = ProprietaryKey::<u64> { prefix: vec![0x01, 0x02], subtype: 5, key: vec![0x09, 0x08] };
    let key = pk.to_key();
    assert_eq!(key.type_value, 0xFC);
    let back = ProprietaryKey::<u64>::try_from(key).expect("proprietary roundtrip");
    assert_eq!(back.prefix, vec![0x01, 0x02]);
    assert_eq!(back.subtype, 5);
    assert_eq!(back.key, vec![0x09, 0x08]);
}

#[test]
fn proprietary_key_rejects_wrong_type_value() {
    let key = Key { type_value: 0xFB, key_data: vec![0x00] };
    assert_eq!(
        ProprietaryKey::<u64>::try_from(key).unwrap_err(),
        Error::InvalidProprietaryKey
    );
}

#[test]
fn proprietary_key_rejects_oversized_trailing_key() {
    // Trailing key bytes past the 1024-byte cap must fail.
    let pk = ProprietaryKey::<u64> { prefix: vec![], subtype: 0, key: vec![0x55; 1025] };
    let key = pk.to_key();
    assert_eq!(
        ProprietaryKey::<u64>::try_from(key).unwrap_err(),
        Error::OversizedAllocation
    );
}

#[test]
fn proprietary_key_accepts_cap_sized_trailing_key() {
    let pk = ProprietaryKey::<u64> { prefix: vec![0x01], subtype: 300, key: vec![0x55; 1024] };
    let back = ProprietaryKey::<u64>::try_from(pk.to_key()).expect("cap-sized key");
    assert_eq!(back.key.len(), 1024);
    assert_eq!(back.subtype, 300);
}
