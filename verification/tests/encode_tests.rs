use asn1_aper::buffer::{AperCodecData, BitString};
use asn1_aper::encode::{
    encode_bitstring, encode_bool, encode_integer, encode_length_determinent,
    encode_octetstring, encode_visible_string,
};

fn bits_from(vals: &[bool]) -> BitString {
    let mut b = BitString::new();
    for v in vals {
        b.push(*v);
    }
    b
}

#[test]
fn encode_bool_always_success() {
    let mut data = AperCodecData::new();

    let result = encode_bool(&mut data, true);
    assert!(result.is_ok());
    assert_eq!(data.bit_len(), 1);
    assert_eq!(data.bit_at(0), true);
}

#[test]
fn int_too_small() {
    assert!(encode_integer(&mut AperCodecData::new(), Some(1), None, false, 0, false).is_err());
}

#[test]
fn int_too_big() {
    assert!(encode_integer(
        &mut AperCodecData::new(),
        Some(-1),
        Some(0),
        false,
        1,
        false
    )
    .is_err());
}

#[test]
fn octetstring_too_small() {
    assert!(encode_octetstring(
        &mut AperCodecData::new(),
        Some(2),
        None,
        false,
        &vec![0],
        false
    )
    .is_err());
}

#[test]
fn octetstring_too_big() {
    assert!(encode_octetstring(
        &mut AperCodecData::new(),
        None,
        Some(1),
        false,
        &vec![0, 0],
        false
    )
    .is_err());
}

#[test]
fn string_too_small() {
    assert!(encode_visible_string(
        &mut AperCodecData::new(),
        Some(2),
        None,
        false,
        &"a".to_string(),
        false
    )
    .is_err());
}

#[test]
fn string_too_big() {
    assert!(encode_visible_string(
        &mut AperCodecData::new(),
        None,
        Some(1),
        false,
        &"aa".to_string(),
        false
    )
    .is_err());
}

#[test]
fn length_too_small() {
    assert!(
        encode_length_determinent(&mut AperCodecData::new(), Some(2), None, false, 1,).is_err()
    );
}

#[test]
fn length_too_big() {
    assert!(
        encode_length_determinent(&mut AperCodecData::new(), None, Some(1), false, 2,).is_err()
    );
}

#[test]
fn bitstring_too_small() {
    assert!(encode_bitstring(
        &mut AperCodecData::new(),
        Some(2),
        None,
        false,
        &bits_from(&[false]),
        false
    )
    .is_err());
}

#[test]
fn bitstring_too_big() {
    assert!(encode_bitstring(
        &mut AperCodecData::new(),
        None,
        Some(1),
        false,
        &bits_from(&[false, false]),
        false
    )
    .is_err());
}

#[test]
fn bool_true_is_one_high_bit() {
    let mut data = AperCodecData::new();
    encode_bool(&mut data, true).unwrap();
    assert_eq!(data.bit_len(), 1);
    assert_eq!(data.into_bytes(), vec![0x80]);
}

#[test]
fn constrained_one_octet_exact_bytes() {
    // range 255 -> exactly 8 bits, unaligned.
    let mut data = AperCodecData::new();
    encode_integer(&mut data, Some(0), Some(255), false, 7, false).unwrap();
    assert_eq!(data.bit_len(), 8);
    assert_eq!(data.into_bytes(), vec![0x07]);
}

#[test]
fn constrained_small_range_is_bit_packed() {
    // range 7 -> 3 bits, no padding.
    let mut data = AperCodecData::new();
    encode_integer(&mut data, Some(0), Some(7), false, 5, false).unwrap();
    assert_eq!(data.bit_len(), 3);
    assert_eq!(data.into_bytes(), vec![0xA0]);
}

#[test]
fn constrained_two_octets_exact_bytes() {
    // range 65535 -> 16 bits, aligned to an octet boundary (no-op here).
    let mut data = AperCodecData::new();
    encode_integer(&mut data, Some(0), Some(65535), false, 0x1234, false).unwrap();
    assert_eq!(data.into_bytes(), vec![0x12, 0x34]);
}

#[test]
fn unconstrained_minus_one_exact_bytes() {
    // one length octet, then the minimal two's-complement octet 0xFF.
    let mut data = AperCodecData::new();
    encode_integer(&mut data, None, None, false, -1, false).unwrap();
    assert_eq!(data.into_bytes(), vec![0x01, 0xFF]);
}

#[test]
fn semi_constrained_exact_bytes() {
    // value 257 above lower bound 1: offset 256 takes two octets.
    let mut data = AperCodecData::new();
    encode_integer(&mut data, Some(1), None, false, 257, false).unwrap();
    assert_eq!(data.into_bytes(), vec![0x02, 0x01, 0x00]);
}

#[test]
fn octetstring_aligns_above_two_octets() {
    // a leading bit, then a three-octet string: the length determinant is
    // aligned, and the content starts on an octet boundary.
    let mut data = AperCodecData::new();
    encode_bool(&mut data, true).unwrap();
    encode_octetstring(&mut data, None, None, false, &vec![0xAB, 0xCD, 0xEF], false).unwrap();
    assert_eq!(data.bit_len() % 8, 0);
    assert_eq!(data.into_bytes(), vec![0x80, 0x03, 0xAB, 0xCD, 0xEF]);
}

#[test]
fn short_bitstring_stays_unaligned() {
    // four content bits follow the one-octet length determinant directly.
    let mut data = AperCodecData::new();
    encode_bitstring(
        &mut data,
        None,
        None,
        false,
        &bits_from(&[true, false, true, false]),
        false,
    )
    .unwrap();
    assert_eq!(data.bit_len(), 12);
    assert_eq!(data.into_bytes(), vec![0x04, 0xA0]);
}

#[test]
fn long_bitstring_content_is_aligned() {
    let mut bits = Vec::new();
    for i in 0..17 {
        bits.push(i % 2 == 0);
    }
    let mut data = AperCodecData::new();
    encode_bool(&mut data, true).unwrap();
    encode_bitstring(&mut data, None, None, false, &bits_from(&bits), false).unwrap();
    // 1 marker bit, 7 pad bits, 8 length bits, then 17 content bits.
    assert_eq!(data.bit_len(), 16 + 17);
}

#[test]
fn length_determinant_two_octet_form() {
    let mut data = AperCodecData::new();
    encode_length_determinent(&mut data, None, None, false, 200).unwrap();
    assert_eq!(data.into_bytes(), vec![0x80, 0xC8]);
}

#[test]
fn fragmented_octetstring_rejected() {
    let big = vec![0u8; 16384];
    let r = encode_octetstring(&mut AperCodecData::new(), None, None, false, &big, false);
    assert!(r.is_err());
    assert_eq!(
        r.unwrap_err().kind,
        asn1_aper::AperCodecErrorKind::NotImplemented
    );
}

#[test]
fn extended_integer_rejected() {
    let r = encode_integer(&mut AperCodecData::new(), Some(0), Some(7), true, 5, true);
    assert!(r.is_err());
    assert_eq!(
        r.unwrap_err().kind,
        asn1_aper::AperCodecErrorKind::NotImplemented
    );
}

#[test]
fn normally_small_length_rejected() {
    let r = encode_length_determinent(&mut AperCodecData::new(), None, None, true, 5);
    assert!(r.is_err());
    assert_eq!(
        r.unwrap_err().kind,
        asn1_aper::AperCodecErrorKind::NotImplemented
    );
}

#[test]
fn bounds_error_carries_value_and_bound() {
    let r = encode_integer(&mut AperCodecData::new(), Some(10), None, false, 3, false);
    match r.unwrap_err().kind {
        asn1_aper::AperCodecErrorKind::BelowLowerBound { value, bound } => {
            assert_eq!(value, 3);
            assert_eq!(bound, 10);
        }
        k => panic!("unexpected error kind: {:?}", k),
    }
    let r = encode_integer(&mut AperCodecData::new(), None, Some(2), false, 3, false);
    match r.unwrap_err().kind {
        asn1_aper::AperCodecErrorKind::AboveUpperBound { value, bound } => {
            assert_eq!(value, 3);
            assert_eq!(bound, 2);
        }
        k => panic!("unexpected error kind: {:?}", k),
    }
}
