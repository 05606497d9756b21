use asn1_aper::buffer::{AperCodecData, BitString};
use asn1_aper::decode::{
    decode_bitstring, decode_bool, decode_choice_idx, decode_enumerated, decode_integer,
    decode_length_determinent, decode_octetstring, decode_sequence_header, decode_utf8_string,
    decode_visible_string,
};
use asn1_aper::encode::{
    encode_bitstring, encode_bool, encode_choice_idx, encode_enumerated, encode_integer,
    encode_length_determinent, encode_octetstring, encode_sequence_header, encode_utf8_string,
    encode_visible_string,
};
use asn1_aper::AperCodecErrorKind;

fn bits_from(vals: &[bool]) -> BitString {
    let mut b = BitString::new();
    for v in vals {
        b.push(*v);
    }
    b
}

#[test]
fn bool_true_roundtrip_single_bit() {
    let mut data = AperCodecData::new();
    encode_bool(&mut data, true).unwrap();
    assert_eq!(data.bit_len(), 1);
    assert_eq!(decode_bool(&mut data).unwrap(), true);
}

#[test]
fn constrained_integer_roundtrip() {
    for v in [-5i128, 0, 1, 100, 254, 255] {
        let mut data = AperCodecData::new();
        encode_integer(&mut data, Some(-5), Some(255), false, v, false).unwrap();
        assert_eq!(decode_integer(&mut data, Some(-5), Some(255), false).unwrap(), v);
    }
}

#[test]
fn constrained_integer_roundtrip_wide_range() {
    for v in [0i128, 255, 256, 40000, 65535, 1000000] {
        let mut data = AperCodecData::new();
        encode_integer(&mut data, Some(0), Some(1000000), false, v, false).unwrap();
        assert_eq!(decode_integer(&mut data, Some(0), Some(1000000), false).unwrap(), v);
    }
}

#[test]
fn degenerate_range_takes_no_bits() {
    let mut data = AperCodecData::new();
    encode_integer(&mut data, Some(42), Some(42), false, 42, false).unwrap();
    assert_eq!(data.bit_len(), 0);
    assert_eq!(decode_integer(&mut data, Some(42), Some(42), false).unwrap(), 42);
}

#[test]
fn semi_constrained_integer_roundtrip() {
    for v in [7i128, 8, 300, 70000] {
        let mut data = AperCodecData::new();
        encode_integer(&mut data, Some(7), None, false, v, false).unwrap();
        assert_eq!(decode_integer(&mut data, Some(7), None, false).unwrap(), v);
    }
}

#[test]
fn unconstrained_integer_roundtrip() {
    for v in [0i128, 1, -1, 127, -128, 128, -129, 65535, -65536, i128::MAX, i128::MIN] {
        let mut data = AperCodecData::new();
        encode_integer(&mut data, None, None, false, v, false).unwrap();
        assert_eq!(decode_integer(&mut data, None, None, false).unwrap(), v);
    }
}

#[test]
fn extensible_integer_roundtrip() {
    let mut data = AperCodecData::new();
    encode_integer(&mut data, Some(0), Some(7), true, 5, false).unwrap();
    assert_eq!(data.bit_len(), 4);
    assert_eq!(decode_integer(&mut data, Some(0), Some(7), true).unwrap(), 5);
}

#[test]
fn enumerated_roundtrip() {
    let mut data = AperCodecData::new();
    encode_enumerated(&mut data, Some(0), Some(7), false, 5, false).unwrap();
    assert_eq!(data.bit_len(), 3);
    assert_eq!(decode_enumerated(&mut data, Some(0), Some(7), false).unwrap(), 5);
}

#[test]
fn choice_idx_roundtrip_with_marker() {
    let mut data = AperCodecData::new();
    encode_choice_idx(&mut data, 0, 3, true, 2, false).unwrap();
    assert_eq!(data.bit_len(), 3);
    assert_eq!(decode_choice_idx(&mut data, 0, 3, true).unwrap(), 2);
}

#[test]
fn sequence_header_roundtrip() {
    let mut data = AperCodecData::new();
    encode_sequence_header(&mut data, true, &bits_from(&[true, false]), false).unwrap();
    assert_eq!(data.bit_len(), 3);
    let bm = decode_sequence_header(&mut data, true, 2).unwrap();
    assert_eq!(bm.len(), 2);
    assert_eq!(bm.bit_at(0), true);
    assert_eq!(bm.bit_at(1), false);
}

#[test]
fn length_determinant_roundtrip_three_regimes() {
    // constrained regime: ub below 65536
    for v in [0usize, 1, 42, 65535] {
        let mut data = AperCodecData::new();
        encode_length_determinent(&mut data, Some(0), Some(65535), false, v).unwrap();
        assert_eq!(
            decode_length_determinent(&mut data, Some(0), Some(65535), false).unwrap(),
            v
        );
    }
    // semi-constrained regime: lower bound only -> indefinite form
    for v in [2usize, 127, 128, 16383] {
        let mut data = AperCodecData::new();
        encode_length_determinent(&mut data, Some(2), None, false, v).unwrap();
        assert_eq!(decode_length_determinent(&mut data, Some(2), None, false).unwrap(), v);
    }
    // unconstrained regime: no bounds -> indefinite form
    for v in [0usize, 127, 128, 200, 16383] {
        let mut data = AperCodecData::new();
        encode_length_determinent(&mut data, None, None, false, v).unwrap();
        assert_eq!(decode_length_determinent(&mut data, None, None, false).unwrap(), v);
    }
}

#[test]
fn octetstring_roundtrip_preserves_content_and_length() {
    for content in [vec![], vec![0xFFu8], vec![1, 2], vec![1, 2, 3], vec![9u8; 300]] {
        let mut data = AperCodecData::new();
        encode_octetstring(&mut data, None, None, false, &content, false).unwrap();
        assert_eq!(decode_octetstring(&mut data, None, None, false).unwrap(), content);
    }
}

#[test]
fn octetstring_roundtrip_with_bounds() {
    let content = vec![5u8, 6, 7];
    let mut data = AperCodecData::new();
    encode_octetstring(&mut data, Some(1), Some(10), false, &content, false).unwrap();
    assert_eq!(
        decode_octetstring(&mut data, Some(1), Some(10), false).unwrap(),
        content
    );
}

#[test]
fn bitstring_roundtrip_preserves_content_and_length() {
    let cases: Vec<Vec<bool>> = vec![
        vec![],
        vec![true],
        vec![true, false, true],
        (0..17).map(|i| i % 3 == 0).collect(),
        (0..100).map(|i| i % 2 == 0).collect(),
    ];
    for content in cases {
        let mut data = AperCodecData::new();
        encode_bitstring(&mut data, None, None, false, &bits_from(&content), false).unwrap();
        let out = decode_bitstring(&mut data, None, None, false).unwrap();
        assert_eq!(out.len(), content.len());
        for (i, b) in content.iter().enumerate() {
            assert_eq!(out.bit_at(i), *b);
        }
    }
}

#[test]
fn visible_string_roundtrip() {
    for s in ["", "a", "ab", "hello world"] {
        let mut data = AperCodecData::new();
        encode_visible_string(&mut data, None, None, false, &s.to_string(), false).unwrap();
        assert_eq!(
            decode_visible_string(&mut data, None, None, false).unwrap(),
            s.to_string()
        );
    }
}

#[test]
fn utf8_string_roundtrip() {
    let s = "héllo".to_string();
    let mut data = AperCodecData::new();
    encode_utf8_string(&mut data, None, None, false, &s, false).unwrap();
    assert_eq!(decode_utf8_string(&mut data, None, None, false).unwrap(), s);
}

#[test]
fn decode_sequence_header_too_short() {
    let mut data = AperCodecData::new();
    match decode_sequence_header(&mut data, false, 3) {
        Err(e) => assert_eq!(e.kind, AperCodecErrorKind::BufferTooShort),
        Ok(_) => panic!("expected a buffer-too-short error"),
    }
}

#[test]
fn decode_choice_idx_too_short() {
    let mut data = AperCodecData::new();
    let r = decode_choice_idx(&mut data, 0, 3, false);
    assert_eq!(r.unwrap_err().kind, AperCodecErrorKind::BufferTooShort);
}

#[test]
fn decode_enumerated_too_short() {
    let mut data = AperCodecData::new();
    let r = decode_enumerated(&mut data, Some(0), Some(7), false);
    assert_eq!(r.unwrap_err().kind, AperCodecErrorKind::BufferTooShort);
}

#[test]
fn decode_string_too_short() {
    // the length determinant promises three bytes; only one follows.
    let mut data = AperCodecData::from_slice(&[0x03, 0x41]);
    let r = decode_visible_string(&mut data, None, None, false);
    assert_eq!(r.unwrap_err().kind, AperCodecErrorKind::BufferTooShort);
}

#[test]
fn decode_empty_buffer_is_too_short() {
    let mut data = AperCodecData::new();
    let r = decode_bool(&mut data);
    assert_eq!(r.unwrap_err().kind, AperCodecErrorKind::BufferTooShort);
}

#[test]
fn decode_fragmented_length_rejected() {
    // a length octet with the two top bits set selects the fragmented form.
    let mut data = AperCodecData::from_slice(&[0xC1]);
    let r = decode_length_determinent(&mut data, None, None, false);
    assert_eq!(r.unwrap_err().kind, AperCodecErrorKind::NotImplemented);
}

#[test]
fn decode_invalid_utf8_rejected() {
    // length 2, then two bytes that are not valid UTF-8.
    let mut data = AperCodecData::from_slice(&[0x02, 0xFF, 0xFF]);
    let r = decode_visible_string(&mut data, None, None, false);
    assert_eq!(r.unwrap_err().kind, AperCodecErrorKind::InvalidData);
}

#[test]
fn decode_extended_marker_rejected() {
    // an extensible integer whose marker bit is set.
    let mut data = AperCodecData::from_slice(&[0x80]);
    let r = decode_integer(&mut data, Some(0), Some(7), true);
    assert_eq!(r.unwrap_err().kind, AperCodecErrorKind::NotImplemented);
}

#[test]
fn from_slice_reads_bits_most_significant_first() {
    let data = AperCodecData::from_slice(&[0xA5]);
    let expect = [true, false, true, false, false, true, false, true];
    for (i, b) in expect.iter().enumerate() {
        assert_eq!(data.bit_at(i), *b);
    }
}

#[test]
fn into_bytes_zero_pads_the_tail() {
    let mut data = AperCodecData::new();
    encode_bool(&mut data, true).unwrap();
    encode_bool(&mut data, true).unwrap();
    encode_bool(&mut data, false).unwrap();
    assert_eq!(data.into_bytes(), vec![0xC0]);
}

#[test]
fn roundtrip_through_wire_bytes() {
    // encode, serialize to bytes, and decode from a fresh buffer over them.
    let mut enc = AperCodecData::new();
    encode_integer(&mut enc, Some(0), Some(255), false, 173, false).unwrap();
    let wire = enc.into_bytes();
    assert_eq!(wire, vec![173]);
    let mut dec = AperCodecData::from_slice(&wire);
    assert_eq!(decode_integer(&mut dec, Some(0), Some(255), false).unwrap(), 173);
}
