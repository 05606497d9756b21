//! The public APER decoders: each reads exactly the bits its encoder wrote,
//! computing every width from the declared constraints alone.
use crate::buffer::{bv_bits, AperCodecData, BitString};
use crate::error::{AperCodecError, AperCodecErrorKind};
use crate::internal::{
    decode_constrained_whole_number, decode_indefinite_length_determinent,
    decode_semi_constrained_whole_number, decode_unconstrained_whole_number,
};
use crate::bits::{bits_to_u, pad_len};
use crate::model::{
    bits_to_bytes, dec_bitstring, dec_constrained, dec_indefinite_len, dec_integer,
    dec_length_det, dec_octetstring, dec_string_bytes, lemma_bits_to_bytes_of_bytes_to_bits,
    meets_upper,
};
use vstd::prelude::*;
use vstd::string::StringSliceAdditionalSpecFns;
use vstd::utf8::{encode_utf8, valid_utf8};

verus! {

/// The cursor position after an optional extension-marker bit.
pub open spec fn ext_off(off: nat, is_extensible: bool) -> nat {
    if is_extensible {
        off + 1
    } else {
        off
    }
}

/// Did the optional extension-marker read succeed with a `0` (not extended)
/// marker?
pub open spec fn ext_ok(s: Seq<bool>, off: nat, is_extensible: bool) -> bool {
    is_extensible ==> off < s.len() && s[off as int] == false
}

/// Reads the extension-marker bit when the construct is extensible; an
/// extended value is rejected as not implemented.
fn read_ext_marker(data: &mut AperCodecData, is_extensible: bool) -> (r: Result<
    (),
    AperCodecError,
>)
    requires
        old(data).wf(),
    ensures
        final(data).wf(),
        final(data).bit_seq() == old(data).bit_seq(),
        r.is_ok() <==> ext_ok(old(data).bit_seq(), old(data).offset(), is_extensible),
        r.is_ok() ==> final(data).offset() == ext_off(old(data).offset(), is_extensible),
        r matches Err(e) ==> (e.kind == AperCodecErrorKind::BufferTooShort || e.kind
            == AperCodecErrorKind::NotImplemented),
{
    if is_extensible {
        let b = match data.read_bit() {
            Ok(b) => b,
            Err(e) => {
                return Err(e);
            },
        };
        if b {
            return Err(
                AperCodecError::new(AperCodecErrorKind::NotImplemented, "extended value"),
            );
        }
    }
    Ok(())
}

/// Decodes a BOOLEAN value: consumes exactly one bit.
pub fn decode_bool(data: &mut AperCodecData) -> (r: Result<bool, AperCodecError>)
    requires
        old(data).wf(),
    ensures
        final(data).wf(),
        final(data).bit_seq() == old(data).bit_seq(),
        r.is_ok() <==> old(data).remaining() >= 1,
        r matches Ok(b) ==> b == old(data).bit_seq()[old(data).offset() as int]
            && final(data).offset() == old(data).offset() + 1,
        r matches Err(e) ==> e.kind == AperCodecErrorKind::BufferTooShort,
{
    data.read_bit()
}

/// Decodes an INTEGER: the regime and every width mirror the encoder's
/// arithmetic on the same bounds.
pub fn decode_integer(
    data: &mut AperCodecData,
    lb: Option<i128>,
    ub: Option<i128>,
    is_extensible: bool,
) -> (r: Result<i128, AperCodecError>)
    requires
        old(data).wf(),
        (match (lb, ub) {
            (Some(l), Some(u)) => l <= u,
            _ => true,
        }),
    ensures
        final(data).wf(),
        final(data).bit_seq() == old(data).bit_seq(),
        r matches Ok(v) ==> ext_ok(old(data).bit_seq(), old(data).offset(), is_extensible)
            && dec_integer(
            old(data).bit_seq(),
            ext_off(old(data).offset(), is_extensible),
            lb,
            ub,
        ) == Some((v as int, final(data).offset())),
        r.is_ok() <==> ext_ok(old(data).bit_seq(), old(data).offset(), is_extensible) && ({
            let s = old(data).bit_seq();
            let off = ext_off(old(data).offset(), is_extensible);
            match (lb, ub) {
                (None, _) => (match dec_indefinite_len(s, off) {
                    Some(p) => 1 <= p.0 <= 16 && p.1 + 8 * p.0 <= s.len(),
                    None => false,
                }),
                (Some(l), None) => (match dec_indefinite_len(s, off) {
                    Some(p) => p.0 <= 16 && p.1 + 8 * p.0 <= s.len() && l + bits_to_u(
                        s.subrange(p.1 as int, (p.1 + 8 * p.0) as int),
                    ) <= i128::MAX,
                    None => false,
                }),
                (Some(l), Some(u)) => (match dec_constrained(s, off, l as int, u as int) {
                    Some(p) => p.0 <= u,
                    None => false,
                }),
            }
        }),
{
    match read_ext_marker(data, is_extensible) {
        Ok(u) => u,
        Err(e) => {
            return Err(e);
        },
    };
    match (lb, ub) {
        (None, _) => decode_unconstrained_whole_number(data),
        (Some(l), None) => decode_semi_constrained_whole_number(data, l),
        (Some(l), Some(u)) => decode_constrained_whole_number(data, l, u),
    }
}

/// Decodes an ENUMERATED value: its ordinal, as the integer decoder reads
/// it.
pub fn decode_enumerated(
    data: &mut AperCodecData,
    lb: Option<i128>,
    ub: Option<i128>,
    is_extensible: bool,
) -> (r: Result<i128, AperCodecError>)
    requires
        old(data).wf(),
        (match (lb, ub) {
            (Some(l), Some(u)) => l <= u,
            _ => true,
        }),
    ensures
        final(data).wf(),
        final(data).bit_seq() == old(data).bit_seq(),
        r matches Ok(v) ==> ext_ok(old(data).bit_seq(), old(data).offset(), is_extensible)
            && dec_integer(
            old(data).bit_seq(),
            ext_off(old(data).offset(), is_extensible),
            lb,
            ub,
        ) == Some((v as int, final(data).offset())),
        r.is_ok() <==> ext_ok(old(data).bit_seq(), old(data).offset(), is_extensible) && ({
            let s = old(data).bit_seq();
            let off = ext_off(old(data).offset(), is_extensible);
            match (lb, ub) {
                (None, _) => (match dec_indefinite_len(s, off) {
                    Some(p) => 1 <= p.0 <= 16 && p.1 + 8 * p.0 <= s.len(),
                    None => false,
                }),
                (Some(l), None) => (match dec_indefinite_len(s, off) {
                    Some(p) => p.0 <= 16 && p.1 + 8 * p.0 <= s.len() && l + bits_to_u(
                        s.subrange(p.1 as int, (p.1 + 8 * p.0) as int),
                    ) <= i128::MAX,
                    None => false,
                }),
                (Some(l), Some(u)) => (match dec_constrained(s, off, l as int, u as int) {
                    Some(p) => p.0 <= u,
                    None => false,
                }),
            }
        }),
{
    match read_ext_marker(data, is_extensible) {
        Ok(u) => u,
        Err(e) => {
            return Err(e);
        },
    };
    decode_integer(data, lb, ub, false)
}

/// Decodes a CHOICE index: a constrained whole number over the variant
/// ordinal range.
pub fn decode_choice_idx(
    data: &mut AperCodecData,
    lb: i128,
    ub: i128,
    is_extensible: bool,
) -> (r: Result<i128, AperCodecError>)
    requires
        old(data).wf(),
        lb <= ub,
    ensures
        final(data).wf(),
        final(data).bit_seq() == old(data).bit_seq(),
        r matches Ok(v) ==> ext_ok(old(data).bit_seq(), old(data).offset(), is_extensible)
            && dec_constrained(
            old(data).bit_seq(),
            ext_off(old(data).offset(), is_extensible),
            lb as int,
            ub as int,
        ) == Some((v as int, final(data).offset())) && lb <= v <= ub,
        r.is_ok() <==> ext_ok(old(data).bit_seq(), old(data).offset(), is_extensible) && (match
            dec_constrained(
            old(data).bit_seq(),
            ext_off(old(data).offset(), is_extensible),
            lb as int,
            ub as int,
        ) {
            Some(p) => p.0 <= ub,
            None => false,
        }),
{
    match read_ext_marker(data, is_extensible) {
        Ok(u) => u,
        Err(e) => {
            return Err(e);
        },
    };
    decode_constrained_whole_number(data, lb, ub)
}

/// Decodes a sequence header: the optional extension marker, then the
/// presence bitmap, whose width is fixed by the type definition.
pub fn decode_sequence_header(
    data: &mut AperCodecData,
    is_extensible: bool,
    optional_count: usize,
) -> (r: Result<BitString, AperCodecError>)
    requires
        old(data).wf(),
    ensures
        final(data).wf(),
        final(data).bit_seq() == old(data).bit_seq(),
        r matches Ok(bm) ==> ext_ok(old(data).bit_seq(), old(data).offset(), is_extensible)
            && bv_bits(bm) == old(data).bit_seq().subrange(
            ext_off(old(data).offset(), is_extensible) as int,
            ext_off(old(data).offset(), is_extensible) + optional_count as int,
        ) && final(data).offset() == ext_off(old(data).offset(), is_extensible) + optional_count,
        r.is_ok() <==> ext_ok(old(data).bit_seq(), old(data).offset(), is_extensible) && ext_off(
            old(data).offset(),
            is_extensible,
        ) + optional_count <= old(data).bit_seq().len(),
{
    match read_ext_marker(data, is_extensible) {
        Ok(u) => u,
        Err(e) => {
            return Err(e);
        },
    };
    data.read_bits(optional_count)
}

/// Decodes a length determinant: constrained below an upper bound of 65536,
/// indefinite otherwise; the normally-small form is rejected as it is on
/// the encode path.
pub fn decode_length_determinent(
    data: &mut AperCodecData,
    lb: Option<i128>,
    ub: Option<i128>,
    normally_small: bool,
) -> (r: Result<usize, AperCodecError>)
    requires
        old(data).wf(),
        crate::model::length_bounds_wf(lb, ub),
    ensures
        final(data).wf(),
        final(data).bit_seq() == old(data).bit_seq(),
        r matches Ok(v) ==> !normally_small && dec_length_det(
            old(data).bit_seq(),
            old(data).offset(),
            lb,
            ub,
        ) == Some((v as int, final(data).offset())),
        r.is_ok() <==> !normally_small && (match dec_length_det(
            old(data).bit_seq(),
            old(data).offset(),
            lb,
            ub,
        ) {
            Some(p) => 0 <= p.0 && meets_upper(p.0, ub),
            None => false,
        }),
{
    if normally_small {
        return Err(
            AperCodecError::new(AperCodecErrorKind::NotImplemented, "normally-small length"),
        );
    }
    let constrained = match ub {
        Some(u) => u < 65536,
        None => false,
    };
    if constrained {
        let u = match ub {
            Some(u) => u,
            None => 0,
        };
        let l = match lb {
            Some(l) => l,
            None => 0,
        };
        let v = match decode_constrained_whole_number(data, l, u) {
            Ok(v) => v,
            Err(e) => {
                return Err(e);
            },
        };
        if v < 0 {
            return Err(
                AperCodecError::new(AperCodecErrorKind::InvalidData, "negative length"),
            );
        }
        Ok(v as usize)
    } else {
        decode_indefinite_length_determinent(data)
    }
}

/// Decodes a BIT STRING: the bit count, alignment for counts above 16, then
/// the content bits; counts of 16384 or more would need fragmentation and
/// are rejected.
pub fn decode_bitstring(
    data: &mut AperCodecData,
    lb: Option<i128>,
    ub: Option<i128>,
    is_extensible: bool,
) -> (r: Result<BitString, AperCodecError>)
    requires
        old(data).wf(),
        crate::model::length_bounds_wf(lb, ub),
    ensures
        final(data).wf(),
        final(data).bit_seq() == old(data).bit_seq(),
        r matches Ok(bv) ==> ext_ok(old(data).bit_seq(), old(data).offset(), is_extensible)
            && (match dec_bitstring(
            old(data).bit_seq(),
            ext_off(old(data).offset(), is_extensible),
            lb,
            ub,
        ) {
            Some(p) => bv_bits(bv) == p.0 && final(data).offset() == p.1 && p.0.len() < 16384,
            None => false,
        }),
        r.is_ok() <==> ext_ok(old(data).bit_seq(), old(data).offset(), is_extensible) && ({
            let s = old(data).bit_seq();
            let off = ext_off(old(data).offset(), is_extensible);
            match dec_length_det(s, off, lb, ub) {
                Some(p) => 0 <= p.0 < 16384 && meets_upper(p.0, ub) && (p.0 == 0 || ({
                    let start = if p.0 > 16 {
                        p.1 + pad_len(p.1)
                    } else {
                        p.1
                    };
                    start + p.0 <= s.len()
                })),
                None => false,
            }
        }),
{
    match read_ext_marker(data, is_extensible) {
        Ok(u) => u,
        Err(e) => {
            return Err(e);
        },
    };
    let length = match decode_length_determinent(data, lb, ub, false) {
        Ok(l) => l,
        Err(e) => {
            return Err(e);
        },
    };
    if length >= 16384 {
        return Err(
            AperCodecError::new(AperCodecErrorKind::NotImplemented, "fragmented bitstring"),
        );
    }
    if length == 0 {
        let ghost s = old(data).bit_seq();
        proof {
            assert(s.subrange(data.offset() as int, data.offset() as int) =~= Seq::<
                bool,
            >::empty());
        }
        return Ok(BitString::new());
    }
    if length > 16 {
        match data.decode_align() {
            Ok(u) => u,
            Err(e) => {
                return Err(e);
            },
        };
    }
    data.read_bits(length)
}

/// Decodes an OCTET STRING: the octet count, alignment for counts above 2,
/// then the octets; counts of 16384 or more would need fragmentation and
/// are rejected.
pub fn decode_octetstring(
    data: &mut AperCodecData,
    lb: Option<i128>,
    ub: Option<i128>,
    is_extensible: bool,
) -> (r: Result<Vec<u8>, AperCodecError>)
    requires
        old(data).wf(),
        crate::model::length_bounds_wf(lb, ub),
    ensures
        final(data).wf(),
        final(data).bit_seq() == old(data).bit_seq(),
        r matches Ok(v) ==> ext_ok(old(data).bit_seq(), old(data).offset(), is_extensible)
            && (match dec_octetstring(
            old(data).bit_seq(),
            ext_off(old(data).offset(), is_extensible),
            lb,
            ub,
        ) {
            Some(p) => v@ == p.0 && final(data).offset() == p.1 && p.0.len() < 16384,
            None => false,
        }),
        r.is_ok() <==> ext_ok(old(data).bit_seq(), old(data).offset(), is_extensible) && ({
            let s = old(data).bit_seq();
            let off = ext_off(old(data).offset(), is_extensible);
            match dec_length_det(s, off, lb, ub) {
                Some(p) => 0 <= p.0 < 16384 && meets_upper(p.0, ub) && (p.0 == 0 || ({
                    let start = if p.0 > 2 {
                        p.1 + pad_len(p.1)
                    } else {
                        p.1
                    };
                    start + 8 * p.0 <= s.len()
                })),
                None => false,
            }
        }),
{
    match read_ext_marker(data, is_extensible) {
        Ok(u) => u,
        Err(e) => {
            return Err(e);
        },
    };
    let length = match decode_length_determinent(data, lb, ub, false) {
        Ok(l) => l,
        Err(e) => {
            return Err(e);
        },
    };
    if length >= 16384 {
        return Err(
            AperCodecError::new(AperCodecErrorKind::NotImplemented, "fragmented octetstring"),
        );
    }
    if length == 0 {
        let empty: Vec<u8> = Vec::new();
        proof {
            assert(empty@ =~= Seq::<u8>::empty());
        }
        return Ok(empty);
    }
    if length > 2 {
        match data.decode_align() {
            Ok(u) => u,
            Err(e) => {
                return Err(e);
            },
        };
    }
    let ghost start = data.offset();
    let bytes = match data.read_bytes(length) {
        Ok(b) => b,
        Err(e) => {
            return Err(e);
        },
    };
    proof {
        lemma_bits_to_bytes_of_bytes_to_bits(bytes@);
    }
    Ok(bytes)
}

/// Relies on std's `String::from_utf8`: it succeeds exactly on valid UTF-8
/// input and preserves the bytes.
#[verifier::external_body]
fn string_from_utf8(bytes: Vec<u8>) -> (r: Result<String, AperCodecError>)
    ensures
        r.is_ok() <==> valid_utf8(bytes@),
        r matches Ok(s) ==> encode_utf8(s@) == bytes@,
        r matches Err(e) ==> e.kind == AperCodecErrorKind::InvalidData,
{
    match String::from_utf8(bytes) {
        Ok(s) => Ok(s),
        Err(_) => Err(AperCodecError::new(AperCodecErrorKind::InvalidData, "string bytes")),
    }
}

/// The shared character-string decoder: the byte count, alignment for
/// counts above 2, then that many bytes read back as a string.
fn decode_string(
    data: &mut AperCodecData,
    lb: Option<i128>,
    ub: Option<i128>,
    is_extensible: bool,
) -> (r: Result<String, AperCodecError>)
    requires
        old(data).wf(),
        crate::model::length_bounds_wf(lb, ub),
    ensures
        final(data).wf(),
        final(data).bit_seq() == old(data).bit_seq(),
        r matches Ok(v) ==> ext_ok(old(data).bit_seq(), old(data).offset(), is_extensible)
            && (match dec_string_bytes(
            old(data).bit_seq(),
            ext_off(old(data).offset(), is_extensible),
            lb,
            ub,
        ) {
            Some(p) => encode_utf8(v@) == p.0 && valid_utf8(p.0) && final(data).offset() == p.1,
            None => false,
        }),
        r.is_ok() <==> ext_ok(old(data).bit_seq(), old(data).offset(), is_extensible) && ({
            let s = old(data).bit_seq();
            let off = ext_off(old(data).offset(), is_extensible);
            match dec_length_det(s, off, lb, ub) {
                Some(p) => 0 <= p.0 && meets_upper(p.0, ub) && ({
                    let start = if p.0 > 2 {
                        p.1 + pad_len(p.1)
                    } else {
                        p.1
                    };
                    start + 8 * p.0 <= s.len() && valid_utf8(
                        bits_to_bytes(s.subrange(start as int, (start + 8 * p.0) as int)),
                    )
                }),
                None => false,
            }
        }),
{
    match read_ext_marker(data, is_extensible) {
        Ok(u) => u,
        Err(e) => {
            return Err(e);
        },
    };
    let length = match decode_length_determinent(data, lb, ub, false) {
        Ok(l) => l,
        Err(e) => {
            return Err(e);
        },
    };
    if length > 2 {
        match data.decode_align() {
            Ok(u) => u,
            Err(e) => {
                return Err(e);
            },
        };
    }
    let bytes = match data.read_bytes(length) {
        Ok(b) => b,
        Err(e) => {
            return Err(e);
        },
    };
    proof {
        lemma_bits_to_bytes_of_bytes_to_bits(bytes@);
    }
    string_from_utf8(bytes)
}

/// Decodes a VisibleString; the permitted-alphabet check is out of scope.
pub fn decode_visible_string(
    data: &mut AperCodecData,
    lb: Option<i128>,
    ub: Option<i128>,
    is_extensible: bool,
) -> (r: Result<String, AperCodecError>)
    requires
        old(data).wf(),
        crate::model::length_bounds_wf(lb, ub),
    ensures
        final(data).wf(),
        final(data).bit_seq() == old(data).bit_seq(),
        r matches Ok(v) ==> ext_ok(old(data).bit_seq(), old(data).offset(), is_extensible)
            && (match dec_string_bytes(
            old(data).bit_seq(),
            ext_off(old(data).offset(), is_extensible),
            lb,
            ub,
        ) {
            Some(p) => encode_utf8(v@) == p.0 && final(data).offset() == p.1,
            None => false,
        }),
        r.is_ok() <==> ext_ok(old(data).bit_seq(), old(data).offset(), is_extensible) && ({
            let s = old(data).bit_seq();
            let off = ext_off(old(data).offset(), is_extensible);
            match dec_length_det(s, off, lb, ub) {
                Some(p) => 0 <= p.0 && meets_upper(p.0, ub) && ({
                    let start = if p.0 > 2 {
                        p.1 + pad_len(p.1)
                    } else {
                        p.1
                    };
                    start + 8 * p.0 <= s.len() && valid_utf8(
                        bits_to_bytes(s.subrange(start as int, (start + 8 * p.0) as int)),
                    )
                }),
                None => false,
            }
        }),
{
    decode_string(data, lb, ub, is_extensible)
}

/// Decodes a PrintableString: identical wire shape to the other character
/// strings.
pub fn decode_printable_string(
    data: &mut AperCodecData,
    lb: Option<i128>,
    ub: Option<i128>,
    is_extensible: bool,
) -> (r: Result<String, AperCodecError>)
    requires
        old(data).wf(),
        crate::model::length_bounds_wf(lb, ub),
    ensures
        final(data).wf(),
        final(data).bit_seq() == old(data).bit_seq(),
        r matches Ok(v) ==> ext_ok(old(data).bit_seq(), old(data).offset(), is_extensible)
            && (match dec_string_bytes(
            old(data).bit_seq(),
            ext_off(old(data).offset(), is_extensible),
            lb,
            ub,
        ) {
            Some(p) => encode_utf8(v@) == p.0 && final(data).offset() == p.1,
            None => false,
        }),
        r.is_ok() <==> ext_ok(old(data).bit_seq(), old(data).offset(), is_extensible) && ({
            let s = old(data).bit_seq();
            let off = ext_off(old(data).offset(), is_extensible);
            match dec_length_det(s, off, lb, ub) {
                Some(p) => 0 <= p.0 && meets_upper(p.0, ub) && ({
                    let start = if p.0 > 2 {
                        p.1 + pad_len(p.1)
                    } else {
                        p.1
                    };
                    start + 8 * p.0 <= s.len() && valid_utf8(
                        bits_to_bytes(s.subrange(start as int, (start + 8 * p.0) as int)),
                    )
                }),
                None => false,
            }
        }),
{
    decode_string(data, lb, ub, is_extensible)
}

/// Decodes a UTF8String: identical wire shape to the other character
/// strings.
pub fn decode_utf8_string(
    data: &mut AperCodecData,
    lb: Option<i128>,
    ub: Option<i128>,
    is_extensible: bool,
) -> (r: Result<String, AperCodecError>)
    requires
        old(data).wf(),
        crate::model::length_bounds_wf(lb, ub),
    ensures
        final(data).wf(),
        final(data).bit_seq() == old(data).bit_seq(),
        r matches Ok(v) ==> ext_ok(old(data).bit_seq(), old(data).offset(), is_extensible)
            && (match dec_string_bytes(
            old(data).bit_seq(),
            ext_off(old(data).offset(), is_extensible),
            lb,
            ub,
        ) {
            Some(p) => encode_utf8(v@) == p.0 && final(data).offset() == p.1,
            None => false,
        }),
        r.is_ok() <==> ext_ok(old(data).bit_seq(), old(data).offset(), is_extensible) && ({
            let s = old(data).bit_seq();
            let off = ext_off(old(data).offset(), is_extensible);
            match dec_length_det(s, off, lb, ub) {
                Some(p) => 0 <= p.0 && meets_upper(p.0, ub) && ({
                    let start = if p.0 > 2 {
                        p.1 + pad_len(p.1)
                    } else {
                        p.1
                    };
                    start + 8 * p.0 <= s.len() && valid_utf8(
                        bits_to_bytes(s.subrange(start as int, (start + 8 * p.0) as int)),
                    )
                }),
                None => false,
            }
        }),
{
    decode_string(data, lb, ub, is_extensible)
}

} // verus!
