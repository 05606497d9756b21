//! The public APER encoders, one per ASN.1 primitive category: each checks
//! its constraints and appends the exact bits the model describes.
use crate::bits::{bytes_to_bits, lemma_bytes_to_bits_len, pad_len, zeros};
use crate::buffer::{bv_bits, max_bits, AperCodecData, BitString};
use crate::error::{AperCodecError, AperCodecErrorKind};
use crate::internal::{
    encode_constrained_whole_number, encode_indefinite_length_determinent,
    encode_semi_constrained_whole_number, encode_unconstrained_whole_number,
};
use crate::model::{
    enc_bitstring, enc_constrained, enc_integer, enc_length_det, enc_octetstring, enc_string,
    ext_prefix, in_bounds, meets_lower, meets_upper,
};
use vstd::prelude::*;
use vstd::string::StringSliceAdditionalSpecFns;
use vstd::utf8::encode_utf8;

verus! {

/// Rejects a value outside the declared bounds, naming the field, the value
/// and the violated bound; the lower bound is checked first.
pub(crate) fn check_bounds(
    value: i128,
    lb: Option<i128>,
    ub: Option<i128>,
    field: &'static str,
) -> (r: Result<(), AperCodecError>)
    ensures
        r.is_ok() <==> in_bounds(value as int, lb, ub),
        r matches Err(e) ==> e.field == field,
        !meets_lower(value as int, lb) ==> (match lb {
            Some(l) => r matches Err(e) && e.kind == (AperCodecErrorKind::BelowLowerBound {
                value,
                bound: l,
            }),
            None => false,
        }),
        meets_lower(value as int, lb) && !meets_upper(value as int, ub) ==> (match ub {
            Some(u) => r matches Err(e) && e.kind == (AperCodecErrorKind::AboveUpperBound {
                value,
                bound: u,
            }),
            None => false,
        }),
{
    if let Some(l) = lb {
        if value < l {
            return Err(
                AperCodecError::new(
                    AperCodecErrorKind::BelowLowerBound { value, bound: l },
                    field,
                ),
            );
        }
    }
    if let Some(u) = ub {
        if value > u {
            return Err(
                AperCodecError::new(
                    AperCodecErrorKind::AboveUpperBound { value, bound: u },
                    field,
                ),
            );
        }
    }
    Ok(())
}

/// Encodes a BOOLEAN value: exactly one bit, `1` for true. Never fails.
pub fn encode_bool(data: &mut AperCodecData, value: bool) -> (r: Result<(), AperCodecError>)
    requires
        old(data).wf(),
        old(data).bit_seq().len() < max_bits(),
    ensures
        final(data).wf(),
        r.is_ok(),
        final(data).bit_seq() == old(data).bit_seq().push(value),
        final(data).offset() == old(data).offset(),
{
    data.encode_bool(value);
    Ok(())
}

/// Encodes an INTEGER: the wire shape is picked by which bounds are
/// declared, and a value outside `[lb, ub]` or an extended value is
/// rejected before any bit is written.
pub fn encode_integer(
    data: &mut AperCodecData,
    lb: Option<i128>,
    ub: Option<i128>,
    is_extensible: bool,
    value: i128,
    extended: bool,
) -> (r: Result<(), AperCodecError>)
    requires
        old(data).wf(),
        old(data).bit_seq().len() + 160 <= max_bits(),
    ensures
        final(data).wf(),
        final(data).offset() == old(data).offset(),
        r.is_ok() <==> in_bounds(value as int, lb, ub) && !extended,
        r.is_ok() ==> final(data).bit_seq() == old(data).bit_seq() + ext_prefix(is_extensible)
            + enc_integer(
            lb,
            ub,
            value as int,
            old(data).bit_seq().len() + ext_prefix(is_extensible).len(),
        ),
        r matches Err(e) ==> final(data).bit_seq() == old(data).bit_seq() && (if !in_bounds(
            value as int,
            lb,
            ub,
        ) {
            e.kind matches AperCodecErrorKind::BelowLowerBound { value: _, bound: _ } || e.kind
                matches AperCodecErrorKind::AboveUpperBound { value: _, bound: _ }
        } else {
            e.kind == AperCodecErrorKind::NotImplemented
        }),
{
    match check_bounds(value, lb, ub, "Integer") {
        Ok(u) => u,
        Err(e) => {
            return Err(e);
        },
    };
    if extended {
        return Err(
            AperCodecError::new(AperCodecErrorKind::NotImplemented, "extended integer"),
        );
    }
    if is_extensible {
        data.encode_bool(extended);
    }
    let ghost mid = data.bit_seq();
    match (lb, ub) {
        (None, _) => encode_unconstrained_whole_number(data, value),
        (Some(l), None) => encode_semi_constrained_whole_number(data, l, value),
        (Some(l), Some(u)) => encode_constrained_whole_number(data, l, u, value),
    }
    proof {
        let e = ext_prefix(is_extensible);
        let tail = enc_integer(lb, ub, value as int, old(data).bit_seq().len() + e.len());
        assert(mid =~= old(data).bit_seq() + e);
        assert((old(data).bit_seq() + e) + tail =~= old(data).bit_seq() + (e + tail));
    }
    Ok(())
}

/// Encodes an ENUMERATED value: its ordinal as a constrained whole number;
/// extended enumerants are rejected.
pub fn encode_enumerated(
    data: &mut AperCodecData,
    lb: Option<i128>,
    ub: Option<i128>,
    is_extensible: bool,
    value: i128,
    extended: bool,
) -> (r: Result<(), AperCodecError>)
    requires
        old(data).wf(),
        old(data).bit_seq().len() + 161 <= max_bits(),
    ensures
        final(data).wf(),
        final(data).offset() == old(data).offset(),
        r.is_ok() <==> in_bounds(value as int, lb, ub) && !extended,
        r.is_ok() ==> final(data).bit_seq() == old(data).bit_seq() + ext_prefix(is_extensible)
            + enc_integer(
            lb,
            ub,
            value as int,
            old(data).bit_seq().len() + ext_prefix(is_extensible).len(),
        ),
        r matches Err(e) ==> final(data).bit_seq() == old(data).bit_seq(),
{
    match check_bounds(value, lb, ub, "Enum value") {
        Ok(u) => u,
        Err(e) => {
            return Err(e);
        },
    };
    if extended {
        return Err(
            AperCodecError::new(AperCodecErrorKind::NotImplemented, "extended enumerated"),
        );
    }
    if is_extensible {
        data.encode_bool(extended);
    }
    let ghost mid = data.bit_seq();
    let r = encode_integer(data, lb, ub, false, value, false);
    proof {
        assert(r.is_ok());
        let e = ext_prefix(is_extensible);
        let tail = enc_integer(lb, ub, value as int, old(data).bit_seq().len() + e.len());
        assert(mid =~= old(data).bit_seq() + e);
        assert(ext_prefix(false) =~= Seq::<bool>::empty());
        assert(mid + ext_prefix(false) =~= mid);
        assert((old(data).bit_seq() + e) + tail =~= old(data).bit_seq() + (e + tail));
    }
    Ok(())
}

/// Encodes a CHOICE index: the variant ordinal as a constrained whole
/// number over `[lb, ub]`, after the optional extension marker.
pub fn encode_choice_idx(
    data: &mut AperCodecData,
    lb: i128,
    ub: i128,
    is_extensible: bool,
    idx: i128,
    extended: bool,
) -> (r: Result<(), AperCodecError>)
    requires
        old(data).wf(),
        old(data).bit_seq().len() + 161 <= max_bits(),
    ensures
        final(data).wf(),
        final(data).offset() == old(data).offset(),
        r.is_ok() <==> lb <= idx <= ub && !extended,
        r.is_ok() ==> final(data).bit_seq() == old(data).bit_seq() + ext_prefix(is_extensible)
            + enc_constrained(
            lb as int,
            ub as int,
            idx as int,
            old(data).bit_seq().len() + ext_prefix(is_extensible).len(),
        ),
        r matches Err(e) ==> final(data).bit_seq() == old(data).bit_seq(),
{
    match check_bounds(idx, Some(lb), Some(ub), "Choice index") {
        Ok(u) => u,
        Err(e) => {
            return Err(e);
        },
    };
    if extended {
        return Err(
            AperCodecError::new(AperCodecErrorKind::NotImplemented, "extended choice"),
        );
    }
    if is_extensible {
        data.encode_bool(extended);
    }
    let ghost mid = data.bit_seq();
    let r = encode_integer(data, Some(lb), Some(ub), false, idx, false);
    proof {
        assert(r.is_ok());
        let e = ext_prefix(is_extensible);
        let tail = enc_constrained(
            lb as int,
            ub as int,
            idx as int,
            old(data).bit_seq().len() + e.len(),
        );
        assert(mid =~= old(data).bit_seq() + e);
        assert(mid + ext_prefix(false) =~= mid);
        assert((old(data).bit_seq() + e) + tail =~= old(data).bit_seq() + (e + tail));
    }
    Ok(())
}

/// Encodes a sequence header: the optional extension marker, then the
/// presence bitmap of the OPTIONAL/DEFAULT fields verbatim.
pub fn encode_sequence_header(
    data: &mut AperCodecData,
    is_extensible: bool,
    optionals: &BitString,
    extended: bool,
) -> (r: Result<(), AperCodecError>)
    requires
        old(data).wf(),
        old(data).bit_seq().len() + 1 + bv_bits(*optionals).len() <= max_bits(),
    ensures
        final(data).wf(),
        final(data).offset() == old(data).offset(),
        r.is_ok() <==> !extended,
        r.is_ok() ==> final(data).bit_seq() == old(data).bit_seq() + ext_prefix(is_extensible)
            + bv_bits(*optionals),
        r matches Err(e) ==> final(data).bit_seq() == old(data).bit_seq() && e.kind
            == AperCodecErrorKind::NotImplemented,
{
    if extended {
        return Err(
            AperCodecError::new(AperCodecErrorKind::NotImplemented, "extended sequence"),
        );
    }
    if is_extensible {
        data.encode_bool(extended);
    }
    let ghost mid = data.bit_seq();
    data.append_bits(optionals);
    proof {
        let e = ext_prefix(is_extensible);
        assert(mid =~= old(data).bit_seq() + e);
        assert((old(data).bit_seq() + e) + bv_bits(*optionals) =~= old(data).bit_seq() + (e
            + bv_bits(*optionals)));
    }
    Ok(())
}

/// Encodes a length determinant: a constrained whole number when an upper
/// bound below 65536 is declared, the indefinite form otherwise. The
/// normally-small form and fragmented lengths are rejected as not
/// implemented.
pub fn encode_length_determinent(
    data: &mut AperCodecData,
    lb: Option<i128>,
    ub: Option<i128>,
    normally_small: bool,
    value: usize,
) -> (r: Result<(), AperCodecError>)
    requires
        old(data).wf(),
        old(data).bit_seq().len() + 160 <= max_bits(),
    ensures
        final(data).wf(),
        final(data).offset() == old(data).offset(),
        r.is_ok() <==> in_bounds(value as int, lb, ub) && !normally_small && ((match ub {
            Some(u) => u < 65536,
            None => false,
        }) || value < 16384),
        r.is_ok() ==> final(data).bit_seq() == old(data).bit_seq() + enc_length_det(
            lb,
            ub,
            value as nat,
            old(data).bit_seq().len(),
        ),
        r matches Err(e) ==> final(data).bit_seq() == old(data).bit_seq() && (if !in_bounds(
            value as int,
            lb,
            ub,
        ) {
            e.kind matches AperCodecErrorKind::BelowLowerBound { value: _, bound: _ } || e.kind
                matches AperCodecErrorKind::AboveUpperBound { value: _, bound: _ }
        } else {
            e.kind == AperCodecErrorKind::NotImplemented
        }),
{
    match check_bounds(value as i128, lb, ub, "Length determinent") {
        Ok(u) => u,
        Err(e) => {
            return Err(e);
        },
    };
    if normally_small {
        return Err(
            AperCodecError::new(AperCodecErrorKind::NotImplemented, "normally-small length"),
        );
    }
    let constrained = match ub {
        Some(u) => u < 65536,
        None => false,
    };
    if constrained {
        let u = match ub {
            Some(u) => u,
            None => 0,
        };
        let l = match lb {
            Some(l) => l,
            None => 0,
        };
        encode_constrained_whole_number(data, l, u, value as i128);
        Ok(())
    } else {
        encode_indefinite_length_determinent(data, value)
    }
}

/// Encodes a BIT STRING: length determinant over the bit count, octet
/// alignment for counts above 16, then the bits verbatim. Counts of 16384
/// or more would need fragmentation and are rejected.
pub fn encode_bitstring(
    data: &mut AperCodecData,
    lb: Option<i128>,
    ub: Option<i128>,
    is_extensible: bool,
    bit_string: &BitString,
    extended: bool,
) -> (r: Result<(), AperCodecError>)
    requires
        old(data).wf(),
        old(data).bit_seq().len() + bv_bits(*bit_string).len() + 168 <= max_bits(),
    ensures
        final(data).wf(),
        final(data).offset() == old(data).offset(),
        r.is_ok() <==> in_bounds(bv_bits(*bit_string).len() as int, lb, ub) && !extended && bv_bits(
            *bit_string,
        ).len() < 16384,
        r.is_ok() ==> final(data).bit_seq() == old(data).bit_seq() + enc_bitstring(
            lb,
            ub,
            is_extensible,
            bv_bits(*bit_string),
            old(data).bit_seq().len(),
        ),
        !(in_bounds(bv_bits(*bit_string).len() as int, lb, ub) && !extended) ==> final(data).bit_seq() == old(data).bit_seq(),
        r matches Err(e) ==> ((in_bounds(bv_bits(*bit_string).len() as int, lb, ub) && !extended)
            ==> final(data).bit_seq() == old(data).bit_seq() + ext_prefix(is_extensible) && e.kind
            == AperCodecErrorKind::NotImplemented),
{
    let blen = bit_string.len();
    match check_bounds(blen as i128, lb, ub, "Bitstring length") {
        Ok(u) => u,
        Err(e) => {
            return Err(e);
        },
    };
    if extended {
        return Err(
            AperCodecError::new(AperCodecErrorKind::NotImplemented, "extended bitstring"),
        );
    }
    if is_extensible {
        data.encode_bool(extended);
    }
    if blen >= 16384 {
        proof {
            assert(old(data).bit_seq() + ext_prefix(is_extensible) =~= if is_extensible {
                old(data).bit_seq().push(false)
            } else {
                old(data).bit_seq()
            });
        }
        return Err(
            AperCodecError::new(AperCodecErrorKind::NotImplemented, "fragmented bitstring"),
        );
    }
    let ghost at0 = old(data).bit_seq().len() + ext_prefix(is_extensible).len();
    let ghost mid = data.bit_seq();
    let r = encode_length_determinent(data, lb, ub, false, blen);
    proof {
        assert(r.is_ok());
        assert(mid =~= old(data).bit_seq() + ext_prefix(is_extensible));
    }
    let ghost det = enc_length_det(lb, ub, blen as nat, at0);
    proof {
        crate::model::lemma_enc_length_det_len(lb, ub, blen as nat, at0);
    }
    if blen > 0 {
        if blen > 16 {
            data.align();
        }
        let ghost mid2 = data.bit_seq();
        data.append_bits(bit_string);
        proof {
            let e = ext_prefix(is_extensible);
            let content = bv_bits(*bit_string);
            let tail = if content.len() > 16 {
                zeros(pad_len(at0 + det.len())) + content
            } else {
                content
            };
            assert(data.bit_seq() =~= old(data).bit_seq() + (e + det + tail));
        }
    } else {
        proof {
            let e = ext_prefix(is_extensible);
            assert(data.bit_seq() =~= old(data).bit_seq() + (e + det + Seq::<bool>::empty()));
        }
    }
    Ok(())
}

/// Encodes an OCTET STRING: length determinant over the octet count, octet
/// alignment for counts above 2, then the octets as bits. Counts of 16384
/// or more would need fragmentation and are rejected.
pub fn encode_octetstring(
    data: &mut AperCodecData,
    lb: Option<i128>,
    ub: Option<i128>,
    is_extensible: bool,
    octet_string: &Vec<u8>,
    extended: bool,
) -> (r: Result<(), AperCodecError>)
    requires
        old(data).wf(),
        old(data).bit_seq().len() + 8 * octet_string@.len() + 168 <= max_bits(),
    ensures
        final(data).wf(),
        final(data).offset() == old(data).offset(),
        r.is_ok() <==> in_bounds(octet_string@.len() as int, lb, ub) && !extended
            && octet_string@.len() < 16384,
        r.is_ok() ==> final(data).bit_seq() == old(data).bit_seq() + enc_octetstring(
            lb,
            ub,
            is_extensible,
            octet_string@,
            old(data).bit_seq().len(),
        ),
        !(in_bounds(octet_string@.len() as int, lb, ub) && !extended) ==> final(data).bit_seq()
            == old(data).bit_seq(),
        r matches Err(e) ==> ((in_bounds(octet_string@.len() as int, lb, ub) && !extended)
            ==> final(data).bit_seq() == old(data).bit_seq() + ext_prefix(is_extensible) && e.kind
            == AperCodecErrorKind::NotImplemented),
{
    let olen = octet_string.len();
    match check_bounds(olen as i128, lb, ub, "Octet string length") {
        Ok(u) => u,
        Err(e) => {
            return Err(e);
        },
    };
    if extended {
        return Err(
            AperCodecError::new(AperCodecErrorKind::NotImplemented, "extended octetstring"),
        );
    }
    if is_extensible {
        data.encode_bool(extended);
    }
    if olen >= 16384 {
        proof {
            assert(old(data).bit_seq() + ext_prefix(is_extensible) =~= if is_extensible {
                old(data).bit_seq().push(false)
            } else {
                old(data).bit_seq()
            });
        }
        return Err(
            AperCodecError::new(AperCodecErrorKind::NotImplemented, "fragmented octetstring"),
        );
    }
    let ghost at0 = old(data).bit_seq().len() + ext_prefix(is_extensible).len();
    let ghost mid = data.bit_seq();
    let r = encode_length_determinent(data, lb, ub, false, olen);
    proof {
        assert(r.is_ok());
        assert(mid =~= old(data).bit_seq() + ext_prefix(is_extensible));
    }
    let ghost det = enc_length_det(lb, ub, olen as nat, at0);
    proof {
        crate::model::lemma_enc_length_det_len(lb, ub, olen as nat, at0);
    }
    if olen > 0 {
        if olen > 2 {
            data.align();
        }
        proof {
            lemma_bytes_to_bits_len(octet_string@);
        }
        data.append_bytes(octet_string.as_slice());
        proof {
            let e = ext_prefix(is_extensible);
            let content = bytes_to_bits(octet_string@);
            let tail = if octet_string@.len() > 2 {
                zeros(pad_len(at0 + det.len())) + content
            } else {
                content
            };
            assert(data.bit_seq() =~= old(data).bit_seq() + (e + det + tail));
        }
    } else {
        proof {
            let e = ext_prefix(is_extensible);
            assert(bytes_to_bits(octet_string@) =~= Seq::<bool>::empty());
            assert(data.bit_seq() =~= old(data).bit_seq() + (e + det + Seq::<bool>::empty()));
        }
    }
    Ok(())
}

/// The shared character-string encoder: bounds over the byte count, length
/// determinant, octet alignment above 2, then the raw bytes as bits.
fn encode_string(
    data: &mut AperCodecData,
    lb: Option<i128>,
    ub: Option<i128>,
    is_extensible: bool,
    value: &String,
    extended: bool,
    field: &'static str,
) -> (r: Result<(), AperCodecError>)
    requires
        old(data).wf(),
        old(data).bit_seq().len() + 8 * encode_utf8(value@).len() + 168 <= max_bits(),
    ensures
        final(data).wf(),
        final(data).offset() == old(data).offset(),
        r.is_ok() <==> in_bounds(encode_utf8(value@).len() as int, lb, ub) && !extended
            && ((match ub {
            Some(u) => u < 65536,
            None => false,
        }) || encode_utf8(value@).len() < 16384),
        r.is_ok() ==> final(data).bit_seq() == old(data).bit_seq() + enc_string(
            lb,
            ub,
            is_extensible,
            encode_utf8(value@),
            old(data).bit_seq().len(),
        ),
        !(in_bounds(encode_utf8(value@).len() as int, lb, ub) && !extended) ==> final(data).bit_seq() == old(data).bit_seq(),
        r matches Err(e) ==> ((in_bounds(encode_utf8(value@).len() as int, lb, ub) && !extended)
            ==> final(data).bit_seq() == old(data).bit_seq() + ext_prefix(is_extensible) && e.kind
            == AperCodecErrorKind::NotImplemented),
{
    let s: &str = value.as_str();
    let bytes: &[u8] = s.as_bytes();
    let slen = bytes.len();
    match check_bounds(slen as i128, lb, ub, field) {
        Ok(u) => u,
        Err(e) => {
            return Err(e);
        },
    };
    if extended {
        return Err(
            AperCodecError::new(AperCodecErrorKind::NotImplemented, "extended string"),
        );
    }
    if is_extensible {
        data.encode_bool(extended);
    }
    let ghost at0 = old(data).bit_seq().len() + ext_prefix(is_extensible).len();
    let ghost mid = data.bit_seq();
    let r = encode_length_determinent(data, lb, ub, false, slen);
    match r {
        Ok(u) => u,
        Err(e) => {
            proof {
                assert(!((match ub {
                    Some(u) => u < 65536,
                    None => false,
                }) || slen < 16384));
                assert(data.bit_seq() =~= old(data).bit_seq() + ext_prefix(is_extensible));
            }
            return Err(e);
        },
    };
    proof {
        assert(mid =~= old(data).bit_seq() + ext_prefix(is_extensible));
    }
    let ghost det = enc_length_det(lb, ub, slen as nat, at0);
    proof {
        crate::model::lemma_enc_length_det_len(lb, ub, slen as nat, at0);
    }
    if slen > 2 {
        data.align();
    }
    proof {
        lemma_bytes_to_bits_len(bytes@);
    }
    data.append_bytes(bytes);
    proof {
        let e = ext_prefix(is_extensible);
        let content = bytes_to_bits(bytes@);
        let tail = if bytes@.len() > 2 {
            zeros(pad_len(at0 + det.len())) + content
        } else {
            content
        };
        assert(data.bit_seq() =~= old(data).bit_seq() + (e + det + tail));
    }
    Ok(())
}

/// Encodes a VisibleString: the wire shape is the shared character-string
/// encoding; the permitted-alphabet check is out of scope.
pub fn encode_visible_string(
    data: &mut AperCodecData,
    lb: Option<i128>,
    ub: Option<i128>,
    is_extensible: bool,
    value: &String,
    extended: bool,
) -> (r: Result<(), AperCodecError>)
    requires
        old(data).wf(),
        old(data).bit_seq().len() + 8 * encode_utf8(value@).len() + 168 <= max_bits(),
    ensures
        final(data).wf(),
        final(data).offset() == old(data).offset(),
        r.is_ok() <==> in_bounds(encode_utf8(value@).len() as int, lb, ub) && !extended
            && ((match ub {
            Some(u) => u < 65536,
            None => false,
        }) || encode_utf8(value@).len() < 16384),
        r.is_ok() ==> final(data).bit_seq() == old(data).bit_seq() + enc_string(
            lb,
            ub,
            is_extensible,
            encode_utf8(value@),
            old(data).bit_seq().len(),
        ),
        !(in_bounds(encode_utf8(value@).len() as int, lb, ub) && !extended) ==> final(data).bit_seq() == old(data).bit_seq(),
        r matches Err(e) ==> ((in_bounds(encode_utf8(value@).len() as int, lb, ub) && !extended)
            ==> final(data).bit_seq() == old(data).bit_seq() + ext_prefix(is_extensible) && e.kind
            == AperCodecErrorKind::NotImplemented),
{
    encode_string(data, lb, ub, is_extensible, value, extended, "String length")
}

/// Encodes a PrintableString: identical wire shape to the other character
/// strings; the kinds differ only at the type level.
pub fn encode_printable_string(
    data: &mut AperCodecData,
    lb: Option<i128>,
    ub: Option<i128>,
    is_extensible: bool,
    value: &String,
    extended: bool,
) -> (r: Result<(), AperCodecError>)
    requires
        old(data).wf(),
        old(data).bit_seq().len() + 8 * encode_utf8(value@).len() + 168 <= max_bits(),
    ensures
        final(data).wf(),
        final(data).offset() == old(data).offset(),
        r.is_ok() <==> in_bounds(encode_utf8(value@).len() as int, lb, ub) && !extended
            && ((match ub {
            Some(u) => u < 65536,
            None => false,
        }) || encode_utf8(value@).len() < 16384),
        r.is_ok() ==> final(data).bit_seq() == old(data).bit_seq() + enc_string(
            lb,
            ub,
            is_extensible,
            encode_utf8(value@),
            old(data).bit_seq().len(),
        ),
        !(in_bounds(encode_utf8(value@).len() as int, lb, ub) && !extended) ==> final(data).bit_seq() == old(data).bit_seq(),
        r matches Err(e) ==> ((in_bounds(encode_utf8(value@).len() as int, lb, ub) && !extended)
            ==> final(data).bit_seq() == old(data).bit_seq() + ext_prefix(is_extensible) && e.kind
            == AperCodecErrorKind::NotImplemented),
{
    encode_string(data, lb, ub, is_extensible, value, extended, "String length")
}

/// Encodes a UTF8String: identical wire shape to the other character
/// strings; the kinds differ only at the type level.
pub fn encode_utf8_string(
    data: &mut AperCodecData,
    lb: Option<i128>,
    ub: Option<i128>,
    is_extensible: bool,
    value: &String,
    extended: bool,
) -> (r: Result<(), AperCodecError>)
    requires
        old(data).wf(),
        old(data).bit_seq().len() + 8 * encode_utf8(value@).len() + 168 <= max_bits(),
    ensures
        final(data).wf(),
        final(data).offset() == old(data).offset(),
        r.is_ok() <==> in_bounds(encode_utf8(value@).len() as int, lb, ub) && !extended
            && ((match ub {
            Some(u) => u < 65536,
            None => false,
        }) || encode_utf8(value@).len() < 16384),
        r.is_ok() ==> final(data).bit_seq() == old(data).bit_seq() + enc_string(
            lb,
            ub,
            is_extensible,
            encode_utf8(value@),
            old(data).bit_seq().len(),
        ),
        !(in_bounds(encode_utf8(value@).len() as int, lb, ub) && !extended) ==> final(data).bit_seq() == old(data).bit_seq(),
        r matches Err(e) ==> ((in_bounds(encode_utf8(value@).len() as int, lb, ub) && !extended)
            ==> final(data).bit_seq() == old(data).bit_seq() + ext_prefix(is_extensible) && e.kind
            == AperCodecErrorKind::NotImplemented),
{
    encode_string(data, lb, ub, is_extensible, value, extended, "String length")
}

} // verus!
