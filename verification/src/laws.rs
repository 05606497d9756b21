//! The codec's laws, proved once for every input: round trips for integers,
//! length determinants, bit strings and octet strings, and the alignment
//! invariant, all stated over the same model the executable contracts use.
use crate::bits::{
    bit_length, bytes_to_bits, lemma_bit_length, lemma_bit_length_le, lemma_bits_to_u_u_bits,
    lemma_bytes_to_bits_len, lemma_pow2_127, lemma_pow2_8, lemma_pow2_mono, lemma_u_bits_len,
    lemma_u_bits_split, pad_len, pow2, u_bits, zeros,
};
use crate::model::{
    bits_to_bytes, constrained_octets, dec_bitstring, dec_constrained, dec_indefinite_len,
    dec_integer, dec_length_det, dec_octetstring, dec_semi_constrained, dec_unconstrained,
    enc_bitstring, enc_constrained, enc_indefinite_len, enc_integer, enc_length_det,
    enc_octetstring, enc_semi_constrained, enc_unconstrained, ext_prefix, in_bounds,
    lemma_bits_to_bytes_of_bytes_to_bits, mod2p, signed_mag, signed_octets, unsigned_octets,
};
use vstd::arithmetic::div_mod::{lemma_mod_multiples_vanish, lemma_small_mod};
use vstd::arithmetic::power2::{lemma2_to64, lemma_pow2_adds};
use vstd::prelude::*;

verus! {

/// Law: for every integer `v` within `[lb, ub]`, decoding the constrained
/// encoding of `v`, wherever it stands in a bit stream, recovers exactly
/// `v` and consumes exactly the encoding; the width is computed from the
/// bounds alone.
pub proof fn lemma_constrained_integer_round_trip(
    prefix: Seq<bool>,
    suffix: Seq<bool>,
    lb: i128,
    ub: i128,
    v: i128,
)
    requires
        lb <= v && v <= ub,
    ensures
        ({
            let e = enc_constrained(lb as int, ub as int, v as int, prefix.len());
            dec_constrained(prefix + e + suffix, prefix.len(), lb as int, ub as int) == Some(
                (v as int, prefix.len() + e.len()),
            )
        }),
{
    let range = (ub - lb) as nat;
    let n = bit_length(range);
    let diff = (v - lb) as nat;
    lemma_bit_length(range);
    let e = enc_constrained(lb as int, ub as int, v as int, prefix.len());
    let s = prefix + e + suffix;
    if n <= 8 {
        lemma_u_bits_len(diff, n);
        assert(s.subrange(prefix.len() as int, (prefix.len() + n) as int) =~= u_bits(diff, n));
        lemma_bits_to_u_u_bits(diff, n);
    } else {
        let o = constrained_octets(range);
        lemma_u_bits_len(diff, 8 * o);
        lemma_pow2_mono(n, 8 * o);
        lemma_bits_to_u_u_bits(diff, 8 * o);
        let a = prefix.len() + pad_len(prefix.len());
        assert(s.subrange(a as int, (a + 8 * o) as int) =~= u_bits(diff, 8 * o));
    }
}

/// Law: a semi-constrained whole number above its lower bound decodes back
/// to itself from anywhere in a bit stream.
pub proof fn lemma_semi_constrained_integer_round_trip(
    prefix: Seq<bool>,
    suffix: Seq<bool>,
    lb: i128,
    v: i128,
)
    requires
        lb <= v,
    ensures
        ({
            let e = enc_semi_constrained(lb as int, v as int, prefix.len());
            dec_semi_constrained(prefix + e + suffix, prefix.len(), lb as int) == Some(
                (v as int, prefix.len() + e.len()),
            )
        }),
{
    let d = (v - lb) as nat;
    let o = unsigned_octets(d);
    lemma_pow2_127();
    lemma_bit_length_le(d, 128);
    lemma_bit_length(d);
    lemma_pow2_mono(bit_length(d), 8 * o);
    let e = enc_semi_constrained(lb as int, v as int, prefix.len());
    let det = enc_indefinite_len(o, prefix.len());
    let content = u_bits(d, 8 * o);
    lemma_u_bits_len(d, 8 * o);
    let s = prefix + e + suffix;
    assert(s =~= prefix + det + (content + suffix));
    lemma_indefinite_length_round_trip(prefix, content + suffix, o);
    let a = prefix.len() + det.len();
    assert(dec_indefinite_len(s, prefix.len()) == Some((o, a)));
    assert(s.subrange(a as int, (a + 8 * o) as int) =~= content);
    lemma_bits_to_u_u_bits(d, 8 * o);
}

/// Law: an unconstrained whole number decodes back to itself from anywhere
/// in a bit stream: its two's-complement octets carry exactly the value.
pub proof fn lemma_unconstrained_integer_round_trip(prefix: Seq<bool>, suffix: Seq<bool>, v: i128)
    ensures
        ({
            let e = enc_unconstrained(v as int, prefix.len());
            dec_unconstrained(prefix + e + suffix, prefix.len()) == Some(
                (v as int, prefix.len() + e.len()),
            )
        }),
{
    let m = signed_mag(v as int);
    let o = signed_octets(v as int);
    let k = 8 * o;
    let w = mod2p(v as int, k);
    lemma_pow2_127();
    lemma_bit_length_le(m, 127);
    lemma_bit_length(m);
    assert(bit_length(m) <= k - 1);
    lemma_pow2_mono(bit_length(m), (k - 1) as nat);
    lemma_pow2_adds((k - 1) as nat, 1);
    lemma2_to64();
    assert(pow2(k) == 2 * pow2((k - 1) as nat));
    assert(m < pow2((k - 1) as nat));
    if v >= 0 {
        lemma_small_mod(v as nat, pow2(k));
        assert(w == v);
    } else {
        lemma_mod_multiples_vanish(1, v as int, pow2(k) as int);
        lemma_small_mod((v + pow2(k)) as nat, pow2(k));
        assert(w == v + pow2(k));
        assert(w >= pow2((k - 1) as nat));
    }
    let e = enc_unconstrained(v as int, prefix.len());
    let det = enc_indefinite_len(o, prefix.len());
    let content = u_bits(w, k);
    lemma_u_bits_len(w, k);
    let s = prefix + e + suffix;
    assert(s =~= prefix + det + (content + suffix));
    lemma_indefinite_length_round_trip(prefix, content + suffix, o);
    let a = prefix.len() + det.len();
    assert(dec_indefinite_len(s, prefix.len()) == Some((o, a)));
    assert(s.subrange(a as int, (a + k) as int) =~= content);
    lemma_bits_to_u_u_bits(w, k);
}

/// Law: for every integer `v` within its declared bounds, decoding the
/// encoding recovers exactly `v`, in each of the three regimes the bounds
/// select.
pub proof fn lemma_integer_round_trip(
    prefix: Seq<bool>,
    suffix: Seq<bool>,
    lb: Option<i128>,
    ub: Option<i128>,
    v: i128,
)
    requires
        in_bounds(v as int, lb, ub),
    ensures
        ({
            let e = enc_integer(lb, ub, v as int, prefix.len());
            dec_integer(prefix + e + suffix, prefix.len(), lb, ub) == Some(
                (v as int, prefix.len() + e.len()),
            )
        }),
{
    match (lb, ub) {
        (None, _) => lemma_unconstrained_integer_round_trip(prefix, suffix, v),
        (Some(l), None) => lemma_semi_constrained_integer_round_trip(prefix, suffix, l, v),
        (Some(l), Some(u)) => lemma_constrained_integer_round_trip(prefix, suffix, l, u, v),
    }
}

/// Law: an indefinite-form length determinant below 16384 decodes back to
/// itself, both in the one-octet and the two-octet form.
pub proof fn lemma_indefinite_length_round_trip(prefix: Seq<bool>, suffix: Seq<bool>, v: nat)
    requires
        v < 16384,
    ensures
        ({
            let e = enc_indefinite_len(v, prefix.len());
            dec_indefinite_len(prefix + e + suffix, prefix.len()) == Some(
                (v, prefix.len() + e.len()),
            )
        }),
{
    let at = prefix.len();
    let a = at + pad_len(at);
    let e = enc_indefinite_len(v, at);
    let s = prefix + e + suffix;
    lemma_pow2_8();
    lemma2_to64();
    if v < 128 {
        lemma_u_bits_len(v, 8);
        assert(s.subrange(a as int, (a + 8) as int) =~= u_bits(v, 8));
        lemma_bits_to_u_u_bits(v, 8);
    } else {
        let w = 32768 + v;
        lemma_u_bits_len(w, 16);
        assert(s.subrange(a as int, (a + 16) as int) =~= u_bits(w, 16));
        lemma_bits_to_u_u_bits(w, 16);
        lemma_u_bits_split(w, 8, 8);
        assert(s.subrange(a as int, (a + 8) as int) =~= u_bits(w, 16).subrange(0, 8));
        assert(u_bits(w, 16).subrange(0, 8) =~= u_bits(w / pow2(8), 8)) by {
            lemma_u_bits_len(w / pow2(8), 8);
            lemma_u_bits_len(w % pow2(8), 8);
        }
        lemma_bits_to_u_u_bits(w / 256, 8);
    }
}

/// Law: a length determinant round-trips in each of the three regimes the
/// upper bound selects: constrained below 65536, and the indefinite form
/// (used by both the semi-constrained and the unconstrained regime) below
/// 16384.
pub proof fn lemma_length_determinant_round_trip(
    prefix: Seq<bool>,
    suffix: Seq<bool>,
    lb: Option<i128>,
    ub: Option<i128>,
    v: usize,
)
    requires
        in_bounds(v as int, lb, ub),
        (match ub {
            Some(u) => u < 65536,
            None => false,
        }) || v < 16384,
    ensures
        ({
            let e = enc_length_det(lb, ub, v as nat, prefix.len());
            dec_length_det(prefix + e + suffix, prefix.len(), lb, ub) == Some(
                (v as int, prefix.len() + e.len()),
            )
        }),
{
    let constrained = match ub {
        Some(u) => u < 65536,
        None => false,
    };
    if constrained {
        let u = ub.unwrap();
        let l: i128 = match lb {
            Some(l) => l,
            None => 0,
        };
        lemma_constrained_integer_round_trip(prefix, suffix, l, u, v as i128);
    } else {
        lemma_indefinite_length_round_trip(prefix, suffix, v as nat);
    }
}

/// Law: a bit string's encoding decodes back to exactly its content bits
/// and length; encoding is accepted precisely when the length meets the
/// bounds and stays below the fragmentation threshold.
#[verifier::rlimit(60)]
pub proof fn lemma_bitstring_round_trip(
    prefix: Seq<bool>,
    suffix: Seq<bool>,
    lb: Option<i128>,
    ub: Option<i128>,
    is_extensible: bool,
    content: Seq<bool>,
)
    requires
        in_bounds(content.len() as int, lb, ub),
        content.len() < 16384,
    ensures
        ({
            let full = enc_bitstring(lb, ub, is_extensible, content, prefix.len());
            let e = ext_prefix(is_extensible);
            dec_bitstring(prefix + full + suffix, prefix.len() + e.len(), lb, ub) == Some(
                (content, prefix.len() + full.len()),
            )
        }),
{
    let e = ext_prefix(is_extensible);
    let at0 = prefix.len() + e.len();
    let det = enc_length_det(lb, ub, content.len(), at0);
    let full = enc_bitstring(lb, ub, is_extensible, content, prefix.len());
    let s = prefix + full + suffix;
    let tail = if content.len() == 0 {
        Seq::<bool>::empty()
    } else if content.len() > 16 {
        zeros(pad_len(at0 + det.len())) + content
    } else {
        content
    };
    assert(s =~= (prefix + e) + det + (tail + suffix));
    lemma_length_determinant_round_trip(
        prefix + e,
        tail + suffix,
        lb,
        ub,
        content.len() as usize,
    );
    let a = at0 + det.len();
    assert(dec_length_det(s, at0, lb, ub) == Some((content.len() as int, a)));
    if content.len() == 0 {
        assert(full =~= e + det);
    } else if content.len() > 16 {
        let start = a + pad_len(a);
        assert(s.subrange(start as int, (start + content.len()) as int) =~= content);
        assert(full.len() == e.len() + det.len() + pad_len(a) + content.len());
    } else {
        assert(s.subrange(a as int, (a + content.len()) as int) =~= content);
        assert(full.len() == e.len() + det.len() + content.len());
    }
}

/// Law: an octet string's encoding decodes back to exactly its octets and
/// length.
#[verifier::rlimit(100)]
pub proof fn lemma_octetstring_round_trip(
    prefix: Seq<bool>,
    suffix: Seq<bool>,
    lb: Option<i128>,
    ub: Option<i128>,
    is_extensible: bool,
    bytes: Seq<u8>,
)
    requires
        in_bounds(bytes.len() as int, lb, ub),
        bytes.len() < 16384,
    ensures
        ({
            let full = enc_octetstring(lb, ub, is_extensible, bytes, prefix.len());
            let e = ext_prefix(is_extensible);
            dec_octetstring(prefix + full + suffix, prefix.len() + e.len(), lb, ub) == Some(
                (bytes, prefix.len() + full.len()),
            )
        }),
{
    let e = ext_prefix(is_extensible);
    let at0 = prefix.len() + e.len();
    let det = enc_length_det(lb, ub, bytes.len(), at0);
    let full = enc_octetstring(lb, ub, is_extensible, bytes, prefix.len());
    let s = prefix + full + suffix;
    lemma_bytes_to_bits_len(bytes);
    let content = bytes_to_bits(bytes);
    let tail = if bytes.len() == 0 {
        Seq::<bool>::empty()
    } else if bytes.len() > 2 {
        zeros(pad_len(at0 + det.len())) + content
    } else {
        content
    };
    let a = at0 + det.len();
    assert(dec_length_det(s, at0, lb, ub) == Some((bytes.len() as int, a))) by {
        assert(s =~= (prefix + e) + det + (tail + suffix));
        lemma_length_determinant_round_trip(
            prefix + e,
            tail + suffix,
            lb,
            ub,
            bytes.len() as usize,
        );
    }
    let start = if bytes.len() > 2 {
        a + pad_len(a)
    } else {
        a
    };
    assert(bits_to_bytes(content) == bytes) by {
        lemma_bits_to_bytes_of_bytes_to_bits(bytes);
    }
    if bytes.len() == 0 {
        assert(full =~= e + det);
        assert(bits_to_bytes(content) =~= Seq::<u8>::empty());
    } else {
        assert(s.subrange(start as int, (start + 8 * bytes.len()) as int) =~= content) by {
            assert(full =~= e + det + tail);
        }
        if bytes.len() > 2 {
            assert(full.len() == e.len() + det.len() + pad_len(a) + 8 * bytes.len());
        } else {
            assert(full.len() == e.len() + det.len() + 8 * bytes.len());
        }
    }
}

/// Law: after encoding an octet string of more than two octets, the buffer
/// bit-length immediately before the content bits is a multiple of eight:
/// the content always starts on an octet boundary, whatever preceded it.
pub proof fn lemma_octetstring_content_aligned(
    lb: Option<i128>,
    ub: Option<i128>,
    is_extensible: bool,
    bytes: Seq<u8>,
    at: nat,
)
    requires
        in_bounds(bytes.len() as int, lb, ub),
        bytes.len() > 2,
    ensures
        ({
            let e = ext_prefix(is_extensible);
            let det = enc_length_det(lb, ub, bytes.len(), at + e.len());
            let before_content = at + e.len() + det.len() + pad_len(at + e.len() + det.len());
            before_content % 8 == 0 && enc_octetstring(lb, ub, is_extensible, bytes, at) == e + det
                + zeros(pad_len(at + e.len() + det.len())) + bytes_to_bits(bytes)
        }),
{
    let e = ext_prefix(is_extensible);
    let det = enc_length_det(lb, ub, bytes.len(), at + e.len());
    let at2 = at + e.len() + det.len();
    assert((at2 + pad_len(at2)) % 8 == 0);
    assert(enc_octetstring(lb, ub, is_extensible, bytes, at) =~= e + det + zeros(pad_len(at2))
        + bytes_to_bits(bytes));
}

/// Law: after encoding a bit string of more than sixteen bits, the buffer
/// bit-length immediately before the content bits is a multiple of eight.
pub proof fn lemma_bitstring_content_aligned(
    lb: Option<i128>,
    ub: Option<i128>,
    is_extensible: bool,
    content: Seq<bool>,
    at: nat,
)
    requires
        in_bounds(content.len() as int, lb, ub),
        content.len() > 16,
    ensures
        ({
            let e = ext_prefix(is_extensible);
            let det = enc_length_det(lb, ub, content.len(), at + e.len());
            let before_content = at + e.len() + det.len() + pad_len(at + e.len() + det.len());
            before_content % 8 == 0 && enc_bitstring(lb, ub, is_extensible, content, at) == e + det
                + zeros(pad_len(at + e.len() + det.len())) + content
        }),
{
    let e = ext_prefix(is_extensible);
    let det = enc_length_det(lb, ub, content.len(), at + e.len());
    let at2 = at + e.len() + det.len();
    assert((at2 + pad_len(at2)) % 8 == 0);
    assert(enc_bitstring(lb, ub, is_extensible, content, at) =~= e + det + zeros(pad_len(at2))
        + content);
}

} // verus!
