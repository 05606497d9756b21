//! The whole-number and length-determinant machinery every primitive shares:
//! width computation, bit pushing and reading, and the three integer regimes.
use crate::bits::{
    bit_length, bits_to_u, lemma_bit_length, lemma_bit_length_le, lemma_bits_to_u_concat,
    lemma_bits_to_u_bound, lemma_pow2_127, lemma_pow2_le_max, lemma_pow2_mono, lemma_u_bits_len,
    pad_len, pow2, u_bits, zeros,
};
use crate::buffer::{max_bits, AperCodecData};
use crate::error::{AperCodecError, AperCodecErrorKind};
use crate::model::{
    constrained_octets, dec_constrained, dec_indefinite_len, dec_semi_constrained,
    dec_unconstrained, enc_constrained, enc_indefinite_len, enc_semi_constrained,
    enc_unconstrained, indef_len_fragmented, mod2p, signed_mag, signed_octets, unsigned_octets,
};
use vstd::arithmetic::div_mod::{
    lemma_div_denominator, lemma_mod_multiples_vanish, lemma_small_mod,
};
use vstd::arithmetic::power2::{lemma2_to64, lemma2_to64_rest, lemma_pow2_adds, lemma_pow2_pos};
use vstd::prelude::*;

verus! {

/// `a - b` of two signed 128-bit numbers, exact as an unsigned number.
pub(crate) fn diff_u128(a: i128, b: i128) -> (r: u128)
    requires
        b <= a,
    ensures
        r as int == a - b,
{
    if b >= 0 {
        (a - b) as u128
    } else {
        let mag_b: u128 = ((-(b + 1)) as u128) + 1;
        if a >= 0 {
            (a as u128) + mag_b
        } else {
            let mag_a: u128 = ((-(a + 1)) as u128) + 1;
            mag_b - mag_a
        }
    }
}

/// `lb + d` where the result is known to fit a signed 128-bit number.
pub(crate) fn add_u128_to_i128(lb: i128, d: u128) -> (r: i128)
    requires
        lb + d <= i128::MAX,
    ensures
        r as int == lb + d,
{
    if lb >= 0 {
        lb + (d as i128)
    } else {
        let mag: u128 = ((-(lb + 1)) as u128) + 1;
        if d >= mag {
            (d - mag) as i128
        } else {
            let m = mag - d;
            -((m - 1) as i128) - 1
        }
    }
}

/// `lb + d`, saturating at the largest signed 128-bit number.
pub(crate) fn add_sat_i128(lb: i128, d: u128) -> (r: i128)
    ensures
        r as int == if lb + d <= i128::MAX {
            lb + d
        } else {
            i128::MAX as int
        },
{
    let room = diff_u128(i128::MAX, lb);
    if d <= room {
        add_u128_to_i128(lb, d)
    } else {
        i128::MAX
    }
}

/// The number of binary digits of `v`.
pub(crate) fn bit_len_u128(v: u128) -> (n: usize)
    ensures
        n as nat == bit_length(v as nat),
        n <= 128,
{
    proof {
        lemma_pow2_127();
        lemma_bit_length_le(v as nat, 128);
    }
    let mut n: usize = 0;
    let mut x: u128 = v;
    while x > 0
        invariant
            bit_length(v as nat) == n + bit_length(x as nat),
            bit_length(v as nat) <= 128,
        decreases x,
    {
        x = x / 2;
        n = n + 1;
    }
    n
}

/// `pow2(k)` for exponents that fit an unsigned 128-bit number.
pub(crate) fn pow2_u128(k: usize) -> (r: u128)
    requires
        k <= 127,
    ensures
        r as nat == pow2(k as nat),
{
    proof {
        lemma2_to64();
    }
    let mut r: u128 = 1;
    let mut i: usize = 0;
    while i < k
        invariant
            i <= k <= 127,
            r as nat == pow2(i as nat),
        decreases k - i,
    {
        proof {
            lemma_pow2_adds(i as nat, 1);
            lemma2_to64();
            lemma_pow2_mono((i + 1) as nat, 127);
            lemma_pow2_le_max(127);
        }
        r = r * 2;
        i = i + 1;
    }
    r
}

/// Appends the `n`-bit big-endian representation of `v`.
pub(crate) fn push_u_bits(data: &mut AperCodecData, v: u128, n: usize)
    requires
        old(data).wf(),
        n <= 128,
        (v as nat) < pow2(n as nat),
        old(data).bit_seq().len() + n <= max_bits(),
    ensures
        final(data).wf(),
        final(data).bit_seq() == old(data).bit_seq() + u_bits(v as nat, n as nat),
        final(data).offset() == old(data).offset(),
{
    let mut tmp: Vec<bool> = Vec::new();
    let mut x: u128 = v;
    let mut i: usize = 0;
    proof {
        lemma2_to64();
    }
    while i < n
        invariant
            i <= n,
            x as nat == (v as nat) / pow2(i as nat),
            tmp@.len() == i,
            forall|k: int|
                0 <= k < i ==> tmp@[k] == (((v as nat) / pow2(k as nat)) % 2 == 1),
        decreases n - i,
    {
        proof {
            lemma_pow2_pos(i as nat);
            lemma_pow2_adds(i as nat, 1);
            lemma2_to64();
            lemma_div_denominator(v as int, pow2(i as nat) as int, 2);
        }
        tmp.push(x % 2 == 1);
        x = x / 2;
        i = i + 1;
    }
    proof {
        assert(old(data).bit_seq() + u_bits((v as nat) / pow2(n as nat), 0) =~= old(
            data,
        ).bit_seq());
    }
    let mut j: usize = 0;
    while j < n
        invariant
            j <= n,
            n <= 128,
            data.wf(),
            data.offset() == old(data).offset(),
            old(data).bit_seq().len() + n <= max_bits(),
            tmp@.len() == n,
            forall|k: int|
                0 <= k < n ==> tmp@[k] == (((v as nat) / pow2(k as nat)) % 2 == 1),
            data.bit_seq() == old(data).bit_seq() + u_bits(
                (v as nat) / pow2((n - j) as nat),
                j as nat,
            ),
        decreases n - j,
    {
        let b = tmp[n - 1 - j];
        proof {
            lemma_u_bits_len((v as nat) / pow2((n - j) as nat), j as nat);
            let w = (v as nat) / pow2((n - j - 1) as nat);
            lemma_pow2_pos((n - j - 1) as nat);
            lemma_pow2_adds((n - j - 1) as nat, 1);
            lemma2_to64();
            lemma_div_denominator(v as int, pow2((n - j - 1) as nat) as int, 2);
            assert(w / 2 == (v as nat) / pow2((n - j) as nat));
            assert(u_bits(w, (j + 1) as nat) == u_bits(w / 2, j as nat).push(w % 2 == 1));
            assert(b == (w % 2 == 1));
            assert((old(data).bit_seq() + u_bits(w / 2, j as nat)).push(b) =~= old(data).bit_seq()
                + u_bits(w, (j + 1) as nat));
        }
        data.encode_bool(b);
        j = j + 1;
    }
    proof {
        lemma_pow2_pos(0);
        lemma2_to64();
        assert((v as nat) / pow2(0) == v as nat);
    }
}

/// Encodes a constrained whole number over `[lb, ub]`: never fails once the
/// value is known to lie in the range.
pub(crate) fn encode_constrained_whole_number(
    data: &mut AperCodecData,
    lb: i128,
    ub: i128,
    value: i128,
)
    requires
        old(data).wf(),
        lb <= value <= ub,
        old(data).bit_seq().len() + 135 <= max_bits(),
    ensures
        final(data).wf(),
        final(data).bit_seq() == old(data).bit_seq() + enc_constrained(
            lb as int,
            ub as int,
            value as int,
            old(data).bit_seq().len(),
        ),
        final(data).offset() == old(data).offset(),
{
    let range = diff_u128(ub, lb);
    let diff = diff_u128(value, lb);
    let nbits = bit_len_u128(range);
    proof {
        lemma_bit_length(range as nat);
    }
    if nbits <= 8 {
        push_u_bits(data, diff, nbits);
    } else {
        data.align();
        let o = (nbits + 7) / 8;
        proof {
            assert(o == constrained_octets((ub - lb) as nat));
            lemma_pow2_mono(nbits as nat, (8 * o) as nat);
        }
        push_u_bits(data, diff, 8 * o);
        proof {
            assert(old(data).bit_seq() + (zeros(pad_len(old(data).bit_seq().len())) + u_bits(
                diff as nat,
                (8 * o) as nat,
            )) =~= (old(data).bit_seq() + zeros(pad_len(old(data).bit_seq().len()))) + u_bits(
                diff as nat,
                (8 * o) as nat,
            ));
        }
    }
}

/// Decodes a constrained whole number over `[lb, ub]`: the width arithmetic
/// mirrors the encoder's exactly, and a value above the range is rejected.
pub(crate) fn decode_constrained_whole_number(data: &mut AperCodecData, lb: i128, ub: i128) -> (r:
    Result<i128, AperCodecError>)
    requires
        old(data).wf(),
        lb <= ub,
    ensures
        final(data).wf(),
        final(data).bit_seq() == old(data).bit_seq(),
        r matches Ok(v) ==> dec_constrained(
            old(data).bit_seq(),
            old(data).offset(),
            lb as int,
            ub as int,
        ) == Some((v as int, final(data).offset())) && lb <= v <= ub,
        r.is_ok() <==> (match dec_constrained(
            old(data).bit_seq(),
            old(data).offset(),
            lb as int,
            ub as int,
        ) {
            Some(p) => p.0 <= ub,
            None => false,
        }),
        r matches Err(e) ==> e.kind == AperCodecErrorKind::BufferTooShort || e.kind matches
            AperCodecErrorKind::AboveUpperBound { value: _, bound: _ },
{
    let range = diff_u128(ub, lb);
    let nbits = bit_len_u128(range);
    proof {
        lemma_bit_length(range as nat);
    }
    if nbits <= 8 {
        let u = match data.read_unsigned(nbits) {
            Ok(u) => u,
            Err(e) => {
                return Err(e);
            },
        };
        if u > range {
            return Err(
                AperCodecError::new(
                    AperCodecErrorKind::AboveUpperBound { value: add_sat_i128(lb, u), bound: ub },
                    "constrained whole number",
                ),
            );
        }
        Ok(add_u128_to_i128(lb, u))
    } else {
        match data.decode_align() {
            Ok(u) => u,
            Err(e) => {
                return Err(e);
            },
        };
        let o = (nbits + 7) / 8;
        proof {
            assert(o == constrained_octets((ub - lb) as nat));
        }
        let u = match data.read_unsigned(8 * o) {
            Ok(u) => u,
            Err(e) => {
                return Err(e);
            },
        };
        if u > range {
            return Err(
                AperCodecError::new(
                    AperCodecErrorKind::AboveUpperBound { value: add_sat_i128(lb, u), bound: ub },
                    "constrained whole number",
                ),
            );
        }
        Ok(add_u128_to_i128(lb, u))
    }
}

/// Encodes an indefinite (unbounded) length determinant: aligned, one octet
/// below 128, two octets below 16384, and the fragmented form is rejected.
pub(crate) fn encode_indefinite_length_determinent(data: &mut AperCodecData, value: usize) -> (r:
    Result<(), AperCodecError>)
    requires
        old(data).wf(),
        old(data).bit_seq().len() + 23 <= max_bits(),
    ensures
        final(data).wf(),
        final(data).offset() == old(data).offset(),
        r.is_ok() <==> value < 16384,
        r.is_ok() ==> final(data).bit_seq() == old(data).bit_seq() + enc_indefinite_len(
            value as nat,
            old(data).bit_seq().len(),
        ),
        r matches Err(e) ==> final(data).bit_seq() == old(data).bit_seq() && e.kind
            == AperCodecErrorKind::NotImplemented,
{
    if value >= 16384 {
        return Err(
            AperCodecError::new(AperCodecErrorKind::NotImplemented, "fragmented length"),
        );
    }
    data.align();
    proof {
        lemma2_to64();
    }
    if value < 128 {
        push_u_bits(data, value as u128, 8);
    } else {
        push_u_bits(data, 32768 + (value as u128), 16);
    }
    proof {
        let pad = zeros(pad_len(old(data).bit_seq().len()));
        let tail = if value < 128 {
            u_bits(value as nat, 8)
        } else {
            u_bits((32768 + value) as nat, 16)
        };
        assert((old(data).bit_seq() + pad) + tail =~= old(data).bit_seq() + (pad + tail));
    }
    Ok(())
}

/// Decodes an indefinite length determinant; the fragmented form is
/// rejected as not implemented.
pub(crate) fn decode_indefinite_length_determinent(data: &mut AperCodecData) -> (r: Result<
    usize,
    AperCodecError,
>)
    requires
        old(data).wf(),
    ensures
        final(data).wf(),
        final(data).bit_seq() == old(data).bit_seq(),
        r matches Ok(v) ==> dec_indefinite_len(old(data).bit_seq(), old(data).offset()) == Some(
            (v as nat, final(data).offset()),
        ) && v < 16384,
        r.is_ok() <==> dec_indefinite_len(old(data).bit_seq(), old(data).offset()) is Some,
        r matches Err(e) ==> (e.kind == AperCodecErrorKind::BufferTooShort || e.kind
            == AperCodecErrorKind::NotImplemented),
        r matches Err(e) ==> (e.kind == AperCodecErrorKind::NotImplemented <==> indef_len_fragmented(
            old(data).bit_seq(),
            old(data).offset(),
        )),
{
    let ghost s = old(data).bit_seq();
    let ghost a = old(data).offset() + pad_len(old(data).offset());
    match data.decode_align() {
        Ok(u) => u,
        Err(e) => {
            return Err(e);
        },
    };
    let u = match data.read_unsigned(8) {
        Ok(u) => u,
        Err(e) => {
            return Err(e);
        },
    };
    proof {
        lemma_bits_to_u_bound(s.subrange(a as int, (a + 8) as int));
        lemma2_to64();
    }
    if u < 128 {
        Ok(u as usize)
    } else if u < 192 {
        let u2 = match data.read_unsigned(8) {
            Ok(u2) => u2,
            Err(e) => {
                return Err(e);
            },
        };
        proof {
            let hi = s.subrange(a as int, (a + 8) as int);
            let lo = s.subrange((a + 8) as int, (a + 16) as int);
            assert(s.subrange(a as int, (a + 16) as int) =~= hi + lo);
            lemma_bits_to_u_concat(hi, lo);
            lemma_bits_to_u_bound(lo);
            lemma2_to64();
        }
        Ok(((u - 128) * 256 + u2) as usize)
    } else {
        Err(AperCodecError::new(AperCodecErrorKind::NotImplemented, "fragmented length"))
    }
}

/// Encodes a semi-constrained whole number: the minimal octet count of
/// `value - lb` as a length determinant, then those octets.
pub(crate) fn encode_semi_constrained_whole_number(data: &mut AperCodecData, lb: i128, value: i128)
    requires
        old(data).wf(),
        lb <= value,
        old(data).bit_seq().len() + 151 <= max_bits(),
    ensures
        final(data).wf(),
        final(data).bit_seq() == old(data).bit_seq() + enc_semi_constrained(
            lb as int,
            value as int,
            old(data).bit_seq().len(),
        ),
        final(data).offset() == old(data).offset(),
{
    let d = diff_u128(value, lb);
    let nbits = bit_len_u128(d);
    let mut o: usize = (nbits + 7) / 8;
    if o == 0 {
        o = 1;
    }
    proof {
        assert(o == unsigned_octets(d as nat));
    }
    let r = encode_indefinite_length_determinent(data, o);
    proof {
        assert(r.is_ok());
        lemma_bit_length(d as nat);
        lemma_pow2_mono(nbits as nat, (8 * o) as nat);
        let det = enc_indefinite_len(o as nat, old(data).bit_seq().len());
        lemma_u_bits_len(o as nat, 8);
        lemma_u_bits_len((32768 + o) as nat, 16);
        assert(det.len() <= 23);
    }
    push_u_bits(data, d, 8 * o);
    proof {
        let det = enc_indefinite_len(o as nat, old(data).bit_seq().len());
        assert((old(data).bit_seq() + det) + u_bits(d as nat, (8 * o) as nat) =~= old(
            data,
        ).bit_seq() + (det + u_bits(d as nat, (8 * o) as nat)));
    }
}

/// Encodes an unconstrained whole number: the minimal two's-complement octet
/// count as a length determinant, then those octets.
pub(crate) fn encode_unconstrained_whole_number(data: &mut AperCodecData, value: i128)
    requires
        old(data).wf(),
        old(data).bit_seq().len() + 151 <= max_bits(),
    ensures
        final(data).wf(),
        final(data).bit_seq() == old(data).bit_seq() + enc_unconstrained(
            value as int,
            old(data).bit_seq().len(),
        ),
        final(data).offset() == old(data).offset(),
{
    let m: u128 = if value >= 0 {
        value as u128
    } else {
        (-(value + 1)) as u128
    };
    proof {
        assert(m as nat == signed_mag(value as int));
        lemma_pow2_127();
        lemma_bit_length_le(m as nat, 127);
    }
    let nbits = bit_len_u128(m);
    let o: usize = nbits / 8 + 1;
    proof {
        assert(o == signed_octets(value as int));
        assert(nbits <= 8 * o - 1);
        lemma_bit_length(m as nat);
        lemma_pow2_mono(nbits as nat, (8 * o - 1) as nat);
        lemma_pow2_adds((8 * o - 1) as nat, 1);
        lemma2_to64();
        // m < pow2(8 * o - 1) and pow2(8 * o) == 2 * pow2(8 * o - 1)
    }
    let u: u128 = if value >= 0 {
        proof {
            lemma_small_mod(value as nat, pow2((8 * o) as nat));
        }
        value as u128
    } else {
        if o == 16 {
            proof {
                lemma_pow2_127();
                lemma_mod_multiples_vanish(1, value as int, pow2(128) as int);
                lemma_small_mod((value + pow2(128)) as nat, pow2(128));
            }
            u128::MAX - m
        } else {
            let p = pow2_u128(8 * o);
            proof {
                lemma_mod_multiples_vanish(1, value as int, pow2((8 * o) as nat) as int);
                lemma_small_mod((value + pow2((8 * o) as nat)) as nat, pow2((8 * o) as nat));
            }
            p - 1 - m
        }
    };
    proof {
        assert(u as nat == mod2p(value as int, (8 * o) as nat));
    }
    let r = encode_indefinite_length_determinent(data, o);
    proof {
        assert(r.is_ok());
        let det = enc_indefinite_len(o as nat, old(data).bit_seq().len());
        lemma_u_bits_len(o as nat, 8);
        lemma_u_bits_len((32768 + o) as nat, 16);
        assert(det.len() <= 23);
    }
    push_u_bits(data, u, 8 * o);
    proof {
        let det = enc_indefinite_len(o as nat, old(data).bit_seq().len());
        assert((old(data).bit_seq() + det) + u_bits(u as nat, (8 * o) as nat) =~= old(
            data,
        ).bit_seq() + (det + u_bits(u as nat, (8 * o) as nat)));
    }
}

/// Decodes a semi-constrained whole number re-based on `lb`.
pub(crate) fn decode_semi_constrained_whole_number(data: &mut AperCodecData, lb: i128) -> (r:
    Result<i128, AperCodecError>)
    requires
        old(data).wf(),
    ensures
        final(data).wf(),
        final(data).bit_seq() == old(data).bit_seq(),
        r matches Ok(v) ==> dec_semi_constrained(old(data).bit_seq(), old(data).offset(), lb as int)
            == Some((v as int, final(data).offset())),
        r.is_ok() <==> (match dec_indefinite_len(old(data).bit_seq(), old(data).offset()) {
            Some(p) => p.0 <= 16 && p.1 + 8 * p.0 <= old(data).bit_seq().len() && lb + bits_to_u(
                old(data).bit_seq().subrange(p.1 as int, (p.1 + 8 * p.0) as int),
            ) <= i128::MAX,
            None => false,
        }),
{
    let o = match decode_indefinite_length_determinent(data) {
        Ok(o) => o,
        Err(e) => {
            return Err(e);
        },
    };
    if o > 16 {
        return Err(
            AperCodecError::new(AperCodecErrorKind::InvalidData, "semi-constrained whole number"),
        );
    }
    let u = match data.read_unsigned(8 * o) {
        Ok(u) => u,
        Err(e) => {
            return Err(e);
        },
    };
    let room = diff_u128(i128::MAX, lb);
    if u > room {
        return Err(
            AperCodecError::new(AperCodecErrorKind::InvalidData, "semi-constrained whole number"),
        );
    }
    Ok(add_u128_to_i128(lb, u))
}

/// Decodes an unconstrained two's-complement whole number.
pub(crate) fn decode_unconstrained_whole_number(data: &mut AperCodecData) -> (r: Result<
    i128,
    AperCodecError,
>)
    requires
        old(data).wf(),
    ensures
        final(data).wf(),
        final(data).bit_seq() == old(data).bit_seq(),
        r matches Ok(v) ==> dec_unconstrained(old(data).bit_seq(), old(data).offset()) == Some(
            (v as int, final(data).offset()),
        ),
        r.is_ok() <==> (match dec_indefinite_len(old(data).bit_seq(), old(data).offset()) {
            Some(p) => 1 <= p.0 <= 16 && p.1 + 8 * p.0 <= old(data).bit_seq().len(),
            None => false,
        }),
{
    let ghost s = old(data).bit_seq();
    let o = match decode_indefinite_length_determinent(data) {
        Ok(o) => o,
        Err(e) => {
            return Err(e);
        },
    };
    if o == 0 || o > 16 {
        return Err(
            AperCodecError::new(AperCodecErrorKind::InvalidData, "unconstrained whole number"),
        );
    }
    let ghost a = data.offset();
    let u = match data.read_unsigned(8 * o) {
        Ok(u) => u,
        Err(e) => {
            return Err(e);
        },
    };
    proof {
        lemma_bits_to_u_bound(s.subrange(a as int, (a + 8 * o) as int));
    }
    if o == 16 {
        proof {
            lemma_pow2_127();
        }
        if u <= (i128::MAX as u128) {
            Ok(u as i128)
        } else {
            Ok(-((u128::MAX - u) as i128) - 1)
        }
    } else {
        let p = pow2_u128(8 * o);
        proof {
            lemma_pow2_adds((8 * o - 1) as nat, 1);
            lemma2_to64();
            assert(p as nat == 2 * pow2((8 * o - 1) as nat));
        }
        if u < p / 2 {
            Ok(u as i128)
        } else {
            Ok(-((p - 1 - u) as i128) - 1)
        }
    }
}

} // verus!
