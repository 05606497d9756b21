//! Spec-level description of every wire shape the codec produces: what bits
//! an encode operation appends given the bits already in the buffer, and what
//! value a decode operation reads at a given cursor position.
use crate::bits::{bit_length, bits_to_u, bytes_to_bits, lemma_bits_to_u_u_bits, lemma_bytes_to_bits_len, lemma_u_bits_len, pad_len, pow2, u_bits, zeros};
use vstd::prelude::*;

verus! {

/// Does `v` meet the optional lower bound?
pub open spec fn meets_lower(v: int, lb: Option<i128>) -> bool {
    match lb {
        Some(l) => v >= l,
        None => true,
    }
}

/// Does `v` meet the optional upper bound?
pub open spec fn meets_upper(v: int, ub: Option<i128>) -> bool {
    match ub {
        Some(u) => v <= u,
        None => true,
    }
}

/// Does `v` lie within the declared bounds?
pub open spec fn in_bounds(v: int, lb: Option<i128>, ub: Option<i128>) -> bool {
    meets_lower(v, lb) && meets_upper(v, ub)
}

/// Octets needed for a constrained whole number of the given range
/// (`range = ub - lb`): the minimal count whose bit width covers the range.
pub open spec fn constrained_octets(range: nat) -> nat {
    (bit_length(range) + 7) / 8
}

/// Bits appended for a constrained whole number `v` over `[lb, ub]` when the
/// buffer already holds `at` bits: ranges of up to one octet are written in
/// exactly `bit_length(range)` bits unaligned; larger ranges are padded to an
/// octet boundary and written in the minimal octet count for the range.
pub open spec fn enc_constrained(lb: int, ub: int, v: int, at: nat) -> Seq<bool>
    recommends
        lb <= v <= ub,
{
    let range = (ub - lb) as nat;
    let n = bit_length(range);
    if n <= 8 {
        u_bits((v - lb) as nat, n)
    } else {
        zeros(pad_len(at)) + u_bits((v - lb) as nat, 8 * constrained_octets(range))
    }
}

/// The value and new cursor a constrained whole number read at `off`
/// produces, or `None` when the data runs out. The width is a function of
/// `lb` and `ub` alone; no bits describe it.
pub open spec fn dec_constrained(s: Seq<bool>, off: nat, lb: int, ub: int) -> Option<(int, nat)>
    recommends
        lb <= ub,
{
    let range = (ub - lb) as nat;
    let n = bit_length(range);
    if n <= 8 {
        if off + n <= s.len() {
            Some((lb + bits_to_u(s.subrange(off as int, (off + n) as int)), (off + n) as nat))
        } else {
            None
        }
    } else {
        let a = off + pad_len(off);
        let w = 8 * constrained_octets(range);
        if a + w <= s.len() {
            Some((lb + bits_to_u(s.subrange(a as int, (a + w) as int)), (a + w) as nat))
        } else {
            None
        }
    }
}

/// Bits appended for an indefinite (unbounded, non-fragmented) length
/// determinant: aligned, then one octet `0vvvvvvv` for lengths below 128, or
/// two octets `10` + 14 value bits for lengths below 16384.
pub open spec fn enc_indefinite_len(v: nat, at: nat) -> Seq<bool>
    recommends
        v < 16384,
{
    zeros(pad_len(at)) + if v < 128 {
        u_bits(v, 8)
    } else {
        u_bits(32768 + v, 16)
    }
}

/// Is the length determinant at `off` in the (rejected) fragmented form?
pub open spec fn indef_len_fragmented(s: Seq<bool>, off: nat) -> bool {
    let a = off + pad_len(off);
    a + 8 <= s.len() && bits_to_u(s.subrange(a as int, (a + 8) as int)) >= 192
}

/// The value and new cursor an indefinite length determinant read at `off`
/// produces; `None` when the data runs out or the form is fragmented.
pub open spec fn dec_indefinite_len(s: Seq<bool>, off: nat) -> Option<(nat, nat)> {
    let a = off + pad_len(off);
    if a + 8 > s.len() {
        None
    } else {
        let u = bits_to_u(s.subrange(a as int, (a + 8) as int));
        if u < 128 {
            Some((u, (a + 8) as nat))
        } else if u < 192 {
            if a + 16 <= s.len() {
                Some(((bits_to_u(s.subrange(a as int, (a + 16) as int)) - 32768) as nat, (a
                    + 16) as nat))
            } else {
                None
            }
        } else {
            None
        }
    }
}

/// Bits appended for a length determinant: a constrained whole number over
/// `[lb or 0, ub]` when `ub < 65536` is declared, the indefinite form
/// otherwise.
pub open spec fn enc_length_det(lb: Option<i128>, ub: Option<i128>, v: nat, at: nat) -> Seq<bool> {
    match ub {
        Some(u) if u < 65536 => enc_constrained(
            match lb {
                Some(l) => l as int,
                None => 0,
            },
            u as int,
            v as int,
            at,
        ),
        _ => enc_indefinite_len(v, at),
    }
}

/// The value and new cursor a length determinant read at `off` produces.
pub open spec fn dec_length_det(s: Seq<bool>, off: nat, lb: Option<i128>, ub: Option<i128>) -> Option<
    (int, nat),
> {
    match ub {
        Some(u) if u < 65536 => dec_constrained(
            s,
            off,
            match lb {
                Some(l) => l as int,
                None => 0,
            },
            u as int,
        ),
        _ => match dec_indefinite_len(s, off) {
            Some((v, o)) => Some((v as int, o)),
            None => None,
        },
    }
}

/// A length determinant never takes more than an alignment pad and sixteen
/// octets of buffer space.
pub proof fn lemma_enc_length_det_len(lb: Option<i128>, ub: Option<i128>, v: nat, at: nat)
    requires
        in_bounds(v as int, lb, ub),
    ensures
        enc_length_det(lb, ub, v, at).len() <= 135,
{
    crate::bits::lemma_pow2_127();
    match ub {
        Some(u) if u < 65536 => {
            let l: int = match lb {
                Some(l) => l as int,
                None => 0,
            };
            let range = (u - l) as nat;
            assert(range < pow2(128));
            crate::bits::lemma_bit_length_le(range, 128);
            let n = bit_length(range);
            if n <= 8 {
                crate::bits::lemma_u_bits_len((v - l) as nat, n);
            } else {
                crate::bits::lemma_u_bits_len((v - l) as nat, 8 * constrained_octets(range));
            }
        },
        _ => {
            if v < 128 {
                crate::bits::lemma_u_bits_len(v, 8);
            } else {
                crate::bits::lemma_u_bits_len(32768 + v, 16);
            }
        },
    }
}

/// The magnitude used to size a two's-complement encoding: `v` for a
/// non-negative `v`, `-(v + 1)` otherwise.
pub open spec fn signed_mag(v: int) -> nat {
    if v >= 0 {
        v as nat
    } else {
        (-(v + 1)) as nat
    }
}

/// Minimal octet count whose two's-complement range holds `v`.
pub open spec fn signed_octets(v: int) -> nat {
    bit_length(signed_mag(v)) / 8 + 1
}

/// `v` reduced modulo `pow2(k)`, as the unsigned number its two's-complement
/// bits denote.
pub open spec fn mod2p(v: int, k: nat) -> nat {
    (v % (pow2(k) as int)) as nat
}

/// Minimal octet count for an unsigned value, at least one.
pub open spec fn unsigned_octets(d: nat) -> nat {
    if bit_length(d) == 0 {
        1
    } else {
        (bit_length(d) + 7) / 8
    }
}

/// Bits appended for a semi-constrained whole number: the octet count of
/// `v - lb` as an indefinite length determinant, then that many octets of
/// `v - lb`.
pub open spec fn enc_semi_constrained(lb: int, v: int, at: nat) -> Seq<bool>
    recommends
        lb <= v,
{
    let d = (v - lb) as nat;
    let o = unsigned_octets(d);
    enc_indefinite_len(o, at) + u_bits(d, 8 * o)
}

/// Bits appended for an unconstrained whole number: the octet count as an
/// indefinite length determinant, then the two's-complement octets of `v`.
pub open spec fn enc_unconstrained(v: int, at: nat) -> Seq<bool> {
    let o = signed_octets(v);
    enc_indefinite_len(o, at) + u_bits(mod2p(v, 8 * o), 8 * o)
}

/// The value and new cursor a semi-constrained whole number read at `off`
/// produces: an octet count, then that many octets, re-based on `lb`.
pub open spec fn dec_semi_constrained(s: Seq<bool>, off: nat, lb: int) -> Option<(int, nat)> {
    match dec_indefinite_len(s, off) {
        Some((o, a)) => if a + 8 * o <= s.len() {
            Some((lb + bits_to_u(s.subrange(a as int, (a + 8 * o) as int)), (a + 8 * o) as nat))
        } else {
            None
        },
        None => None,
    }
}

/// The value and new cursor an unconstrained whole number read at `off`
/// produces: an octet count, then that many two's-complement octets.
pub open spec fn dec_unconstrained(s: Seq<bool>, off: nat) -> Option<(int, nat)> {
    match dec_indefinite_len(s, off) {
        Some((o, a)) => if o >= 1 && a + 8 * o <= s.len() {
            let w = bits_to_u(s.subrange(a as int, (a + 8 * o) as int));
            let v = if w < pow2((8 * o - 1) as nat) {
                w as int
            } else {
                w - pow2(8 * o)
            };
            Some((v, (a + 8 * o) as nat))
        } else {
            None
        },
        None => None,
    }
}

/// The length-determinant bounds make sense: when the constrained regime
/// applies, the effective lower bound does not exceed the upper bound.
pub open spec fn length_bounds_wf(lb: Option<i128>, ub: Option<i128>) -> bool {
    match (lb, ub) {
        (Some(l), Some(u)) => u < 65536 ==> l <= u,
        (None, Some(u)) => u < 65536 ==> u >= 0,
        _ => true,
    }
}

/// The extension-marker bit written ahead of an extensible construct's
/// value: always `0`, since extended values are rejected.
pub open spec fn ext_prefix(is_extensible: bool) -> Seq<bool> {
    if is_extensible {
        seq![false]
    } else {
        Seq::empty()
    }
}

/// Bits appended for a bit string: optional extension marker, the bit count
/// as a length determinant, octet alignment for counts above 16, then the
/// content bits verbatim.
pub open spec fn enc_bitstring(
    lb: Option<i128>,
    ub: Option<i128>,
    is_extensible: bool,
    content: Seq<bool>,
    at: nat,
) -> Seq<bool> {
    let e = ext_prefix(is_extensible);
    let det = enc_length_det(lb, ub, content.len(), at + e.len());
    let at2 = at + e.len() + det.len();
    e + det + if content.len() == 0 {
        Seq::<bool>::empty()
    } else if content.len() > 16 {
        zeros(pad_len(at2)) + content
    } else {
        content
    }
}

/// Bits appended for an octet string: optional extension marker, the octet
/// count as a length determinant, octet alignment for counts above 2, then
/// the octets as bits.
pub open spec fn enc_octetstring(
    lb: Option<i128>,
    ub: Option<i128>,
    is_extensible: bool,
    bytes: Seq<u8>,
    at: nat,
) -> Seq<bool> {
    let e = ext_prefix(is_extensible);
    let det = enc_length_det(lb, ub, bytes.len(), at + e.len());
    let at2 = at + e.len() + det.len();
    e + det + if bytes.len() == 0 {
        Seq::<bool>::empty()
    } else if bytes.len() > 2 {
        zeros(pad_len(at2)) + bytes_to_bits(bytes)
    } else {
        bytes_to_bits(bytes)
    }
}

/// Bits appended for a character string: as an octet string of the string's
/// bytes, except that empty and short strings take the same unaligned path.
pub open spec fn enc_string(
    lb: Option<i128>,
    ub: Option<i128>,
    is_extensible: bool,
    bytes: Seq<u8>,
    at: nat,
) -> Seq<bool> {
    let e = ext_prefix(is_extensible);
    let det = enc_length_det(lb, ub, bytes.len(), at + e.len());
    let at2 = at + e.len() + det.len();
    e + det + if bytes.len() > 2 {
        zeros(pad_len(at2)) + bytes_to_bits(bytes)
    } else {
        bytes_to_bits(bytes)
    }
}

/// The content bits and new cursor a bit string read at `off` produces:
/// the length determinant, alignment for counts above 16, then that many
/// bits.
pub open spec fn dec_bitstring(s: Seq<bool>, off: nat, lb: Option<i128>, ub: Option<i128>) -> Option<
    (Seq<bool>, nat),
> {
    match dec_length_det(s, off, lb, ub) {
        Some((l, a)) => if l < 0 {
            None
        } else if l == 0 {
            Some((Seq::<bool>::empty(), a))
        } else {
            let start = if l > 16 {
                a + pad_len(a)
            } else {
                a
            };
            if start + l <= s.len() {
                Some((s.subrange(start as int, start + l), (start + l) as nat))
            } else {
                None
            }
        },
        None => None,
    }
}

/// The octets and new cursor an octet string read at `off` produces.
pub open spec fn dec_octetstring(s: Seq<bool>, off: nat, lb: Option<i128>, ub: Option<i128>) -> Option<
    (Seq<u8>, nat),
> {
    match dec_length_det(s, off, lb, ub) {
        Some((l, a)) => if l < 0 {
            None
        } else if l == 0 {
            Some((Seq::<u8>::empty(), a))
        } else {
            let start = if l > 2 {
                a + pad_len(a)
            } else {
                a
            };
            if start + 8 * l <= s.len() {
                Some((bits_to_bytes(s.subrange(start as int, start + 8 * l)), (start + 8
                    * l) as nat))
            } else {
                None
            }
        },
        None => None,
    }
}

/// The octets and new cursor a character string read at `off` produces.
pub open spec fn dec_string_bytes(s: Seq<bool>, off: nat, lb: Option<i128>, ub: Option<i128>) -> Option<
    (Seq<u8>, nat),
> {
    match dec_length_det(s, off, lb, ub) {
        Some((l, a)) => if l < 0 {
            None
        } else {
            let start = if l > 2 {
                a + pad_len(a)
            } else {
                a
            };
            if start + 8 * l <= s.len() {
                Some((bits_to_bytes(s.subrange(start as int, start + 8 * l)), (start + 8
                    * l) as nat))
            } else {
                None
            }
        },
        None => None,
    }
}

/// Whole octets read back from a bit sequence, most significant bit first.
pub open spec fn bits_to_bytes(s: Seq<bool>) -> Seq<u8>
    recommends
        s.len() % 8 == 0,
{
    Seq::new(s.len() / 8, |i: int| bits_to_u(s.subrange(8 * i, 8 * i + 8)) as u8)
}

/// Reading octets back from the bit view of a byte sequence recovers the
/// bytes.
pub proof fn lemma_bits_to_bytes_of_bytes_to_bits(bs: Seq<u8>)
    ensures
        bits_to_bytes(bytes_to_bits(bs)) == bs,
    decreases bs.len(),
{
    lemma_bytes_to_bits_len(bs);
    let s = bytes_to_bits(bs);
    if bs.len() == 0 {
        assert(bits_to_bytes(s) =~= bs);
    } else {
        lemma_bits_to_bytes_of_bytes_to_bits(bs.drop_last());
        let prefix = bytes_to_bits(bs.drop_last());
        lemma_bytes_to_bits_len(bs.drop_last());
        lemma_u_bits_len(bs.last() as nat, 8);
        let n = bs.len();
        assert forall|i: int| 0 <= i < n implies #[trigger] bits_to_bytes(s)[i] == bs[i] by {
            if i < n - 1 {
                assert(s.subrange(8 * i, 8 * i + 8) =~= prefix.subrange(8 * i, 8 * i + 8));
                assert(bits_to_bytes(prefix)[i] == bs.drop_last()[i]);
            } else {
                assert(s.subrange(8 * i, 8 * i + 8) =~= u_bits(bs.last() as nat, 8));
                assert(pow2(8) == 256) by {
                    crate::bits::lemma_pow2_8();
                }
                lemma_bits_to_u_u_bits(bs.last() as nat, 8);
            }
        }
        assert(bits_to_bytes(s) =~= bs);
    }
}

/// Bits appended for an integer under the given bounds: the regime (and so
/// the wire shape) is a pure function of which bounds are declared.
pub open spec fn enc_integer(lb: Option<i128>, ub: Option<i128>, v: int, at: nat) -> Seq<bool>
    recommends
        in_bounds(v, lb, ub),
{
    match (lb, ub) {
        (None, _) => enc_unconstrained(v, at),
        (Some(l), None) => enc_semi_constrained(l as int, v, at),
        (Some(l), Some(u)) => enc_constrained(l as int, u as int, v, at),
    }
}

/// The value and new cursor an integer read at `off` produces under the
/// given bounds.
pub open spec fn dec_integer(s: Seq<bool>, off: nat, lb: Option<i128>, ub: Option<i128>) -> Option<
    (int, nat),
> {
    match (lb, ub) {
        (None, _) => dec_unconstrained(s, off),
        (Some(l), None) => dec_semi_constrained(s, off, l as int),
        (Some(l), Some(u)) => dec_constrained(s, off, l as int, u as int),
    }
}

} // verus!
