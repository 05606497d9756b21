//! Mathematical model of bit sequences: big-endian (most significant bit
//! first) views of unsigned numbers, and the lemmas that relate writing a
//! number as bits to reading it back.
use vstd::arithmetic::div_mod::{
    lemma_div_denominator, lemma_fundamental_div_mod, lemma_mod_breakdown, lemma_mod_mod,
    lemma_mod_multiples_vanish, lemma_small_mod,
};
use vstd::arithmetic::power2::{lemma_pow2_adds, lemma_pow2_pos, lemma_pow2_strictly_increases};
use vstd::prelude::*;

verus! {

pub use vstd::arithmetic::power2::pow2;

/// Number of zero bits needed to pad a buffer of `len` bits up to the next
/// octet boundary.
pub open spec fn pad_len(len: nat) -> nat {
    ((8 - len % 8) % 8) as nat
}

pub fn padding_for(len: usize) -> (r: usize)
    ensures
        r == pad_len(len as nat),
{
    (8 - len % 8) % 8
}

/// The `n`-bit big-endian representation of `v % pow2(n)`: the last element
/// of the sequence is the least significant bit.
pub open spec fn u_bits(v: nat, n: nat) -> Seq<bool>
    decreases n,
{
    if n == 0 {
        Seq::empty()
    } else {
        u_bits(v / 2, (n - 1) as nat).push(v % 2 == 1)
    }
}

/// The unsigned number a big-endian bit sequence denotes.
pub open spec fn bits_to_u(s: Seq<bool>) -> nat
    decreases s.len(),
{
    if s.len() == 0 {
        0
    } else {
        2 * bits_to_u(s.drop_last()) + if s.last() {
            1nat
        } else {
            0nat
        }
    }
}

/// A run of `n` zero bits.
pub open spec fn zeros(n: nat) -> Seq<bool> {
    Seq::new(n, |i: int| false)
}

/// A byte sequence viewed as bits, most significant bit of each byte first.
pub open spec fn bytes_to_bits(bs: Seq<u8>) -> Seq<bool>
    decreases bs.len(),
{
    if bs.len() == 0 {
        Seq::empty()
    } else {
        bytes_to_bits(bs.drop_last()) + u_bits(bs.last() as nat, 8)
    }
}

/// Number of binary digits of `v`: the least `n` with `v < pow2(n)`.
pub open spec fn bit_length(v: nat) -> nat
    decreases v,
{
    if v == 0 {
        0
    } else {
        1 + bit_length(v / 2)
    }
}

pub broadcast proof fn lemma_u_bits_len(v: nat, n: nat)
    ensures
        (#[trigger] u_bits(v, n)).len() == n,
    decreases n,
{
    if n > 0 {
        lemma_u_bits_len(v / 2, (n - 1) as nat);
    }
}

pub broadcast proof fn lemma_bits_to_u_bound(s: Seq<bool>)
    ensures
        #[trigger] bits_to_u(s) < pow2(s.len()),
    decreases s.len(),
{
    if s.len() == 0 {
        assert(pow2(0) == 1) by {
            lemma_pow2_pos(0);
            vstd::arithmetic::power2::lemma2_to64();
        }
    } else {
        lemma_bits_to_u_bound(s.drop_last());
        lemma_pow2_adds((s.len() - 1) as nat, 1);
        vstd::arithmetic::power2::lemma2_to64();
    }
}

/// Reading back the bits of `v` recovers `v`.
pub proof fn lemma_bits_to_u_u_bits(v: nat, n: nat)
    requires
        v < pow2(n),
    ensures
        bits_to_u(u_bits(v, n)) == v,
    decreases n,
{
    lemma_u_bits_len(v, n);
    if n == 0 {
        assert(pow2(0) == 1) by {
            vstd::arithmetic::power2::lemma2_to64();
        }
    } else {
        assert(v / 2 < pow2((n - 1) as nat)) by {
            lemma_pow2_adds((n - 1) as nat, 1);
            vstd::arithmetic::power2::lemma2_to64();
        }
        lemma_bits_to_u_u_bits(v / 2, (n - 1) as nat);
        let s = u_bits(v, n);
        assert(s.drop_last() =~= u_bits(v / 2, (n - 1) as nat));
        lemma_fundamental_div_mod(v as int, 2);
    }
}

/// Writing back the number a bit sequence denotes recovers the sequence.
pub proof fn lemma_u_bits_bits_to_u(s: Seq<bool>)
    ensures
        u_bits(bits_to_u(s), s.len()) == s,
    decreases s.len(),
{
    if s.len() > 0 {
        lemma_u_bits_bits_to_u(s.drop_last());
        let v = bits_to_u(s);
        let b: nat = if s.last() {
            1
        } else {
            0
        };
        assert(v == 2 * bits_to_u(s.drop_last()) + b);
        assert(v / 2 == bits_to_u(s.drop_last()) && v % 2 == b) by {
            lemma_fundamental_div_mod_converse(
                v as int,
                2,
                bits_to_u(s.drop_last()) as int,
                b as int,
            );
        }
        assert(u_bits(v, s.len()) =~= s);
    } else {
        assert(u_bits(0, 0) =~= s);
    }
}

proof fn lemma_fundamental_div_mod_converse(x: int, d: int, q: int, r: int)
    requires
        d != 0,
        0 <= r < d,
        x == q * d + r,
    ensures
        r == x % d,
        q == x / d,
{
    vstd::arithmetic::div_mod::lemma_fundamental_div_mod_converse(x, d, q, r);
}

/// Splitting a big-endian representation: the first `m` bits carry the high
/// part of the number, the last `n` bits its low part.
pub proof fn lemma_u_bits_split(v: nat, m: nat, n: nat)
    ensures
        u_bits(v, m + n) == u_bits(v / pow2(n), m) + u_bits(v % pow2(n), n),
    decreases n,
{
    lemma_pow2_pos(n);
    if n == 0 {
        assert(pow2(0) == 1) by {
            vstd::arithmetic::power2::lemma2_to64();
        }
        lemma_small_mod(0, 1);
        assert(u_bits(v % pow2(0), 0) =~= Seq::<bool>::empty());
        assert(u_bits(v / pow2(0), m) + u_bits(v % pow2(0), 0) =~= u_bits(v, m));
    } else {
        lemma_u_bits_split(v / 2, m, (n - 1) as nat);
        lemma_pow2_pos((n - 1) as nat);
        assert(pow2(n) == 2 * pow2((n - 1) as nat)) by {
            lemma_pow2_adds(1, (n - 1) as nat);
            vstd::arithmetic::power2::lemma2_to64();
        }
        // (v / 2) / pow2(n - 1) == v / pow2(n)
        lemma_div_denominator(v as int, 2, pow2((n - 1) as nat) as int);
        // (v / 2) % pow2(n - 1) == (v % pow2(n)) / 2
        // v % 2 == (v % pow2(n)) % 2
        lemma_mod_breakdown(v as int, 2, pow2((n - 1) as nat) as int);
        lemma_mod_mod(v as int, 2, pow2((n - 1) as nat) as int);
        let low = v % pow2(n);
        assert(low == 2 * ((v / 2) % pow2((n - 1) as nat)) + v % 2);
        assert(low / 2 == (v / 2) % pow2((n - 1) as nat) && low % 2 == v % 2) by {
            lemma_fundamental_div_mod_converse(
                low as int,
                2,
                ((v / 2) % pow2((n - 1) as nat)) as int,
                (v % 2) as int,
            );
        }
        lemma_u_bits_len(v / pow2(n), m);
        lemma_u_bits_len(low, n);
        assert(u_bits(v, m + n) =~= u_bits(v / pow2(n), m) + u_bits(low, n));
    }
}

/// `bit_length` characterises the powers of two that bound a number.
pub proof fn lemma_bit_length(v: nat)
    ensures
        v < pow2(bit_length(v)),
        v > 0 ==> pow2((bit_length(v) - 1) as nat) <= v,
    decreases v,
{
    if v == 0 {
        lemma_pow2_pos(0);
    } else {
        lemma_bit_length(v / 2);
        let k = bit_length(v / 2);
        assert(pow2(k + 1) == 2 * pow2(k)) by {
            lemma_pow2_adds(k, 1);
            vstd::arithmetic::power2::lemma2_to64();
        }
        if v / 2 > 0 {
            assert(pow2(k) == 2 * pow2((k - 1) as nat)) by {
                lemma_pow2_adds((k - 1) as nat, 1);
                vstd::arithmetic::power2::lemma2_to64();
            }
        } else {
            assert(pow2(0) == 1) by {
                vstd::arithmetic::power2::lemma2_to64();
            }
        }
    }
}

/// `bit_length` is monotone in the sense needed to pick minimal widths.
pub proof fn lemma_bit_length_le(v: nat, n: nat)
    requires
        v < pow2(n),
    ensures
        bit_length(v) <= n,
    decreases v,
{
    if v > 0 {
        lemma_bit_length(v);
        if bit_length(v) > n {
            if n < (bit_length(v) - 1) as nat {
                lemma_pow2_strictly_increases(n, (bit_length(v) - 1) as nat);
            }
        }
    }
}

pub proof fn lemma_pow2_8()
    ensures
        pow2(8) == 256,
{
    vstd::arithmetic::power2::lemma2_to64();
}

/// The exact top powers of two of the 128-bit range.
pub proof fn lemma_pow2_127()
    ensures
        pow2(127) * 2 == u128::MAX + 1,
        pow2(128) == u128::MAX + 1,
{
    lemma_pow2_adds(64, 63);
    lemma_pow2_adds(127, 1);
    vstd::arithmetic::power2::lemma2_to64();
    vstd::arithmetic::power2::lemma2_to64_rest();
}

/// Doubling a power of two below the top bit stays within `u128`.
pub proof fn lemma_pow2_le_max(n: nat)
    requires
        n <= 127,
    ensures
        2 * pow2(n) <= u128::MAX + 1,
{
    if n < 127 {
        lemma_pow2_strictly_increases(n, 127);
    }
    assert(pow2(127) * 2 == u128::MAX + 1) by {
        lemma_pow2_adds(64, 63);
        vstd::arithmetic::power2::lemma2_to64();
        vstd::arithmetic::power2::lemma2_to64_rest();
    }
}

/// Concatenation shifts the high part by the width of the low part.
pub proof fn lemma_bits_to_u_concat(x: Seq<bool>, y: Seq<bool>)
    ensures
        bits_to_u(x + y) == bits_to_u(x) * pow2(y.len()) + bits_to_u(y),
    decreases y.len(),
{
    if y.len() == 0 {
        assert(x + y =~= x);
        assert(pow2(0) == 1) by {
            vstd::arithmetic::power2::lemma2_to64();
        }
    } else {
        lemma_bits_to_u_concat(x, y.drop_last());
        assert((x + y).drop_last() =~= x + y.drop_last());
        assert((x + y).last() == y.last());
        let p1 = pow2((y.len() - 1) as nat);
        let p = pow2(y.len());
        assert(p == 2 * p1) by {
            lemma_pow2_adds((y.len() - 1) as nat, 1);
            vstd::arithmetic::power2::lemma2_to64();
        }
        assert(2 * (bits_to_u(x) * p1) == bits_to_u(x) * p) by (nonlinear_arith)
            requires
                p == 2 * p1,
        ;
    }
}

pub proof fn lemma_pow2_mono(a: nat, b: nat)
    requires
        a <= b,
    ensures
        pow2(a) <= pow2(b),
{
    if a < b {
        lemma_pow2_strictly_increases(a, b);
    }
}

pub proof fn lemma_bytes_to_bits_len(bs: Seq<u8>)
    ensures
        bytes_to_bits(bs).len() == 8 * bs.len(),
    decreases bs.len(),
{
    if bs.len() > 0 {
        lemma_bytes_to_bits_len(bs.drop_last());
        lemma_u_bits_len(bs.last() as nat, 8);
    }
}

pub proof fn lemma_bytes_to_bits_push(bs: Seq<u8>, b: u8)
    ensures
        bytes_to_bits(bs.push(b)) == bytes_to_bits(bs) + u_bits(b as nat, 8),
{
    assert(bs.push(b).drop_last() =~= bs);
    assert(bs.push(b).last() == b);
}

} // verus!
