//! The bit buffer every encode and decode operation works on: an append-only
//! bit sequence with a read cursor, stored in a `bitvec` bit-vector.
use crate::bits::{
    bits_to_u, bytes_to_bits, lemma_bits_to_u_bound, lemma_bytes_to_bits_len,
    lemma_bytes_to_bits_push, lemma_u_bits_bits_to_u, pad_len, padding_for, pow2, zeros,
};
use crate::error::{AperCodecError, AperCodecErrorKind};
use bitvec::order::Msb0;
use bitvec::vec::BitVec;
use vstd::prelude::*;

verus! {

/// An ordered sequence of bits, stored in a `bitvec` bit-vector
/// (`BitVec<u8, Msb0>`). Verus cannot declare that type's generics, so the
/// vector is held opaquely and reached only through the methods below, whose
/// contracts speak of `bv_bits`.
#[verifier::external_body]
pub struct BitString {
    bits: BitVec<u8, Msb0>,
}

/// The ordered bit contents of a `BitString`.
pub uninterp spec fn bv_bits(v: BitString) -> Seq<bool>;

/// The largest bit count a `bitvec` bit-vector over bytes can hold
/// (`BitSlice::<u8, _>::MAX_BITS`, which is `usize::MAX >> 3`).
pub open spec fn max_bits() -> nat {
    usize::MAX as nat / 8
}

impl BitString {
    /// Relies on bitvec's `BitVec::new`: a new bit-vector is empty.
    #[verifier::external_body]
    pub fn new() -> (r: Self)
        ensures
            bv_bits(r) == Seq::<bool>::empty(),
    {
        BitString { bits: BitVec::new() }
    }

    /// Relies on bitvec's `BitVec::from_slice`: a bit-vector covering the
    /// given bytes, most significant bit of each byte first under `Msb0`.
    #[verifier::external_body]
    pub fn from_slice(bytes: &[u8]) -> (r: Self)
        requires
            8 * bytes@.len() <= max_bits(),
        ensures
            bv_bits(r) == bytes_to_bits(bytes@),
    {
        BitString { bits: BitVec::from_slice(bytes) }
    }

    /// Relies on bitvec's `BitVec::len`: the number of bits held.
    #[verifier::external_body]
    pub fn len(&self) -> (r: usize)
        ensures
            r == bv_bits(*self).len(),
    {
        self.bits.len()
    }

    /// Relies on bitvec's `BitVec::push`: appends one bit at the end. `push`
    /// panics above `MAX_BITS`, which the precondition rules out.
    #[verifier::external_body]
    pub fn push(&mut self, b: bool)
        requires
            bv_bits(*old(self)).len() < max_bits(),
        ensures
            bv_bits(*final(self)) == bv_bits(*old(self)).push(b),
    {
        self.bits.push(b)
    }

    /// Relies on bitvec's `Index` on `BitSlice`: the bit at a position.
    #[verifier::external_body]
    pub fn bit_at(&self, i: usize) -> (r: bool)
        requires
            i < bv_bits(*self).len(),
        ensures
            r == bv_bits(*self)[i as int],
    {
        self.bits[i]
    }

    /// Relies on bitvec's `BitVec::extend_from_bitslice`: appends the other
    /// bit-vector's bits in order.
    #[verifier::external_body]
    pub fn extend(&mut self, other: &BitString)
        requires
            bv_bits(*old(self)).len() + bv_bits(*other).len() <= max_bits(),
        ensures
            bv_bits(*final(self)) == bv_bits(*old(self)) + bv_bits(*other),
    {
        self.bits.extend_from_bitslice(other.bits.as_bitslice())
    }

    /// Relies on bitvec's `BitVec::extend_from_raw_slice`: appends whole
    /// bytes, each viewed most significant bit first under `Msb0`.
    #[verifier::external_body]
    pub fn extend_bytes(&mut self, bytes: &[u8])
        requires
            bv_bits(*old(self)).len() + 8 * bytes@.len() <= max_bits(),
        ensures
            bv_bits(*final(self)) == bv_bits(*old(self)) + bytes_to_bits(bytes@),
    {
        self.bits.extend_from_raw_slice(bytes)
    }
}

/// The bit buffer threaded through one whole encode or decode call tree.
/// Encoding appends at the end; decoding consumes from the read cursor.
pub struct AperCodecData {
    bits: BitString,
    decode_offset: usize,
}

impl AperCodecData {
    /// The ordered bit contents of the buffer.
    pub closed spec fn bit_seq(&self) -> Seq<bool> {
        bv_bits(self.bits)
    }

    /// The read cursor: how many bits decoding has consumed.
    pub closed spec fn offset(&self) -> nat {
        self.decode_offset as nat
    }

    /// The cursor never runs past the data, and the data never exceeds what
    /// the underlying bit-vector can hold.
    pub open spec fn wf(&self) -> bool {
        self.offset() <= self.bit_seq().len() && self.bit_seq().len() <= max_bits()
    }

    /// Bits not yet consumed by decoding.
    pub open spec fn remaining(&self) -> nat
        recommends
            self.wf(),
    {
        (self.bit_seq().len() - self.offset()) as nat
    }

    pub fn new() -> (r: Self)
        ensures
            r.bit_seq() == Seq::<bool>::empty(),
            r.offset() == 0,
            r.wf(),
    {
        AperCodecData { bits: BitString::new(), decode_offset: 0 }
    }

    /// A buffer over a byte source, ready for decoding.
    pub fn from_slice(bytes: &[u8]) -> (r: Self)
        requires
            8 * bytes@.len() <= max_bits(),
        ensures
            r.bit_seq() == bytes_to_bits(bytes@),
            r.offset() == 0,
            r.wf(),
    {
        proof {
            lemma_bytes_to_bits_len(bytes@);
        }
        AperCodecData { bits: BitString::from_slice(bytes), decode_offset: 0 }
    }

    pub fn bit_len(&self) -> (r: usize)
        ensures
            r == self.bit_seq().len(),
    {
        self.bits.len()
    }

    pub fn bit_at(&self, i: usize) -> (r: bool)
        requires
            i < self.bit_seq().len(),
        ensures
            r == self.bit_seq()[i as int],
    {
        self.bits.bit_at(i)
    }

    /// Appends exactly one bit, `1` for true.
    pub fn encode_bool(&mut self, v: bool)
        requires
            old(self).wf(),
            old(self).bit_seq().len() < max_bits(),
        ensures
            final(self).wf(),
            final(self).bit_seq() == old(self).bit_seq().push(v),
            final(self).offset() == old(self).offset(),
    {
        self.bits.push(v)
    }

    /// Appends the given bits verbatim, in order.
    pub fn append_bits(&mut self, other: &BitString)
        requires
            old(self).wf(),
            old(self).bit_seq().len() + bv_bits(*other).len() <= max_bits(),
        ensures
            final(self).wf(),
            final(self).bit_seq() == old(self).bit_seq() + bv_bits(*other),
            final(self).offset() == old(self).offset(),
    {
        self.bits.extend(other)
    }

    /// Appends whole bytes, each one most significant bit first.
    pub fn append_bytes(&mut self, bytes: &[u8])
        requires
            old(self).wf(),
            old(self).bit_seq().len() + 8 * bytes@.len() <= max_bits(),
        ensures
            final(self).wf(),
            final(self).bit_seq() == old(self).bit_seq() + bytes_to_bits(bytes@),
            final(self).offset() == old(self).offset(),
    {
        proof {
            lemma_bytes_to_bits_len(bytes@);
        }
        self.bits.extend_bytes(bytes)
    }

    /// Pads the buffer with zero bits up to the next octet boundary. No-op
    /// if already aligned.
    pub fn align(&mut self)
        requires
            old(self).wf(),
            old(self).bit_seq().len() + 7 <= max_bits(),
        ensures
            final(self).wf(),
            final(self).bit_seq() == old(self).bit_seq() + zeros(
                pad_len(old(self).bit_seq().len()),
            ),
            final(self).bit_seq().len() % 8 == 0,
            final(self).offset() == old(self).offset(),
    {
        let len = self.bit_len();
        let k = padding_for(len);
        let mut j: usize = 0;
        while j < k
            invariant
                j <= k,
                k == pad_len(old(self).bit_seq().len()),
                k < 8,
                old(self).wf(),
                old(self).bit_seq().len() + 7 <= max_bits(),
                self.bit_seq() == old(self).bit_seq() + zeros(j as nat),
                self.offset() == old(self).offset(),
            decreases k - j,
        {
            proof {
                assert(zeros((j + 1) as nat) =~= zeros(j as nat).push(false));
            }
            self.bits.push(false);
            j = j + 1;
        }
        proof {
            assert((old(self).bit_seq().len() + pad_len(old(self).bit_seq().len())) % 8 == 0);
        }
    }

    /// Reads and consumes one bit; fails with `BufferTooShort` when none
    /// remains.
    pub fn read_bit(&mut self) -> (r: Result<bool, AperCodecError>)
        requires
            old(self).wf(),
        ensures
            final(self).wf(),
            final(self).bit_seq() == old(self).bit_seq(),
            r.is_ok() <==> old(self).remaining() >= 1,
            r matches Ok(b) ==> b == old(self).bit_seq()[old(self).offset() as int]
                && final(self).offset() == old(self).offset() + 1,
            r matches Err(e) ==> final(self).offset() == old(self).offset() && e.kind
                == AperCodecErrorKind::BufferTooShort,
    {
        let len = self.bit_len();
        if self.decode_offset < len {
            let b = self.bits.bit_at(self.decode_offset);
            self.decode_offset = self.decode_offset + 1;
            Ok(b)
        } else {
            Err(AperCodecError::new(AperCodecErrorKind::BufferTooShort, "bit"))
        }
    }

    /// Advances the read cursor to the next octet boundary, consuming the
    /// padding bits; fails when the padding runs past the data.
    pub fn decode_align(&mut self) -> (r: Result<(), AperCodecError>)
        requires
            old(self).wf(),
        ensures
            final(self).wf(),
            final(self).bit_seq() == old(self).bit_seq(),
            r.is_ok() <==> old(self).remaining() >= pad_len(old(self).offset()),
            r.is_ok() ==> final(self).offset() == old(self).offset() + pad_len(
                old(self).offset(),
            ) && final(self).offset() % 8 == 0,
            r matches Err(e) ==> final(self).offset() == old(self).offset() && e.kind
                == AperCodecErrorKind::BufferTooShort,
    {
        let k = padding_for(self.decode_offset);
        let len = self.bit_len();
        if len - self.decode_offset >= k {
            proof {
                assert((old(self).offset() + pad_len(old(self).offset())) % 8 == 0);
            }
            self.decode_offset = self.decode_offset + k;
            Ok(())
        } else {
            Err(AperCodecError::new(AperCodecErrorKind::BufferTooShort, "alignment"))
        }
    }

    /// Reads and consumes `n` bits as an unsigned number, most significant
    /// bit first.
    pub fn read_unsigned(&mut self, n: usize) -> (r: Result<u128, AperCodecError>)
        requires
            old(self).wf(),
            n <= 128,
        ensures
            final(self).wf(),
            final(self).bit_seq() == old(self).bit_seq(),
            r.is_ok() <==> old(self).remaining() >= n,
            r matches Ok(v) ==> final(self).offset() == old(self).offset() + n && v == bits_to_u(
                old(self).bit_seq().subrange(
                    old(self).offset() as int,
                    old(self).offset() + n as int,
                ),
            ),
            r matches Err(e) ==> final(self).offset() == old(self).offset() && e.kind
                == AperCodecErrorKind::BufferTooShort,
    {
        let len = self.bit_len();
        if len - self.decode_offset < n {
            return Err(AperCodecError::new(AperCodecErrorKind::BufferTooShort, "unsigned"));
        }
        let ghost off = self.decode_offset as int;
        let mut v: u128 = 0;
        let mut j: usize = 0;
        proof {
            vstd::arithmetic::power2::lemma2_to64();
            assert(self.bit_seq().subrange(off, off) =~= Seq::<bool>::empty());
        }
        while j < n
            invariant
                j <= n,
                n <= 128,
                self.wf(),
                self.bit_seq() == old(self).bit_seq(),
                off == old(self).offset(),
                off + n <= self.bit_seq().len(),
                off + n <= usize::MAX,
                self.offset() == off + j,
                v == bits_to_u(self.bit_seq().subrange(off, off + j)),
                v < pow2(j as nat),
            decreases n - j,
        {
            proof {
                lemma_bits_to_u_bound(self.bit_seq().subrange(off, off + j));
                crate::bits::lemma_pow2_le_max(j as nat);
            }
            let b = self.bit_at(self.decode_offset);
            proof {
                let s1 = self.bit_seq().subrange(off, off + j + 1);
                assert(s1.drop_last() =~= self.bit_seq().subrange(off, off + j));
                assert(s1.last() == self.bit_seq()[off + j]);
                lemma_bits_to_u_bound(s1);
            }
            v = 2 * v + if b {
                1
            } else {
                0
            };
            self.decode_offset = self.decode_offset + 1;
            j = j + 1;
        }
        Ok(v)
    }

    /// Reads and consumes `n` bits verbatim.
    pub fn read_bits(&mut self, n: usize) -> (r: Result<BitString, AperCodecError>)
        requires
            old(self).wf(),
        ensures
            final(self).wf(),
            final(self).bit_seq() == old(self).bit_seq(),
            r.is_ok() <==> old(self).remaining() >= n,
            r matches Ok(bv) ==> final(self).offset() == old(self).offset() + n && bv_bits(bv)
                == old(self).bit_seq().subrange(
                old(self).offset() as int,
                old(self).offset() + n as int,
            ),
            r matches Err(e) ==> final(self).offset() == old(self).offset() && e.kind
                == AperCodecErrorKind::BufferTooShort,
    {
        let len = self.bit_len();
        if len - self.decode_offset < n {
            return Err(AperCodecError::new(AperCodecErrorKind::BufferTooShort, "bits"));
        }
        let ghost off = self.decode_offset as int;
        let mut out = BitString::new();
        proof {
            assert(self.bit_seq().subrange(off, off) =~= Seq::<bool>::empty());
        }
        let mut j: usize = 0;
        while j < n
            invariant
                j <= n,
                self.wf(),
                self.bit_seq() == old(self).bit_seq(),
                off == old(self).offset(),
                off + n <= self.bit_seq().len(),
                off + n <= usize::MAX,
                self.offset() == off + j,
                bv_bits(out) == self.bit_seq().subrange(off, off + j),
            decreases n - j,
        {
            let b = self.bit_at(self.decode_offset);
            proof {
                let s1 = self.bit_seq().subrange(off, off + j + 1);
                assert(s1 =~= self.bit_seq().subrange(off, off + j).push(
                    self.bit_seq()[off + j],
                ));
            }
            out.push(b);
            self.decode_offset = self.decode_offset + 1;
            j = j + 1;
        }
        Ok(out)
    }

    /// Reads and consumes `8 * n` bits as `n` whole bytes.
    pub fn read_bytes(&mut self, n: usize) -> (r: Result<Vec<u8>, AperCodecError>)
        requires
            old(self).wf(),
        ensures
            final(self).wf(),
            final(self).bit_seq() == old(self).bit_seq(),
            r.is_ok() <==> old(self).remaining() >= 8 * n,
            r matches Ok(v) ==> final(self).offset() == old(self).offset() + 8 * n && v@.len() == n
                && bytes_to_bits(v@) == old(self).bit_seq().subrange(
                old(self).offset() as int,
                old(self).offset() + 8 * n as int,
            ),
            r matches Err(e) ==> final(self).offset() == old(self).offset() && e.kind
                == AperCodecErrorKind::BufferTooShort,
    {
        let len = self.bit_len();
        if n > len / 8 || len - 8 * n < self.decode_offset {
            return Err(AperCodecError::new(AperCodecErrorKind::BufferTooShort, "bytes"));
        }
        let ghost off = self.decode_offset as int;
        let mut out: Vec<u8> = Vec::new();
        proof {
            assert(self.bit_seq().subrange(off, off) =~= Seq::<bool>::empty());
        }
        let mut j: usize = 0;
        while j < n
            invariant
                j <= n,
                self.wf(),
                self.bit_seq() == old(self).bit_seq(),
                off == old(self).offset(),
                off + 8 * n <= self.bit_seq().len(),
                off + 8 * n <= usize::MAX,
                self.offset() == off + 8 * j,
                out@.len() == j,
                bytes_to_bits(out@) == self.bit_seq().subrange(off, off + 8 * j),
            decreases n - j,
        {
            let r = self.read_unsigned(8);
            let v = match r {
                Ok(v) => v,
                Err(_) => {
                    proof {
                        assert(false);
                    }
                    0
                },
            };
            proof {
                let chunk = self.bit_seq().subrange(off + 8 * j, off + 8 * j + 8);
                lemma_bits_to_u_bound(chunk);
                crate::bits::lemma_pow2_8();
                lemma_u_bits_bits_to_u(chunk);
                lemma_bytes_to_bits_push(out@, v as u8);
                assert(self.bit_seq().subrange(off, off + 8 * (j + 1)) =~= self.bit_seq().subrange(
                    off,
                    off + 8 * j,
                ) + chunk);
            }
            let b: u8 = v as u8;
            out.push(b);
            j = j + 1;
        }
        Ok(out)
    }

    /// The buffer as output bytes: its bits in order, the trailing partial
    /// octet zero-padded.
    pub fn into_bytes(&mut self) -> (r: Vec<u8>)
        requires
            old(self).wf(),
            old(self).bit_seq().len() + 7 <= max_bits(),
        ensures
            bytes_to_bits(r@) == old(self).bit_seq() + zeros(pad_len(old(self).bit_seq().len())),
    {
        self.align();
        let ghost aligned = self.bit_seq();
        proof {
            assert(aligned == old(self).bit_seq() + zeros(pad_len(old(self).bit_seq().len())));
        }
        let total = self.bit_len();
        let mut out: Vec<u8> = Vec::new();
        let mut i: usize = 0;
        while i < total
            invariant
                i <= total,
                i % 8 == 0,
                total % 8 == 0,
                total == self.bit_seq().len(),
                self.bit_seq() == aligned,
                bytes_to_bits(out@) == aligned.subrange(0, i as int),
            decreases total - i,
        {
            let mut b: u8 = 0;
            let mut j: usize = 0;
            proof {
                vstd::arithmetic::power2::lemma2_to64();
                assert(aligned.subrange(i as int, i as int) =~= Seq::<bool>::empty());
            }
            while j < 8
                invariant
                    j <= 8,
                    i + 8 <= total,
                    total == self.bit_seq().len(),
                    self.bit_seq() == aligned,
                    b == bits_to_u(aligned.subrange(i as int, i + j as int)),
                    b < pow2(j as nat),
                decreases 8 - j,
            {
                proof {
                    vstd::arithmetic::power2::lemma2_to64();
                    crate::bits::lemma_pow2_mono((j + 1) as nat, 8);
                    let s1 = aligned.subrange(i as int, i + j + 1 as int);
                    assert(s1.drop_last() =~= aligned.subrange(i as int, i + j as int));
                    assert(s1.last() == aligned[i + j]);
                    lemma_bits_to_u_bound(s1);
                }
                let bit = self.bit_at(i + j);
                b = 2 * b + if bit {
                    1
                } else {
                    0
                };
                j = j + 1;
            }
            proof {
                let chunk = aligned.subrange(i as int, i + 8 as int);
                lemma_bits_to_u_bound(chunk);
                crate::bits::lemma_pow2_8();
                lemma_u_bits_bits_to_u(chunk);
                lemma_bytes_to_bits_push(out@, b);
                assert(aligned.subrange(0, i + 8 as int) =~= aligned.subrange(0, i as int)
                    + chunk);
            }
            out.push(b);
            i = i + 8;
        }
        proof {
            assert(aligned.subrange(0, total as int) =~= aligned);
        }
        out
    }
}

} // verus!
