//! Bit-level storage for compressed codes.
//!
//! A compressed code is a sequence of bits held in a `bitvec` bit-vector
//! (most-significant bit of each byte first).  The bit-vector itself is an
//! outside structure, so every operation on it goes through a trusted
//! wrapper whose contract speaks of the abstract bit sequence `code_bits`.

use vstd::prelude::*;
use bitvec::order::Msb0;
use bitvec::vec::BitVec;
use crate::errors::HuffmanError;

verus! {

/// A compressed bit code: an ordered sequence of bits, held in a
/// `bitvec` bit-vector packed most-significant-bit first into bytes.
///
/// The bit-vector's own generics cannot be declared to the verifier, so
/// the whole struct is opaque and is read only through the trusted
/// accessors below.
#[verifier::external_body]
pub struct HaffmanCompressedCode {
    inner: BitVec<u8, Msb0>,
}

/// The sequence of bits that a bit-vector holds, in order.
pub uninterp spec fn code_bits(v: HaffmanCompressedCode) -> Seq<bool>;

/// A bit-vector backed by `u8` storage refuses to grow past
/// `usize::MAX >> 3` bits; staying strictly below this bound keeps every
/// push and extend total.
pub const CODE_BITS_CAP: usize = usize::MAX >> 3;

/// Relies on `BitVec::new`: the new bit-vector is empty.
#[verifier::external_body]
pub fn code_new() -> (r: HaffmanCompressedCode)
    ensures
        code_bits(r) == Seq::<bool>::empty(),
{
    HaffmanCompressedCode { inner: BitVec::new() }
}

/// Relies on `BitVec::push`: appends one bit; panics only when the length
/// would pass the structure's capacity limit, which the bound below rules
/// out.
#[verifier::external_body]
pub fn code_push(v: &mut HaffmanCompressedCode, b: bool)
    requires
        code_bits(*old(v)).len() < CODE_BITS_CAP,
    ensures
        code_bits(*final(v)) == code_bits(*old(v)).push(b),
{
    v.inner.push(b)
}

/// Relies on `BitVec::len`: the number of bits held.  A `u8`-backed
/// bit-vector never grows past `usize::MAX >> 3` bits (its span encoding
/// reserves three length bits), so the length is within that cap.
#[verifier::external_body]
pub fn code_len(v: &HaffmanCompressedCode) -> (n: usize)
    ensures
        n == code_bits(*v).len(),
        n <= CODE_BITS_CAP,
{
    v.inner.len()
}

/// Relies on `BitSlice`'s `Index<usize>`: the bit at a semantic index;
/// panics only out of bounds, which the precondition rules out.
#[verifier::external_body]
pub fn code_get(v: &HaffmanCompressedCode, i: usize) -> (b: bool)
    requires
        i < code_bits(*v).len(),
    ensures
        b == code_bits(*v)[i as int],
{
    v.inner[i]
}

/// Relies on `BitVec::clone` (`from_bitslice` of the whole slice): the
/// copy holds the same bits.
#[verifier::external_body]
pub fn code_clone(v: &HaffmanCompressedCode) -> (r: HaffmanCompressedCode)
    ensures
        code_bits(r) == code_bits(*v),
{
    HaffmanCompressedCode { inner: v.inner.clone() }
}

/// Relies on `BitVec::extend_from_bitslice`: appends every bit of the
/// other slice in order; the capacity bound keeps the resize total.
#[verifier::external_body]
pub fn code_extend(v: &mut HaffmanCompressedCode, other: &HaffmanCompressedCode)
    requires
        code_bits(*old(v)).len() + code_bits(*other).len() < CODE_BITS_CAP,
    ensures
        code_bits(*final(v)) == code_bits(*old(v)) + code_bits(*other),
{
    v.inner.extend_from_bitslice(other.inner.as_bitslice())
}

/// Relies on `BitVec::is_empty`: true exactly when no bit is held.
#[verifier::external_body]
pub fn code_is_empty(v: &HaffmanCompressedCode) -> (r: bool)
    ensures
        r == (code_bits(*v).len() == 0),
{
    v.inner.is_empty()
}


/// True when bit `k` (counting from the most significant bit) of a byte
/// is set.
pub open spec fn nth_bit_of_byte(b: u8, k: int) -> bool
    recommends
        0 <= k < 8,
{
    (b >> ((7 - k) as u8)) & 1u8 == 1u8
}

/// Bit `k` of a byte sequence, reading each byte most-significant-bit
/// first.
pub open spec fn stream_bit(bytes: Seq<u8>, k: int) -> bool
    recommends
        0 <= k < bytes.len() * 8,
{
    nth_bit_of_byte(bytes[k / 8], k % 8)
}

/// An ordered sequence of bits plus its authoritative bit length.  Byte
/// storage pads the final partial byte with zero bits; the stored count,
/// not the byte length, bounds the payload.
#[derive(Debug)]
pub struct PackedBitstream {
    pub bytes: Vec<u8>,
    pub bit_count: usize,
}

impl PackedBitstream {
    /// The byte buffer is exactly long enough for the stored count, every
    /// padding bit past the count is zero, and the count is small enough
    /// to unpack into a bit-vector again.
    pub open spec fn well_formed(&self) -> bool {
        &&& self.bytes@.len() == (self.bit_count + 7) / 8
        &&& forall|k: int|
            self.bit_count <= k < self.bytes@.len() * 8 ==> !stream_bit(self.bytes@, k)
        &&& self.bit_count <= CODE_BITS_CAP
    }

    /// The payload: the first `bit_count` bits of the byte buffer, most
    /// significant bit of each byte first.
    pub open spec fn bits(&self) -> Seq<bool> {
        Seq::new(self.bit_count as nat, |i: int| stream_bit(self.bytes@, i))
    }
}

proof fn lemma_or_sets_bit(b: u8, sh: u8, sh2: u8)
    requires
        sh < 8,
        sh2 < 8,
    ensures
        ((b | (1u8 << sh)) >> sh) & 1u8 == 1u8,
        sh2 != sh ==> ((b | (1u8 << sh)) >> sh2) & 1u8 == (b >> sh2) & 1u8,
{
    assert(sh < 8 ==> ((b | (1u8 << sh)) >> sh) & 1u8 == 1u8) by (bit_vector);
    assert(sh < 8 && sh2 < 8 && sh2 != sh ==> ((b | (1u8 << sh)) >> sh2) & 1u8 == (b >> sh2)
        & 1u8) by (bit_vector);
}

proof fn lemma_zero_byte_clear(sh: u8)
    ensures
        (0u8 >> sh) & 1u8 == 0u8,
{
    assert((0u8 >> sh) & 1u8 == 0u8) by (bit_vector);
}

/// Serializes a bit sequence into bytes, most-significant-bit first, the
/// final partial byte padded with zero bits, together with the exact bit
/// count.
pub fn pack_bits(v: &HaffmanCompressedCode) -> (r: PackedBitstream)
    ensures
        r.well_formed(),
        r.bits() == code_bits(*v),
{
    let n = code_len(v);
    let mut bytes: Vec<u8> = Vec::new();
    let mut i: usize = 0;
    while i < n
        invariant
            i <= n,
            n == code_bits(*v).len(),
            bytes@.len() == (i + 7) / 8,
            forall|j: int| 0 <= j < i ==> stream_bit(bytes@, j) == code_bits(*v)[j],
            forall|k: int| i <= k < bytes@.len() * 8 ==> !stream_bit(bytes@, k),
        decreases n - i,
    {
        if i % 8 == 0 {
            bytes.push(0u8);
            proof {
                assert forall|k: int| i <= k < bytes@.len() * 8 implies !stream_bit(bytes@, k) by {
                    if k / 8 == bytes@.len() - 1 {
                        lemma_zero_byte_clear((7 - k % 8) as u8);
                    }
                }
            }
        }
        let b = code_get(v, i);
        if b {
            let byte_idx = i / 8;
            let sh: u8 = (7 - i % 8) as u8;
            let old_byte = bytes[byte_idx];
            let new_byte = old_byte | (1u8 << sh);
            let ghost prev = bytes@;
            bytes.set(byte_idx, new_byte);
            proof {
                assert forall|j: int| 0 <= j < i + 1 implies stream_bit(bytes@, j) == code_bits(
                    *v,
                )[j] by {
                    if j == i {
                        lemma_or_sets_bit(old_byte, sh, sh);
                    } else if j / 8 == byte_idx {
                        lemma_or_sets_bit(old_byte, sh, (7 - j % 8) as u8);
                    }
                }
                assert forall|k: int| i + 1 <= k < bytes@.len() * 8 implies !stream_bit(
                    bytes@,
                    k,
                ) by {
                    assert(!stream_bit(prev, k));
                    if k / 8 == byte_idx {
                        assert(k % 8 != i % 8);
                        lemma_or_sets_bit(old_byte, sh, (7 - k % 8) as u8);
                    } else {
                        assert(bytes@[k / 8] == prev[k / 8]);
                    }
                }
            }
        }
        i += 1;
    }
    let r = PackedBitstream { bytes, bit_count: n };
    proof {
        assert(r.bits() =~= code_bits(*v));
    }
    r
}

/// Reads one payload bit of a packed stream.
pub fn bit_at(p: &PackedBitstream, i: usize) -> (b: bool)
    requires
        p.well_formed(),
        i < p.bit_count,
    ensures
        b == p.bits()[i as int],
{
    let byte = p.bytes[i / 8];
    let sh: u8 = (7 - i % 8) as u8;
    (byte >> sh) & 1u8 == 1u8
}

/// Recovers the first `n` bits that were packed into a stream.  Asking
/// for more bits than the stored count is an error, never a silent
/// zero-fill.
pub fn unpack_bits(p: &PackedBitstream, n: usize) -> (r: Result<
    HaffmanCompressedCode,
    HuffmanError,
>)
    requires
        p.well_formed(),
    ensures
        n <= p.bit_count <==> r is Ok,
        r matches Ok(c) ==> code_bits(c) == p.bits().take(n as int),
        r matches Err(e) ==> e == HuffmanError::BitRequestOutOfRange,
{
    if n > p.bit_count {
        return Err(HuffmanError::BitRequestOutOfRange);
    }
    let mut out = code_new();
    let mut i: usize = 0;
    while i < n
        invariant
            i <= n <= p.bit_count,
            p.well_formed(),
            code_bits(out) == p.bits().take(i as int),
        decreases n - i,
    {
        let b = bit_at(p, i);
        code_push(&mut out, b);
        proof {
            assert(code_bits(out) =~= p.bits().take(i + 1));
        }
        i += 1;
    }
    Ok(out)
}

} // verus!
