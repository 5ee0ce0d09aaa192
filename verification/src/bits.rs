//! Bit fields: which pieces of a torrent somebody has.

use bitvec::order::Msb0;
use bitvec::vec::BitVec;
use core::fmt::{Debug, Error, Formatter};
use vstd::prelude::*;

verus! {

/// A sequence of bits that is sent over the wire as bytes, the most significant bit of each byte
/// first. It holds a `bitvec::vec::BitVec` whose first bit is the first bit of a byte.
#[verifier::external_body]
#[derive(PartialEq, Eq)]
pub struct BitField {
    bits: BitVec<u8, Msb0>,
}

/// The bits of a bit field, the first bit first.
pub uninterp spec fn bits_of(field: BitField) -> Seq<bool>;

/// The bits that fill the last byte of a bit field up, behind the bits that count.
pub uninterp spec fn padding_of(field: BitField) -> Seq<bool>;

/// Bit `i` of a byte, where bit 0 is the most significant one.
pub open spec fn bit_of_byte(byte: u8, i: int) -> bool {
    byte & (0x80u8 >> (i as u8)) != 0
}

/// The bits of a string of bytes.
pub open spec fn bits_of_bytes(bytes: Seq<u8>) -> Seq<bool> {
    Seq::new(8 * bytes.len(), |i: int| bit_of_byte(bytes[i / 8], i % 8))
}

/// The number of bytes that `n` bits take.
pub open spec fn bytes_for(n: nat) -> nat {
    (n + 7) / 8
}

/// The byte whose bits are the first eight of `bits`.
pub open spec fn byte_of_bits(bits: Seq<bool>) -> u8 {
    ((if bits[0] { 0x80int } else { 0 }) + (if bits[1] { 0x40int } else { 0 }) + (if bits[2] {
        0x20int
    } else {
        0
    }) + (if bits[3] { 0x10int } else { 0 }) + (if bits[4] { 0x08int } else { 0 }) + (if bits[5] {
        0x04int
    } else {
        0
    }) + (if bits[6] { 0x02int } else { 0 }) + (if bits[7] { 0x01int } else { 0 })) as u8
}

/// The bytes that hold `bits`, where the bits fill bytes.
pub open spec fn bytes_of_bits(bits: Seq<bool>) -> Seq<u8> {
    Seq::new(bits.len() / 8, |i: int| byte_of_bits(bits.subrange(8 * i, 8 * i + 8)))
}

proof fn lemma_bits_of_byte(byte: u8)
    by (bit_vector)
    ensures
        (if byte & (0x80u8 >> 0u8) != 0 { 0x80u8 } else { 0u8 }) + (if byte & (0x80u8 >> 1u8) != 0 {
            0x40u8
        } else {
            0u8
        }) + (if byte & (0x80u8 >> 2u8) != 0 { 0x20u8 } else { 0u8 }) + (if byte & (0x80u8 >> 3u8)
            != 0 { 0x10u8 } else { 0u8 }) + (if byte & (0x80u8 >> 4u8) != 0 {
            0x08u8
        } else {
            0u8
        }) + (if byte & (0x80u8 >> 5u8) != 0 { 0x04u8 } else { 0u8 }) + (if byte & (0x80u8 >> 6u8)
            != 0 { 0x02u8 } else { 0u8 }) + (if byte & (0x80u8 >> 7u8) != 0 {
            0x01u8
        } else {
            0u8
        }) == byte,
{
}

proof fn lemma_byte_of_bits(
    b0: bool,
    b1: bool,
    b2: bool,
    b3: bool,
    b4: bool,
    b5: bool,
    b6: bool,
    b7: bool,
    byte: u8,
)
    by (bit_vector)
    requires
        byte == (if b0 { 0x80u8 } else { 0u8 }) + (if b1 { 0x40u8 } else { 0u8 }) + (if b2 {
            0x20u8
        } else {
            0u8
        }) + (if b3 { 0x10u8 } else { 0u8 }) + (if b4 { 0x08u8 } else { 0u8 }) + (if b5 {
            0x04u8
        } else {
            0u8
        }) + (if b6 { 0x02u8 } else { 0u8 }) + (if b7 { 0x01u8 } else { 0u8 }),
    ensures
        (byte & (0x80u8 >> 0u8) != 0) == b0,
        (byte & (0x80u8 >> 1u8) != 0) == b1,
        (byte & (0x80u8 >> 2u8) != 0) == b2,
        (byte & (0x80u8 >> 3u8) != 0) == b3,
        (byte & (0x80u8 >> 4u8) != 0) == b4,
        (byte & (0x80u8 >> 5u8) != 0) == b5,
        (byte & (0x80u8 >> 6u8) != 0) == b6,
        (byte & (0x80u8 >> 7u8) != 0) == b7,
{
}

/// Bits that fill bytes are the bits of those bytes.
pub proof fn law_bits_survive_bytes(bits: Seq<bool>)
    requires
        bits.len() % 8 == 0,
    ensures
        bits_of_bytes(bytes_of_bits(bits)) == bits,
{
    let bytes = bytes_of_bits(bits);
    assert(8 * bytes.len() == bits.len());
    assert forall|i: int| 0 <= i < bits.len() implies #[trigger] bits_of_bytes(bytes)[i]
        == bits[i] by {
        let b = bits.subrange(8 * (i / 8), 8 * (i / 8) + 8);
        lemma_byte_of_bits(b[0], b[1], b[2], b[3], b[4], b[5], b[6], b[7], byte_of_bits(b));
        assert(bits[i] == b[i % 8]);
    }
    assert(bits_of_bytes(bytes) =~= bits);
}

/// Bytes are the bytes of their bits.
pub proof fn law_bytes_survive_bits(bytes: Seq<u8>)
    ensures
        bytes_of_bits(bits_of_bytes(bytes)) == bytes,
{
    let bits = bits_of_bytes(bytes);
    assert forall|i: int| 0 <= i < bytes.len() implies #[trigger] bytes_of_bits(bits)[i]
        == bytes[i] by {
        let b = bits.subrange(8 * i, 8 * i + 8);
        assert forall|j: int| 0 <= j < 8 implies b[j] == #[trigger] bit_of_byte(bytes[i], j) by {
            assert(b[j] == bits[8 * i + j]);
        }
        assert(b[0] == bit_of_byte(bytes[i], 0));
        assert(b[1] == bit_of_byte(bytes[i], 1));
        assert(b[2] == bit_of_byte(bytes[i], 2));
        assert(b[3] == bit_of_byte(bytes[i], 3));
        assert(b[4] == bit_of_byte(bytes[i], 4));
        assert(b[5] == bit_of_byte(bytes[i], 5));
        assert(b[6] == bit_of_byte(bytes[i], 6));
        assert(b[7] == bit_of_byte(bytes[i], 7));
        lemma_bits_of_byte(bytes[i]);
    }
    assert(bytes_of_bits(bits) =~= bytes);
}

impl View for BitField {
    type V = Seq<bool>;

    open spec fn view(&self) -> Seq<bool> {
        bits_of(*self)
    }
}

impl BitField {
    /// The bits of `bytes`.
    pub fn from_bytes(bytes: Vec<u8>) -> (field: BitField)
        requires
            bytes@.len() <= usize::MAX / 64,
        ensures
            field@ == bits_of_bytes(bytes@),
            padding_of(field) == Seq::<bool>::empty(),
    {
        Self::wrap_bytes(bytes)
    }

    /// As many cleared bits as `len` says.
    pub fn cleared(len: usize) -> (field: BitField)
        requires
            len <= usize::MAX / 8,
        ensures
            field@ == Seq::new(len as nat, |i: int| false),
            padding_of(field) == Seq::new(
                (8 * bytes_for(len as nat) - len) as nat,
                |i: int| false,
            ),
    {
        Self::repeat(false, len)
    }

    /// The bytes that hold the bits, with the padding of the last byte.
    pub fn into_bytes(self) -> (bytes: Vec<u8>)
        ensures
            bytes@.len() == bytes_for(self@.len()),
            bytes@ == bytes_of_bits(self@ + padding_of(self)),
            8 * bytes@.len() == self@.len() + padding_of(self).len(),
    {
        let bytes = self.unwrap_bytes();
        proof {
            law_bytes_survive_bits(bytes@);
            assert(bits_of_bytes(bytes@).len() == (self@ + padding_of(self)).len());
        }
        bytes
    }

    /// The number of bits.
    pub fn len(&self) -> (r: usize)
        ensures
            r == self@.len(),
    {
        self.count()
    }

    /// The bit at `index`, if there is one.
    pub fn get(&self, index: usize) -> (r: Option<bool>)
        ensures
            r == (if index < self@.len() {
                Some(self@[index as int])
            } else {
                None
            }),
    {
        self.bit(index)
    }

    /// Writes the bit at `index`. Whether there is one is returned.
    pub fn set(&mut self, index: usize, value: bool) -> (done: bool)
        ensures
            done == (index < old(self)@.len()),
            final(self)@ == (if done {
                old(self)@.update(index as int, value)
            } else {
                old(self)@
            }),
            padding_of(*final(self)) == padding_of(*old(self)),
    {
        if index < self.count() {
            self.write_bit(index, value);
            true
        } else {
            false
        }
    }

    /// `BitVec::from_vec` takes every bit of the bytes. It refuses more bits than an eighth of
    /// the address space.
    #[verifier::external_body]
    fn wrap_bytes(bytes: Vec<u8>) -> (field: BitField)
        requires
            bytes@.len() <= usize::MAX / 64,
        ensures
            bits_of(field) == bits_of_bytes(bytes@),
            padding_of(field) == Seq::<bool>::empty(),
    {
        BitField { bits: BitVec::from_vec(bytes) }
    }

    /// `BitVec::repeat` makes `len` copies of one bit and fills the last byte up with the same
    /// bit. It refuses more bits than an eighth of the address space.
    #[verifier::external_body]
    fn repeat(bit: bool, len: usize) -> (field: BitField)
        requires
            len <= usize::MAX / 8,
        ensures
            bits_of(field) == Seq::new(len as nat, |i: int| bit),
            padding_of(field) == Seq::new(
                (8 * bytes_for(len as nat) - len) as nat,
                |i: int| bit,
            ),
    {
        BitField { bits: BitVec::repeat(bit, len) }
    }

    /// `BitVec::into_vec` hands out the bytes that hold the bits, with the padding as it is.
    #[verifier::external_body]
    fn unwrap_bytes(self) -> (bytes: Vec<u8>)
        ensures
            bytes@.len() == bytes_for(bits_of(self).len()),
            bits_of_bytes(bytes@) == bits_of(self) + padding_of(self),
    {
        self.bits.into_vec()
    }

    /// `BitVec::len` counts the bits.
    #[verifier::external_body]
    fn count(&self) -> (r: usize)
        ensures
            r == bits_of(*self).len(),
    {
        self.bits.len()
    }

    /// `BitSlice::get` returns a bit, or nothing behind the last one.
    #[verifier::external_body]
    fn bit(&self, index: usize) -> (r: Option<bool>)
        ensures
            r == (if index < bits_of(*self).len() {
                Some(bits_of(*self)[index as int])
            } else {
                None
            }),
    {
        self.bits.get(index).as_deref().copied()
    }

    /// `BitSlice::set` writes one bit. It refuses a place behind the last one.
    #[verifier::external_body]
    fn write_bit(&mut self, index: usize, value: bool)
        requires
            index < bits_of(*old(self)).len(),
        ensures
            bits_of(*final(self)) == bits_of(*old(self)).update(index as int, value),
            padding_of(*final(self)) == padding_of(*old(self)),
    {
        self.bits.set(index, value);
    }

    /// `BitSlice::any` tells whether at least one bit is set.
    #[verifier::external_body]
    pub(crate) fn any_bit(&self) -> (r: bool)
        ensures
            r == bits_of(*self).contains(true),
    {
        self.bits.any()
    }

    /// `BitVec::truncate` drops the bits from `len` on. Those in the byte of the last bit that
    /// is left become its padding.
    #[verifier::external_body]
    pub(crate) fn cut(&mut self, len: usize)
        ensures
            len >= bits_of(*old(self)).len() ==> bits_of(*final(self)) == bits_of(*old(self))
                && padding_of(*final(self)) == padding_of(*old(self)),
            len < bits_of(*old(self)).len() ==> bits_of(*final(self)) == bits_of(*old(self)).take(
                len as int,
            ) && padding_of(*final(self)) == (bits_of(*old(self)) + padding_of(
                *old(self),
            )).subrange(len as int, 8 * bytes_for(len as nat) as int),
    {
        self.bits.truncate(len);
    }

    /// `BitSlice::swap_with_bitslice` exchanges the bits of two fields and leaves the padding.
    /// It refuses fields of different lengths.
    #[verifier::external_body]
    pub(crate) fn exchange(&mut self, other: &mut BitField)
        requires
            bits_of(*old(self)).len() == bits_of(*old(other)).len(),
        ensures
            bits_of(*final(self)) == bits_of(*old(other)),
            bits_of(*final(other)) == bits_of(*old(self)),
            padding_of(*final(self)) == padding_of(*old(self)),
            padding_of(*final(other)) == padding_of(*old(other)),
    {
        self.bits.swap_with_bitslice(&mut other.bits);
    }

    /// `<BitVec as Debug>::fmt` shows the bits. Among other things it may show where in memory they
    /// are, so nothing is claimed of the text.
    #[verifier::external_body]
    fn show(&self, f: &mut Formatter<'_>) -> (r: Result<(), Error>) {
        Debug::fmt(&self.bits, f)
    }

    /// `BitVec::clone` copies the bits and clears the padding.
    #[verifier::external_body]
    fn duplicate(&self) -> (copy: BitField)
        ensures
            bits_of(copy) == bits_of(*self),
            padding_of(copy) == Seq::new(padding_of(*self).len(), |i: int| false),
    {
        BitField { bits: self.bits.clone() }
    }
}

impl Debug for BitField {
    fn fmt(&self, f: &mut Formatter<'_>) -> (r: Result<(), Error>) {
        self.show(f)
    }
}

impl Clone for BitField {
    fn clone(&self) -> (copy: Self)
        ensures
            copy@ == self@,
            padding_of(copy) == Seq::new(padding_of(*self).len(), |i: int| false),
    {
        self.duplicate()
    }
}

} // verus!
