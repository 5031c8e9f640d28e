//! Pointers to single bits.
//!
//! A bit pointer is the address of a byte and a position inside that byte. It
//! owns nothing and knows nothing of the memory it points into: every access
//! names the memory, and is in order where the byte address lies inside it.

use vstd::prelude::*;
use vstd::arithmetic::div_mod::lemma_add_mod_noop_right;
use crate::bits::{single_mask, set_bits, test_bit};
use crate::memory::{bit_at, written};
use crate::progress::{lemma_written_begin, lemma_written_end, lemma_written_step};

mod order;
mod subbyte;
pub use subbyte::SubByte;

verus! {

/// A read-only pointer to a bit: the address of a byte and a position inside it.
#[derive(Clone, Copy, PartialEq, Eq, Structural, Ord, Hash, Debug)]
pub struct BitPtr {
    byte: usize,
    bit: SubByte,
}

/// A read-write pointer to a bit, laid out exactly as [`BitPtr`].
#[derive(Clone, Copy, PartialEq, Eq, Structural, Ord, Hash, Debug)]
pub struct BitPtrMut {
    byte: usize,
    bit: SubByte,
}

/// The byte address `a` brought into the address space by wrapping around.
pub open spec fn wrap_address(a: int) -> int {
    a % (usize::MAX + 1)
}

/// How often an address one step outside the address space wraps around:
/// once upwards below zero, once downwards above the highest address.
pub open spec fn wraps(a: int) -> int {
    if a < 0 {
        -1
    } else if a > usize::MAX {
        1
    } else {
        0
    }
}

impl View for BitPtr {
    type V = int;

    /// The bit address: eight times the byte address plus the position in the byte.
    open spec fn view(&self) -> int {
        self.address() * 8 + self.subbyte().value()
    }
}

impl View for BitPtrMut {
    type V = int;

    /// The bit address: eight times the byte address plus the position in the byte.
    open spec fn view(&self) -> int {
        self.address() * 8 + self.subbyte().value()
    }
}

impl BitPtr {
    /// The address of the byte that holds the bit.
    pub closed spec fn address(self) -> usize {
        self.byte
    }

    /// The position of the bit inside its byte.
    pub closed spec fn subbyte(self) -> SubByte {
        self.bit
    }

    /// The position inside the byte is a valid one.
    pub open spec fn wf(self) -> bool {
        self.subbyte().wf()
    }

    /// The read-write pointer to the same bit.
    pub closed spec fn spec_as_mut(self) -> BitPtrMut {
        BitPtrMut { byte: self.byte, bit: self.bit }
    }

    /// Whether moving by `count` bits keeps the byte address inside the
    /// address space.
    pub open spec fn can_offset(self, count: int) -> bool {
        0 <= self.address() + (self.subbyte().value() + count) / 8 <= usize::MAX
    }

    /// The pointer moved by `count` bits, its byte address wrapped around
    /// where it leaves the address space.
    pub closed spec fn offset_by(self, count: int) -> BitPtr {
        let total = self.bit.value() + count;
        BitPtr { byte: wrap_address(self.byte + total / 8) as usize, bit: SubByte::of_bit(total) }
    }

    /// What [`Self::offset_by`] yields: the position is the remainder, the
    /// whole bytes go to the address.
    pub proof fn lemma_offset_by(self, count: int)
        requires
            self.wf(),
        ensures
            self.offset_by(count).wf(),
            self.offset_by(count).subbyte().value() == (self.subbyte().value() + count) % 8,
            self.offset_by(count).address() == wrap_address(
                self.address() + (self.subbyte().value() + count) / 8,
            ),
            self.can_offset(count) ==> self.offset_by(count)@ == self@ + count,
    {
        SubByte::lemma_of_bit(self.bit.value() + count);
        if self.can_offset(count) {
            let a = self.address() + (self.subbyte().value() + count) / 8;
            vstd::arithmetic::div_mod::lemma_small_mod(a as nat, (usize::MAX + 1) as nat);
        }
    }

    /// A pointer is decided by its byte address and its position.
    pub proof fn lemma_by_parts(self, other: BitPtr)
        requires
            self.address() == other.address(),
            self.subbyte().value() == other.subbyte().value(),
        ensures
            self == other,
    {
        SubByte::lemma_by_value(self.bit, other.bit);
    }

    /// A pointer is decided by its bit address.
    pub proof fn lemma_by_view(self, other: BitPtr)
        requires
            self.wf(),
            other.wf(),
            self@ == other@,
        ensures
            self == other,
    {
        self.lemma_by_parts(other);
    }

    /// Moving by `a` bits and then by `b` bits is moving by `a + b` bits,
    /// whatever the signs of `a` and `b`, and the position stays inside the
    /// byte.
    pub proof fn lemma_offset_adds(self, a: int, b: int)
        requires
            self.wf(),
        ensures
            self.offset_by(a).offset_by(b) == self.offset_by(a + b),
            self.offset_by(a + b).wf(),
            0 <= self.offset_by(a + b).subbyte().value() <= 7,
    {
        let first = self.offset_by(a);
        self.lemma_offset_by(a);
        first.lemma_offset_by(b);
        self.lemma_offset_by(a + b);
        let k = self.subbyte().value() as int;
        let q1 = (k + a) / 8;
        let q2 = ((k + a) % 8 + b) / 8;
        assert((k + a + b) / 8 == q1 + q2);
        assert((k + a + b) % 8 == ((k + a) % 8 + b) % 8);
        lemma_add_mod_noop_right(q2, self.address() + q1, usize::MAX + 1);
        assert(wrap_address(wrap_address(self.address() + q1) + q2) == wrap_address(
            self.address() + q1 + q2,
        ));
        first.offset_by(b).lemma_by_parts(self.offset_by(a + b));
    }

    /// A pointer to the bit at position `subbyte_bit` of the byte at `byte`.
    pub fn new(byte: usize, subbyte_bit: SubByte) -> (r: BitPtr)
        ensures
            r.address() == byte,
            r.subbyte() == subbyte_bit,
    {
        BitPtr { byte, bit: subbyte_bit }
    }

    /// A pointer to the first bit of the byte at `byte`.
    pub fn new_on_byte(byte: usize) -> (r: BitPtr)
        ensures
            r.address() == byte,
            r.subbyte().value() == 0,
            r@ == 8 * byte,
    {
        BitPtr { byte, bit: SubByte::lowest() }
    }

    /// A pointer to the bit that lies `bit_count` bits from the first bit of
    /// the byte at `byte`.
    pub fn new_with_offset(byte: usize, bit_count: isize) -> (r: BitPtr)
        requires
            0 <= byte + bit_count / 8 <= usize::MAX,
        ensures
            r.address() == byte + bit_count / 8,
            r.subbyte().value() == bit_count % 8,
            r@ == 8 * byte + bit_count,
    {
        BitPtr::new_on_byte(byte).bit_offset(bit_count)
    }

    /// The address of the byte that holds the bit.
    pub fn floor_byte(&self) -> (r: usize)
        ensures
            r == self.address(),
    {
        self.byte
    }

    /// The position of the bit inside its byte.
    pub fn subbyte_bit(&self) -> (r: SubByte)
        ensures
            r == self.subbyte(),
            r.wf(),
    {
        proof {
            use_type_invariant(self.bit);
        }
        self.bit
    }

    /// The byte address and the position inside the byte.
    pub fn as_inner(&self) -> (r: (usize, SubByte))
        ensures
            r.0 == self.address(),
            r.1 == self.subbyte(),
            r.1.wf(),
    {
        proof {
            use_type_invariant(self.bit);
        }
        (self.byte, self.bit)
    }

    /// Moves the pointer by `count` bytes.
    pub fn byte_offset(self, count: isize) -> (r: BitPtr)
        requires
            0 <= self.address() + count <= usize::MAX,
        ensures
            r.address() == self.address() + count,
            r.subbyte() == self.subbyte(),
            r@ == self@ + 8 * count,
    {
        let mut moved = self;
        moved.byte = step_address(self.byte, count);
        moved
    }

    /// Moves the pointer by `count` bits. Whole bytes of the move go to the
    /// byte address, rounded down, so that the position stays inside the byte.
    pub fn bit_offset(self, count: isize) -> (r: BitPtr)
        requires
            self.can_offset(count as int),
        ensures
            r == self.offset_by(count as int),
            r.address() == self.address() + (self.subbyte().value() + count) / 8,
            r.subbyte().value() == (self.subbyte().value() + count) % 8,
            r@ == self@ + count,
    {
        let (byte_offset, bit) = split_offset(self.bit.get(), count);
        let mut moved = self;
        moved.byte = step_address(self.byte, byte_offset);
        moved.bit = SubByte::new_unchecked(bit);
        proof {
            use_type_invariant(self.bit);
            self.lemma_offset_by(count as int);
            moved.lemma_by_parts(self.offset_by(count as int));
        }
        moved
    }

    /// Moves the pointer by `count` bytes, wrapping around at the ends of the
    /// address space.
    pub fn wrapping_byte_offset(self, count: isize) -> (r: BitPtr)
        ensures
            r.address() == wrap_address(self.address() + count),
            r.address() == self.address() + count - wraps(self.address() + count) * (usize::MAX + 1),
            r.subbyte() == self.subbyte(),
    {
        let mut moved = self;
        moved.byte = self.byte.wrapping_add_signed(count);
        proof {
            lemma_wrapped(self.byte as int, count as int);
        }
        moved
    }

    /// Reads the bit that is pointed to.
    pub fn read(self, mem: &[u8]) -> (bit: bool)
        requires
            self.address() < mem@.len(),
        ensures
            bit == bit_at(mem@, self@),
    {
        let k = self.bit.get();
        test_bit(mem[self.byte], k)
    }

    /// The read-write pointer to the same bit.
    #[verifier::when_used_as_spec(spec_as_mut)]
    pub fn as_mut(self) -> (r: BitPtrMut)
        ensures
            r == self.spec_as_mut(),
            r.address() == self.address(),
            r.subbyte() == self.subbyte(),
            r@ == self@,
    {
        BitPtrMut { byte: self.byte, bit: self.bit }
    }
}

impl BitPtrMut {
    /// The address of the byte that holds the bit.
    pub closed spec fn address(self) -> usize {
        self.byte
    }

    /// The position of the bit inside its byte.
    pub closed spec fn subbyte(self) -> SubByte {
        self.bit
    }

    /// The position inside the byte is a valid one.
    pub open spec fn wf(self) -> bool {
        self.subbyte().wf()
    }

    /// The read-only pointer to the same bit.
    pub closed spec fn spec_as_const(self) -> BitPtr {
        BitPtr { byte: self.byte, bit: self.bit }
    }

    /// Whether moving by `count` bits keeps the byte address inside the
    /// address space.
    pub open spec fn can_offset(self, count: int) -> bool {
        0 <= self.address() + (self.subbyte().value() + count) / 8 <= usize::MAX
    }

    /// The pointer moved by `count` bits, its byte address wrapped around
    /// where it leaves the address space.
    pub closed spec fn offset_by(self, count: int) -> BitPtrMut {
        self.spec_as_const().offset_by(count).spec_as_mut()
    }

    /// The two kinds of pointer differ in name only: turning one into the
    /// other and back changes nothing, and keeps address and position.
    pub proof fn lemma_same_bit(self)
        ensures
            self.as_const().address() == self.address(),
            self.as_const().subbyte() == self.subbyte(),
            self.as_const()@ == self@,
            self.as_const().as_mut() == self,
            forall|p: BitPtr| #[trigger] p.as_mut().as_const() == p,
            forall|p: BitPtr| #[trigger] p.as_mut().address() == p.address(),
            forall|p: BitPtr| #[trigger] p.as_mut().subbyte() == p.subbyte(),
    {
    }

    /// What [`Self::offset_by`] yields: the position is the remainder, the
    /// whole bytes go to the address.
    pub proof fn lemma_offset_by(self, count: int)
        requires
            self.wf(),
        ensures
            self.offset_by(count).wf(),
            self.offset_by(count).subbyte().value() == (self.subbyte().value() + count) % 8,
            self.offset_by(count).address() == wrap_address(
                self.address() + (self.subbyte().value() + count) / 8,
            ),
            self.can_offset(count) ==> self.offset_by(count)@ == self@ + count,
            self.offset_by(count).as_const() == self.as_const().offset_by(count),
    {
        self.as_const().lemma_offset_by(count);
    }

    /// A pointer is decided by its byte address and its position.
    pub proof fn lemma_by_parts(self, other: BitPtrMut)
        requires
            self.address() == other.address(),
            self.subbyte().value() == other.subbyte().value(),
        ensures
            self == other,
    {
        SubByte::lemma_by_value(self.bit, other.bit);
    }

    /// A pointer is decided by its bit address.
    pub proof fn lemma_by_view(self, other: BitPtrMut)
        requires
            self.wf(),
            other.wf(),
            self@ == other@,
        ensures
            self == other,
    {
        self.lemma_by_parts(other);
    }

    /// Moving by `a` bits and then by `b` bits is moving by `a + b` bits,
    /// whatever the signs of `a` and `b`, and the position stays inside the
    /// byte.
    pub proof fn lemma_offset_adds(self, a: int, b: int)
        requires
            self.wf(),
        ensures
            self.offset_by(a).offset_by(b) == self.offset_by(a + b),
            self.offset_by(a + b).wf(),
            0 <= self.offset_by(a + b).subbyte().value() <= 7,
    {
        self.as_const().lemma_offset_adds(a, b);
        self.lemma_offset_by(a + b);
    }

    /// A pointer to the bit at position `subbyte_bit` of the byte at `byte`.
    pub fn new(byte: usize, subbyte_bit: SubByte) -> (r: BitPtrMut)
        ensures
            r.address() == byte,
            r.subbyte() == subbyte_bit,
    {
        BitPtrMut { byte, bit: subbyte_bit }
    }

    /// A pointer to the first bit of the byte at `byte`.
    pub fn new_on_byte(byte: usize) -> (r: BitPtrMut)
        ensures
            r.address() == byte,
            r.subbyte().value() == 0,
            r@ == 8 * byte,
    {
        BitPtrMut { byte, bit: SubByte::lowest() }
    }

    /// A pointer to the bit that lies `bit_count` bits from the first bit of
    /// the byte at `byte`.
    pub fn new_with_offset(byte: usize, bit_count: isize) -> (r: BitPtrMut)
        requires
            0 <= byte + bit_count / 8 <= usize::MAX,
        ensures
            r.address() == byte + bit_count / 8,
            r.subbyte().value() == bit_count % 8,
            r@ == 8 * byte + bit_count,
    {
        BitPtrMut::new_on_byte(byte).bit_offset(bit_count)
    }

    /// The address of the byte that holds the bit.
    pub fn floor_byte(&self) -> (r: usize)
        ensures
            r == self.address(),
    {
        self.byte
    }

    /// The position of the bit inside its byte.
    pub fn subbyte_bit(&self) -> (r: SubByte)
        ensures
            r == self.subbyte(),
            r.wf(),
    {
        proof {
            use_type_invariant(self.bit);
        }
        self.bit
    }

    /// The byte address and the position inside the byte.
    pub fn as_inner(&self) -> (r: (usize, SubByte))
        ensures
            r.0 == self.address(),
            r.1 == self.subbyte(),
            r.1.wf(),
    {
        proof {
            use_type_invariant(self.bit);
        }
        (self.byte, self.bit)
    }

    /// Moves the pointer by `count` bytes.
    pub fn byte_offset(self, count: isize) -> (r: BitPtrMut)
        requires
            0 <= self.address() + count <= usize::MAX,
        ensures
            r.address() == self.address() + count,
            r.subbyte() == self.subbyte(),
            r@ == self@ + 8 * count,
    {
        self.as_const().byte_offset(count).as_mut()
    }

    /// Moves the pointer by `count` bits. Whole bytes of the move go to the
    /// byte address, rounded down, so that the position stays inside the byte.
    pub fn bit_offset(self, count: isize) -> (r: BitPtrMut)
        requires
            self.can_offset(count as int),
        ensures
            r == self.offset_by(count as int),
            r.address() == self.address() + (self.subbyte().value() + count) / 8,
            r.subbyte().value() == (self.subbyte().value() + count) % 8,
            r@ == self@ + count,
    {
        self.as_const().bit_offset(count).as_mut()
    }

    /// Moves the pointer by `count` bytes, wrapping around at the ends of the
    /// address space.
    pub fn wrapping_byte_offset(self, count: isize) -> (r: BitPtrMut)
        ensures
            r.address() == wrap_address(self.address() + count),
            r.address() == self.address() + count - wraps(self.address() + count) * (usize::MAX + 1),
            r.subbyte() == self.subbyte(),
    {
        self.as_const().wrapping_byte_offset(count).as_mut()
    }

    /// Reads the bit that is pointed to.
    pub fn read(self, mem: &[u8]) -> (bit: bool)
        requires
            self.address() < mem@.len(),
        ensures
            bit == bit_at(mem@, self@),
    {
        self.as_const().read(mem)
    }

    /// The read-only pointer to the same bit.
    #[verifier::when_used_as_spec(spec_as_const)]
    pub fn as_const(self) -> (r: BitPtr)
        ensures
            r == self.spec_as_const(),
            r.address() == self.address(),
            r.subbyte() == self.subbyte(),
            r@ == self@,
    {
        BitPtr { byte: self.byte, bit: self.bit }
    }

    /// Sets or clears the bit that is pointed to, and leaves every other bit
    /// of the memory as it was.
    pub fn write(self, mem: &mut [u8], bit: bool)
        requires
            self.address() < old(mem)@.len(),
        ensures
            written(old(mem)@, final(mem)@, self@, seq![bit]),
    {
        let k = self.bit.get();
        let mask = single_mask(k);
        let stored = set_bits(mem[self.byte], mask, bit);
        proof {
            lemma_written_begin(mem@, self@, seq![bit], 8 * self.byte);
            lemma_written_step(old(mem)@, mem@, self@, seq![bit], self.byte as int, stored);
        }
        mem[self.byte] = stored;
        proof {
            lemma_written_end(old(mem)@, mem@, self@, seq![bit], 8 * (self.byte + 1));
        }
    }
}

/// The address `count` bytes from `byte`.
fn step_address(byte: usize, count: isize) -> (r: usize)
    requires
        0 <= byte + count <= usize::MAX,
    ensures
        r == byte + count,
{
    match byte.checked_add_signed(count) {
        Some(r) => r,
        None => byte,
    }
}

/// Splits a move of `count` bits from position `bit` into whole bytes,
/// rounded down, and the position that is left.
fn split_offset(bit: u8, count: isize) -> (r: (isize, u8))
    requires
        bit < 8,
    ensures
        r.0 == (bit + count) / 8,
        r.1 == (bit + count) % 8,
{
    match (count.checked_div_euclid(8), count.checked_rem_euclid(8)) {
        (Some(bytes), Some(rest)) => {
            let bits = bit as isize + rest;
            (bytes + bits / 8, (bits % 8) as u8)
        },
        _ => (0, bit),
    }
}

/// Wrapping addition of a signed count to an address is addition modulo the
/// size of the address space.
proof fn lemma_wrapped(a: int, count: int)
    requires
        0 <= a <= usize::MAX,
        isize::MIN <= count <= isize::MAX,
    ensures
        vstd::wrapping::usize_specs::wrapping_add_signed(a as usize, count as isize) == wrap_address(
            a + count,
        ),
        wrap_address(a + count) == a + count - wraps(a + count) * (usize::MAX + 1),
{
    let m = usize::MAX + 1;
    let s = a + count;
    if s > usize::MAX {
        vstd::arithmetic::div_mod::lemma_fundamental_div_mod_converse(s, m, 1, s - m);
    } else if s < 0 {
        vstd::arithmetic::div_mod::lemma_fundamental_div_mod_converse(s, m, -1, s + m);
    } else {
        vstd::arithmetic::div_mod::lemma_fundamental_div_mod_converse(s, m, 0, s);
    }
}

} // verus!
