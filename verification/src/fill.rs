use vstd::prelude::*;
use crate::bits::{set_bits, span_mask};
use crate::memory::{bit_at, lemma_written_nothing, written};
use crate::progress::{
    byte_span, lemma_fill_step, lemma_written_begin, lemma_written_end, lemma_written_len,
    span_of, tail_gap, written_upto,
};
use crate::ptr::BitPtrMut;

verus! {

/// Sets (`value` true) or clears (`value` false) the `bit_count` bits that
/// begin at `dst`, and leaves every other bit of the memory as it was.
///
/// With `bit_count` zero nothing is touched, wherever `dst` points.
pub fn fill(mem: &mut [u8], dst: BitPtrMut, bit_count: usize, value: bool)
    requires
        bit_count > 0 ==> dst@ + bit_count <= 8 * old(mem)@.len(),
    ensures
        written(old(mem)@, final(mem)@, dst@, Seq::new(bit_count as nat, |k: int| value)),
{
    if bit_count == 0 {
        return ;
    }
    let (dst_byte, dst_bit) = dst.as_inner();
    let dst_bit_l = dst_bit.get();
    let dst_bit_r = tail_gap(dst_bit_l, bit_count);
    let dst_byte_count = byte_span(dst_bit_l, bit_count);
    let ghost bits = Seq::new(bit_count as nat, |k: int| value);
    proof {
        lemma_written_begin(mem@, dst@, bits, 8 * dst_byte);
    }

    for dst_offset in 0..dst_byte_count
        invariant
            span_of(dst_bit_l, dst_bit_r, dst_byte_count, bit_count as int),
            dst@ == 8 * dst_byte + dst_bit_l,
            dst@ + bit_count <= 8 * mem@.len(),
            mem@.len() == mem.len(),
            bits == Seq::new(bit_count as nat, |k: int| value),
            written_upto(old(mem)@, mem@, dst@, bits, 8 * (dst_byte + dst_offset)),
    {
        let at = dst_byte + dst_offset;
        let ghost now = mem@;

        // Get a mask over the bits to write.
        let mask = span_mask(dst_bit_l, dst_bit_r, dst_byte_count, dst_offset);

        // Fill the relevant bit range.
        let stored = set_bits(mem[at], mask, value);
        mem[at] = stored;
        proof {
            lemma_fill_step(
                old(mem)@,
                now,
                dst_byte,
                dst_bit_l,
                dst_bit_r,
                dst_byte_count,
                bit_count as int,
                value,
                dst_offset,
                mask,
                stored,
            );
            lemma_written_len(old(mem)@, mem@, dst@, bits, 8 * (dst_byte + dst_offset + 1));
        }
    }
    proof {
        lemma_written_end(old(mem)@, mem@, dst@, bits, 8 * (dst_byte + dst_byte_count));
    }
}

/// After a fill, each bit of the run reads as `value`: for every `k` below
/// `bit_count`, the pointer `k` bits from `dst` can be read in the memory
/// that the fill left, and the bit it reads is `value`.
pub proof fn lemma_fill_then_read(
    before: Seq<u8>,
    after: Seq<u8>,
    dst: BitPtrMut,
    bit_count: usize,
    value: bool,
    k: int,
)
    requires
        dst.wf(),
        before.len() <= usize::MAX,
        dst@ + bit_count <= 8 * before.len(),
        written(before, after, dst@, Seq::new(bit_count as nat, |i: int| value)),
        0 <= k < bit_count,
    ensures
        dst.can_offset(k),
        dst.offset_by(k)@ == dst@ + k,
        dst.offset_by(k).address() < after.len(),
        bit_at(after, dst.offset_by(k)@) == value,
{
    dst.lemma_offset_by(k);
}

/// A fill of no bits leaves the memory as it was.
pub proof fn lemma_fill_nothing(before: Seq<u8>, after: Seq<u8>, dst: BitPtrMut, value: bool)
    requires
        written(before, after, dst@, Seq::new(0, |i: int| value)),
    ensures
        after == before,
{
    lemma_written_nothing(before, after, dst@, Seq::new(0, |i: int| value));
}

} // verus!
