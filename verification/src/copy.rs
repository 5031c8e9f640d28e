use vstd::prelude::*;
use crate::bits::{span_mask, window_byte};
use crate::memory::{bit_at, bits_at, disjoint, written};
use crate::progress::{
    byte_near, byte_span, lemma_copy_step, lemma_written_begin, lemma_written_end,
    lemma_written_len, span_of, store_blend, tail_gap, written_upto,
};
use crate::ptr::{BitPtr, BitPtrMut};

verus! {

/// Copies the `bit_count` bits that begin at `src` to the bits that begin at
/// `dst`, and leaves every other bit of the memory as it was. The two runs may
/// share bytes but no bit.
///
/// With `bit_count` zero nothing is touched, wherever `src` and `dst` point.
///
/// Each byte of the destination is put together from the three bytes around
/// the matching byte of the source. Where one of the three lies outside the
/// memory, zero stands in for it: no bit of the source run lies there.
pub fn copy_nonoverlapping(mem: &mut [u8], src: BitPtr, dst: BitPtrMut, bit_count: usize)
    requires
        bit_count > 0 ==> {
            &&& src@ + bit_count <= 8 * old(mem)@.len()
            &&& dst@ + bit_count <= 8 * old(mem)@.len()
            &&& disjoint(src@, dst@, bit_count as int)
        },
    ensures
        written(old(mem)@, final(mem)@, dst@, bits_at(old(mem)@, src@, bit_count as int)),
{
    if bit_count == 0 {
        return ;
    }
    let (src_byte, src_bit) = src.as_inner();
    let src_bit_l = src_bit.get();
    let (dst_byte, dst_bit) = dst.as_inner();
    let dst_bit_l = dst_bit.get();
    let dst_bit_r = tail_gap(dst_bit_l, bit_count);

    let dst_byte_count = byte_span(dst_bit_l, bit_count);
    let ghost bits = bits_at(old(mem)@, src@, bit_count as int);
    proof {
        lemma_written_begin(mem@, dst@, bits, 8 * dst_byte);
    }
    for dst_offset in 0..dst_byte_count
        invariant
            span_of(dst_bit_l, dst_bit_r, dst_byte_count, bit_count as int),
            src@ == 8 * src_byte + src_bit_l,
            dst@ == 8 * dst_byte + dst_bit_l,
            src_bit_l < 8,
            src@ + bit_count <= 8 * mem@.len(),
            dst@ + bit_count <= 8 * mem@.len(),
            disjoint(src@, dst@, bit_count as int),
            mem@.len() == mem.len(),
            mem@.len() == old(mem)@.len(),
            bits == bits_at(old(mem)@, src@, bit_count as int),
            written_upto(old(mem)@, mem@, dst@, bits, 8 * (dst_byte + dst_offset)),
    {
        let ghost now = mem@;

        // Get a mask over the bits to write.
        let mask = span_mask(dst_bit_l, dst_bit_r, dst_byte_count, dst_offset);

        // Build the byte that will be written.
        let before = byte_near(mem, src_byte, dst_offset, 1);
        let at = byte_near(mem, src_byte, dst_offset, 0);
        let after = byte_near(mem, src_byte, dst_offset + 1, 0);
        let src_b = window_byte(before, at, after, src_bit_l, dst_bit_l);

        // Edit the byte.
        let stored = store_blend(mem, dst_byte + dst_offset, src_b, mask);
        proof {
            lemma_copy_step(
                old(mem)@,
                now,
                src_byte,
                src_bit_l,
                dst_byte,
                dst_bit_l,
                dst_bit_r,
                dst_byte_count,
                bit_count as int,
                dst_offset,
                mask,
                before,
                at,
                after,
                src_b,
                stored,
            );
            lemma_written_len(old(mem)@, mem@, dst@, bits, 8 * (dst_byte + dst_offset + 1));
        }
    }
    proof {
        lemma_written_end(old(mem)@, mem@, dst@, bits, 8 * (dst_byte + dst_byte_count));
    }
}

/// After a copy, the destination reads as the source did: for every `k`
/// below `bit_count`, the pointer `k` bits from `dst` can be read in the
/// memory that the copy left, and reads what the pointer `k` bits from `src`
/// read before the copy. Every bit outside the destination is as it was.
pub proof fn lemma_copy_then_read(
    before: Seq<u8>,
    after: Seq<u8>,
    src: BitPtr,
    dst: BitPtrMut,
    bit_count: usize,
    k: int,
)
    requires
        src.wf(),
        dst.wf(),
        before.len() <= usize::MAX,
        src@ + bit_count <= 8 * before.len(),
        dst@ + bit_count <= 8 * before.len(),
        written(before, after, dst@, bits_at(before, src@, bit_count as int)),
        0 <= k < bit_count,
    ensures
        src.can_offset(k),
        dst.can_offset(k),
        src.offset_by(k).address() < before.len(),
        dst.offset_by(k).address() < after.len(),
        bit_at(after, dst.offset_by(k)@) == bit_at(before, src.offset_by(k)@),
        forall|p: int|
            0 <= p < 8 * before.len() && !(dst@ <= p < dst@ + bit_count) ==> #[trigger] bit_at(
                after,
                p,
            ) == bit_at(before, p),
{
    src.lemma_offset_by(k);
    dst.lemma_offset_by(k);
    assert(bit_at(after, dst@ + k) == bits_at(before, src@, bit_count as int)[k]);
}

} // verus!
