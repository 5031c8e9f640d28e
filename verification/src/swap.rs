use vstd::prelude::*;
use crate::bits::{roll_word, rolling_byte, span_mask};
use crate::memory::{bit_at, bits_at, disjoint, swapped, written};
use crate::progress::{
    byte_near, byte_span, lemma_rolling_begin, lemma_rolling_next, lemma_swap_step, lemma_swapped_begin,
    lemma_swapped_end, lemma_swapped_len, lemma_swapped_sides, lemma_swapped_skip, rolling_holds,
    span_of, store_blend, swapped_upto, tail_gap, word_around,
};
use crate::ptr::BitPtrMut;

verus! {

/// Exchanges the `bit_count` bits that begin at `x` with the `bit_count` bits
/// that begin at `y`, and leaves every other bit of the memory as it was. The
/// two runs may share bytes but no bit.
///
/// With `bit_count` zero nothing is touched, wherever `x` and `y` point.
///
/// Each side keeps a rolling word of four bytes, read ahead of what the pass
/// stores, so that a byte is never read again after the pass has changed it.
/// Where a byte of such a word lies outside the memory, zero stands in for
/// it: no bit of either run lies there. The two runs may cover different
/// numbers of bytes; a side that has no byte left is left alone.
pub fn swap_nonoverlapping(mem: &mut [u8], x: BitPtrMut, y: BitPtrMut, bit_count: usize)
    requires
        bit_count > 0 ==> {
            &&& x@ + bit_count <= 8 * old(mem)@.len()
            &&& y@ + bit_count <= 8 * old(mem)@.len()
            &&& disjoint(x@, y@, bit_count as int)
        },
    ensures
        swapped(old(mem)@, final(mem)@, x@, y@, bit_count as int),
{
    if bit_count == 0 {
        return ;
    }
    let (x_byte, x_bit) = x.as_inner();
    let x_bit_l = x_bit.get();
    let x_bit_r = tail_gap(x_bit_l, bit_count);
    let (y_byte, y_bit) = y.as_inner();
    let y_bit_l = y_bit.get();
    let y_bit_r = tail_gap(y_bit_l, bit_count);
    let ghost n = bit_count as int;

    let mut x_rolling = word_around(mem, x_byte);
    let mut y_rolling = word_around(mem, y_byte);

    let x_byte_count = byte_span(x_bit_l, bit_count);
    let y_byte_count = byte_span(y_bit_l, bit_count);
    let byte_count = if x_byte_count >= y_byte_count {
        x_byte_count
    } else {
        y_byte_count
    };
    proof {
        lemma_rolling_begin(mem@, x_rolling, x_byte as int, x@, n);
        lemma_rolling_begin(mem@, y_rolling, y_byte as int, y@, n);
        lemma_swapped_begin(mem@, x@, y@, n, 8 * x_byte, 8 * y_byte);
    }
    for offset in 0..byte_count
        invariant
            n == bit_count,
            span_of(x_bit_l, x_bit_r, x_byte_count, n),
            span_of(y_bit_l, y_bit_r, y_byte_count, n),
            x@ == 8 * x_byte + x_bit_l,
            y@ == 8 * y_byte + y_bit_l,
            x@ + n <= 8 * mem@.len(),
            y@ + n <= 8 * mem@.len(),
            mem@.len() == mem.len(),
            mem@.len() == old(mem)@.len(),
            disjoint(x@, y@, n),
            x_byte_count <= byte_count,
            y_byte_count <= byte_count,
            byte_count <= usize::MAX / 8 + 2,
            swapped_upto(old(mem)@, mem@, x@, y@, n, 8 * (x_byte + offset), 8 * (y_byte + offset)),
            rolling_holds(old(mem)@, x_rolling, x_byte + offset - 2, x@, n),
            rolling_holds(old(mem)@, y_rolling, y_byte + offset - 2, y@, n),
    {
        // Get masks over the bits to write.
        let x_mask = span_mask(x_bit_l, x_bit_r, x_byte_count, offset);
        let y_mask = span_mask(y_bit_l, y_bit_r, y_byte_count, offset);

        // Build the bytes that will be written.
        let x_src_b = rolling_byte(y_rolling, y_bit_l, x_bit_l);
        let y_src_b = rolling_byte(x_rolling, x_bit_l, y_bit_l);

        // Store the first side's byte, where that side has one left.
        let ghost now = mem@;
        if offset < x_byte_count {
            let stored = store_blend(mem, x_byte + offset, x_src_b, x_mask);
            proof {
                lemma_swap_step(
                    old(mem)@,
                    now,
                    x_byte,
                    x_bit_l,
                    x_bit_r,
                    x_byte_count,
                    y_byte,
                    y_bit_l,
                    n,
                    8 * (y_byte + offset),
                    offset,
                    y_rolling,
                    x_mask,
                    x_src_b,
                    stored,
                );
            }
        } else {
            proof {
                lemma_swapped_skip(
                    old(mem)@,
                    now,
                    x@,
                    y@,
                    n,
                    8 * (x_byte + offset),
                    8 * (y_byte + offset),
                    8 * (x_byte + offset + 1),
                );
            }
        }

        // Store the second side's byte, where that side has one left.
        let ghost now = mem@;
        proof {
            lemma_swapped_sides(
                old(mem)@,
                now,
                x@,
                y@,
                n,
                8 * (x_byte + offset + 1),
                8 * (y_byte + offset),
            );
        }
        if offset < y_byte_count {
            let stored = store_blend(mem, y_byte + offset, y_src_b, y_mask);
            proof {
                lemma_swap_step(
                    old(mem)@,
                    now,
                    y_byte,
                    y_bit_l,
                    y_bit_r,
                    y_byte_count,
                    x_byte,
                    x_bit_l,
                    n,
                    8 * (x_byte + offset + 1),
                    offset,
                    x_rolling,
                    y_mask,
                    y_src_b,
                    stored,
                );
            }
        } else {
            proof {
                lemma_swapped_skip(
                    old(mem)@,
                    now,
                    y@,
                    x@,
                    n,
                    8 * (y_byte + offset),
                    8 * (x_byte + offset + 1),
                    8 * (y_byte + offset + 1),
                );
            }
        }
        proof {
            lemma_swapped_sides(
                old(mem)@,
                mem@,
                y@,
                x@,
                n,
                8 * (y_byte + offset + 1),
                8 * (x_byte + offset + 1),
            );
            lemma_swapped_len(
                old(mem)@,
                mem@,
                x@,
                y@,
                n,
                8 * (x_byte + offset + 1),
                8 * (y_byte + offset + 1),
            );
        }

        // Roll the rolling values.
        let x_next = byte_near(mem, x_byte, offset + 2, 0);
        let y_next = byte_near(mem, y_byte, offset + 2, 0);
        let ghost x_before = x_rolling;
        let ghost y_before = y_rolling;
        x_rolling = roll_word(x_rolling, x_next);
        y_rolling = roll_word(y_rolling, y_next);
        proof {
            lemma_rolling_next(
                old(mem)@,
                mem@,
                x@,
                y@,
                n,
                8 * (x_byte + offset + 1),
                8 * (y_byte + offset + 1),
                x_before,
                x_next,
                x_rolling,
                x_byte + offset - 2,
            );
            lemma_swapped_sides(
                old(mem)@,
                mem@,
                x@,
                y@,
                n,
                8 * (x_byte + offset + 1),
                8 * (y_byte + offset + 1),
            );
            lemma_rolling_next(
                old(mem)@,
                mem@,
                y@,
                x@,
                n,
                8 * (y_byte + offset + 1),
                8 * (x_byte + offset + 1),
                y_before,
                y_next,
                y_rolling,
                y_byte + offset - 2,
            );
        }
    }
    proof {
        lemma_swapped_end(
            old(mem)@,
            mem@,
            x@,
            y@,
            n,
            8 * (x_byte + byte_count),
            8 * (y_byte + byte_count),
        );
    }
}

/// An exchange is two stores of saved runs: where `mid` is the memory with
/// the run that stood at `y` stored at `x`, the exchange has taken place
/// exactly where the run that stood at `x` has then been stored at `y`.
pub proof fn lemma_swap_is_two_writes(
    before: Seq<u8>,
    mid: Seq<u8>,
    after: Seq<u8>,
    x: int,
    y: int,
    n: int,
)
    requires
        0 <= n,
        0 <= x,
        0 <= y,
        x + n <= 8 * before.len(),
        y + n <= 8 * before.len(),
        disjoint(x, y, n),
        written(before, mid, x, bits_at(before, y, n)),
    ensures
        swapped(before, after, x, y, n) <==> written(mid, after, y, bits_at(before, x, n)),
{
    let from_x = bits_at(before, x, n);
    let from_y = bits_at(before, y, n);
    if swapped(before, after, x, y, n) {
        assert forall|p: int| 0 <= p < 8 * mid.len() implies #[trigger] bit_at(after, p) == (if y
            <= p < y + from_x.len() {
            from_x[p - y]
        } else {
            bit_at(mid, p)
        }) by {
            if x <= p < x + n {
                assert(bit_at(mid, p) == from_y[p - x]);
            } else {
                assert(bit_at(mid, p) == bit_at(before, p));
            }
        }
    }
    if written(mid, after, y, from_x) {
        assert forall|p: int| 0 <= p < 8 * before.len() implies #[trigger] bit_at(after, p) == (if x
            <= p < x + n {
            bit_at(before, p - x + y)
        } else if y <= p < y + n {
            bit_at(before, p - y + x)
        } else {
            bit_at(before, p)
        }) by {
            if x <= p < x + n {
                assert(bit_at(mid, p) == from_y[p - x]);
            } else {
                assert(bit_at(mid, p) == bit_at(before, p));
            }
        }
    }
}

} // verus!
