//! Bits inside a byte and inside a word of four bytes.
//!
//! Positions count from the most significant bit, so that a run of bits reads
//! in the same direction inside a byte as it does from one byte to the next.

use vstd::prelude::*;

verus! {

/// Bit `k` of the byte `b`, where bit `0` is the most significant one.
pub open spec fn bit_of(b: u8, k: u8) -> bool {
    b & (0x80u8 >> k) != 0
}

/// Bit `t` of the word `w`, where bit `0` is the most significant one.
pub open spec fn bit_of_word(w: u32, t: u8) -> bool {
    w & (0x8000_0000u32 >> t) != 0
}

/// Bit `t` of the three bytes `a`, `b`, `c` read as one run of 24 bits.
pub open spec fn bit_of_three(a: u8, b: u8, c: u8, t: int) -> bool {
    if t < 8 {
        bit_of(a, t as u8)
    } else if t < 16 {
        bit_of(b, (t - 8) as u8)
    } else {
        bit_of(c, (t - 16) as u8)
    }
}

/// Bit `t` of the four bytes `a`, `b`, `c`, `d` read as one run of 32 bits.
pub open spec fn bit_of_four(a: u8, b: u8, c: u8, d: u8, t: int) -> bool {
    if t < 8 {
        bit_of(a, t as u8)
    } else {
        bit_of_three(b, c, d, t - 8)
    }
}

/// Whether bit `j` of byte number `index` belongs to a run of bits that covers
/// `bytes` bytes, begins at bit `head` of its first byte and leaves the last
/// `tail` bits of its last byte out.
pub open spec fn in_span(head: u8, tail: u8, bytes: usize, index: usize, j: u8) -> bool {
    &&& index < bytes
    &&& index == 0 ==> head <= j
    &&& index + 1 == bytes ==> j + tail < 8
}

/// A byte is decided by its eight bits.
pub proof fn lemma_byte_by_bits(a: u8, b: u8)
    by (bit_vector)
    requires
        bit_of(a, 0) == bit_of(b, 0),
        bit_of(a, 1) == bit_of(b, 1),
        bit_of(a, 2) == bit_of(b, 2),
        bit_of(a, 3) == bit_of(b, 3),
        bit_of(a, 4) == bit_of(b, 4),
        bit_of(a, 5) == bit_of(b, 5),
        bit_of(a, 6) == bit_of(b, 6),
        bit_of(a, 7) == bit_of(b, 7),
    ensures
        a == b,
{
}

proof fn lemma_test_bit(b: u8, k: u8)
    by (bit_vector)
    requires
        k < 8,
    ensures
        (((b << k) & 0x80) != 0) == bit_of(b, k),
{
}

proof fn lemma_single_mask(k: u8, j: u8)
    by (bit_vector)
    requires
        k < 8,
        j < 8,
    ensures
        bit_of(((0xffu8 << k) & 0x80) >> k, j) == (j == k),
{
}

proof fn lemma_full_mask(j: u8)
    by (bit_vector)
    requires
        j < 8,
    ensures
        bit_of(0xffu8, j),
        !bit_of(0u8, j),
{
}

proof fn lemma_head_mask(m: u8, l: u8, j: u8)
    by (bit_vector)
    requires
        l < 8,
        j < 8,
        m == 0xff,
    ensures
        bit_of((m << l) >> l, j) == (l <= j),
{
}

proof fn lemma_tail_mask(m: u8, r: u8, j: u8)
    by (bit_vector)
    requires
        r < 8,
        j < 8,
    ensures
        bit_of((m >> r) << r, j) == (bit_of(m, j) && j + r < 8),
{
}

proof fn lemma_set_bits(b: u8, m: u8, j: u8)
    by (bit_vector)
    requires
        j < 8,
    ensures
        bit_of(b | m, j) == (bit_of(m, j) || bit_of(b, j)),
        bit_of(b & !m, j) == (!bit_of(m, j) && bit_of(b, j)),
{
}

proof fn lemma_blend(d: u8, s: u8, m: u8, j: u8)
    by (bit_vector)
    requires
        j < 8,
    ensures
        bit_of((d & !m) | (s & m), j) == (if bit_of(m, j) {
            bit_of(s, j)
        } else {
            bit_of(d, j)
        }),
{
}

proof fn lemma_window(a: u8, b: u8, c: u8, s: u8, d: u8, j: u8)
    by (bit_vector)
    requires
        s < 8,
        d < 8,
        j < 8,
    ensures
        ({
            let w = ((a as u32) << 16) | ((b as u32) << 8) | (c as u32);
            let r = (((w << s) >> (8 + d)) & 0xff) as u8;
            bit_of(r, j) == bit_of_three(a, b, c, 8 + j + s - d)
        }),
{
}

proof fn lemma_pack(a: u8, b: u8, c: u8, d: u8, t: u8)
    by (bit_vector)
    requires
        t < 32,
    ensures
        ({
            let w = ((a as u32) << 24) | ((b as u32) << 16) | ((c as u32) << 8) | (d as u32);
            bit_of_word(w, t) == bit_of_four(a, b, c, d, t as int)
        }),
{
}

proof fn lemma_roll(w: u32, c: u8, t: u8)
    by (bit_vector)
    requires
        t < 32,
    ensures
        bit_of_word((w << 8) | (c as u32), t) == (if t < 24 {
            bit_of_word(w, (t + 8) as u8)
        } else {
            bit_of(c, (t - 24) as u8)
        }),
{
}

proof fn lemma_rolling(w: u32, s: u8, d: u8, j: u8)
    by (bit_vector)
    requires
        s < 8,
        d < 8,
        j < 8,
    ensures
        bit_of((((w << s) >> (8 + d)) & 0xff) as u8, j) == bit_of_word(w, (16 + j + s - d) as u8),
{
}

/// Tests bit `k` of `b`.
pub(crate) fn test_bit(b: u8, k: u8) -> (r: bool)
    requires
        k < 8,
    ensures
        r == bit_of(b, k),
{
    proof {
        lemma_test_bit(b, k);
    }
    ((b << k) & 0b10000000) != 0
}

/// The byte whose only set bit is bit `k`.
pub(crate) fn single_mask(k: u8) -> (mask: u8)
    requires
        k < 8,
    ensures
        forall|j: u8| j < 8 ==> #[trigger] bit_of(mask, j) == (j == k),
{
    let mask = ((u8::MAX << k) & 0b10000000) >> k;
    proof {
        assert forall|j: u8| j < 8 implies #[trigger] bit_of(mask, j) == (j == k) by {
            lemma_single_mask(k, j);
        }
    }
    mask
}

/// The bits of byte number `index` that belong to a run of bits covering
/// `bytes` bytes, where the run begins at bit `head` of its first byte and
/// leaves the last `tail` bits of its last byte out. Past the run's last byte
/// the mask is empty.
pub(crate) fn span_mask(head: u8, tail: u8, bytes: usize, index: usize) -> (mask: u8)
    requires
        head < 8,
        tail < 8,
    ensures
        forall|j: u8| j < 8 ==> #[trigger] bit_of(mask, j) == in_span(head, tail, bytes, index, j),
{
    if index >= bytes {
        proof {
            assert forall|j: u8| j < 8 implies !#[trigger] bit_of(0u8, j) by {
                lemma_full_mask(j);
            }
        }
        return 0b00000000;
    }
    let mut mask = u8::MAX;
    let ghost full = mask;
    if index == 0 {
        mask = (mask << head) >> head;
    }
    let ghost headed = mask;
    if index + 1 == bytes {
        mask = (mask >> tail) << tail;
    }
    proof {
        assert forall|j: u8| j < 8 implies #[trigger] bit_of(mask, j) == in_span(
            head,
            tail,
            bytes,
            index,
            j,
        ) by {
            lemma_full_mask(j);
            lemma_head_mask(full, head, j);
            lemma_tail_mask(headed, tail, j);
        }
    }
    mask
}

/// Sets the bits of `b` that `mask` selects where `value` is true, and clears
/// them where it is false.
pub(crate) fn set_bits(b: u8, mask: u8, value: bool) -> (r: u8)
    ensures
        forall|j: u8|
            j < 8 ==> #[trigger] bit_of(r, j) == (if bit_of(mask, j) {
                value
            } else {
                bit_of(b, j)
            }),
{
    proof {
        assert forall|j: u8| j < 8 implies (bit_of(b | mask, j) == (bit_of(mask, j) || bit_of(
            b,
            j,
        ))) && (bit_of(b & !mask, j) == (!bit_of(mask, j) && bit_of(b, j))) by {
            lemma_set_bits(b, mask, j);
        }
    }
    if value {
        b | mask
    } else {
        b & !mask
    }
}

/// Takes the bits that `mask` selects from `src` and the others from `dst`.
pub(crate) fn blend(dst: u8, src: u8, mask: u8) -> (r: u8)
    ensures
        forall|j: u8|
            j < 8 ==> #[trigger] bit_of(r, j) == (if bit_of(mask, j) {
                bit_of(src, j)
            } else {
                bit_of(dst, j)
            }),
{
    let mut r = dst;
    r = r & !mask;
    r = r | (src & mask);
    proof {
        assert forall|j: u8| j < 8 implies #[trigger] bit_of(r, j) == (if bit_of(mask, j) {
            bit_of(src, j)
        } else {
            bit_of(dst, j)
        }) by {
            lemma_blend(dst, src, mask, j);
        }
    }
    r
}

/// Cuts one byte out of the three bytes `before`, `at`, `after`: its bit `to`
/// is bit `from` of `at`, and its other bits are their neighbours in the run.
pub(crate) fn window_byte(before: u8, at: u8, after: u8, from: u8, to: u8) -> (r: u8)
    requires
        from < 8,
        to < 8,
    ensures
        forall|j: u8|
            j < 8 ==> #[trigger] bit_of(r, j) == bit_of_three(before, at, after, 8 + j + from - to),
{
    let w = ((before as u32) << 16) | ((at as u32) << 8) | (after as u32);
    let r = (((w << from) >> (8 + to)) & 0b11111111) as u8;
    proof {
        assert forall|j: u8| j < 8 implies #[trigger] bit_of(r, j) == bit_of_three(
            before,
            at,
            after,
            8 + j + from - to,
        ) by {
            lemma_window(before, at, after, from, to, j);
        }
    }
    r
}

/// The four bytes as one word, the first byte in the most significant place.
pub(crate) fn pack_word(a: u8, b: u8, c: u8, d: u8) -> (w: u32)
    ensures
        forall|t: u8| t < 32 ==> #[trigger] bit_of_word(w, t) == bit_of_four(a, b, c, d, t as int),
{
    let w = ((a as u32) << 24) | ((b as u32) << 16) | ((c as u32) << 8) | (d as u32);
    proof {
        assert forall|t: u8| t < 32 implies #[trigger] bit_of_word(w, t) == bit_of_four(
            a,
            b,
            c,
            d,
            t as int,
        ) by {
            lemma_pack(a, b, c, d, t);
        }
    }
    w
}

/// Drops the first byte of the word and appends `next` as its last byte.
pub(crate) fn roll_word(w: u32, next: u8) -> (r: u32)
    ensures
        forall|t: u8|
            t < 32 ==> #[trigger] bit_of_word(r, t) == (if t < 24 {
                bit_of_word(w, (t + 8) as u8)
            } else {
                bit_of(next, (t - 24) as u8)
            }),
{
    let r = (w << 8) | (next as u32);
    proof {
        assert forall|t: u8| t < 32 implies #[trigger] bit_of_word(r, t) == (if t < 24 {
            bit_of_word(w, (t + 8) as u8)
        } else {
            bit_of(next, (t - 24) as u8)
        }) by {
            lemma_roll(w, next, t);
        }
    }
    r
}

/// Cuts one byte out of a word whose third byte is the current one: its bit
/// `to` is bit `from` of that third byte.
pub(crate) fn rolling_byte(w: u32, from: u8, to: u8) -> (r: u8)
    requires
        from < 8,
        to < 8,
    ensures
        forall|j: u8|
            j < 8 ==> #[trigger] bit_of(r, j) == bit_of_word(w, (16 + j + from - to) as u8),
{
    let r = (((w << from) >> (8 + to)) & 0b11111111) as u8;
    proof {
        assert forall|j: u8| j < 8 implies #[trigger] bit_of(r, j) == bit_of_word(
            w,
            (16 + j + from - to) as u8,
        ) by {
            lemma_rolling(w, from, to, j);
        }
    }
    r
}

} // verus!
