//! The bookkeeping of a pass over the bytes of a run of bits: which bytes the
//! run covers, what a pass has stored so far, and what the next byte has to
//! hold.

use vstd::prelude::*;
use crate::bits::{
    bit_of, bit_of_four, bit_of_three, bit_of_word, blend, in_span, pack_word, roll_word,
};
use crate::memory::{bit_at, disjoint, swapped, written};

verus! {

/// The byte at address `a`, or zero where the memory has no such address.
pub open spec fn byte_or_zero(mem: Seq<u8>, a: int) -> u8 {
    if 0 <= a < mem.len() {
        mem[a]
    } else {
        0
    }
}

/// The geometry of a run of `n` bits that begins at bit `head` of a byte: it
/// covers `bytes` bytes and leaves the last `tail` bits of the last one out.
pub open spec fn span_of(head: u8, tail: u8, bytes: usize, n: int) -> bool {
    &&& head < 8
    &&& n > 0
    &&& tail == (8 - (head + n) % 8) % 8
    &&& bytes == (head + n + 7) / 8
}

/// Inside the bytes of a run, the span's masks select exactly the run's bits.
proof fn lemma_in_span(head: u8, tail: u8, bytes: usize, n: int, index: usize, j: u8)
    requires
        span_of(head, tail, bytes, n),
        j < 8,
    ensures
        in_span(head, tail, bytes, index, j) == (head <= 8 * index + j < head + n),
{
}

/// A write in progress: of the run `bits` at `start`, the bits below the bit
/// address `done` are stored, and every other bit is as it was.
pub closed spec fn written_upto(
    before: Seq<u8>,
    now: Seq<u8>,
    start: int,
    bits: Seq<bool>,
    done: int,
) -> bool {
    &&& now.len() == before.len()
    &&& forall|p: int|
        0 <= p < 8 * before.len() ==> #[trigger] bit_at(now, p) == (if start <= p < start
            + bits.len() && p < done {
            bits[p - start]
        } else {
            bit_at(before, p)
        })
}

/// Before its first byte a write has stored nothing.
pub proof fn lemma_written_begin(mem: Seq<u8>, start: int, bits: Seq<bool>, done: int)
    requires
        done <= start,
    ensures
        written_upto(mem, mem, start, bits, done),
{
}

/// A write in progress keeps the length of the memory.
pub proof fn lemma_written_len(
    before: Seq<u8>,
    now: Seq<u8>,
    start: int,
    bits: Seq<bool>,
    done: int,
)
    requires
        written_upto(before, now, start, bits, done),
    ensures
        now.len() == before.len(),
{
}

/// Past its last byte a write is complete.
pub proof fn lemma_written_end(
    before: Seq<u8>,
    now: Seq<u8>,
    start: int,
    bits: Seq<bool>,
    done: int,
)
    requires
        written_upto(before, now, start, bits, done),
        start + bits.len() <= done,
    ensures
        written(before, now, start, bits),
{
}

/// Storing the byte `v` at address `at` carries a write in progress one byte
/// on, where `v` holds the run's bits of that byte and leaves the others.
pub proof fn lemma_written_step(
    before: Seq<u8>,
    now: Seq<u8>,
    start: int,
    bits: Seq<bool>,
    at: int,
    v: u8,
)
    requires
        0 <= at < now.len(),
        written_upto(before, now, start, bits, 8 * at),
        forall|j: u8|
            j < 8 ==> #[trigger] bit_of(v, j) == (if start <= 8 * at + j < start + bits.len() {
                bits[8 * at + j - start]
            } else {
                bit_of(now[at], j)
            }),
    ensures
        written_upto(before, now.update(at, v), start, bits, 8 * (at + 1)),
{
    let next = now.update(at, v);
    assert forall|p: int| 0 <= p < 8 * before.len() implies #[trigger] bit_at(next, p) == (if start
        <= p < start + bits.len() && p < 8 * (at + 1) {
        bits[p - start]
    } else {
        bit_at(before, p)
    }) by {
        let j = (p % 8) as u8;
        if p / 8 == at {
            assert(bit_at(next, p) == bit_of(v, j));
            assert(bit_at(now, p) == bit_of(now[at], j));
            assert(8 * at + j == p);
        } else {
            assert(bit_at(next, p) == bit_at(now, p));
        }
    }
}

/// Storing a byte in which the run's bits are set or cleared carries a fill
/// in progress one byte on.
pub proof fn lemma_fill_step(
    before: Seq<u8>,
    now: Seq<u8>,
    base: usize,
    head: u8,
    tail: u8,
    bytes: usize,
    n: int,
    value: bool,
    index: usize,
    mask: u8,
    v: u8,
)
    requires
        span_of(head, tail, bytes, n),
        index < bytes,
        base + index < now.len(),
        written_upto(
            before,
            now,
            8 * base + head,
            Seq::new(n as nat, |k: int| value),
            8 * (base + index),
        ),
        forall|j: u8| j < 8 ==> #[trigger] bit_of(mask, j) == in_span(head, tail, bytes, index, j),
        forall|j: u8|
            j < 8 ==> #[trigger] bit_of(v, j) == (if bit_of(mask, j) {
                value
            } else {
                bit_of(now[base + index], j)
            }),
    ensures
        written_upto(
            before,
            now.update(base + index, v),
            8 * base + head,
            Seq::new(n as nat, |k: int| value),
            8 * (base + index + 1),
        ),
{
    let start = 8 * base + head;
    let bits = Seq::new(n as nat, |k: int| value);
    let at = base + index;
    assert forall|j: u8| j < 8 implies #[trigger] bit_of(v, j) == (if start <= 8 * at + j < start
        + bits.len() {
        bits[8 * at + j - start]
    } else {
        bit_of(now[at], j)
    }) by {
        lemma_in_span(head, tail, bytes, n, index, j);
        assert(bit_of(mask, j) == in_span(head, tail, bytes, index, j));
    }
    lemma_written_step(before, now, start, bits, at, v);
}

/// Storing a byte whose run bits come out of the three bytes around the
/// matching byte of the source carries a copy in progress one byte on.
pub proof fn lemma_copy_step(
    before: Seq<u8>,
    now: Seq<u8>,
    src_base: usize,
    from: u8,
    base: usize,
    head: u8,
    tail: u8,
    bytes: usize,
    n: int,
    index: usize,
    mask: u8,
    a: u8,
    b: u8,
    c: u8,
    src_b: u8,
    v: u8,
)
    requires
        span_of(head, tail, bytes, n),
        from < 8,
        index < bytes,
        base + index < now.len(),
        8 * src_base + from + n <= 8 * before.len(),
        disjoint(8 * src_base + from, 8 * base + head, n),
        written_upto(
            before,
            now,
            8 * base + head,
            crate::memory::bits_at(before, 8 * src_base + from, n),
            8 * (base + index),
        ),
        a == byte_or_zero(now, src_base + index - 1),
        b == byte_or_zero(now, src_base + index),
        c == byte_or_zero(now, src_base + index + 1),
        forall|j: u8| j < 8 ==> #[trigger] bit_of(mask, j) == in_span(head, tail, bytes, index, j),
        forall|j: u8|
            j < 8 ==> #[trigger] bit_of(src_b, j) == bit_of_three(a, b, c, 8 + j + from - head),
        forall|j: u8|
            j < 8 ==> #[trigger] bit_of(v, j) == (if bit_of(mask, j) {
                bit_of(src_b, j)
            } else {
                bit_of(now[base + index], j)
            }),
    ensures
        written_upto(
            before,
            now.update(base + index, v),
            8 * base + head,
            crate::memory::bits_at(before, 8 * src_base + from, n),
            8 * (base + index + 1),
        ),
{
    let src = 8 * src_base + from;
    let start = 8 * base + head;
    let bits = crate::memory::bits_at(before, src, n);
    let at = base + index;
    assert forall|j: u8| j < 8 implies #[trigger] bit_of(v, j) == (if start <= 8 * at + j < start
        + bits.len() {
        bits[8 * at + j - start]
    } else {
        bit_of(now[at], j)
    }) by {
        lemma_in_span(head, tail, bytes, n, index, j);
        assert(bit_of(mask, j) == in_span(head, tail, bytes, index, j));
        if start <= 8 * at + j < start + bits.len() {
            let q = 8 * at + j - start + src;
            let t = 8 + j + from - head;
            assert(q == 8 * (src_base + index - 1) + t);
            lemma_three_in_memory(now, src_base + index - 1, a, b, c, t);
            assert(bit_of(src_b, j) == bit_at(now, q));
            assert(bit_at(now, q) == bit_at(before, q));
        }
    }
    lemma_written_step(before, now, start, bits, at, v);
}

/// An exchange in progress: of the `n` bits at `x`, those below `x_done` hold
/// what stood at `y`; of the `n` bits at `y`, those below `y_done` hold what
/// stood at `x`; every other bit is as it was.
pub closed spec fn swapped_upto(
    before: Seq<u8>,
    now: Seq<u8>,
    x: int,
    y: int,
    n: int,
    x_done: int,
    y_done: int,
) -> bool {
    &&& now.len() == before.len()
    &&& forall|p: int|
        0 <= p < 8 * before.len() ==> #[trigger] bit_at(now, p) == (if x <= p < x + n && p
            < x_done {
            bit_at(before, p - x + y)
        } else if y <= p < y + n && p < y_done {
            bit_at(before, p - y + x)
        } else {
            bit_at(before, p)
        })
}

/// Before its first bytes an exchange has stored nothing.
pub proof fn lemma_swapped_begin(mem: Seq<u8>, x: int, y: int, n: int, x_done: int, y_done: int)
    requires
        x_done <= x,
        y_done <= y,
    ensures
        swapped_upto(mem, mem, x, y, n, x_done, y_done),
{
}

/// An exchange in progress keeps the length of the memory.
pub proof fn lemma_swapped_len(
    before: Seq<u8>,
    now: Seq<u8>,
    x: int,
    y: int,
    n: int,
    x_done: int,
    y_done: int,
)
    requires
        swapped_upto(before, now, x, y, n, x_done, y_done),
    ensures
        now.len() == before.len(),
{
}

/// Past the last bytes of both sides an exchange is complete.
pub proof fn lemma_swapped_end(
    before: Seq<u8>,
    now: Seq<u8>,
    x: int,
    y: int,
    n: int,
    x_done: int,
    y_done: int,
)
    requires
        swapped_upto(before, now, x, y, n, x_done, y_done),
        x + n <= x_done,
        y + n <= y_done,
    ensures
        swapped(before, now, x, y, n),
{
}

/// An exchange in progress reads the same from either side.
pub proof fn lemma_swapped_sides(
    before: Seq<u8>,
    now: Seq<u8>,
    x: int,
    y: int,
    n: int,
    x_done: int,
    y_done: int,
)
    requires
        disjoint(x, y, n),
        swapped_upto(before, now, x, y, n, x_done, y_done),
    ensures
        swapped_upto(before, now, y, x, n, y_done, x_done),
{
}

/// Moving the bound of a side that has no bit left beyond it changes nothing.
pub proof fn lemma_swapped_skip(
    before: Seq<u8>,
    now: Seq<u8>,
    x: int,
    y: int,
    n: int,
    x_done: int,
    y_done: int,
    x_next: int,
)
    requires
        swapped_upto(before, now, x, y, n, x_done, y_done),
        x + n <= x_done <= x_next,
    ensures
        swapped_upto(before, now, x, y, n, x_next, y_done),
{
}

/// A word that runs along one side of an exchange: wherever one of its 32
/// bits, laid over the memory from byte address `first` on, falls inside the
/// run of `n` bits at `start`, it is the bit that stood there in `before`.
pub closed spec fn rolling_holds(before: Seq<u8>, w: u32, first: int, start: int, n: int) -> bool {
    forall|t: u8|
        t < 32 && start <= 8 * first + t < start + n ==> #[trigger] bit_of_word(w, t) == bit_at(
            before,
            8 * first + t,
        )
}

/// Storing a byte whose bits of the first side's run come out of the second
/// side's rolling word carries the first side of an exchange one byte on.
pub proof fn lemma_swap_step(
    before: Seq<u8>,
    now: Seq<u8>,
    base: usize,
    head: u8,
    tail: u8,
    bytes: usize,
    other_base: usize,
    from: u8,
    n: int,
    other_done: int,
    index: usize,
    w: u32,
    mask: u8,
    src_b: u8,
    v: u8,
)
    requires
        span_of(head, tail, bytes, n),
        from < 8,
        index < bytes,
        base + index < now.len(),
        disjoint(8 * base + head, 8 * other_base + from, n),
        swapped_upto(
            before,
            now,
            8 * base + head,
            8 * other_base + from,
            n,
            8 * (base + index),
            other_done,
        ),
        rolling_holds(before, w, other_base + index - 2, 8 * other_base + from, n),
        forall|j: u8| j < 8 ==> #[trigger] bit_of(mask, j) == in_span(head, tail, bytes, index, j),
        forall|j: u8|
            j < 8 ==> #[trigger] bit_of(src_b, j) == bit_of_word(w, (16 + j + from - head) as u8),
        forall|j: u8|
            j < 8 ==> #[trigger] bit_of(v, j) == (if bit_of(mask, j) {
                bit_of(src_b, j)
            } else {
                bit_of(now[base + index], j)
            }),
    ensures
        swapped_upto(
            before,
            now.update(base + index, v),
            8 * base + head,
            8 * other_base + from,
            n,
            8 * (base + index + 1),
            other_done,
        ),
{
    let x = 8 * base + head;
    let y = 8 * other_base + from;
    let at = base + index;
    let first = other_base + index - 2;
    let next = now.update(at, v);
    assert forall|j: u8| j < 8 implies #[trigger] bit_of(v, j) == (if x <= 8 * at + j < x + n {
        bit_at(before, 8 * at + j - x + y)
    } else {
        bit_of(now[at], j)
    }) by {
        lemma_in_span(head, tail, bytes, n, index, j);
        assert(bit_of(mask, j) == in_span(head, tail, bytes, index, j));
        if x <= 8 * at + j < x + n {
            let t = (16 + j + from - head) as u8;
            assert(8 * first + t == 8 * at + j - x + y);
            assert(bit_of_word(w, t) == bit_at(before, 8 * first + t));
        }
    }
    assert forall|p: int| 0 <= p < 8 * before.len() implies #[trigger] bit_at(next, p) == (if x
        <= p < x + n && p < 8 * (at + 1) {
        bit_at(before, p - x + y)
    } else if y <= p < y + n && p < other_done {
        bit_at(before, p - y + x)
    } else {
        bit_at(before, p)
    }) by {
        let j = (p % 8) as u8;
        if p / 8 == at {
            assert(bit_at(next, p) == bit_of(v, j));
            assert(bit_at(now, p) == bit_of(now[at], j));
            assert(8 * at + j == p);
        } else {
            assert(bit_at(next, p) == bit_at(now, p));
        }
    }
}

/// Rolling a side's word on by one byte keeps that side's bits, since the
/// byte that comes in lies beyond what the exchange has stored on that side.
pub proof fn lemma_rolling_next(
    before: Seq<u8>,
    now: Seq<u8>,
    x: int,
    y: int,
    n: int,
    x_done: int,
    y_done: int,
    w: u32,
    next: u8,
    r: u32,
    first: int,
)
    requires
        disjoint(x, y, n),
        swapped_upto(before, now, x, y, n, x_done, y_done),
        x_done <= 8 * (first + 4),
        0 <= x,
        x + n <= 8 * before.len(),
        rolling_holds(before, w, first, x, n),
        forall|t: u8|
            t < 32 ==> #[trigger] bit_of_word(r, t) == (if t < 24 {
                bit_of_word(w, (t + 8) as u8)
            } else {
                bit_of(next, (t - 24) as u8)
            }),
        next == byte_or_zero(now, first + 4),
    ensures
        rolling_holds(before, r, first + 1, x, n),
{
    assert forall|t: u8| t < 32 && x <= 8 * (first + 1) + t < x + n implies #[trigger] bit_of_word(
        r,
        t,
    ) == bit_at(before, 8 * (first + 1) + t) by {
        let q = 8 * (first + 1) + t;
        if t < 24 {
            assert(bit_of_word(w, (t + 8) as u8) == bit_at(before, 8 * first + (t + 8) as u8));
        } else {
            assert(q / 8 == first + 4);
            assert(bit_at(now, q) == bit_of(next, (t - 24) as u8));
            assert(bit_at(now, q) == bit_at(before, q));
        }
    }
}

/// Bit `t` of three bytes that stand in a row at address `first` is the bit
/// of the memory at that place, wherever the memory has it.
proof fn lemma_three_in_memory(mem: Seq<u8>, first: int, a: u8, b: u8, c: u8, t: int)
    requires
        a == byte_or_zero(mem, first),
        b == byte_or_zero(mem, first + 1),
        c == byte_or_zero(mem, first + 2),
        0 <= t < 24,
        0 <= 8 * first + t < 8 * mem.len(),
    ensures
        bit_of_three(a, b, c, t) == bit_at(mem, 8 * first + t),
{
}

/// Bit `t` of four bytes that stand in a row at address `first` is the bit of
/// the memory at that place, wherever the memory has it.
proof fn lemma_four_in_memory(mem: Seq<u8>, first: int, a: u8, b: u8, c: u8, d: u8, t: int)
    requires
        a == byte_or_zero(mem, first),
        b == byte_or_zero(mem, first + 1),
        c == byte_or_zero(mem, first + 2),
        d == byte_or_zero(mem, first + 3),
        0 <= t < 32,
        0 <= 8 * first + t < 8 * mem.len(),
    ensures
        bit_of_four(a, b, c, d, t) == bit_at(mem, 8 * first + t),
{
}

/// The byte at `base + ahead - behind`, or zero where the memory does not
/// reach that far.
pub fn byte_near(mem: &[u8], base: usize, ahead: usize, behind: usize) -> (b: u8)
    ensures
        b == byte_or_zero(mem@, base + ahead - behind),
{
    let len = mem.len();
    if ahead >= behind {
        match base.checked_add(ahead - behind) {
            Some(at) => if at < len {
                mem[at]
            } else {
                0
            },
            None => 0,
        }
    } else {
        let back = behind - ahead;
        if base >= back && base - back < len {
            mem[base - back]
        } else {
            0
        }
    }
}

/// The word made of the four bytes around `base`: two before it, the byte
/// itself and one after it, with zero for a byte that the memory has not.
pub fn word_around(mem: &[u8], base: usize) -> (w: u32)
    ensures
        forall|t: u8|
            t < 32 ==> #[trigger] bit_of_word(w, t) == bit_of_four(
                byte_or_zero(mem@, base - 2),
                byte_or_zero(mem@, base - 1),
                byte_or_zero(mem@, base as int),
                byte_or_zero(mem@, base + 1),
                t as int,
            ),
{
    let a = byte_near(mem, base, 0, 2);
    let b = byte_near(mem, base, 0, 1);
    let c = byte_near(mem, base, 0, 0);
    let d = byte_near(mem, base, 1, 0);
    pack_word(a, b, c, d)
}

/// The word made of the four bytes around the first byte of a run holds the
/// run's bits, as far as it covers the run.
pub proof fn lemma_rolling_begin(mem: Seq<u8>, w: u32, base: int, start: int, n: int)
    requires
        forall|t: u8|
            t < 32 ==> #[trigger] bit_of_word(w, t) == bit_of_four(
                byte_or_zero(mem, base - 2),
                byte_or_zero(mem, base - 1),
                byte_or_zero(mem, base),
                byte_or_zero(mem, base + 1),
                t as int,
            ),
        0 <= start,
        start + n <= 8 * mem.len(),
    ensures
        rolling_holds(mem, w, base - 2, start, n),
{
    assert forall|t: u8| t < 32 && start <= 8 * (base - 2) + t < start + n implies #[trigger] bit_of_word(
        w,
        t,
    ) == bit_at(mem, 8 * (base - 2) + t) by {
        lemma_four_in_memory(
            mem,
            base - 2,
            byte_or_zero(mem, base - 2),
            byte_or_zero(mem, base - 1),
            byte_or_zero(mem, base),
            byte_or_zero(mem, base + 1),
            t as int,
        );
    }
}

/// Reads the byte at `at`, takes the bits that `mask` selects from `src_b`,
/// and stores the byte again. Returns the byte that it stored.
pub fn store_blend(mem: &mut [u8], at: usize, src_b: u8, mask: u8) -> (stored: u8)
    requires
        at < old(mem)@.len(),
    ensures
        final(mem)@ == old(mem)@.update(at as int, stored),
        forall|j: u8|
            j < 8 ==> #[trigger] bit_of(stored, j) == (if bit_of(mask, j) {
                bit_of(src_b, j)
            } else {
                bit_of(old(mem)@[at as int], j)
            }),
{
    // Get the byte to edit, wipe the bits that will be overwritten, write the
    // relevant bits.
    let dst_b = blend(mem[at], src_b, mask);

    // Overwrite the byte.
    mem[at] = dst_b;
    dst_b
}

/// The number of bytes that `bit_count` bits cover when they begin at bit
/// `head` of a byte.
pub fn byte_span(head: u8, bit_count: usize) -> (bytes: usize)
    requires
        head < 8,
    ensures
        bytes == (head + bit_count + 7) / 8,
        bytes <= usize::MAX / 8 + 2,
{
    bit_count / 8 + (head as usize + bit_count % 8 + 7) / 8
}

/// The number of bits of the last byte that lie behind a run of `bit_count`
/// bits beginning at bit `head` of a byte.
pub fn tail_gap(head: u8, bit_count: usize) -> (tail: u8)
    requires
        head < 8,
    ensures
        tail == (8 - (head + bit_count) % 8) % 8,
        tail < 8,
{
    let end = (head as usize + bit_count % 8) % 8;
    ((8 - end) % 8) as u8
}

} // verus!
