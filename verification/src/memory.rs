//! Memory as a sequence of bytes, read bit by bit.
//!
//! The byte at index `a` of the sequence is the byte at byte address `a`, and
//! the bit at bit address `p` is bit `p % 8` of the byte at `p / 8`.

use vstd::prelude::*;
use crate::bits::{bit_of, lemma_byte_by_bits};

verus! {

/// The bit at bit address `p` of the memory `mem`.
pub open spec fn bit_at(mem: Seq<u8>, p: int) -> bool {
    bit_of(mem[p / 8], (p % 8) as u8)
}

/// The `n` bits of `mem` that begin at bit address `start`, in rising order.
pub open spec fn bits_at(mem: Seq<u8>, start: int, n: int) -> Seq<bool> {
    Seq::new(n as nat, |k: int| bit_at(mem, start + k))
}

/// `after` is `before` with the run `bits` stored at bit address `start`: the
/// bits of the run stand there in order, and every other bit is as it was.
pub open spec fn written(before: Seq<u8>, after: Seq<u8>, start: int, bits: Seq<bool>) -> bool {
    &&& after.len() == before.len()
    &&& forall|p: int|
        0 <= p < 8 * before.len() ==> #[trigger] bit_at(after, p) == (if start <= p < start
            + bits.len() {
            bits[p - start]
        } else {
            bit_at(before, p)
        })
}

/// `after` is `before` with the `n` bits at `x` and the `n` bits at `y`
/// exchanged, and every other bit as it was.
pub open spec fn swapped(before: Seq<u8>, after: Seq<u8>, x: int, y: int, n: int) -> bool {
    &&& after.len() == before.len()
    &&& forall|p: int|
        0 <= p < 8 * before.len() ==> #[trigger] bit_at(after, p) == (if x <= p < x + n {
            bit_at(before, p - x + y)
        } else if y <= p < y + n {
            bit_at(before, p - y + x)
        } else {
            bit_at(before, p)
        })
}

/// The runs of `n` bits at `x` and at `y` have no bit in common.
pub open spec fn disjoint(x: int, y: int, n: int) -> bool {
    x + n <= y || y + n <= x
}

/// Two memories of one length that agree in every bit are the same memory.
pub proof fn lemma_memory_by_bits(a: Seq<u8>, b: Seq<u8>)
    requires
        a.len() == b.len(),
        forall|p: int| 0 <= p < 8 * a.len() ==> bit_at(a, p) == bit_at(b, p),
    ensures
        a == b,
{
    assert forall|i: int| 0 <= i < a.len() implies a[i] == b[i] by {
        assert(bit_at(a, 8 * i) == bit_at(b, 8 * i));
        assert(bit_at(a, 8 * i + 1) == bit_at(b, 8 * i + 1));
        assert(bit_at(a, 8 * i + 2) == bit_at(b, 8 * i + 2));
        assert(bit_at(a, 8 * i + 3) == bit_at(b, 8 * i + 3));
        assert(bit_at(a, 8 * i + 4) == bit_at(b, 8 * i + 4));
        assert(bit_at(a, 8 * i + 5) == bit_at(b, 8 * i + 5));
        assert(bit_at(a, 8 * i + 6) == bit_at(b, 8 * i + 6));
        assert(bit_at(a, 8 * i + 7) == bit_at(b, 8 * i + 7));
        lemma_byte_by_bits(a[i], b[i]);
    }
    assert(a =~= b);
}

/// Storing a run of no bits leaves the memory as it was.
pub proof fn lemma_written_nothing(before: Seq<u8>, after: Seq<u8>, start: int, bits: Seq<bool>)
    requires
        written(before, after, start, bits),
        bits.len() == 0,
    ensures
        after == before,
{
    lemma_memory_by_bits(after, before);
}

/// Exchanging runs of no bits leaves the memory as it was.
pub proof fn lemma_swapped_nothing(before: Seq<u8>, after: Seq<u8>, x: int, y: int)
    requires
        swapped(before, after, x, y, 0),
    ensures
        after == before,
{
    lemma_memory_by_bits(after, before);
}

/// Storing a run of bits has one outcome only.
pub proof fn lemma_written_once(before: Seq<u8>, a: Seq<u8>, b: Seq<u8>, start: int, bits: Seq<bool>)
    requires
        written(before, a, start, bits),
        written(before, b, start, bits),
    ensures
        a == b,
{
    lemma_memory_by_bits(a, b);
}

/// Exchanging two runs of bits has one outcome only.
pub proof fn lemma_swapped_once(before: Seq<u8>, a: Seq<u8>, b: Seq<u8>, x: int, y: int, n: int)
    requires
        swapped(before, a, x, y, n),
        swapped(before, b, x, y, n),
    ensures
        a == b,
{
    lemma_memory_by_bits(a, b);
}

} // verus!
