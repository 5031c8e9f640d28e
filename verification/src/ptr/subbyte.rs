use vstd::prelude::*;

verus! {

/// A position inside a byte, counted from the most significant bit: `0` to `7`.
#[derive(Clone, Copy, PartialEq, Eq, Structural, Ord, Hash, Debug)]
pub struct SubByte {
    bit: u8,
}

impl View for SubByte {
    type V = int;

    /// The position as a mathematical integer.
    open spec fn view(&self) -> int {
        self.value() as int
    }
}

impl SubByte {
    /// The number of the smallest position.
    pub const MIN: u8 = 0;

    /// The number of the largest position.
    pub const MAX: u8 = 7;

    /// The position as a number.
    pub closed spec fn value(self) -> u8 {
        self.bit
    }

    /// Every position is below `8`.
    #[verifier::type_invariant]
    pub open spec fn wf(self) -> bool {
        self.value() < 8
    }

    /// The position inside its byte of the bit with bit address `p`.
    pub closed spec fn of_bit(p: int) -> SubByte {
        SubByte { bit: (p % 8) as u8 }
    }

    /// The position of a bit address is its remainder by eight.
    pub proof fn lemma_of_bit(p: int)
        ensures
            SubByte::of_bit(p).value() == p % 8,
            SubByte::of_bit(p).wf(),
    {
    }

    /// A position is decided by its number.
    pub proof fn lemma_by_value(a: SubByte, b: SubByte)
        requires
            a.value() == b.value(),
        ensures
            a == b,
    {
    }

    /// A position from its number, or `None` when the number is `8` or more.
    pub fn new(bit: u8) -> (r: Option<SubByte>)
        ensures
            r.is_some() <==> bit < 8,
            r.is_some() ==> r.unwrap().value() == bit && r.unwrap().wf(),
    {
        if bit >= 8 {
            None
        } else {
            Some(SubByte { bit })
        }
    }

    /// A position from a number that the caller knows to be below `8`.
    pub fn new_unchecked(bit: u8) -> (r: SubByte)
        requires
            bit < 8,
        ensures
            r.value() == bit,
            r.wf(),
    {
        SubByte { bit }
    }

    /// The smallest position, the most significant bit of a byte.
    pub fn lowest() -> (r: SubByte)
        ensures
            r.value() == SubByte::MIN,
            r.wf(),
    {
        SubByte { bit: 0 }
    }

    /// The largest position, the least significant bit of a byte.
    pub fn highest() -> (r: SubByte)
        ensures
            r.value() == SubByte::MAX,
            r.wf(),
    {
        SubByte { bit: 7 }
    }

    /// The position as a number.
    pub fn get(&self) -> (r: u8)
        ensures
            r == self.value(),
            r < 8,
            self.wf(),
    {
        proof {
            use_type_invariant(self);
        }
        self.bit
    }
}

} // verus!
