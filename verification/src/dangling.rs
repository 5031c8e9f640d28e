use vstd::prelude::*;
use crate::ptr::{BitPtr, BitPtrMut};

verus! {

/// The byte address of the dangling pointers: the lowest address that is not
/// null and is aligned for a byte.
pub const DANGLING_ADDRESS: usize = 1;

/// A dangling bit pointer: the first bit of a byte address that is not null
/// and is aligned for a byte. It is a placeholder that differs from null, not
/// a pointer to read through.
pub fn dangling() -> (r: BitPtr)
    ensures
        r.address() == DANGLING_ADDRESS,
        r.subbyte().value() == 0,
        r@ == 8,
{
    BitPtr::new_on_byte(DANGLING_ADDRESS)
}

/// A dangling read-write bit pointer: the first bit of a byte address that is
/// not null and is aligned for a byte. It is a placeholder that differs from
/// null, not a pointer to write through.
pub fn dangling_mut() -> (r: BitPtrMut)
    ensures
        r.address() == DANGLING_ADDRESS,
        r.subbyte().value() == 0,
        r@ == 8,
{
    BitPtrMut::new_on_byte(DANGLING_ADDRESS)
}

} // verus!
