use vstd::prelude::*;
use crate::ptr::{BitPtr, BitPtrMut};

verus! {

/// The byte address of the null pointers.
pub const NULL_ADDRESS: usize = 0;

/// The null bit pointer: the first bit of the byte at address zero. It is a
/// placeholder for "no bit", not a pointer to read through.
pub fn null() -> (r: BitPtr)
    ensures
        r.address() == NULL_ADDRESS,
        r.subbyte().value() == 0,
        r@ == 0,
{
    BitPtr::new_on_byte(NULL_ADDRESS)
}

/// The null read-write bit pointer: the first bit of the byte at address
/// zero. It is a placeholder for "no bit", not a pointer to write through.
pub fn null_mut() -> (r: BitPtrMut)
    ensures
        r.address() == NULL_ADDRESS,
        r.subbyte().value() == 0,
        r@ == 0,
{
    BitPtrMut::new_on_byte(NULL_ADDRESS)
}

} // verus!
