//! Pointer arithmetic at bit granularity over a byte-addressed memory.
//!
//! A bit pointer is a byte address paired with a position inside that byte.
//! Memory is a slice of bytes whose indices are the byte addresses; bit `0`
//! of a byte is its most significant bit. The pointers own nothing: every
//! operation that reads or writes names the memory it works on, and states
//! which of its bits it needs to lie inside that memory.

pub mod bits;
pub mod memory;
mod progress;

mod ptr;
pub use ptr::{wrap_address, wraps, BitPtr, BitPtrMut, SubByte};

mod copy;
pub use copy::copy_nonoverlapping;

mod dangling;
pub use dangling::{dangling, dangling_mut, DANGLING_ADDRESS};

mod null;
pub use null::{null, null_mut, NULL_ADDRESS};

mod swap;
pub use swap::swap_nonoverlapping;

mod fill;
pub use fill::fill;
