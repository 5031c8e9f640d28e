//! The order of positions and of bit pointers: a pointer comes before another
//! where its byte address is lower, or where the byte addresses are the same
//! and its position inside the byte is lower.

use vstd::prelude::*;
use vstd::std_specs::cmp::{PartialOrdSpec, PartialOrdSpecImpl};
use core::cmp::Ordering;
use super::{BitPtr, BitPtrMut, SubByte};

verus! {

impl PartialOrd for SubByte {
    fn partial_cmp(&self, other: &SubByte) -> (r: Option<Ordering>) {
        let a = self.get();
        let b = other.get();
        if a < b {
            Some(Ordering::Less)
        } else if a > b {
            Some(Ordering::Greater)
        } else {
            Some(Ordering::Equal)
        }
    }
}

impl PartialOrdSpecImpl for SubByte {
    open spec fn obeys_partial_cmp_spec() -> bool {
        true
    }

    open spec fn partial_cmp_spec(&self, other: &SubByte) -> Option<Ordering> {
        if self.value() < other.value() {
            Some(Ordering::Less)
        } else if self.value() > other.value() {
            Some(Ordering::Greater)
        } else {
            Some(Ordering::Equal)
        }
    }
}

impl PartialOrd for BitPtr {
    fn partial_cmp(&self, other: &BitPtr) -> (r: Option<Ordering>) {
        let (a, i) = self.as_inner();
        let (b, j) = other.as_inner();
        if a < b {
            Some(Ordering::Less)
        } else if a > b {
            Some(Ordering::Greater)
        } else {
            i.partial_cmp(&j)
        }
    }
}

impl PartialOrdSpecImpl for BitPtr {
    open spec fn obeys_partial_cmp_spec() -> bool {
        true
    }

    open spec fn partial_cmp_spec(&self, other: &BitPtr) -> Option<Ordering> {
        if self.address() < other.address() {
            Some(Ordering::Less)
        } else if self.address() > other.address() {
            Some(Ordering::Greater)
        } else if self.subbyte().value() < other.subbyte().value() {
            Some(Ordering::Less)
        } else if self.subbyte().value() > other.subbyte().value() {
            Some(Ordering::Greater)
        } else {
            Some(Ordering::Equal)
        }
    }
}

impl PartialOrd for BitPtrMut {
    fn partial_cmp(&self, other: &BitPtrMut) -> (r: Option<Ordering>) {
        let (a, i) = self.as_inner();
        let (b, j) = other.as_inner();
        if a < b {
            Some(Ordering::Less)
        } else if a > b {
            Some(Ordering::Greater)
        } else {
            i.partial_cmp(&j)
        }
    }
}

impl PartialOrdSpecImpl for BitPtrMut {
    open spec fn obeys_partial_cmp_spec() -> bool {
        true
    }

    open spec fn partial_cmp_spec(&self, other: &BitPtrMut) -> Option<Ordering> {
        if self.address() < other.address() {
            Some(Ordering::Less)
        } else if self.address() > other.address() {
            Some(Ordering::Greater)
        } else if self.subbyte().value() < other.subbyte().value() {
            Some(Ordering::Less)
        } else if self.subbyte().value() > other.subbyte().value() {
            Some(Ordering::Greater)
        } else {
            Some(Ordering::Equal)
        }
    }
}

/// Bit pointers are ordered as their bit addresses are.
pub proof fn lemma_order_by_view(p: BitPtr, q: BitPtr)
    requires
        p.wf(),
        q.wf(),
    ensures
        PartialOrdSpec::partial_cmp_spec(&p, &q) == Some(Ordering::Less) <==> p@ < q@,
        PartialOrdSpec::partial_cmp_spec(&p, &q) == Some(Ordering::Equal) <==> p@ == q@,
        PartialOrdSpec::partial_cmp_spec(&p, &q) == Some(Ordering::Greater) <==> p@ > q@,
{
}

} // verus!
