//! Physical addresses.

use vstd::prelude::*;

verus! {

/// An address in physical memory.
#[derive(Clone, Copy, Debug, PartialEq, Eq, PartialOrd, Ord, Hash)]
pub struct PhysAddr(pub u64);

impl PhysAddr {
    /// The address as a 64-bit number.
    pub fn as_u64(self) -> (value: u64)
        ensures
            value == self.0,
    {
        self.0
    }

    /// The address as a machine word, where it fits one.
    pub fn as_usize(self) -> (value: usize)
        requires
            self.0 <= usize::MAX,
        ensures
            value == self.0,
    {
        self.0 as usize
    }
}

} // verus!
