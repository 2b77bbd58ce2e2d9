//! The id of the most recent verification request; a host forwards progress
//! only for the request whose id is current.
use vstd::prelude::*;

verus! {

/// The id of the current verification request.
#[derive(Clone, Copy, Default)]
pub struct SortingNetworkVerifyId(pub u32);

impl SortingNetworkVerifyId {
    /// Moves to the next id, wrapping around, and returns it.
    pub fn inc(&mut self) -> (r: u32)
        ensures
            r == final(self).0,
            final(self).0 == (old(self).0 + 1) % 0x1_0000_0000,
    {
        self.0 = self.0.wrapping_add(1);
        self.0
    }

    pub fn get(&self) -> (r: u32)
        ensures
            r == self.0,
    {
        self.0
    }

    pub fn set(&mut self, id: u32)
        ensures
            final(self).0 == id,
    {
        self.0 = id;
    }
}

/// The arguments of a greeting request.
pub struct GreetArgs {
    pub name: String,
}

} // verus!
