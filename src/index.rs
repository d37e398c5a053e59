use vstd::prelude::*;

verus! {

/// A handle to a value stored in a `SlotMapVec`: the value's storage
/// position and the version that position had when the value was stored.
#[derive(Copy, Clone, PartialEq, Eq, Debug, Structural)]
pub struct SlotMapIndex {
    pub(crate) slot: u32,
    pub(crate) version: u32,
}

impl View for SlotMapIndex {
    /// (position, version)
    type V = (nat, nat);

    open(crate) spec fn view(&self) -> (nat, nat) {
        (self.slot as nat, self.version as nat)
    }
}

impl SlotMapIndex {
    /// The storage position this handle refers to.
    pub fn slot(&self) -> (r: u32)
        ensures
            r as nat == self@.0,
    {
        self.slot
    }

    /// The version the position had when the value was stored.
    pub fn version(&self) -> (r: u32)
        ensures
            r as nat == self@.1,
    {
        self.version
    }
}

} // verus!
