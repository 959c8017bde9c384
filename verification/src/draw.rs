//! Draw pass identifiers.

use vstd::prelude::*;

verus! {

/// Numerical identifier for one draw pass.
#[derive(Copy, Clone)]
pub struct PassId(u32);

impl PassId {
    /// The number this identifier was made from.
    pub closed spec fn view(&self) -> u32 {
        self.0
    }

    /// Construct a pass identifier from a `u32`.
    pub fn new(n: u32) -> (r: Self)
        ensures
            r@ == n,
    {
        PassId(n)
    }

    /// The pass number; always safe to store back in a `u32`.
    pub fn pass(self) -> (r: usize)
        ensures
            r == self@,
    {
        self.0 as usize
    }
}

/// Type of a draw pass.
#[derive(Copy, Clone, Debug, PartialEq, Eq, Ord, PartialOrd, Hash)]
pub enum PassType {
    /// New pass is clipped and offset relative to its parent.
    Clip,
    /// New pass is an overlay, such as a tooltip or menu, placed relative to
    /// the base window.
    Overlay,
}

} // verus!
