//! Wrapper for shared constant data.

use vstd::prelude::*;

verus! {

/// Shared constant data: a thin wrapper marking a value as fixed data that
/// views may read.
pub struct SharedConst<T>(T);

impl<T> SharedConst<T> {
    /// The wrapped value.
    pub closed spec fn value(&self) -> T {
        self.0
    }

    /// Construct with the given data.
    pub fn new(data: T) -> (r: Self)
        ensures
            r.value() == data,
    {
        SharedConst(data)
    }

    /// Read the wrapped data.
    pub fn get(&self) -> (r: &T)
        ensures
            *r == self.value(),
    {
        &self.0
    }
}

} // verus!
