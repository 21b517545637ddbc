//! A request body decoded into a caller's type.
use vstd::prelude::*;

verus! {

/// A request body, decoded.
pub struct BinaryRequest<T>(pub T);

impl<T> BinaryRequest<T> {
    /// The decoded body.
    pub fn into_inner(self) -> (r: T)
        ensures
            r == self.0,
    {
        self.0
    }
}

} // verus!
