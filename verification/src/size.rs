//! Sizes of values whose written form has a fixed length.

use vstd::prelude::*;

verus! {

/// A type whose values all occupy the same number of bytes when written out.
pub trait StaticSize {
    /// The number of bytes every value of the type occupies.
    spec fn spec_static_size() -> nat;

    /// The number of bytes every value of the type occupies.
    fn static_size() -> (n: usize)
        ensures
            n == Self::spec_static_size(),
    ;
}

} // verus!
