//! A series of contiguous arcs.

use vstd::prelude::*;

verus! {

/// A series of contiguous arc segments.
pub struct ArcString(pub Vec<togo::prelude::Arc>);

impl ArcString {
    /// Makes the series from its arcs.
    pub fn new(value: Vec<togo::prelude::Arc>) -> (s: Self)
        ensures
            s.0@ == value@,
    {
        Self(value)
    }

    /// The arcs of the series, in order.
    pub fn arcs(&self) -> (r: &[togo::prelude::Arc])
        ensures
            r@ == self.0@,
    {
        self.0.as_slice()
    }

    /// The arcs of the series, for changing them in place.
    pub fn arcs_mut(&mut self) -> (r: &mut Vec<togo::prelude::Arc>)
        ensures
            *r == old(self).0,
            final(self).0 == *final(r),
    {
        &mut self.0
    }
}

} // verus!
