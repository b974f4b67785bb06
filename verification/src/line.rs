//! The line primitive: an origin and a direction, carried as points.

use vstd::prelude::*;

verus! {

/// A point of the plane, as the geometry crate represents it.
#[verifier::external_type_specification]
#[verifier::external_body]
pub struct ExPoint(togo::prelude::Point);

/// A line defined by its origin and its direction.
#[derive(Debug, Copy, Clone, PartialEq)]
pub struct Line {
    pub origin: togo::prelude::Point,
    pub dir: togo::prelude::Point,
}

impl Line {
    /// Creates a line with the given origin and direction.
    pub fn new(origin: togo::prelude::Point, dir: togo::prelude::Point) -> (l: Line)
        ensures
            l.origin == origin,
            l.dir == dir,
    {
        Line { origin, dir }
    }
}

/// Creates a line with the given origin and direction; the same as `Line::new`.
pub fn line(origin: togo::prelude::Point, dir: togo::prelude::Point) -> (l: Line)
    ensures
        l == Line::new_spec(origin, dir),
{
    Line::new(origin, dir)
}

impl Line {
    /// The line that `new` builds from an origin and a direction.
    pub open spec fn new_spec(origin: togo::prelude::Point, dir: togo::prelude::Point) -> Line {
        Line { origin, dir }
    }
}

impl Line {
    /// The text form of the line: `[origin, dir]`, each point written as
    /// `[x, y]` with 20 decimals.
    #[verifier::external_body]
    pub fn to_string(&self) -> String {
        format!("{}", togo::prelude::line(self.origin, self.dir))
    }
}

} // verus!
