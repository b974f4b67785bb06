//! The configurations in which two primitives can meet, and which of them are
//! real crossings (as opposed to primitives that only touch at shared ends).

use vstd::prelude::*;

verus! {

/// An arc (or a line segment, when its radius is infinite), as the geometry
/// crate represents it.
#[verifier::external_type_specification]
#[verifier::external_body]
pub struct ExArc(togo::prelude::Arc);

/// Orientation of three points.
#[derive(Debug, PartialEq, Eq)]
pub enum CCWConfig {
    CCW,
    CW,
    COLINEAR,
}

/// How two circles meet.
#[derive(Debug, PartialEq)]
pub enum CircleConfig {
    NoIntersection(),
    NoncocircularOnePoint(togo::prelude::Point),
    NoncocircularTwoPoints(togo::prelude::Point, togo::prelude::Point),
    SameCircles(),
}

/// How two segments meet; `S` is the type of the segment parameters of the
/// meeting point.
#[derive(Debug, PartialEq)]
pub enum SegmentSegmentConfig<S> {
    NoIntersection(),
    OnePoint(togo::prelude::Point, S, S),
    OnePointTouching(togo::prelude::Point, S, S),
    TwoPoints(togo::prelude::Point, togo::prelude::Point, togo::prelude::Point, togo::prelude::Point),
    TwoPointsTouching(
        togo::prelude::Point,
        togo::prelude::Point,
        togo::prelude::Point,
        togo::prelude::Point,
    ),
}

/// How a segment and an arc meet; `S` is the type of the segment parameters
/// of the meeting points.
#[derive(Debug, PartialEq)]
pub enum SegmentArcConfig<S> {
    NoIntersection(),
    OnePoint(togo::prelude::Point, S),
    OnePointTouching(togo::prelude::Point, S),
    TwoPoints(togo::prelude::Point, togo::prelude::Point, S, S),
    TwoPointsTouching(togo::prelude::Point, togo::prelude::Point, S, S),
}

/// How two arcs meet.
#[derive(Debug, PartialEq)]
pub enum ArcArcConfig {
    NoIntersection(),
    NonCocircularOnePoint(togo::prelude::Point),
    NonCocircularOnePointTouching(togo::prelude::Point),
    NonCocircularTwoPoints(togo::prelude::Point, togo::prelude::Point),
    NonCocircularTwoPointsTouching(togo::prelude::Point, togo::prelude::Point),
    CocircularOnePoint0(togo::prelude::Point),
    CocircularOnePoint1(togo::prelude::Point),
    CocircularTwoPoints(togo::prelude::Point, togo::prelude::Point),
    CocircularOnePointOneArc0(togo::prelude::Point, togo::prelude::Arc),
    CocircularOnePointOneArc1(togo::prelude::Point, togo::prelude::Arc),
    CocircularOneArc0(togo::prelude::Arc),
    CocircularOneArc1(togo::prelude::Arc),
    CocircularOneArc2(togo::prelude::Arc),
    CocircularOneArc3(togo::prelude::Arc),
    CocircularOneArc4(togo::prelude::Arc),
    CocircularTwoArcs(togo::prelude::Arc, togo::prelude::Arc),
}

/// Two segments really cross when they meet in one or two points without
/// merely touching at their ends.
pub open spec fn crosses_segment_segment<S>(config: SegmentSegmentConfig<S>) -> bool {
    config is OnePoint || config is TwoPoints
}

/// A segment and an arc really cross when they meet in one or two points
/// without merely touching at their ends.
pub open spec fn crosses_segment_arc<S>(config: SegmentArcConfig<S>) -> bool {
    config is OnePoint || config is TwoPoints
}

/// Two arcs really cross when they meet in points that are not only shared
/// ends, or overlap along an arc (the one exception: two arcs of one circle
/// that share both ends and nothing else, or only one end).
pub open spec fn crosses_arc_arc(config: ArcArcConfig) -> bool {
    !(config is NoIntersection || config is NonCocircularOnePointTouching
        || config is NonCocircularTwoPointsTouching || config is CocircularOnePoint0
        || config is CocircularOnePoint1 || config is CocircularTwoPoints)
}

/// Whether two segments that meet as `config` says really cross.
pub fn if_really_intersecting_segment_segment<S>(config: &SegmentSegmentConfig<S>) -> (r: bool)
    ensures
        r == crosses_segment_segment(*config),
{
    match config {
        SegmentSegmentConfig::NoIntersection() => false,
        SegmentSegmentConfig::OnePoint(_, _, _) => true,
        SegmentSegmentConfig::OnePointTouching(_, _, _) => false,
        SegmentSegmentConfig::TwoPoints(_, _, _, _) => true,
        SegmentSegmentConfig::TwoPointsTouching(_, _, _, _) => false,
    }
}

/// Whether two arcs that meet as `config` says really cross.
pub fn if_really_intersecting_arc_arc(config: &ArcArcConfig) -> (r: bool)
    ensures
        r == crosses_arc_arc(*config),
{
    match config {
        ArcArcConfig::NoIntersection() => false,
        ArcArcConfig::NonCocircularOnePoint(_) => true,
        ArcArcConfig::NonCocircularOnePointTouching(_) => false,
        ArcArcConfig::NonCocircularTwoPoints(_, _) => true,
        ArcArcConfig::NonCocircularTwoPointsTouching(_, _) => false,
        ArcArcConfig::CocircularOnePoint0(_) | ArcArcConfig::CocircularOnePoint1(_) => false,
        ArcArcConfig::CocircularTwoPoints(_, _) => false,
        ArcArcConfig::CocircularOnePointOneArc0(_, _)
        | ArcArcConfig::CocircularOnePointOneArc1(_, _) => true,
        ArcArcConfig::CocircularOneArc0(_)
        | ArcArcConfig::CocircularOneArc1(_)
        | ArcArcConfig::CocircularOneArc2(_)
        | ArcArcConfig::CocircularOneArc3(_)
        | ArcArcConfig::CocircularOneArc4(_)
        | ArcArcConfig::CocircularTwoArcs(_, _) => true,
    }
}

} // verus!
