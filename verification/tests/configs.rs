use offroad::configs::{
    if_really_intersecting_arc_arc, if_really_intersecting_segment_segment, ArcArcConfig,
    CCWConfig, CircleConfig, SegmentSegmentConfig,
};
use togo::prelude::{arc, point};

#[test]
fn segment_configs_that_cross() {
    let p = point(1.0, 1.0);
    assert!(!if_really_intersecting_segment_segment::<f64>(&SegmentSegmentConfig::NoIntersection()));
    assert!(if_really_intersecting_segment_segment(&SegmentSegmentConfig::OnePoint(p, 0.5, -0.5)));
    assert!(!if_really_intersecting_segment_segment(&SegmentSegmentConfig::OnePointTouching(p, 1.0, -1.0)));
    assert!(if_really_intersecting_segment_segment::<f64>(&SegmentSegmentConfig::TwoPoints(p, p, p, p)));
    assert!(!if_really_intersecting_segment_segment::<f64>(&SegmentSegmentConfig::TwoPointsTouching(p, p, p, p)));
}

#[test]
fn arc_configs_that_cross() {
    let p = point(0.5, 0.5);
    let a = arc(point(1.0, 0.0), point(0.0, 1.0), point(0.0, 0.0), 1.0);
    assert!(!if_really_intersecting_arc_arc(&ArcArcConfig::NoIntersection()));
    assert!(if_really_intersecting_arc_arc(&ArcArcConfig::NonCocircularOnePoint(p)));
    assert!(!if_really_intersecting_arc_arc(&ArcArcConfig::NonCocircularOnePointTouching(p)));
    assert!(if_really_intersecting_arc_arc(&ArcArcConfig::NonCocircularTwoPoints(p, p)));
    assert!(!if_really_intersecting_arc_arc(&ArcArcConfig::NonCocircularTwoPointsTouching(p, p)));
    assert!(!if_really_intersecting_arc_arc(&ArcArcConfig::CocircularOnePoint0(p)));
    assert!(!if_really_intersecting_arc_arc(&ArcArcConfig::CocircularOnePoint1(p)));
    assert!(!if_really_intersecting_arc_arc(&ArcArcConfig::CocircularTwoPoints(p, p)));
    assert!(if_really_intersecting_arc_arc(&ArcArcConfig::CocircularOnePointOneArc0(p, a)));
    assert!(if_really_intersecting_arc_arc(&ArcArcConfig::CocircularOnePointOneArc1(p, a)));
    assert!(if_really_intersecting_arc_arc(&ArcArcConfig::CocircularOneArc0(a)));
    assert!(if_really_intersecting_arc_arc(&ArcArcConfig::CocircularOneArc1(a)));
    assert!(if_really_intersecting_arc_arc(&ArcArcConfig::CocircularOneArc2(a)));
    assert!(if_really_intersecting_arc_arc(&ArcArcConfig::CocircularOneArc3(a)));
    assert!(if_really_intersecting_arc_arc(&ArcArcConfig::CocircularOneArc4(a)));
    assert!(if_really_intersecting_arc_arc(&ArcArcConfig::CocircularTwoArcs(a, a)));
}

#[test]
fn config_values_compare() {
    assert_eq!(CCWConfig::CCW, CCWConfig::CCW);
    assert_ne!(CCWConfig::CW, CCWConfig::COLINEAR);
    assert_eq!(
        CircleConfig::NoncocircularOnePoint(point(1.0, 2.0)),
        CircleConfig::NoncocircularOnePoint(point(1.0, 2.0))
    );
    assert_ne!(CircleConfig::NoIntersection(), CircleConfig::SameCircles());
}
