use offroad::configs::{ArcArcConfig as ArcCfg, SegmentArcConfig as SegArcCfg, SegmentSegmentConfig as SegSegCfg};
use offroad::split::{split_arc_arc, split_line_line, split_segment_arc, Mark, Piece, Side};
use togo::prelude::{
    arc, arcseg, int_arc_arc, int_segment_arc, int_segment_segment, point, points_order, segment, Arc,
    ArcArcConfig, Point, SegmentArcConfig, SegmentSegmentConfig,
};

fn mark_point(mark: Mark, arc0: &Arc, arc1: &Arc, points: &[Point]) -> Point {
    match mark {
        Mark::A0 => arc0.a,
        Mark::B0 => arc0.b,
        Mark::A1 => arc1.a,
        Mark::B1 => arc1.b,
        Mark::P0 => points[0],
        Mark::P1 => points[1],
        Mark::P2 => points[2],
        Mark::P3 => points[3],
    }
}

// The planned pieces as arcs, keeping those of positive size.
fn realize(pieces: &[Piece], arc0: &Arc, arc1: &Arc, points: &[Point]) -> Vec<Arc> {
    let mut res = Vec::new();
    for piece in pieces {
        let from = mark_point(piece.from, arc0, arc1, points);
        let to = mark_point(piece.to, arc0, arc1, points);
        let carrier = if piece.along == Side::First { arc0 } else { arc1 };
        let mut a = if carrier.is_seg() { arcseg(from, to) } else { arc(from, to, carrier.c, carrier.r) };
        a.id(piece.id);
        if a.is_valid(1e-10) {
            res.push(a);
        }
    }
    res
}

fn split_arcs(arc0: &Arc, arc1: &Arc) -> (Vec<Arc>, usize) {
    let (config, points) = match int_arc_arc(arc0, arc1) {
        ArcArcConfig::NoIntersection() => (ArcCfg::NoIntersection(), vec![]),
        ArcArcConfig::NonCocircularOnePoint(p) => (ArcCfg::NonCocircularOnePoint(p), vec![p]),
        ArcArcConfig::NonCocircularOnePointTouching(p) => (ArcCfg::NonCocircularOnePointTouching(p), vec![p]),
        ArcArcConfig::NonCocircularTwoPoints(p0, p1) => (ArcCfg::NonCocircularTwoPoints(p0, p1), vec![p0, p1]),
        ArcArcConfig::NonCocircularTwoPointsTouching(p0, p1) => {
            (ArcCfg::NonCocircularTwoPointsTouching(p0, p1), vec![p0, p1])
        }
        ArcArcConfig::CocircularOnePoint0(p) => (ArcCfg::CocircularOnePoint0(p), vec![p]),
        ArcArcConfig::CocircularOnePoint1(p) => (ArcCfg::CocircularOnePoint1(p), vec![p]),
        ArcArcConfig::CocircularTwoPoints(p0, p1) => (ArcCfg::CocircularTwoPoints(p0, p1), vec![p0, p1]),
        ArcArcConfig::CocircularOnePointOneArc0(p, a) => (ArcCfg::CocircularOnePointOneArc0(p, a), vec![p]),
        ArcArcConfig::CocircularOnePointOneArc1(p, a) => (ArcCfg::CocircularOnePointOneArc1(p, a), vec![p]),
        ArcArcConfig::CocircularOneArc0(a) => (ArcCfg::CocircularOneArc0(a), vec![]),
        ArcArcConfig::CocircularOneArc1(a) => (ArcCfg::CocircularOneArc1(a), vec![]),
        ArcArcConfig::CocircularOneArc2(a) => (ArcCfg::CocircularOneArc2(a), vec![]),
        ArcArcConfig::CocircularOneArc3(a) => (ArcCfg::CocircularOneArc3(a), vec![]),
        ArcArcConfig::CocircularOneArc4(a) => (ArcCfg::CocircularOneArc4(a), vec![]),
        ArcArcConfig::CocircularTwoArcs(a, b) => (ArcCfg::CocircularTwoArcs(a, b), vec![]),
    };
    let (swap0, swap1) = if points.len() == 2 && matches!(config, ArcCfg::NonCocircularTwoPoints(_, _)) {
        let swap0 = points_order(arc0.a, points[0], points[1]) < 0.0;
        let (q0, q1) = if swap0 { (points[1], points[0]) } else { (points[0], points[1]) };
        (swap0, points_order(arc1.a, q0, q1) < 0.0)
    } else {
        (false, false)
    };
    let (pieces, count) = split_arc_arc(&config, arc0.id, arc1.id, swap0, swap1);
    (realize(&pieces, arc0, arc1, &points), count)
}

fn split_lines(arc0: &Arc, arc1: &Arc) -> (Vec<Arc>, usize) {
    let (config, points) = match int_segment_segment(&segment(arc0.a, arc0.b), &segment(arc1.a, arc1.b)) {
        SegmentSegmentConfig::NoIntersection() => (SegSegCfg::NoIntersection(), vec![]),
        SegmentSegmentConfig::OnePoint(p, s, t) => (SegSegCfg::OnePoint(p, s, t), vec![p]),
        SegmentSegmentConfig::OnePointTouching(p, s, t) => (SegSegCfg::OnePointTouching(p, s, t), vec![p]),
        SegmentSegmentConfig::TwoPoints(p0, p1, p2, p3) => (SegSegCfg::TwoPoints(p0, p1, p2, p3), vec![p0, p1, p2, p3]),
        SegmentSegmentConfig::TwoPointsTouching(p0, p1, p2, p3) => {
            (SegSegCfg::TwoPointsTouching(p0, p1, p2, p3), vec![p0, p1, p2, p3])
        }
    };
    let (pieces, count) = split_line_line(&config, arc0.id, arc1.id);
    (realize(&pieces, arc0, arc1, &points), count)
}

fn split_seg_arc(line0: &Arc, arc1: &Arc) -> (Vec<Arc>, usize) {
    let (config, points) = match int_segment_arc(&segment(line0.a, line0.b), arc1) {
        SegmentArcConfig::NoIntersection() => (SegArcCfg::NoIntersection(), vec![]),
        SegmentArcConfig::OnePoint(p, t) => (SegArcCfg::OnePoint(p, t), vec![p]),
        SegmentArcConfig::OnePointTouching(p, t) => (SegArcCfg::OnePointTouching(p, t), vec![p]),
        SegmentArcConfig::TwoPoints(p0, p1, t0, t1) => (SegArcCfg::TwoPoints(p0, p1, t0, t1), vec![p0, p1]),
        SegmentArcConfig::TwoPointsTouching(p0, p1, t0, t1) => (SegArcCfg::TwoPointsTouching(p0, p1, t0, t1), vec![p0, p1]),
    };
    let swap1 = points.len() == 2 && matches!(config, SegArcCfg::TwoPoints(_, _, _, _)) && points_order(arc1.a, points[0], points[1]) < 0.0;
    let (pieces, count) = split_segment_arc(&config, line0.id, arc1.id, swap1);
    (realize(&pieces, line0, arc1, &points), count)
}

#[test]
fn test_arc_arc_01() {
    let arc0 = arc(point(1.0, 1.0), point(0.0, 0.0), point(1.0, 0.0), 1.0);
    let arc1 = arc(point(1.0, 0.0), point(0.0, 1.0), point(0.0, 0.0), 1.0);
    let (res, count) = split_arcs(&arc0, &arc1);
    assert_eq!(count, 4);
    let p = 0.8660254037844386; // cos(30 degrees)
    assert_eq!(
        res,
        vec![
            arc(point(1.0, 1.0), point(0.5, p), point(1.0, 0.0), 1.0),
            arc(point(0.5, p), point(0.0, 0.0), point(1.0, 0.0), 1.0),
            arc(point(1.0, 0.0), point(0.5, p), point(0.0, 0.0), 1.0),
            arc(point(0.5, p), point(0.0, 1.0), point(0.0, 0.0), 1.0),
        ]
    );
}

#[test]
fn test_arc_arc_02() {
    let arc0 = arc(point(0.0, 0.0), point(1.0, 1.0), point(0.0, 1.0), 1.0);
    let arc1 = arc(point(0.0, 1.0), point(1.0, 0.0), point(1.0, 1.0), 1.0);
    let (res, count) = split_arcs(&arc0, &arc1);
    assert_eq!(count, 4);
    let p = 1.0 - 0.8660254037844386;
    assert_eq!(
        res,
        vec![
            arc(point(0.0, 0.0), point(0.5, p), point(0.0, 1.0), 1.0),
            arc(point(0.5, p), point(1.0, 1.0), point(0.0, 1.0), 1.0),
            arc(point(0.0, 1.0), point(0.5, p), point(1.0, 1.0), 1.0),
            arc(point(0.5, p), point(1.0, 0.0), point(1.0, 1.0), 1.0),
        ]
    );
}

#[test]
fn test_arc_arc_03() {
    let arc0 = arc(point(1.2, 2.2), point(2.2, 1.2), point(1.2, 1.2), 1.0);
    let arc1 = arc(point(-1.0, 0.0), point(0.0, 1.0), point(0.0, 0.0), 1.0);
    let (_, count) = split_arcs(&arc0, &arc1);
    assert_eq!(count, 6);
}

#[test]
fn test_overlaping_lines() {
    let arc0 = arcseg(point(50.0, 50.0), point(150.0, 50.0));
    let arc1 = arcseg(point(100.0, 50.0), point(200.0, 50.0));
    let (_, count) = split_lines(&arc0, &arc1);
    assert_eq!(count, 3);
}

#[test]
fn test_cocircular_issue_91() {
    let arc0 = arc(
        point(29.177446878757827, 250.0),
        point(-65.145657857171898, 211.46278163768008),
        point(15.0, 150.0),
        101.0,
    );
    let arc1 = arc(
        point(0.82255312124217461, 250.0),
        point(29.177446878757827, 250.0),
        point(15.0, 150.0),
        101.0,
    );
    let (res, count) = split_arcs(&arc0, &arc1);
    assert!(res.len() <= count);
}

#[test]
fn test_split_segment_arc_issue_01() {
    let arc0 = arc(
        point(51.538461538461533, 246.30769230769232),
        point(-23.494939167562663, 105.0),
        point(100.0, 130.0),
        126.0,
    );
    let seg1 = arcseg(
        point(-25.599999999999994, -0.80000000000001137),
        point(-25.599999999999994, 150.80000000000001),
    );
    let (res, count) = split_seg_arc(&seg1, &arc0);
    assert!(res.len() <= count);
}
