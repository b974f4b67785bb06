use offroad::configs::{ArcArcConfig, SegmentArcConfig, SegmentSegmentConfig};
use offroad::ids::{child_id, pack_id};
use offroad::split::{split_arc_arc, split_line_line, split_segment_arc, Mark, Piece, Side};
use togo::prelude::{arc, point};

fn pc(from: Mark, to: Mark, along: Side, id: usize) -> Piece {
    Piece { from, to, along, id }
}

#[test]
fn line_line_crossing_cuts_four_pieces_from_the_crossing() {
    let p = point(1.0, 1.0);
    // arcs not cut from anything carry `u32::MAX` as parent
    let id0 = pack_id(3, u32::MAX);
    let id1 = pack_id(8, u32::MAX);
    let (pieces, n) = split_line_line(&SegmentSegmentConfig::OnePoint(p, 0.5, 0.5), id0, id1);
    let c0 = (3usize << 32) | 3;
    let c1 = (8usize << 32) | 8;
    assert_eq!(n, 4);
    assert_eq!(
        pieces,
        vec![
            pc(Mark::P0, Mark::A0, Side::First, c0),
            pc(Mark::P0, Mark::B0, Side::First, c0),
            pc(Mark::P0, Mark::A1, Side::Second, c1),
            pc(Mark::P0, Mark::B1, Side::Second, c1),
        ]
    );
}

#[test]
fn line_line_overlap_cuts_three_pieces() {
    let p = point(0.0, 0.0);
    let (pieces, n) = split_line_line::<f64>(&SegmentSegmentConfig::TwoPoints(p, p, p, p), 1, 2);
    assert_eq!(n, 3);
    assert_eq!(pieces[0], pc(Mark::P0, Mark::P1, Side::First, child_id(1)));
    assert_eq!(pieces[1], pc(Mark::P1, Mark::P2, Side::First, child_id(1)));
    assert_eq!(pieces[2], pc(Mark::P2, Mark::P3, Side::Second, child_id(2)));
}

#[test]
fn touching_segments_are_not_cut() {
    let p = point(0.0, 0.0);
    assert_eq!(split_line_line::<f64>(&SegmentSegmentConfig::NoIntersection(), 1, 2), (vec![], 0));
    assert_eq!(split_line_line(&SegmentSegmentConfig::OnePointTouching(p, 0.0, 1.0), 1, 2), (vec![], 0));
    assert_eq!(split_line_line::<f64>(&SegmentSegmentConfig::TwoPointsTouching(p, p, p, p), 1, 2), (vec![], 0));
}

#[test]
fn pieces_of_cut_pieces_keep_the_root() {
    // an arc already cut from arc 5 (parent 5) is cut again: its pieces keep parent 5
    let cut = pack_id(12, 5);
    let p = point(1.0, 1.0);
    let (pieces, _) = split_line_line(&SegmentSegmentConfig::OnePoint(p, 0.5, 0.5), cut, 4);
    assert_eq!(pieces[0].id, pack_id(cut, 5));
    // a plain identifier 4 has parent 0
    assert_eq!(pieces[2].id, 4);
}

#[test]
fn arc_arc_crossing_at_two_points_orders_them_along_each_arc() {
    let p = point(0.0, 0.0);
    let cfg = ArcArcConfig::NonCocircularTwoPoints(p, p);
    let c0 = child_id(10);
    let c1 = child_id(20);
    // listed order runs with the first arc, against the second
    let (pieces, n) = split_arc_arc(&cfg, 10, 20, false, true);
    assert_eq!(n, 6);
    assert_eq!(
        pieces,
        vec![
            pc(Mark::A0, Mark::P0, Side::First, c0),
            pc(Mark::P0, Mark::P1, Side::First, c0),
            pc(Mark::P1, Mark::B0, Side::First, c0),
            pc(Mark::A1, Mark::P1, Side::Second, c1),
            pc(Mark::P1, Mark::P0, Side::Second, c1),
            pc(Mark::P0, Mark::B1, Side::Second, c1),
        ]
    );
    // reversed along the first arc, and the second test is on the reversed pair
    let (pieces, _) = split_arc_arc(&cfg, 10, 20, true, true);
    assert_eq!(pieces[0], pc(Mark::A0, Mark::P1, Side::First, c0));
    assert_eq!(pieces[3], pc(Mark::A1, Mark::P0, Side::Second, c1));
    assert_eq!(pieces[5], pc(Mark::P1, Mark::B1, Side::Second, c1));
}

#[test]
fn arc_arc_cocircular_cases() {
    let a = arc(point(1.0, 0.0), point(0.0, 1.0), point(0.0, 0.0), 1.0);
    let p = point(1.0, 0.0);
    let c0 = child_id(1);
    let c1 = child_id(2);
    let (pieces, n) = split_arc_arc(&ArcArcConfig::CocircularOneArc1(a), 1, 2, false, false);
    assert_eq!(n, 3);
    assert_eq!(
        pieces,
        vec![
            pc(Mark::A1, Mark::A0, Side::First, c1),
            pc(Mark::A0, Mark::B0, Side::First, c0),
            pc(Mark::B0, Mark::B1, Side::First, c1),
        ]
    );
    let (pieces, n) = split_arc_arc(&ArcArcConfig::CocircularOnePointOneArc0(p, a), 1, 2, false, false);
    assert_eq!(n, 3);
    assert_eq!(pieces[1], pc(Mark::B1, Mark::B0, Side::First, c1));
    let (pieces, n) = split_arc_arc(&ArcArcConfig::CocircularTwoArcs(a, a), 1, 2, false, false);
    assert_eq!(n, 2);
    assert_eq!(pieces, vec![pc(Mark::A0, Mark::B1, Side::First, 1), pc(Mark::A1, Mark::B0, Side::First, 2)]);
    let (pieces, n) = split_arc_arc(&ArcArcConfig::CocircularOneArc0(a), 1, 2, false, false);
    assert_eq!((pieces, n), (vec![pc(Mark::A0, Mark::B0, Side::First, c0)], 1));
}

#[test]
fn arcs_that_only_touch_are_not_cut() {
    let p = point(1.0, 0.0);
    for cfg in [
        ArcArcConfig::NoIntersection(),
        ArcArcConfig::NonCocircularOnePointTouching(p),
        ArcArcConfig::NonCocircularTwoPointsTouching(p, p),
        ArcArcConfig::CocircularOnePoint0(p),
        ArcArcConfig::CocircularOnePoint1(p),
        ArcArcConfig::CocircularTwoPoints(p, p),
    ] {
        assert_eq!(split_arc_arc(&cfg, 1, 2, false, false), (vec![], 0));
    }
}

#[test]
fn segment_arc_two_points_follow_the_segment_then_the_arc() {
    let p = point(0.0, 0.0);
    let c0 = child_id(7);
    let c1 = child_id(9);
    let (pieces, n) = split_segment_arc(&SegmentArcConfig::TwoPoints(p, p, 0.25, 0.75), 7, 9, true);
    assert_eq!(n, 6);
    assert_eq!(
        pieces,
        vec![
            pc(Mark::A0, Mark::P0, Side::First, c0),
            pc(Mark::P0, Mark::P1, Side::First, c0),
            pc(Mark::P1, Mark::B0, Side::First, c0),
            pc(Mark::A1, Mark::P1, Side::Second, c1),
            pc(Mark::P1, Mark::P0, Side::Second, c1),
            pc(Mark::P0, Mark::B1, Side::Second, c1),
        ]
    );
    let (pieces, n) = split_segment_arc(&SegmentArcConfig::OnePoint(p, 0.5), 7, 9, false);
    assert_eq!(n, 4);
    assert_eq!(pieces[2], pc(Mark::A1, Mark::P0, Side::Second, c1));
    assert_eq!(split_segment_arc(&SegmentArcConfig::OnePointTouching(p, 0.0), 7, 9, false), (vec![], 0));
}

#[test]
fn raw_offsets_are_not_split_before_connection() {
    let raws = vec![1u8, 2, 3];
    assert!(offroad::split::offset_split_raw(&raws).is_empty());
    assert!(offroad::split::offset_split_raw::<u8>(&vec![]).is_empty());
}
