use offroad::arc_string::ArcString;
use togo::prelude::{arc, arcseg, point};

#[test]
fn arc_string_test_new() {}

#[test]
fn arc_string_keeps_arcs_in_order() {
    let a0 = arcseg(point(0.0, 0.0), point(1.0, 0.0));
    let a1 = arc(point(1.0, 0.0), point(0.0, 1.0), point(0.0, 0.0), 1.0);
    let mut s = ArcString::new(vec![a0, a1]);
    assert_eq!(s.arcs().len(), 2);
    assert_eq!(s.arcs()[0], a0);
    assert_eq!(s.arcs()[1], a1);
    s.arcs_mut().reverse();
    assert_eq!(s.arcs()[0], a1);
    assert_eq!(s.arcs()[1], a0);
}
