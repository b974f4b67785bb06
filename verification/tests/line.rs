use offroad::line::Line;
use togo::prelude::point;

#[test]
fn line_test_new() {
    let l0 = Line::new(point(1.0, 2.0), point(3.0, 4.0));
    let l1 = offroad::line::line(point(1.0, 2.0), point(3.0, 4.0));
    assert_eq!(l0, l1);
}

#[test]
fn line_test_display() {
    let s0 = Line::new(point(1.0, 2.0), point(3.0, 4.0));
    assert_eq!("[[1.00000000000000000000, 2.00000000000000000000], [3.00000000000000000000, 4.00000000000000000000]]", s0.to_string());
}

#[test]
fn line_fields_are_kept() {
    let l0 = offroad::line::line(point(-1.5, 0.25), point(0.0, 1.0));
    assert_eq!(l0.origin, point(-1.5, 0.25));
    assert_eq!(l0.dir, point(0.0, 1.0));
}
