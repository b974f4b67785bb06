use offroad::ids::{child_id, pack_id, root_id, unpack_id};

#[test]
fn pack_then_unpack() {
    let p = pack_id(7, 3);
    assert_eq!(p, (3usize << 32) | 7);
    assert_eq!(unpack_id(p), (7, 3));
}

#[test]
fn pack_keeps_only_low_bits_of_original() {
    let p = pack_id((5usize << 32) | 9, 1);
    assert_eq!(unpack_id(p), (9, 1));
}

#[test]
fn unpack_no_parent() {
    let p = pack_id(0, u32::MAX);
    assert_eq!(unpack_id(p), (0, u32::MAX));
    assert_eq!(root_id(p), 0);
}

#[test]
fn root_is_parent_when_set() {
    assert_eq!(root_id(pack_id(12, 4)), 4);
    assert_eq!(root_id(pack_id(12, u32::MAX)), 12);
}

#[test]
fn children_keep_root() {
    let original = pack_id(6, u32::MAX);
    let child = child_id(original);
    assert_eq!(unpack_id(child), (6, 6));
    let grandchild = child_id(child);
    assert_eq!(root_id(grandchild), 6);
    assert_eq!(unpack_id(grandchild), (6, 6));
}
