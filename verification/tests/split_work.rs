use offroad::ids::pack_id;
use offroad::split_work::{Part, SplitWork, Step};

fn part(handle: usize, id: usize) -> Part {
    Part { handle, id }
}

fn handles(parts: &[Part]) -> Vec<usize> {
    parts.iter().map(|p| p.handle).collect()
}

#[test]
fn no_parts_nothing_to_do() {
    let (work, step) = SplitWork::new(vec![]);
    assert_eq!(step, Step::Finished);
    assert!(work.done.is_empty());
}

#[test]
fn a_single_part_is_finished_at_once() {
    let (work, step) = SplitWork::new(vec![part(0, pack_id(0, u32::MAX))]);
    assert_eq!(step, Step::Finished);
    assert_eq!(work.done, vec![0]);
    assert!(work.parts.is_empty());
}

#[test]
fn part_overlapping_nothing_is_finished_and_one_without_children_is_let_go() {
    let id = pack_id(0, u32::MAX);
    let (mut work, step) = SplitWork::new(vec![part(0, id), part(1, id), part(2, id)]);
    assert_eq!(step, Step::Query(2));
    // the first overlapping part, 0, has no pieces on the list: part 2 is let go
    let step = work.on_candidate(Some(0));
    assert_eq!(step, Step::Query(1));
    let step = work.on_candidate(None);
    assert_eq!(step, Step::Finished);
    assert_eq!(work.done, vec![1, 0]);
}

#[test]
fn children_are_tried_in_list_order_and_pieces_go_back_on_the_list() {
    let a = part(0, pack_id(5, 3));
    let b = part(1, pack_id(6, 3));
    let c = part(2, pack_id(7, u32::MAX));
    let d = part(3, pack_id(0, u32::MAX));
    let (mut work, step) = SplitWork::new(vec![a, b, c, d]);
    assert_eq!(step, Step::Query(3));
    // a and b were cut from part 3: they are taken off (b first, by swapping in the last part)
    let step = work.on_candidate(Some(3));
    assert_eq!(step, Step::Split(3, 0));
    assert_eq!(handles(&work.parts), vec![2]);
    assert_eq!(handles(&work.pending), vec![0, 1]);
    // no crossing with a: a goes back, b is tried
    let step = work.on_split(vec![]);
    assert_eq!(step, Step::Split(3, 1));
    assert_eq!(handles(&work.parts), vec![2, 0]);
    // crossing with b: the pieces go on the list and the top one is taken
    let e = part(4, pack_id(6, 3));
    let f = part(5, pack_id(0, 0));
    let step = work.on_split(vec![e, f]);
    assert_eq!(step, Step::Query(5));
    assert_eq!(handles(&work.parts), vec![2, 0, 4]);
    let step = work.on_candidate(None);
    assert_eq!(step, Step::Query(4));
    let step = work.on_candidate(Some(9));
    assert_eq!(step, Step::Query(0));
    let step = work.on_candidate(None);
    assert_eq!(step, Step::Finished);
    assert_eq!(work.done, vec![5, 0, 2]);
}

#[test]
fn a_part_that_crosses_none_of_the_children_is_finished() {
    let a = part(0, pack_id(1, 4));
    let b = part(1, pack_id(2, u32::MAX));
    let c = part(2, pack_id(3, u32::MAX));
    let (mut work, step) = SplitWork::new(vec![a, b, c]);
    assert_eq!(step, Step::Query(2));
    assert_eq!(work.on_candidate(Some(4)), Step::Split(2, 0));
    // after the last child, part 2 is finished and the next part is taken
    assert_eq!(work.on_split(vec![]), Step::Query(0));
    assert_eq!(work.done, vec![2]);
    assert_eq!(handles(&work.parts), vec![1]);
}
