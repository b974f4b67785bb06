use offroad::connect::{arc_connect_plan, Connection, ID_PADDING};
use offroad::split::Mark;

#[test]
fn connections_go_round_the_path() {
    let forward = vec![true, false, true];
    let ids = vec![0, 1, 2];
    let plan = arc_connect_plan(&forward, &ids);
    assert_eq!(
        plan,
        vec![
            Connection { first: 0, next: 1, from: Mark::B0, to: Mark::B1, id: ID_PADDING },
            Connection { first: 1, next: 2, from: Mark::A0, to: Mark::A1, id: ID_PADDING + 1 },
            Connection { first: 2, next: 0, from: Mark::B0, to: Mark::A1, id: ID_PADDING + 2 },
        ]
    );
}

#[test]
fn no_offsets_no_connections() {
    assert_eq!(arc_connect_plan(&vec![], &vec![]), vec![]);
}

#[test]
fn single_offset_connects_to_itself() {
    let plan = arc_connect_plan(&vec![false], &vec![7]);
    assert_eq!(plan, vec![Connection { first: 0, next: 0, from: Mark::A0, to: Mark::B1, id: 100_007 }]);
}
