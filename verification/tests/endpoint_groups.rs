use offroad::graph::endpoint_groups::{find_endpoint_groups, EndpointType};

#[test]
fn no_endpoints_no_groups() {
    assert!(find_endpoint_groups(&vec![]).is_empty());
}

#[test]
fn two_arcs_meeting() {
    // Arc 0 ends where arc 1 starts; every endpoint is near itself.
    let nearby = vec![vec![0], vec![1, 2], vec![2, 1], vec![3]];
    let groups = find_endpoint_groups(&nearby);
    assert_eq!(groups, vec![vec![(0, EndpointType::End), (1, EndpointType::Start)]]);
}

#[test]
fn singletons_are_left_out() {
    let nearby = vec![vec![0], vec![1], vec![2], vec![3]];
    assert!(find_endpoint_groups(&nearby).is_empty());
}

#[test]
fn chains_are_followed() {
    // 1 is near 2, 2 is near 4: one group of three, reached through 2.
    let nearby = vec![vec![0], vec![1, 2], vec![2, 1, 4], vec![3], vec![4, 2], vec![5]];
    let groups = find_endpoint_groups(&nearby);
    assert_eq!(
        groups,
        vec![vec![(0, EndpointType::End), (1, EndpointType::Start), (2, EndpointType::Start)]]
    );
}

#[test]
fn triangle_corners() {
    // Three arcs forming a triangle with slightly open corners.
    let nearby = vec![vec![0, 5], vec![1, 2], vec![2, 1], vec![3, 4], vec![4, 3], vec![5, 0]];
    let groups = find_endpoint_groups(&nearby);
    assert_eq!(groups.len(), 3);
    assert_eq!(groups[0], vec![(0, EndpointType::Start), (2, EndpointType::End)]);
    assert_eq!(groups[1], vec![(0, EndpointType::End), (1, EndpointType::Start)]);
    assert_eq!(groups[2], vec![(1, EndpointType::End), (2, EndpointType::Start)]);
}

#[test]
fn last_found_is_expanded_first() {
    // 0 is near 1 and 2; 2 is near 3: 3 is found through 2 before 1 is expanded.
    let nearby = vec![vec![0, 1, 2], vec![1, 0], vec![2, 0, 3], vec![3, 2]];
    let groups = find_endpoint_groups(&nearby);
    assert_eq!(
        groups,
        vec![vec![
            (0, EndpointType::Start),
            (0, EndpointType::End),
            (1, EndpointType::Start),
            (1, EndpointType::End)
        ]]
    );
}
