use rbe26::balancer::next_upstream;

#[test]
fn upstreams_are_tried_in_turn() {
    assert_eq!(next_upstream(0, 0, 2), Some(0));
    assert_eq!(next_upstream(0, 1, 2), Some(1));
    assert_eq!(next_upstream(0, 2, 2), None);
    assert_eq!(next_upstream(5, 0, 3), Some(2));
    assert_eq!(next_upstream(5, 1, 3), Some(0));
    assert_eq!(next_upstream(5, 2, 3), Some(1));
    assert_eq!(next_upstream(5, 3, 3), None);
    assert_eq!(next_upstream(7, 0, 0), None);
}

#[test]
fn every_upstream_tried_once() {
    for start in 0..10usize {
        let mut seen: Vec<usize> = (0..4).filter_map(|a| next_upstream(start, a, 4)).collect();
        seen.sort();
        assert_eq!(seen, vec![0, 1, 2, 3]);
    }
}
