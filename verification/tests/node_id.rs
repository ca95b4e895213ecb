use connectivity::node_id::{
    contains_id, copy_ids, first_farther, sort_by_distance, NodeDistance, NodeId,
};

fn id(key: u128) -> NodeId {
    NodeId { key }
}

#[test]
fn distance_is_the_exclusive_or() {
    assert_eq!(id(0b1100).distance(&id(0b1010)), NodeDistance { value: 0b0110 });
    assert_eq!(id(7).distance(&id(7)), NodeDistance { value: 0 });
    assert_eq!(id(0).distance(&id(u128::MAX)), NodeDistance::max_distance());
}

#[test]
fn distance_is_symmetric() {
    for a in 0..16 {
        for b in 0..16 {
            assert_eq!(id(a).distance(&id(b)), id(b).distance(&id(a)));
        }
    }
}

#[test]
fn different_nodes_are_at_different_distances() {
    for a in 0..16 {
        for b in 0..16 {
            let same = id(a).distance(&id(5)) == id(b).distance(&id(5));
            assert_eq!(same, a == b);
        }
    }
}

#[test]
fn no_detour_is_shorter() {
    for a in 0..8 {
        for b in 0..8 {
            for via in 0..8 {
                let detour = id(a).distance(&id(via)).value + id(via).distance(&id(b)).value;
                assert!(id(a).distance(&id(b)).value <= detour);
            }
        }
    }
}

#[test]
fn closer_is_strict() {
    let near = NodeDistance { value: 1 };
    let far = NodeDistance { value: 2 };
    assert!(near.is_closer_than(&far));
    assert!(!far.is_closer_than(&near));
    assert!(!near.is_closer_than(&near));
    assert!(!NodeDistance::max_distance().is_closer_than(&NodeDistance::max_distance()));
}

#[test]
fn ids_are_found_and_copied() {
    let ids = vec![id(3), id(1), id(3)];
    assert!(contains_id(&ids, &id(1)));
    assert!(!contains_id(&ids, &id(2)));
    assert!(!contains_id(&[], &id(1)));
    assert_eq!(copy_ids(&ids), ids);
}

#[test]
fn sorting_puts_the_closest_first() {
    let sorted = sort_by_distance(vec![id(12), id(1), id(7), id(4)], &id(5));
    assert_eq!(sorted, vec![id(4), id(7), id(1), id(12)]);
}

#[test]
fn place_of_a_distance() {
    let ids = vec![id(1), id(4), id(9)];
    assert_eq!(first_farther(&ids, &id(0), &NodeDistance { value: 0 }), 0);
    assert_eq!(first_farther(&ids, &id(0), &NodeDistance { value: 4 }), 2);
    assert_eq!(first_farther(&ids, &id(0), &NodeDistance { value: 9 }), 3);
}
