use connectivity::node_id::NodeId;
use connectivity::requester::{
    request_answered, request_delivered, ConnectivityError, ConnectivitySelection,
};

#[test]
fn selections_hold_what_was_asked_for() {
    let exclude = vec![NodeId { key: 4 }];
    match ConnectivitySelection::random_nodes(3, exclude.clone()) {
        ConnectivitySelection::RandomNodes(n, ids) => {
            assert_eq!(n, 3);
            assert_eq!(ids, exclude);
        }
        other => panic!("{:?}", other),
    }
    match ConnectivitySelection::closest_to(NodeId { key: 9 }, 2) {
        ConnectivitySelection::ClosestTo(node_id, n) => {
            assert_eq!(*node_id, NodeId { key: 9 });
            assert_eq!(n, 2);
        }
        other => panic!("{:?}", other),
    }
}

#[test]
fn a_request_that_is_not_delivered_is_an_error() {
    assert_eq!(request_delivered(true), Ok(()));
    assert_eq!(request_delivered(false), Err(ConnectivityError::ActorDisconnected));
}

#[test]
fn a_request_that_is_not_answered_is_an_error() {
    assert_eq!(request_answered(Some(7)), Ok(7));
    assert_eq!(
        request_answered::<u8>(None),
        Err(ConnectivityError::ActorResponseCancelled)
    );
}
