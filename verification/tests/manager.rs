use connectivity::connection_pool::ConnectionStatus;
use connectivity::manager::{
    ConnectionManagerEvent, ConnectivityConfig, ConnectivityManager, ConnectivityManagerActor,
    ConnectivityStatus, ManagerAction,
};
use connectivity::node_id::NodeId;
use connectivity::peer::{PeerConnection, PeerFeatures};
use connectivity::requester::{
    Cause, ConnectivityError, ConnectivityEvent, ConnectivityReply, ConnectivityRequest,
    ConnectivitySelection,
};
use std::time::Duration;

fn id(key: u128) -> NodeId {
    NodeId { key }
}

fn connection(key: u128) -> PeerConnection {
    PeerConnection {
        id: key as u64,
        peer_node_id: id(key),
        peer_features: PeerFeatures { node: true, client: false },
        connected: true,
        in_use: true,
    }
}

fn manager(min_desired_peers: usize) -> ConnectivityManagerActor {
    let config = ConnectivityConfig {
        min_desired_peers,
        connection_pool_refresh_interval: Duration::from_secs(30),
    };
    let mut actor = ConnectivityManager { config }.create();
    actor.start();
    actor
}

fn events(actor: &mut ConnectivityManagerActor) -> Vec<String> {
    actor.take_events().iter().map(|event| format!("{:?}", event)).collect()
}

fn shown(event: ConnectivityEvent) -> String {
    format!("{:?}", event)
}

/// Carries out every action with the same outcome, and returns the peers that were dialled and
/// what came of it all.
fn carry_out(
    actor: &mut ConnectivityManagerActor,
    first: ManagerAction,
    succeeded: bool,
) -> (Vec<u128>, Result<(), ConnectivityError>) {
    let outcome = if succeeded { Ok(()) } else { Err(Cause { id: 5 }) };
    let mut dialled = Vec::new();
    let mut action = first;
    loop {
        match action {
            ManagerAction::Done(result) => {
                assert!(actor.is_idle());
                return (dialled, result);
            }
            ManagerAction::DialPeer(node_id) => dialled.push(node_id.key),
            ManagerAction::Reply(reply) => panic!("{:?}", reply),
            _ => {}
        }
        assert!(!actor.is_idle());
        action = actor.resume(outcome);
    }
}

fn add_peers(actor: &mut ConnectivityManagerActor, keys: &[u128], succeeded: bool) -> Vec<u128> {
    let ids = keys.iter().map(|key| id(*key)).collect();
    let first = actor.handle_request(ConnectivityRequest::AddEligiblePeers(ids));
    let (dialled, result) = carry_out(actor, first, succeeded);
    assert_eq!(result, Ok(()));
    dialled
}

fn refresh(
    actor: &mut ConnectivityManagerActor,
    succeeded: bool,
) -> (Vec<u128>, Result<(), ConnectivityError>) {
    let first = actor.refresh_connection_pool();
    carry_out(actor, first, succeeded)
}

fn status_of(actor: &ConnectivityManagerActor, key: u128) -> ConnectionStatus {
    actor.pool().get_connection_status(&id(key))
}

#[test]
fn starting_publishes_that_the_manager_is_there() {
    let mut actor = manager(2);
    assert_eq!(actor.status(), ConnectivityStatus::Initializing);
    assert_eq!(events(&mut actor), vec![shown(ConnectivityEvent::ConnectivityStateInitialized)]);
    assert!(events(&mut actor).is_empty());
    assert_eq!(actor.config().min_desired_peers, 2);
    assert!(actor.eligible_peers().is_empty());
}

#[test]
fn without_desired_peers_the_node_is_online_at_once() {
    let mut actor = manager(0);
    assert_eq!(actor.status(), ConnectivityStatus::Online);
    assert_eq!(
        events(&mut actor),
        vec![
            shown(ConnectivityEvent::ConnectivityStateInitialized),
            shown(ConnectivityEvent::ConnectivityStateReady(0)),
        ]
    );
}

#[test]
fn statuses_have_names() {
    assert_eq!(ConnectivityStatus::Initializing.as_str(), "Initializing");
    assert_eq!(ConnectivityStatus::Online.as_str(), "Online");
    assert_eq!(ConnectivityStatus::Degraded.as_str(), "Degraded");
    assert_eq!(ConnectivityStatus::Offline.as_str(), "Offline");
}

#[test]
fn connectivity_goes_up_and_down() {
    let mut actor = manager(2);
    events(&mut actor);

    // A node that is initializing does not become degraded.
    actor.handle_connection_manager_event(&ConnectionManagerEvent::PeerConnected(connection(1)));
    assert_eq!(actor.status(), ConnectivityStatus::Initializing);
    assert_eq!(events(&mut actor), vec![shown(ConnectivityEvent::PeerConnected(connection(1)))]);

    actor.handle_connection_manager_event(&ConnectionManagerEvent::PeerConnected(connection(2)));
    assert_eq!(actor.status(), ConnectivityStatus::Online);
    assert_eq!(
        events(&mut actor),
        vec![
            shown(ConnectivityEvent::ConnectivityStateReady(2)),
            shown(ConnectivityEvent::PeerConnected(connection(2))),
        ]
    );

    actor.handle_connection_manager_event(&ConnectionManagerEvent::PeerDisconnected(id(1)));
    assert_eq!(actor.status(), ConnectivityStatus::Degraded);
    assert_eq!(
        events(&mut actor),
        vec![
            shown(ConnectivityEvent::PeerDisconnected(id(1))),
            shown(ConnectivityEvent::ConnectivityStateDegraded(1)),
        ]
    );

    // Without a failed peer, no connection at all leaves the status as it is.
    actor.handle_connection_manager_event(&ConnectionManagerEvent::PeerDisconnected(id(2)));
    assert_eq!(actor.status(), ConnectivityStatus::Degraded);
    assert_eq!(events(&mut actor), vec![shown(ConnectivityEvent::PeerDisconnected(id(2)))]);

    actor.handle_connection_manager_event(&ConnectionManagerEvent::PeerConnectFailed(id(2)));
    assert_eq!(actor.status(), ConnectivityStatus::Offline);
    assert_eq!(
        events(&mut actor),
        vec![
            shown(ConnectivityEvent::PeerConnectFailed(id(2))),
            shown(ConnectivityEvent::ConnectivityStateOffline),
        ]
    );

    actor.handle_connection_manager_event(&ConnectionManagerEvent::PeerConnected(connection(1)));
    assert_eq!(actor.status(), ConnectivityStatus::Degraded);
    assert_eq!(
        events(&mut actor),
        vec![
            shown(ConnectivityEvent::ConnectivityStateDegraded(1)),
            shown(ConnectivityEvent::PeerConnected(connection(1))),
        ]
    );
}

#[test]
fn eligible_peers_are_announced_as_such() {
    let mut actor = manager(1);
    add_peers(&mut actor, &[1, 2], true);
    events(&mut actor);
    actor.handle_connection_manager_event(&ConnectionManagerEvent::PeerConnectFailed(id(2)));
    assert_eq!(
        events(&mut actor)[0],
        shown(ConnectivityEvent::EligiblePeerConnectFailed(id(2)))
    );
    actor.handle_connection_manager_event(&ConnectionManagerEvent::PeerConnected(connection(1)));
    events(&mut actor);
    actor.handle_connection_manager_event(&ConnectionManagerEvent::PeerDisconnected(id(1)));
    assert_eq!(
        events(&mut actor)[0],
        shown(ConnectivityEvent::EligiblePeerDisconnected(id(1)))
    );
}

#[test]
fn peer_that_was_not_connected_is_not_announced_when_it_disconnects() {
    let mut actor = manager(1);
    events(&mut actor);
    actor.handle_connection_manager_event(&ConnectionManagerEvent::PeerDisconnected(id(5)));
    assert!(events(&mut actor).is_empty());
    assert_eq!(status_of(&actor, 5), ConnectionStatus::Disconnected);
}

#[test]
fn other_events_change_nothing() {
    let mut actor = manager(1);
    events(&mut actor);
    actor.handle_connection_manager_event(&ConnectionManagerEvent::Other);
    assert!(events(&mut actor).is_empty());
    assert!(actor.pool().all().is_empty());
}

#[test]
fn events_touch_one_peer_only() {
    let mut actor = manager(1);
    add_peers(&mut actor, &[1, 2], true);
    actor.handle_connection_manager_event(&ConnectionManagerEvent::PeerConnectFailed(id(1)));
    assert_eq!(status_of(&actor, 1), ConnectionStatus::Failed);
    assert_eq!(status_of(&actor, 2), ConnectionStatus::Connecting);
    assert_eq!(actor.eligible_peers().to_vec(), vec![id(1), id(2)]);
}

#[test]
fn eligible_peers_are_dialled_once() {
    let mut actor = manager(1);
    assert_eq!(add_peers(&mut actor, &[1, 2, 1], true), vec![1, 2]);
    assert_eq!(actor.eligible_peers().to_vec(), vec![id(1), id(2)]);
    assert_eq!(status_of(&actor, 1), ConnectionStatus::Connecting);
    assert_eq!(add_peers(&mut actor, &[2], true), Vec::<u128>::new());
}

#[test]
fn dial_that_fails_leaves_a_new_peer_connecting() {
    let mut actor = manager(1);
    assert_eq!(add_peers(&mut actor, &[1, 2], false), vec![1, 2]);
    assert_eq!(status_of(&actor, 1), ConnectionStatus::Connecting);
    assert_eq!(status_of(&actor, 2), ConnectionStatus::Connecting);
    assert_eq!(actor.eligible_peers().to_vec(), vec![id(1), id(2)]);
}

#[test]
fn retry_that_fails_is_left_to_the_refresh() {
    let mut actor = manager(1);
    actor.handle_connection_manager_event(&ConnectionManagerEvent::PeerConnectFailed(id(1)));
    assert_eq!(add_peers(&mut actor, &[1], false), vec![1]);
    assert!(!actor.pool().contains(&id(1)));
    assert_eq!(actor.eligible_peers().to_vec(), vec![id(1)]);
    assert_eq!(refresh(&mut actor, true), (vec![1], Ok(())));
    assert_eq!(status_of(&actor, 1), ConnectionStatus::Connecting);
}

#[test]
fn retry_is_noted_as_such() {
    let mut actor = manager(1);
    actor.handle_connection_manager_event(&ConnectionManagerEvent::PeerConnectFailed(id(1)));
    actor.handle_connection_manager_event(&ConnectionManagerEvent::PeerDisconnected(id(2)));
    assert_eq!(add_peers(&mut actor, &[1, 2], true), vec![1, 2]);
    assert_eq!(status_of(&actor, 1), ConnectionStatus::Retrying);
    assert_eq!(status_of(&actor, 2), ConnectionStatus::Connecting);
}

#[test]
fn refresh_dials_eligible_peers_and_forgets_others() {
    let mut actor = manager(1);
    add_peers(&mut actor, &[1, 2, 3, 4], true);
    actor.handle_connection_manager_event(&ConnectionManagerEvent::PeerConnectFailed(id(1)));
    actor.handle_connection_manager_event(&ConnectionManagerEvent::PeerDisconnected(id(2)));
    actor.handle_connection_manager_event(&ConnectionManagerEvent::PeerConnected(connection(3)));
    actor.handle_connection_manager_event(&ConnectionManagerEvent::PeerConnectFailed(id(8)));
    actor.handle_connection_manager_event(&ConnectionManagerEvent::PeerDisconnected(id(9)));
    actor.handle_connection_manager_event(&ConnectionManagerEvent::PeerConnected(connection(10)));
    events(&mut actor);
    let status = actor.status();

    assert_eq!(refresh(&mut actor, true), (vec![1, 2], Ok(())));
    assert_eq!(status_of(&actor, 1), ConnectionStatus::Retrying);
    assert_eq!(status_of(&actor, 2), ConnectionStatus::Retrying);
    assert_eq!(status_of(&actor, 3), ConnectionStatus::Connected);
    assert_eq!(status_of(&actor, 4), ConnectionStatus::Connecting);
    assert!(!actor.pool().contains(&id(8)) && !actor.pool().contains(&id(9)));
    assert!(actor.pool().contains(&id(10)));
    assert_eq!(actor.status(), status);
    assert!(events(&mut actor).is_empty());
}

#[test]
fn refresh_stops_at_a_dial_that_fails() {
    let mut actor = manager(1);
    add_peers(&mut actor, &[1, 2], true);
    actor.handle_connection_manager_event(&ConnectionManagerEvent::PeerConnectFailed(id(1)));
    actor.handle_connection_manager_event(&ConnectionManagerEvent::PeerConnectFailed(id(2)));
    actor.handle_connection_manager_event(&ConnectionManagerEvent::PeerConnectFailed(id(8)));
    assert_eq!(
        refresh(&mut actor, false),
        (vec![1], Err(ConnectivityError::ConnectionManagerError(Cause { id: 5 })))
    );
    assert_eq!(status_of(&actor, 2), ConnectionStatus::Failed);
    assert!(actor.pool().contains(&id(8)));
}

#[test]
fn refresh_closes_unused_connections() {
    let mut actor = manager(1);
    for key in 1..4 {
        let event = ConnectionManagerEvent::PeerConnected(connection(key));
        actor.handle_connection_manager_event(&event);
    }
    actor.record_liveness(&id(1), true, false);
    actor.record_liveness(&id(3), true, false);
    let mut closed = Vec::new();
    let mut action = actor.refresh_connection_pool();
    while let ManagerAction::Disconnect(conn) = action {
        closed.push(conn.peer_node_id.key);
        // Whether it could be closed does not matter.
        action = actor.resume(Err(Cause { id: 6 }));
    }
    closed.sort();
    assert_eq!(closed, vec![1, 3]);
    assert!(matches!(action, ManagerAction::Done(Ok(()))));
}

#[test]
fn banning_takes_a_peer_out() {
    let mut actor = manager(1);
    add_peers(&mut actor, &[1, 2], true);
    actor.handle_connection_manager_event(&ConnectionManagerEvent::PeerConnected(connection(1)));
    events(&mut actor);
    let duration = Duration::from_secs(7);
    let request = ConnectivityRequest::BanPeer(Box::new(id(1)), duration);
    match actor.handle_request(request) {
        ManagerAction::BanPeer(node_id, given) => {
            assert_eq!(node_id, id(1));
            assert_eq!(given, duration);
        }
        other => panic!("{:?}", other),
    }
    assert_eq!(actor.eligible_peers().to_vec(), vec![id(2)]);
    match actor.resume(Ok(())) {
        ManagerAction::DisconnectPeer(node_id) => assert_eq!(node_id, id(1)),
        other => panic!("{:?}", other),
    }
    assert_eq!(events(&mut actor), vec![shown(ConnectivityEvent::PeerBanned(id(1)))]);
    assert!(matches!(actor.resume(Ok(())), ManagerAction::Done(Ok(()))));
    assert_eq!(status_of(&actor, 1), ConnectionStatus::Disconnected);
}

#[test]
fn banning_a_stranger_ends_with_the_database() {
    let mut actor = manager(1);
    events(&mut actor);
    let request = ConnectivityRequest::BanPeer(Box::new(id(1)), Duration::from_secs(7));
    actor.handle_request(request);
    assert!(matches!(actor.resume(Ok(())), ManagerAction::Done(Ok(()))));
    assert_eq!(events(&mut actor), vec![shown(ConnectivityEvent::PeerBanned(id(1)))]);
    assert!(!actor.pool().contains(&id(1)));
}

#[test]
fn ban_that_the_database_refuses_is_not_published() {
    let mut actor = manager(1);
    add_peers(&mut actor, &[1], true);
    events(&mut actor);
    actor.handle_request(ConnectivityRequest::BanPeer(Box::new(id(1)), Duration::from_secs(7)));
    assert!(matches!(
        actor.resume(Err(Cause { id: 6 })),
        ManagerAction::Done(Err(ConnectivityError::PeerManagerError(Cause { id: 6 })))
    ));
    assert!(events(&mut actor).is_empty());
    assert!(actor.eligible_peers().is_empty());
    assert_eq!(status_of(&actor, 1), ConnectionStatus::Connecting);
}

#[test]
fn ban_whose_connection_cannot_be_closed_is_an_error() {
    let mut actor = manager(1);
    actor.handle_connection_manager_event(&ConnectionManagerEvent::PeerConnected(connection(1)));
    actor.handle_request(ConnectivityRequest::BanPeer(Box::new(id(1)), Duration::from_secs(7)));
    actor.resume(Ok(()));
    assert!(matches!(
        actor.resume(Err(Cause { id: 6 })),
        ManagerAction::Done(Err(ConnectivityError::ConnectionManagerError(Cause { id: 6 })))
    ));
    assert_eq!(status_of(&actor, 1), ConnectionStatus::Connected);
}

#[test]
fn only_open_connections_are_handed_out() {
    let mut actor = manager(1);
    actor.handle_connection_manager_event(&ConnectionManagerEvent::PeerConnected(connection(1)));
    let request = || ConnectivityRequest::GetConnection(Box::new(id(1)));
    match actor.handle_request(request()) {
        ManagerAction::Reply(ConnectivityReply::Connection(conn)) => {
            assert_eq!(conn, Some(connection(1)))
        }
        other => panic!("{:?}", other),
    }
    actor.record_liveness(&id(1), false, true);
    match actor.handle_request(request()) {
        ManagerAction::Reply(ConnectivityReply::Connection(conn)) => assert_eq!(conn, None),
        other => panic!("{:?}", other),
    }
    match actor.handle_request(ConnectivityRequest::GetConnection(Box::new(id(2)))) {
        ManagerAction::Reply(ConnectivityReply::Connection(conn)) => assert_eq!(conn, None),
        other => panic!("{:?}", other),
    }
}

#[test]
fn all_states_are_handed_out() {
    let mut actor = manager(1);
    add_peers(&mut actor, &[3, 4], true);
    match actor.handle_request(ConnectivityRequest::GetAll) {
        ManagerAction::Reply(ConnectivityReply::States(states)) => {
            let mut keys: Vec<u128> = states.iter().map(|state| state.node_id.key).collect();
            keys.sort();
            assert_eq!(keys, vec![3, 4]);
        }
        other => panic!("{:?}", other),
    }
}

#[test]
fn selections_are_answered() {
    let mut actor = manager(1);
    for key in 0..8 {
        let event = ConnectionManagerEvent::PeerConnected(connection(key));
        actor.handle_connection_manager_event(&event);
    }
    let closest = ConnectivitySelection::closest_to(id(5), 3);
    assert!(actor.can_select(&closest));
    match actor.handle_request(ConnectivityRequest::SelectConnections(closest)) {
        ManagerAction::Reply(ConnectivityReply::Connections(conns)) => {
            assert_eq!(conns, vec![connection(5), connection(4), connection(7)]);
        }
        other => panic!("{:?}", other),
    }
    let random = ConnectivitySelection::random_nodes(100, vec![id(0)]);
    assert!(actor.can_select(&random));
    let mut keys: Vec<u128> =
        actor.select_connections(&random).iter().map(|conn| conn.peer_node_id.key).collect();
    keys.sort();
    assert_eq!(keys, vec![1, 2, 3, 4, 5, 6, 7]);
}

#[test]
fn more_by_distance_than_there_are_cannot_be_selected() {
    let mut actor = manager(1);
    actor.handle_connection_manager_event(&ConnectionManagerEvent::PeerConnected(connection(1)));
    assert!(actor.can_select(&ConnectivitySelection::closest_to(id(0), 1)));
    assert!(!actor.can_select(&ConnectivitySelection::closest_to(id(0), 2)));
}

#[test]
fn banned_peer_is_not_dialled_by_a_refresh() {
    for succeeded in vec![true, false] {
        let mut actor = manager(1);
        add_peers(&mut actor, &[1, 2], true);
        actor.handle_connection_manager_event(&ConnectionManagerEvent::PeerConnectFailed(id(1)));
        actor.handle_connection_manager_event(&ConnectionManagerEvent::PeerConnectFailed(id(2)));
        let request = ConnectivityRequest::BanPeer(Box::new(id(1)), Duration::from_secs(7));
        let first = actor.handle_request(request);
        let _ = carry_out(&mut actor, first, succeeded);
        assert_eq!(refresh(&mut actor, true), (vec![2], Ok(())));
    }
}

#[test]
fn connectivity_status_is_published_once() {
    let mut actor = manager(1);
    events(&mut actor);
    let failed = ConnectionManagerEvent::PeerConnectFailed(id(1));
    actor.handle_connection_manager_event(&failed);
    actor.handle_connection_manager_event(&failed);
    assert_eq!(
        events(&mut actor),
        vec![
            shown(ConnectivityEvent::PeerConnectFailed(id(1))),
            shown(ConnectivityEvent::ConnectivityStateOffline),
            shown(ConnectivityEvent::PeerConnectFailed(id(1))),
        ]
    );
}

#[test]
fn initialized_node_never_initializes_again() {
    let mut actor = manager(1);
    actor.handle_connection_manager_event(&ConnectionManagerEvent::PeerConnected(connection(1)));
    assert_eq!(actor.status(), ConnectivityStatus::Online);
    for event in vec![
        ConnectionManagerEvent::PeerDisconnected(id(1)),
        ConnectionManagerEvent::Other,
        ConnectionManagerEvent::PeerConnectFailed(id(1)),
        ConnectionManagerEvent::PeerConnected(connection(1)),
    ] {
        actor.handle_connection_manager_event(&event);
        assert_ne!(actor.status(), ConnectivityStatus::Initializing);
    }
    actor.start();
    assert_eq!(actor.status(), ConnectivityStatus::Online);
}

#[test]
fn peers_are_added_in_order() {
    let mut actor = manager(1);
    add_peers(&mut actor, &[3], true);
    assert_eq!(add_peers(&mut actor, &[9, 3, 4, 9, 1], true), vec![9, 4, 1]);
    assert_eq!(actor.eligible_peers().to_vec(), vec![id(3), id(9), id(4), id(1)]);
}

#[test]
fn only_a_failed_retry_is_forgotten() {
    let mut actor = manager(1);
    actor.handle_connection_manager_event(&ConnectionManagerEvent::PeerConnectFailed(id(1)));
    actor.handle_connection_manager_event(&ConnectionManagerEvent::PeerConnectFailed(id(2)));
    let request = ConnectivityRequest::AddEligiblePeers(vec![id(1), id(2), id(3)]);
    assert!(matches!(actor.handle_request(request), ManagerAction::DialPeer(_)));
    assert!(matches!(actor.resume(Err(Cause { id: 0 })), ManagerAction::DialPeer(_)));
    assert!(matches!(actor.resume(Ok(())), ManagerAction::DialPeer(_)));
    assert!(matches!(actor.resume(Err(Cause { id: 1 })), ManagerAction::Done(Ok(()))));
    assert!(!actor.pool().contains(&id(1)));
    assert_eq!(status_of(&actor, 2), ConnectionStatus::Retrying);
    assert_eq!(status_of(&actor, 3), ConnectionStatus::Connecting);
}

#[test]
fn refresh_dials_in_order_up_to_the_first_failure() {
    let mut actor = manager(1);
    add_peers(&mut actor, &[4, 1, 3, 2], true);
    for key in vec![1, 2, 3, 4, 8] {
        let event = ConnectionManagerEvent::PeerConnectFailed(id(key));
        actor.handle_connection_manager_event(&event);
    }
    match actor.refresh_connection_pool() {
        ManagerAction::DialPeer(node_id) => assert_eq!(node_id, id(4)),
        other => panic!("{:?}", other),
    }
    match actor.resume(Ok(())) {
        ManagerAction::DialPeer(node_id) => assert_eq!(node_id, id(1)),
        other => panic!("{:?}", other),
    }
    match actor.resume(Err(Cause { id: 77 })) {
        ManagerAction::Done(result) => assert_eq!(
            result,
            Err(ConnectivityError::ConnectionManagerError(Cause { id: 77 }))
        ),
        other => panic!("{:?}", other),
    }
    assert_eq!(status_of(&actor, 4), ConnectionStatus::Retrying);
    assert_eq!(status_of(&actor, 1), ConnectionStatus::Retrying);
    assert_eq!(status_of(&actor, 3), ConnectionStatus::Failed);
    assert_eq!(status_of(&actor, 2), ConnectionStatus::Failed);
    assert!(actor.pool().contains(&id(8)));
    assert_eq!(refresh(&mut actor, true), (vec![3, 2], Ok(())));
    assert!(!actor.pool().contains(&id(8)));
}

#[test]
fn checking_the_status_again_changes_nothing() {
    let mut actor = manager(1);
    actor.handle_connection_manager_event(&ConnectionManagerEvent::PeerConnected(connection(1)));
    actor.record_liveness(&id(1), false, true);
    actor.handle_connection_manager_event(&ConnectionManagerEvent::PeerConnectFailed(id(2)));
    let status = actor.status();
    events(&mut actor);
    actor.check_connectivity_status();
    assert_eq!(actor.status(), status);
    assert_eq!(status, ConnectivityStatus::Offline);
    assert!(events(&mut actor).is_empty());
}
