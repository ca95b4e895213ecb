use connectivity::dht::query::{judge, select_neighbours, PeerVerdict};
use connectivity::dht::stats::Stats;
use connectivity::dht::{
    DhtAction, DhtConfig, DhtConnectivity, DhtConnectivityError, DhtReply,
};
use connectivity::node_id::{NodeDistance, NodeId};
use connectivity::peer::{Peer, PeerConnection, PeerFeatures};
use connectivity::requester::{Cause, ConnectivityError, ConnectivityEvent};
use std::time::{Duration, Instant};

fn id(key: u128) -> NodeId {
    NodeId { key }
}

fn ids(keys: &[u128]) -> Vec<NodeId> {
    keys.iter().map(|key| id(*key)).collect()
}

fn config() -> DhtConfig {
    DhtConfig {
        num_neighbouring_nodes: 3,
        num_random_nodes: 1,
        auto_join: true,
        join_cooldown_interval: u128::MAX,
        broadcast_cooldown_max_attempts: 2,
        broadcast_cooldown_period: 100,
    }
}

fn peer(key: u128) -> Peer {
    Peer {
        node_id: id(key),
        features: PeerFeatures { node: true, client: false },
        banned: false,
        offline: false,
        failed_attempts: 0,
        since_last_failure: None,
    }
}

fn connection(key: u128, client: bool) -> PeerConnection {
    PeerConnection {
        id: key as u64,
        peer_node_id: id(key),
        peer_features: PeerFeatures { node: !client, client },
        connected: true,
        in_use: true,
    }
}

fn connected(key: u128) -> ConnectivityEvent {
    ConnectivityEvent::PeerConnected(connection(key, false))
}

/// A node at zero with the given pools.
fn started(config: DhtConfig, neighbours: &[u128], random: &[u128]) -> DhtConnectivity {
    let mut node = DhtConnectivity::new(config, id(0));
    assert!(matches!(node.initialize(), DhtAction::QueryPeers));
    let peers = neighbours.iter().map(|key| peer(*key)).collect();
    let action = node.resume(DhtReply::Peers(peers)).unwrap();
    match action {
        DhtAction::FetchRandomPeers(n, exclude) => {
            assert_eq!(n, config.num_random_nodes);
            assert_eq!(exclude, node.neighbours().to_vec());
        }
        other => panic!("{:?}", other),
    }
    let action = node.resume(DhtReply::RandomPeers(ids(random))).unwrap();
    match action {
        DhtAction::AddManagedPeers(peers) => assert_eq!(peers, node.get_managed_peers()),
        other => panic!("{:?}", other),
    }
    assert!(matches!(node.resume(DhtReply::Completed), Ok(DhtAction::Done)));
    assert!(node.is_idle());
    node
}

fn removed(action: DhtAction) -> NodeId {
    match action {
        DhtAction::RemovePeer(node_id) => node_id,
        other => panic!("{:?}", other),
    }
}

fn added(action: DhtAction) -> Vec<NodeId> {
    match action {
        DhtAction::AddManagedPeers(peers) => peers,
        other => panic!("{:?}", other),
    }
}

#[test]
fn new_node_manages_nothing() {
    let node = DhtConnectivity::new(config(), id(0));
    assert!(node.is_idle());
    assert!(node.get_managed_peers().is_empty());
    assert!(node.can_send_join());
}

#[test]
fn starting_takes_the_closest_peers() {
    let node = started(config(), &[9, 2, 12, 5, 7], &[100]);
    assert_eq!(node.neighbours().to_vec(), ids(&[2, 5, 7]));
    assert_eq!(node.random_pool().to_vec(), ids(&[100]));
    assert_eq!(node.get_managed_peers(), ids(&[2, 5, 7, 100]));
    assert!(node.is_managed(&id(5)) && node.is_managed(&id(100)) && !node.is_managed(&id(9)));
}

#[test]
fn neighbour_max_distance_is_that_of_the_farthest_if_there_is_no_room() {
    let node = started(config(), &[2, 5, 7], &[]);
    assert_eq!(node.get_neighbour_max_distance(), NodeDistance { value: 7 });
    let node = started(config(), &[2, 5], &[]);
    assert_eq!(node.get_neighbour_max_distance(), NodeDistance::max_distance());
}

#[test]
fn closer_peer_takes_the_place_of_the_farthest() {
    let mut node = started(config(), &[2, 5, 7], &[100]);
    let action = node.handle_connectivity_event(&connected(4));
    assert_eq!(removed(action), id(7));
    assert_eq!(node.neighbours().to_vec(), ids(&[2, 4, 5]));
    assert_eq!(node.random_pool().to_vec(), ids(&[100]));
    assert_eq!(added(node.resume(DhtReply::Completed).unwrap()), ids(&[4]));
    assert!(matches!(node.resume(DhtReply::Completed), Ok(DhtAction::Done)));
}

#[test]
fn evicted_neighbour_becomes_a_random_node_if_there_is_room() {
    let mut node = started(config(), &[2, 5, 7], &[]);
    assert_eq!(added(node.handle_connectivity_event(&connected(1))), ids(&[1]));
    assert_eq!(node.neighbours().to_vec(), ids(&[1, 2, 5]));
    assert_eq!(node.random_pool().to_vec(), ids(&[7]));
}

#[test]
fn peer_is_a_neighbour_while_there_is_room() {
    let mut node = started(config(), &[2, 5], &[]);
    assert_eq!(added(node.handle_connectivity_event(&connected(50))), ids(&[50]));
    assert_eq!(node.neighbours().to_vec(), ids(&[2, 5, 50]));
}

#[test]
fn peer_at_the_largest_distance_is_never_a_neighbour() {
    let mut node = started(config(), &[2], &[]);
    let action = node.handle_connectivity_event(&connected(u128::MAX));
    assert!(matches!(action, DhtAction::Done));
    assert_eq!(node.neighbours().to_vec(), ids(&[2]));
}

#[test]
fn farther_peers_clients_and_managed_peers_change_nothing() {
    let mut node = started(config(), &[2, 5, 7], &[100]);
    for event in vec![
        connected(8),
        connected(5),
        connected(100),
        ConnectivityEvent::PeerConnected(connection(1, true)),
    ] {
        assert!(matches!(node.handle_connectivity_event(&event), DhtAction::Done));
        assert!(node.is_idle());
        assert_eq!(node.get_managed_peers(), ids(&[2, 5, 7, 100]));
    }
}

#[test]
fn without_room_for_neighbours_a_stranger_cannot_be_judged() {
    let mut config = config();
    config.num_neighbouring_nodes = 0;
    let node = started(config, &[], &[100]);
    assert!(!node.can_handle(&connected(1)));
    assert!(node.can_handle(&connected(100)));
    assert!(node.can_handle(&ConnectivityEvent::PeerConnected(connection(1, true))));
    assert!(node.can_handle(&ConnectivityEvent::PeerOffline(id(1))));
}

#[test]
fn random_node_that_goes_offline_is_replaced() {
    let mut node = started(config(), &[2, 5, 7], &[100]);
    match node.handle_connectivity_event(&ConnectivityEvent::PeerOffline(id(100))) {
        DhtAction::FetchRandomPeers(n, exclude) => {
            assert_eq!(n, 1);
            assert_eq!(exclude, ids(&[2, 5, 7, 100]));
        }
        other => panic!("{:?}", other),
    }
    assert!(node.accepts(&DhtReply::RandomPeers(Vec::new())));
    assert!(!node.accepts(&DhtReply::Peers(Vec::new())));
    assert_eq!(removed(node.resume(DhtReply::RandomPeers(ids(&[101]))).unwrap()), id(100));
    assert_eq!(node.random_pool().to_vec(), ids(&[100, 101]));
    assert!(matches!(node.resume(DhtReply::Completed), Ok(DhtAction::Done)));
}

#[test]
fn random_node_may_find_no_replacement() {
    let mut node = started(config(), &[2], &[100]);
    node.handle_connectivity_event(&ConnectivityEvent::PeerBanned(id(100)));
    assert_eq!(removed(node.resume(DhtReply::RandomPeers(Vec::new())).unwrap()), id(100));
    assert_eq!(node.random_pool().to_vec(), ids(&[100]));
}

#[test]
fn neighbour_that_goes_offline_is_replaced_by_the_closest_known_peer() {
    let mut node = started(config(), &[2, 5, 7], &[100]);
    let action = node.handle_connectivity_event(&ConnectivityEvent::PeerOffline(id(5)));
    assert!(matches!(action, DhtAction::QueryPeers));
    let known = vec![peer(2), peer(5), peer(20), peer(9), peer(100)];
    assert_eq!(removed(node.resume(DhtReply::Peers(known)).unwrap()), id(5));
    assert_eq!(node.neighbours().to_vec(), ids(&[2, 5, 7]));
    assert_eq!(node.random_pool().to_vec(), ids(&[100, 9]));
    assert!(matches!(node.resume(DhtReply::Completed), Ok(DhtAction::Done)));
}

#[test]
fn peer_in_both_pools_is_replaced_in_both() {
    let mut node = started(config(), &[2, 5], &[5]);
    let action = node.handle_connectivity_event(&ConnectivityEvent::PeerOffline(id(5)));
    assert!(matches!(action, DhtAction::FetchRandomPeers(1, _)));
    let action = node.resume(DhtReply::RandomPeers(ids(&[30]))).unwrap();
    assert!(matches!(action, DhtAction::QueryPeers));
    assert_eq!(removed(node.resume(DhtReply::Peers(vec![peer(30), peer(31)])).unwrap()), id(5));
    assert_eq!(node.random_pool().to_vec(), ids(&[5, 30, 31]));
}

#[test]
fn stranger_that_goes_offline_is_of_no_concern() {
    let mut node = started(config(), &[2, 5, 7], &[100]);
    let action = node.handle_connectivity_event(&ConnectivityEvent::PeerOffline(id(42)));
    assert!(matches!(action, DhtAction::Done));
    assert_eq!(node.get_managed_peers(), ids(&[2, 5, 7, 100]));
}

#[test]
fn join_is_sent_once_within_the_interval() {
    let mut node = started(config(), &[2], &[]);
    let online = ConnectivityEvent::ConnectivityStateOnline(3);
    assert!(matches!(node.handle_connectivity_event(&online), DhtAction::SendJoin));
    assert!(matches!(node.resume(DhtReply::Completed), Ok(DhtAction::Done)));
    assert!(!node.can_send_join());
    assert!(matches!(node.handle_connectivity_event(&online), DhtAction::Done));
    assert!(!node.join_allowed(u128::MAX));
}

#[test]
fn join_is_sent_again_after_the_interval() {
    let mut config = config();
    config.join_cooldown_interval = 10;
    let mut node = started(config, &[2], &[]);
    assert!(node.join_allowed(0));
    let degraded = ConnectivityEvent::ConnectivityStateDegraded(2);
    assert!(matches!(node.handle_event(&degraded, true), DhtAction::SendJoin));
    node.resume(DhtReply::Completed).unwrap();
    assert!(!node.join_allowed(10));
    assert!(node.join_allowed(11));
    while !node.can_send_join() {}
    assert!(matches!(node.handle_connectivity_event(&degraded), DhtAction::SendJoin));
}

#[test]
fn join_with_a_single_peer_or_none_does_not_count() {
    for n in vec![0, 1] {
        for event in vec![
            ConnectivityEvent::ConnectivityStateDegraded(n),
            ConnectivityEvent::ConnectivityStateOnline(n),
        ] {
            let mut node = started(config(), &[2], &[]);
            assert!(matches!(node.handle_connectivity_event(&event), DhtAction::SendJoin));
            assert!(matches!(node.resume(DhtReply::Completed), Ok(DhtAction::Done)));
            assert!(node.can_send_join() && node.join_allowed(0));
            assert!(matches!(node.handle_connectivity_event(&event), DhtAction::SendJoin));
        }
    }
}

#[test]
fn cooldown_starts_again_with_every_join() {
    let mut config = config();
    config.join_cooldown_interval = 3_600_000_000_000;
    let mut node = started(config, &[2], &[]);
    let online = ConnectivityEvent::ConnectivityStateOnline(2);
    let long_ago = Instant::now().checked_sub(Duration::from_secs(7200));
    if let Some(long_ago) = long_ago {
        assert!(matches!(node.handle_connectivity_event(&online), DhtAction::SendJoin));
        assert!(matches!(node.resume_at(DhtReply::Completed, long_ago), Ok(DhtAction::Done)));
        assert!(node.can_send_join());
    }
    assert!(matches!(node.handle_connectivity_event(&online), DhtAction::SendJoin));
    assert!(matches!(node.resume(DhtReply::Completed), Ok(DhtAction::Done)));
    assert!(!node.can_send_join());
    let _ = node.handle_connectivity_event(&ConnectivityEvent::PeerOffline(id(2)));
    node.resume(DhtReply::PeerManagerFailed(Cause { id: 7 })).unwrap_err();
    assert!(!node.can_send_join());
    assert!(matches!(node.handle_connectivity_event(&online), DhtAction::Done));
}

#[test]
fn join_is_not_sent_unless_wanted() {
    let mut config = config();
    config.auto_join = false;
    let mut node = started(config, &[2], &[]);
    let online = ConnectivityEvent::ConnectivityStateOnline(3);
    assert!(matches!(node.handle_connectivity_event(&online), DhtAction::Done));
    let offline = ConnectivityEvent::ConnectivityStateOffline;
    assert!(matches!(node.handle_connectivity_event(&offline), DhtAction::Done));
}

#[test]
fn failures_end_what_the_node_was_doing() {
    let mut node = DhtConnectivity::new(config(), id(0));
    node.initialize();
    assert!(node.accepts(&DhtReply::PeerManagerFailed(Cause { id: 7 })));
    assert_eq!(
        node.resume(DhtReply::PeerManagerFailed(Cause { id: 7 })).unwrap_err(),
        DhtConnectivityError::PeerManagerError(Cause { id: 7 })
    );
    assert!(node.is_idle());

    let mut node = started(config(), &[2, 5, 7], &[100]);
    node.handle_connectivity_event(&connected(4));
    assert!(node.accepts(&DhtReply::ConnectivityFailed(ConnectivityError::ActorDisconnected)));
    assert_eq!(
        node.resume(DhtReply::ConnectivityFailed(ConnectivityError::ActorDisconnected))
            .unwrap_err(),
        DhtConnectivityError::ConnectivityError(ConnectivityError::ActorDisconnected)
    );
    assert!(node.is_idle());
    assert_eq!(node.get_managed_peers(), ids(&[2, 4, 5, 100]));

    node.handle_connectivity_event(&ConnectivityEvent::ConnectivityStateOnline(3));
    assert!(node.accepts(&DhtReply::JoinFailed(Cause { id: 8 })) && node.accepts(&DhtReply::Completed));
    assert_eq!(
        node.resume(DhtReply::JoinFailed(Cause { id: 8 })).unwrap_err(),
        DhtConnectivityError::SendJoinFailed(Cause { id: 8 })
    );
    assert!(node.is_idle() && node.can_send_join());
    assert!(!node.accepts(&DhtReply::Completed));
}

#[test]
fn peers_are_judged_by_the_first_reason_against_them() {
    let config = config();
    let fine = peer(1);
    assert_eq!(judge(&fine, &config, &[]), PeerVerdict::Eligible);
    assert_eq!(judge(&fine, &config, &[id(1)]), PeerVerdict::Excluded);
    let mut other = fine;
    other.failed_attempts = 3;
    other.since_last_failure = Some(99);
    assert_eq!(judge(&other, &config, &[id(1)]), PeerVerdict::NotConnectable);
    other.since_last_failure = Some(100);
    assert_eq!(judge(&other, &config, &[]), PeerVerdict::Eligible);
    other.since_last_failure = None;
    assert_eq!(judge(&other, &config, &[]), PeerVerdict::Eligible);
    other.failed_attempts = 2;
    other.since_last_failure = Some(0);
    assert_eq!(judge(&other, &config, &[]), PeerVerdict::Eligible);
    other.offline = true;
    assert_eq!(judge(&other, &config, &[]), PeerVerdict::NotConnectable);
    other.features = PeerFeatures { node: false, client: true };
    assert_eq!(judge(&other, &config, &[]), PeerVerdict::NotCommunicationNode);
    other.banned = true;
    assert_eq!(judge(&other, &config, &[]), PeerVerdict::Banned);
}

#[test]
fn query_counts_what_it_leaves_out() {
    let mut banned = peer(1);
    banned.banned = true;
    let mut client = peer(2);
    client.features = PeerFeatures { node: false, client: true };
    let mut offline = peer(3);
    offline.offline = true;
    let peers = vec![banned, peer(9), client, offline, peer(4), peer(6), peer(5)];
    let query = select_neighbours(&peers, &config(), &id(0), 2, &[id(4)]);
    assert_eq!(query.selected, ids(&[5, 6]));
    assert_eq!(query.banned, 1);
    assert_eq!(query.filtered_out, 1);
    assert_eq!(query.not_connectable, 1);
    assert_eq!(query.excluded, 1);
    assert_eq!(query.total_excluded(), 4);

    let node = DhtConnectivity::new(config(), id(6));
    let query = node.fetch_neighbouring_peers(&peers, 10, &[]);
    assert_eq!(query.selected, ids(&[6, 4, 5, 9]));
    assert_eq!(query.total_excluded(), 3);
}

#[test]
fn pools_hold_no_peer_twice() {
    let mut node = started(config(), &[2, 5, 7], &[100]);
    for key in vec![4, 1, 4, 7, 3, 100, 2, 6] {
        let mut action = node.handle_connectivity_event(&connected(key));
        while !matches!(action, DhtAction::Done) {
            action = node.resume(DhtReply::Completed).unwrap();
        }
        let mut keys: Vec<u128> = node.get_managed_peers().iter().map(|n| n.key).collect();
        keys.sort();
        keys.dedup();
        assert_eq!(keys.len(), node.get_managed_peers().len());
        assert!(node.neighbours().len() <= 3 && node.random_pool().len() <= 1);
    }
    assert_eq!(node.neighbours().to_vec(), ids(&[1, 2, 3]));
}

#[test]
fn stats_note_when_a_join_was_sent() {
    let mut stats = Stats::new();
    assert_eq!(stats.join_last_sent_at(), None);
    let before = Instant::now();
    stats.mark_join_sent();
    let at = stats.join_last_sent_at().unwrap();
    assert!(before <= at && at <= Instant::now());
    stats.mark_join_sent_at(before);
    assert_eq!(stats.join_last_sent_at(), Some(before));
    assert_eq!(Stats::default().join_last_sent_at(), None);
}

#[test]
fn replacement_that_cannot_be_sought_leaves_the_pools() {
    for key in vec![5, 100] {
        let mut node = started(config(), &[2, 5, 7], &[100]);
        let _ = node.handle_connectivity_event(&ConnectivityEvent::PeerOffline(id(key)));
        assert_eq!(
            node.resume(DhtReply::PeerManagerFailed(Cause { id: 3 })).unwrap_err(),
            DhtConnectivityError::PeerManagerError(Cause { id: 3 })
        );
        assert!(node.is_idle());
        assert_eq!(node.get_managed_peers(), ids(&[2, 5, 7, 100]));
    }
}

#[test]
fn neighbour_is_put_in_its_place() {
    let mut node = started(config(), &[2, 7], &[]);
    assert_eq!(node.insert_neighbour(id(4)), None);
    assert_eq!(node.neighbours().to_vec(), ids(&[2, 4, 7]));
    assert_eq!(node.insert_neighbour(id(3)), Some(id(7)));
    assert_eq!(node.neighbours().to_vec(), ids(&[2, 3, 4]));
    assert_eq!(node.insert_neighbour(id(9)), Some(id(4)));
    assert_eq!(node.neighbours().to_vec(), ids(&[2, 3, 9]));
    assert!(node.random_pool().is_empty() && node.is_idle());
}
