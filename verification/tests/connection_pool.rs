use connectivity::connection_pool::{ConnectionPool, ConnectionStatus};
use connectivity::node_id::NodeId;
use connectivity::peer::{PeerConnection, PeerFeatures};

fn id(key: u128) -> NodeId {
    NodeId { key }
}

fn connection(key: u128, connected: bool, in_use: bool) -> PeerConnection {
    PeerConnection {
        id: key as u64,
        peer_node_id: id(key),
        peer_features: PeerFeatures { node: true, client: false },
        connected,
        in_use,
    }
}

#[test]
fn new_pool_is_empty() {
    let pool = ConnectionPool::new();
    assert_eq!(pool.count_connected(), 0);
    assert_eq!(pool.count_failed(), 0);
    assert!(pool.all().is_empty());
    assert!(!pool.contains(&id(1)));
    assert_eq!(pool.get_connection_status(&id(1)), ConnectionStatus::NotConnected);
    assert_eq!(pool.get_connection(&id(1)), None);
}

#[test]
fn inserting_a_peer_keeps_its_entry() {
    let mut pool = ConnectionPool::new();
    assert_eq!(pool.insert(id(1)), ConnectionStatus::NotConnected);
    assert!(pool.contains(&id(1)));
    assert_eq!(pool.set_status(&id(1), ConnectionStatus::Failed), ConnectionStatus::NotConnected);
    assert_eq!(pool.insert(id(1)), ConnectionStatus::Failed);
    assert_eq!(pool.all().len(), 1);
    assert_eq!(pool.count_failed(), 1);
}

#[test]
fn a_connection_decides_the_status() {
    let mut pool = ConnectionPool::new();
    let open = connection(1, true, true);
    assert_eq!(pool.insert_connection(open), ConnectionStatus::Connected);
    assert_eq!(pool.get_connection(&id(1)), Some(open));
    assert_eq!(pool.count_connected(), 1);
    let shut = connection(1, false, true);
    assert_eq!(pool.insert_connection(shut), ConnectionStatus::Disconnected);
    assert_eq!(pool.get_connection(&id(1)), Some(shut));
    assert_eq!(pool.count_connected(), 0);
    assert_eq!(pool.all().len(), 1);
}

#[test]
fn only_open_connections_are_counted() {
    let mut pool = ConnectionPool::new();
    pool.insert_connection(connection(1, true, true));
    pool.insert_connection(connection(2, true, true));
    pool.set_status(&id(3), ConnectionStatus::Connected);
    assert_eq!(pool.count_connected(), 2);
    pool.record_liveness(&id(2), false, true);
    assert_eq!(pool.count_connected(), 1);
    assert_eq!(pool.get_connection_status(&id(2)), ConnectionStatus::Connected);
    pool.record_liveness(&id(9), true, true);
    assert!(!pool.contains(&id(9)));
}

#[test]
fn unused_connections_are_listed() {
    let mut pool = ConnectionPool::new();
    pool.insert_connection(connection(1, true, true));
    pool.insert_connection(connection(2, true, false));
    pool.insert(id(3));
    assert_eq!(pool.get_unused_connections(), vec![connection(2, true, false)]);
    assert_eq!(pool.connections().len(), 2);
}

#[test]
fn removing_gives_the_entry_back() {
    let mut pool = ConnectionPool::new();
    pool.set_status(&id(1), ConnectionStatus::Retrying);
    pool.set_status(&id(2), ConnectionStatus::Connecting);
    let state = pool.remove(&id(1)).unwrap();
    assert_eq!(state.node_id(), id(1));
    assert_eq!(state.status(), ConnectionStatus::Retrying);
    assert!(!state.is_connected());
    assert!(pool.remove(&id(1)).is_none());
    assert!(pool.contains(&id(2)));
}

#[test]
fn draining_takes_out_inactive_peers_that_nobody_wants() {
    let mut pool = ConnectionPool::new();
    pool.set_status(&id(1), ConnectionStatus::Failed);
    pool.set_status(&id(2), ConnectionStatus::Disconnected);
    pool.set_status(&id(3), ConnectionStatus::Failed);
    pool.set_status(&id(4), ConnectionStatus::Connecting);
    pool.insert_connection(connection(5, true, true));
    let drained = pool.drain_stale(&[id(3)]);
    let mut keys: Vec<u128> = drained.iter().map(|state| state.node_id.key).collect();
    keys.sort();
    assert_eq!(keys, vec![1, 2]);
    assert!(pool.contains(&id(3)) && pool.contains(&id(4)) && pool.contains(&id(5)));
    assert_eq!(pool.all().len(), 3);
}

#[test]
fn connection_statuses_have_names() {
    assert_eq!(ConnectionStatus::NotConnected.as_str(), "NotConnected");
    assert_eq!(ConnectionStatus::Connecting.as_str(), "Connecting");
    assert_eq!(ConnectionStatus::Connected.as_str(), "Connected");
    assert_eq!(ConnectionStatus::Retrying.as_str(), "Retrying");
    assert_eq!(ConnectionStatus::Failed.as_str(), "Failed");
    assert_eq!(ConnectionStatus::Disconnected.as_str(), "Disconnected");
}
