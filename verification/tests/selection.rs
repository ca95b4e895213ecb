use connectivity::connection_pool::ConnectionPool;
use connectivity::node_id::NodeId;
use connectivity::peer::{PeerConnection, PeerFeatures};
use connectivity::selection::{select_closest, select_random_nodes};

fn id(key: u128) -> NodeId {
    NodeId { key }
}

fn connection(key: u128, node: bool, connected: bool) -> PeerConnection {
    PeerConnection {
        id: key as u64,
        peer_node_id: id(key),
        peer_features: PeerFeatures { node, client: !node },
        connected,
        in_use: true,
    }
}

fn pool_of_nodes(n: u128) -> ConnectionPool {
    let mut pool = ConnectionPool::new();
    for key in 0..n {
        pool.insert_connection(connection(key, true, true));
    }
    pool
}

fn keys(conns: &[&PeerConnection]) -> Vec<u128> {
    conns.iter().map(|conn| conn.peer_node_id.key).collect()
}

#[test]
fn closest_come_first() {
    let pool = pool_of_nodes(8);
    let conns = select_closest(&pool, &id(5), &[]);
    assert_eq!(keys(&conns), vec![5, 4, 7, 6, 1, 0, 3, 2]);
}

#[test]
fn closest_leaves_out_clients_closed_connections_and_excluded_peers() {
    let mut pool = pool_of_nodes(4);
    pool.insert_connection(connection(4, false, true));
    pool.insert_connection(connection(5, true, false));
    pool.insert(id(6));
    let conns = select_closest(&pool, &id(7), &[id(3), id(1)]);
    assert_eq!(keys(&conns), vec![2, 0]);
}

#[test]
fn closest_of_an_empty_pool_is_nothing() {
    assert!(select_closest(&ConnectionPool::new(), &id(0), &[]).is_empty());
}

#[test]
fn random_nodes_are_different_and_selectable() {
    let mut pool = pool_of_nodes(20);
    pool.insert_connection(connection(20, false, true));
    pool.insert_connection(connection(21, true, false));
    let exclude = vec![id(0), id(1)];
    for _ in 0..50 {
        let mut found = keys(&select_random_nodes(&pool, 5, &exclude));
        assert_eq!(found.len(), 5);
        found.sort();
        found.dedup();
        assert_eq!(found.len(), 5);
        assert!(found.iter().all(|key| 2 <= *key && *key < 20));
    }
}

#[test]
fn random_nodes_are_random() {
    let pool = pool_of_nodes(64);
    let first = keys(&select_random_nodes(&pool, 16, &[]));
    let differs = (0..10).any(|_| keys(&select_random_nodes(&pool, 16, &[])) != first);
    assert!(differs);
    let all = keys(&select_random_nodes(&pool, 64, &[]));
    assert_ne!(first, all);
}

#[test]
fn random_nodes_exhaust_the_pool() {
    let pool = pool_of_nodes(6);
    let mut found = keys(&select_random_nodes(&pool, 100, &[id(2)]));
    found.sort();
    assert_eq!(found, vec![0, 1, 3, 4, 5]);
    assert!(select_random_nodes(&pool, 0, &[]).is_empty());
}
