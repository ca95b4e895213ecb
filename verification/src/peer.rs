//! What the library knows of a peer and of a connection to one.
use vstd::prelude::*;

use crate::node_id::{Located, NodeId};

verus! {

/// What a peer offers to others. A peer may be neither a node nor a client.
#[derive(Debug, Clone, Copy, PartialEq, Eq, Structural)]
pub struct PeerFeatures {
    pub node: bool,
    pub client: bool,
}

impl PeerFeatures {
    /// Whether the peer is a communication node.
    pub fn is_node(&self) -> (r: bool)
        ensures
            r == self.node,
    {
        self.node
    }

    /// Whether the peer is a communication client.
    pub fn is_client(&self) -> (r: bool)
        ensures
            r == self.client,
    {
        self.client
    }
}

/// A connection to a peer, as the transport last reported it.
#[derive(Debug, Clone, Copy, PartialEq, Eq, Structural)]
pub struct PeerConnection {
    /// The number by which the transport finds the connection again.
    pub id: u64,
    pub peer_node_id: NodeId,
    pub peer_features: PeerFeatures,
    /// Whether the connection is open.
    pub connected: bool,
    /// Whether anybody still uses the connection.
    pub in_use: bool,
}

impl PeerConnection {
    /// Whether the connection is open.
    pub fn is_connected(&self) -> (r: bool)
        ensures
            r == self.connected,
    {
        self.connected
    }

    /// The peer at the other end.
    pub fn peer_node_id(&self) -> (r: NodeId)
        ensures
            r == self.peer_node_id,
    {
        self.peer_node_id
    }

    /// What the peer at the other end offers.
    pub fn peer_features(&self) -> (r: PeerFeatures)
        ensures
            r == self.peer_features,
    {
        self.peer_features
    }
}

impl<'a> Located for &'a PeerConnection {
    open spec fn location(&self) -> NodeId {
        self.peer_node_id
    }

    fn node_id(&self) -> (r: NodeId) {
        self.peer_node_id
    }
}

/// A peer as the peer database knows it, at the time at which it was read.
#[derive(Debug, Clone, Copy, PartialEq, Eq, Structural)]
pub struct Peer {
    pub node_id: NodeId,
    pub features: PeerFeatures,
    pub banned: bool,
    pub offline: bool,
    /// How often connecting to the peer has failed in a row.
    pub failed_attempts: usize,
    /// The nanoseconds since connecting to the peer last failed, if it ever did.
    pub since_last_failure: Option<u128>,
}

} // verus!
