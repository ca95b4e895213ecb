//! What others ask of the connectivity manager, and what it tells them.
use std::time::Duration;
use vstd::prelude::*;

use crate::connection_pool::PeerConnectionState;
use crate::node_id::NodeId;
use crate::peer::PeerConnection;

verus! {

/// What becomes known of the connectivity of the node.
#[derive(Debug, Clone, Copy)]
pub enum ConnectivityEvent {
    PeerDisconnected(NodeId),
    EligiblePeerDisconnected(NodeId),
    PeerConnected(PeerConnection),
    PeerConnectFailed(NodeId),
    EligiblePeerConnectFailed(NodeId),
    PeerBanned(NodeId),
    PeerOffline(NodeId),
    ConnectivityStateInitialized,
    ConnectivityStateReady(usize),
    ConnectivityStateOnline(usize),
    ConnectivityStateDegraded(usize),
    ConnectivityStateOffline,
}

/// Which connections a caller asks the manager for.
#[derive(Debug, Clone)]
pub enum ConnectivitySelection {
    /// So many connections, taken at random, none of them to one of these peers.
    RandomNodes(usize, Vec<NodeId>),
    /// So many connections, those to the peers closest to a node.
    ClosestTo(Box<NodeId>, usize),
}

impl ConnectivitySelection {
    /// Asks for `n` connections, taken at random, none of them to one of `exclude`.
    pub fn random_nodes(n: usize, exclude: Vec<NodeId>) -> (r: Self)
        ensures
            r == ConnectivitySelection::RandomNodes(n, exclude),
    {
        ConnectivitySelection::RandomNodes(n, exclude)
    }

    /// Asks for the `n` connections to the peers closest to `node_id`.
    pub fn closest_to(node_id: NodeId, n: usize) -> (r: Self)
        ensures
            r == ConnectivitySelection::ClosestTo(Box::new(node_id), n),
    {
        ConnectivitySelection::ClosestTo(Box::new(node_id), n)
    }
}

/// A request to the manager.
#[derive(Debug)]
pub enum ConnectivityRequest {
    /// Keep connections to these peers.
    AddEligiblePeers(Vec<NodeId>),
    /// Hand out connections. Answered with `Connections`.
    SelectConnections(ConnectivitySelection),
    /// Hand out the connection to a peer. Answered with `Connection`.
    GetConnection(Box<NodeId>),
    /// Hand out all that the manager keeps track of. Answered with `States`.
    GetAll,
    /// Ban a peer for a time.
    BanPeer(Box<NodeId>, Duration),
}

/// The answer to a request.
#[derive(Debug)]
pub enum ConnectivityReply {
    Connections(Vec<PeerConnection>),
    Connection(Option<PeerConnection>),
    States(Vec<PeerConnectionState>),
}

/// What made something outside fail: the number by which the surrounding program finds the error
/// again.
#[derive(Debug, Clone, Copy, PartialEq, Eq, Structural)]
pub struct Cause {
    pub id: u64,
}

/// Why a request was not carried out.
#[derive(Debug, Clone, Copy, PartialEq, Eq, Structural)]
pub enum ConnectivityError {
    /// The manager is not there any more.
    ActorDisconnected,
    /// The manager did not answer.
    ActorResponseCancelled,
    /// The peer database failed, for this cause.
    PeerManagerError(Cause),
    /// The connection manager failed, for this cause.
    ConnectionManagerError(Cause),
}

/// What a caller learns of a request that has no answer, given whether it reached the manager.
pub fn request_delivered(delivered: bool) -> (r: Result<(), ConnectivityError>)
    ensures
        r == if delivered {
            Ok::<(), ConnectivityError>(())
        } else {
            Err(ConnectivityError::ActorDisconnected)
        },
{
    if delivered {
        Ok(())
    } else {
        Err(ConnectivityError::ActorDisconnected)
    }
}

/// What a caller learns of a request that did reach the manager, given the answer to it, if one
/// came.
pub fn request_answered<T>(answer: Option<T>) -> (r: Result<T, ConnectivityError>)
    ensures
        r == match answer {
            Some(value) => Ok::<T, ConnectivityError>(value),
            None => Err(ConnectivityError::ActorResponseCancelled),
        },
{
    match answer {
        Some(value) => Ok(value),
        None => Err(ConnectivityError::ActorResponseCancelled),
    }
}

} // verus!
