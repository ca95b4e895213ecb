//! The pool of peers that the connectivity manager keeps track of.
use vstd::prelude::*;

use crate::node_id::{contains_id, NodeId};
use crate::peer::PeerConnection;

pub mod laws;

verus! {

/// How far the manager has got with connecting to a peer.
#[derive(Debug, Clone, Copy, PartialEq, Eq, Structural)]
pub enum ConnectionStatus {
    NotConnected,
    Connecting,
    Connected,
    Retrying,
    Failed,
    Disconnected,
}

impl ConnectionStatus {
    /// The name of the status.
    pub fn as_str(&self) -> (r: &'static str)
        ensures
            r@ == match *self {
                ConnectionStatus::NotConnected => "NotConnected"@,
                ConnectionStatus::Connecting => "Connecting"@,
                ConnectionStatus::Connected => "Connected"@,
                ConnectionStatus::Retrying => "Retrying"@,
                ConnectionStatus::Failed => "Failed"@,
                ConnectionStatus::Disconnected => "Disconnected"@,
            },
    {
        match self {
            ConnectionStatus::NotConnected => "NotConnected",
            ConnectionStatus::Connecting => "Connecting",
            ConnectionStatus::Connected => "Connected",
            ConnectionStatus::Retrying => "Retrying",
            ConnectionStatus::Failed => "Failed",
            ConnectionStatus::Disconnected => "Disconnected",
        }
    }
}

/// What the pool holds for one peer.
#[derive(Debug, Clone, Copy)]
pub struct PeerConnectionState {
    pub node_id: NodeId,
    pub connection: Option<PeerConnection>,
    pub status: ConnectionStatus,
}

impl PeerConnectionState {
    /// The peer is counted as connected: so the pool says, and its connection is open.
    pub open spec fn connected(self) -> bool {
        self.status == ConnectionStatus::Connected && match self.connection {
            Some(conn) => conn.connected,
            None => false,
        }
    }

    /// Connecting to the peer failed, or the connection to it is gone.
    pub open spec fn inactive(self) -> bool {
        self.status == ConnectionStatus::Failed || self.status == ConnectionStatus::Disconnected
    }

    /// The entry of a peer of which nothing is known yet.
    pub open spec fn fresh(node_id: NodeId) -> PeerConnectionState {
        PeerConnectionState { node_id, connection: None, status: ConnectionStatus::NotConnected }
    }

    /// The peer.
    pub fn node_id(&self) -> (r: NodeId)
        ensures
            r == self.node_id,
    {
        self.node_id
    }

    /// The status of the connection to the peer.
    pub fn status(&self) -> (r: ConnectionStatus)
        ensures
            r == self.status,
    {
        self.status
    }

    /// Whether the peer is counted as connected.
    pub fn is_connected(&self) -> (r: bool)
        ensures
            r == self.connected(),
    {
        match self.connection {
            Some(conn) => self.status == ConnectionStatus::Connected && conn.is_connected(),
            None => false,
        }
    }
}

/// What a pool holds, by peer.
pub type PoolView = Map<NodeId, PeerConnectionState>;

/// Each peer has its own entry, and a connection stands in the entry of the peer that it
/// leads to.
pub open spec fn pool_wf(pool: PoolView) -> bool {
    &&& pool.dom().finite()
    &&& forall|id: NodeId| #[trigger]
        pool.contains_key(id) ==> pool[id].node_id == id && match pool[id].connection {
            Some(conn) => conn.peer_node_id == id,
            None => true,
        }
}

/// The status of a peer: `NotConnected` for one that the pool does not hold.
pub open spec fn status_of(pool: PoolView, id: NodeId) -> ConnectionStatus {
    if pool.contains_key(id) {
        pool[id].status
    } else {
        ConnectionStatus::NotConnected
    }
}

/// The connection to a peer, if the pool holds one.
pub open spec fn connection_of(pool: PoolView, id: NodeId) -> Option<PeerConnection> {
    if pool.contains_key(id) {
        pool[id].connection
    } else {
        None
    }
}

/// The entry of a peer: a fresh one for a peer that the pool does not hold.
pub open spec fn entry_of(pool: PoolView, id: NodeId) -> PeerConnectionState {
    if pool.contains_key(id) {
        pool[id]
    } else {
        PeerConnectionState::fresh(id)
    }
}

/// The pool with an entry for `id`: the one that it had, or a fresh one.
pub open spec fn with_peer(pool: PoolView, id: NodeId) -> PoolView {
    pool.insert(id, entry_of(pool, id))
}

/// The pool with the status of `id` set.
pub open spec fn with_status(pool: PoolView, id: NodeId, status: ConnectionStatus) -> PoolView {
    pool.insert(id, PeerConnectionState { status, ..entry_of(pool, id) })
}

/// The pool with `conn` as the connection to its peer.
pub open spec fn with_connection(pool: PoolView, conn: PeerConnection) -> PoolView {
    pool.insert(
        conn.peer_node_id,
        PeerConnectionState {
            node_id: conn.peer_node_id,
            connection: Some(conn),
            status: if conn.connected {
                ConnectionStatus::Connected
            } else {
                ConnectionStatus::Disconnected
            },
        },
    )
}

/// The pool with what the transport reports of the connection to `id`, if there is one.
pub open spec fn with_liveness(
    pool: PoolView,
    id: NodeId,
    connected: bool,
    in_use: bool,
) -> PoolView {
    match connection_of(pool, id) {
        Some(conn) => pool.insert(
            id,
            PeerConnectionState {
                connection: Some(PeerConnection { connected, in_use, ..conn }),
                ..pool[id]
            },
        ),
        None => pool,
    }
}

/// The peers that are counted as connected.
pub open spec fn connected_peers(pool: PoolView) -> Set<NodeId> {
    pool.dom().filter(|id: NodeId| pool[id].connected())
}

/// The peers to which connecting has failed.
pub open spec fn failed_peers(pool: PoolView) -> Set<NodeId> {
    pool.dom().filter(|id: NodeId| pool[id].status == ConnectionStatus::Failed)
}

/// Whether an entry is of no more use: its peer is inactive, and no one wants it connected.
pub open spec fn stale(state: PeerConnectionState, wanted: Seq<NodeId>) -> bool {
    state.inactive() && !wanted.contains(state.node_id)
}

/// The part of the pool whose entries satisfy `kept`.
pub open spec fn part_of(pool: PoolView, kept: spec_fn(PeerConnectionState) -> bool) -> PoolView {
    pool.restrict(pool.dom().filter(|id: NodeId| kept(pool[id])))
}

/// The pool without the entries that are of no more use.
pub open spec fn without_stale(pool: PoolView, wanted: Seq<NodeId>) -> PoolView {
    part_of(pool, |state: PeerConnectionState| !stale(state, wanted))
}

/// The entries of the pool that are of no more use.
pub open spec fn only_stale(pool: PoolView, wanted: Seq<NodeId>) -> PoolView {
    part_of(pool, |state: PeerConnectionState| stale(state, wanted))
}

/// What a list of entries holds, by peer.
pub open spec fn entries_by_peer(entries: Seq<PeerConnectionState>) -> PoolView
    decreases entries.len(),
{
    if entries.len() == 0 {
        Map::empty()
    } else {
        entries_by_peer(entries.drop_last()).insert(entries.last().node_id, entries.last())
    }
}

/// No peer has two entries.
pub open spec fn unique_peers(entries: Seq<PeerConnectionState>) -> bool {
    forall|i: int, j: int|
        #![trigger entries[i], entries[j]]
        0 <= i < j < entries.len() ==> entries[i].node_id != entries[j].node_id
}

/// The peers that the connectivity manager keeps track of, each with the status of the
/// connection to it.
#[derive(Debug)]
pub struct ConnectionPool {
    entries: Vec<PeerConnectionState>,
}

impl View for ConnectionPool {
    type V = PoolView;

    closed spec fn view(&self) -> PoolView {
        entries_by_peer(self.entries@)
    }
}

pub(crate) proof fn lemma_entries(entries: Seq<PeerConnectionState>)
    ensures
        entries_by_peer(entries).dom().finite(),
        forall|id: NodeId| #[trigger]
            entries_by_peer(entries).contains_key(id) <==> exists|i: int|
                0 <= i < entries.len() && (#[trigger] entries[i]).node_id == id,
        unique_peers(entries) ==> forall|i: int|
            0 <= i < entries.len() ==> entries_by_peer(entries)[(#[trigger] entries[i]).node_id]
                == entries[i],
    decreases entries.len(),
{
    if entries.len() > 0 {
        let front = entries.drop_last();
        lemma_entries(front);
        assert(forall|i: int| 0 <= i < front.len() ==> front[i] == #[trigger] entries[i]);
        assert forall|id: NodeId| #[trigger]
            entries_by_peer(entries).contains_key(id) <==> exists|i: int|
                0 <= i < entries.len() && (#[trigger] entries[i]).node_id == id by {
            if id == entries.last().node_id {
                assert(entries[entries.len() - 1].node_id == id);
            } else if entries_by_peer(front).contains_key(id) {
                let i = choose|i: int| 0 <= i < front.len() && (#[trigger] front[i]).node_id == id;
                assert(entries[i].node_id == id);
            } else if exists|i: int| 0 <= i < entries.len() && (#[trigger] entries[i]).node_id == id {
                let i = choose|i: int|
                    0 <= i < entries.len() && (#[trigger] entries[i]).node_id == id;
                assert(front[i].node_id == id);
            }
        }
    }
}

/// The connections of a pool that satisfy `chosen`, each of them once, in any order.
pub open spec fn lists_connections(
    conns: Seq<PeerConnection>,
    pool: PoolView,
    chosen: spec_fn(PeerConnection) -> bool,
) -> bool {
    &&& conns.no_duplicates()
    &&& forall|conn: PeerConnection| #[trigger]
        conns.contains(conn) <==> connection_of(pool, conn.peer_node_id) == Some(conn) && chosen(
            conn,
        )
}

/// The connections of a pool that nobody uses, each of them once, in any order.
pub open spec fn lists_unused(conns: Seq<PeerConnection>, pool: PoolView) -> bool {
    lists_connections(conns, pool, |conn: PeerConnection| !conn.in_use)
}

/// The entries of a pool, each of them once, in any order.
pub open spec fn lists_entries(states: Seq<PeerConnectionState>, pool: PoolView) -> bool {
    unique_peers(states) && entries_by_peer(states) == pool
}

impl ConnectionPool {
    /// No peer has two entries, and a connection stands in the entry of its peer.
    pub closed spec fn wf(&self) -> bool {
        unique_peers(self.entries@) && pool_wf(self@)
    }

    /// What a well-formed pool holds is well-formed.
    pub proof fn lemma_wf(&self)
        requires
            self.wf(),
        ensures
            pool_wf(self@),
    {
    }

    /// A pool without peers.
    pub fn new() -> (r: ConnectionPool)
        ensures
            r.wf(),
            r@ == Map::<NodeId, PeerConnectionState>::empty(),
    {
        ConnectionPool { entries: Vec::new() }
    }

    /// The place of the entry of `id`, or the number of entries where it has none.
    fn find(&self, id: &NodeId) -> (r: usize)
        requires
            self.wf(),
        ensures
            r <= self.entries@.len(),
            r < self.entries@.len() <==> self@.contains_key(*id),
            r < self.entries@.len() ==> self.entries@[r as int] == self@[*id],
            r < self.entries@.len() ==> self.entries@[r as int].node_id == *id,
    {
        let mut i: usize = 0;
        while i < self.entries.len()
            invariant
                self.wf(),
                i <= self.entries@.len(),
                forall|j: int| 0 <= j < i ==> (#[trigger] self.entries@[j]).node_id != *id,
            decreases self.entries@.len() - i,
        {
            if self.entries[i].node_id == *id {
                proof {
                    lemma_entries(self.entries@);
                }
                return i;
            }
            i += 1;
        }
        proof {
            lemma_entries(self.entries@);
        }
        i
    }

    /// Puts `state` into the pool, in place of the entry that its peer had.
    fn put(&mut self, state: PeerConnectionState)
        requires
            old(self).wf(),
            match state.connection {
                Some(conn) => conn.peer_node_id == state.node_id,
                None => true,
            },
        ensures
            final(self).wf(),
            final(self)@ == old(self)@.insert(state.node_id, state),
    {
        let place: usize = self.find(&state.node_id);
        if place < self.entries.len() {
            self.entries[place] = state;
        } else {
            self.entries.push(state);
        }
        proof {
            lemma_entries(old(self).entries@);
            lemma_entries(self.entries@);
            let before = old(self).entries@;
            let after = self.entries@;
            assert(unique_peers(after));
            assert forall|id: NodeId| self@.contains_key(id) implies old(self)@.insert(
                state.node_id,
                state,
            ).contains_key(id) && self@[id] == old(self)@.insert(state.node_id, state)[id] by {
                let i = choose|i: int| 0 <= i < after.len() && (#[trigger] after[i]).node_id == id;
                assert(self@[id] == after[i]);
                if id != state.node_id {
                    assert(before[i] == after[i]);
                }
            }
            assert forall|id: NodeId|
                old(self)@.insert(state.node_id, state).contains_key(id) implies self@.contains_key(
                id,
            ) by {
                if id == state.node_id {
                    assert(after[place as int].node_id == id);
                } else {
                    let i = choose|i: int|
                        0 <= i < before.len() && (#[trigger] before[i]).node_id == id;
                    assert(after[i].node_id == id);
                }
            }
            assert(self@ =~= old(self)@.insert(state.node_id, state));
        }
    }

    /// Makes sure that the pool holds `node_id`. Returns its status.
    pub fn insert(&mut self, node_id: NodeId) -> (r: ConnectionStatus)
        requires
            old(self).wf(),
        ensures
            final(self).wf(),
            final(self)@ == with_peer(old(self)@, node_id),
            r == status_of(old(self)@, node_id),
    {
        let place: usize = self.find(&node_id);
        if place < self.entries.len() {
            assert(self@ =~= with_peer(self@, node_id));
            self.entries[place].status
        } else {
            self.put(
                PeerConnectionState {
                    node_id,
                    connection: None,
                    status: ConnectionStatus::NotConnected,
                },
            );
            ConnectionStatus::NotConnected
        }
    }

    /// Takes `conn` as the connection to its peer. Returns the status that the peer has then.
    pub fn insert_connection(&mut self, conn: PeerConnection) -> (r: ConnectionStatus)
        requires
            old(self).wf(),
        ensures
            final(self).wf(),
            final(self)@ == with_connection(old(self)@, conn),
            r == final(self)@[conn.peer_node_id].status,
    {
        let status: ConnectionStatus = if conn.is_connected() {
            ConnectionStatus::Connected
        } else {
            ConnectionStatus::Disconnected
        };
        self.put(
            PeerConnectionState { node_id: conn.peer_node_id(), connection: Some(conn), status },
        );
        status
    }

    /// The status of `node_id`.
    pub fn get_connection_status(&self, node_id: &NodeId) -> (r: ConnectionStatus)
        requires
            self.wf(),
        ensures
            r == status_of(self@, *node_id),
    {
        let place: usize = self.find(node_id);
        if place < self.entries.len() {
            self.entries[place].status
        } else {
            ConnectionStatus::NotConnected
        }
    }

    /// The connection to `node_id`, open or not.
    pub fn get_connection(&self, node_id: &NodeId) -> (r: Option<PeerConnection>)
        requires
            self.wf(),
        ensures
            r == connection_of(self@, *node_id),
    {
        let place: usize = self.find(node_id);
        if place < self.entries.len() {
            self.entries[place].connection
        } else {
            None
        }
    }

    /// Sets the status of `node_id`, which enters the pool if it was not there. Returns the
    /// status that it had.
    pub fn set_status(&mut self, node_id: &NodeId, status: ConnectionStatus) -> (r: ConnectionStatus)
        requires
            old(self).wf(),
        ensures
            final(self).wf(),
            final(self)@ == with_status(old(self)@, *node_id, status),
            r == status_of(old(self)@, *node_id),
    {
        let place: usize = self.find(node_id);
        if place < self.entries.len() {
            let state: PeerConnectionState = self.entries[place];
            self.put(
                PeerConnectionState {
                    node_id: state.node_id,
                    connection: state.connection,
                    status,
                },
            );
            state.status
        } else {
            self.put(PeerConnectionState { node_id: *node_id, connection: None, status });
            ConnectionStatus::NotConnected
        }
    }

    /// Records what the transport reports of the connection to `node_id`: whether it is open,
    /// and whether anybody uses it.
    pub fn record_liveness(&mut self, node_id: &NodeId, connected: bool, in_use: bool)
        requires
            old(self).wf(),
        ensures
            final(self).wf(),
            final(self)@ == with_liveness(old(self)@, *node_id, connected, in_use),
    {
        let place: usize = self.find(node_id);
        if place < self.entries.len() {
            let state: PeerConnectionState = self.entries[place];
            if let Some(conn) = state.connection {
                let reported: PeerConnection = PeerConnection {
                    id: conn.id,
                    peer_node_id: conn.peer_node_id,
                    peer_features: conn.peer_features,
                    connected,
                    in_use,
                };
                self.put(
                    PeerConnectionState {
                        node_id: state.node_id,
                        connection: Some(reported),
                        status: state.status,
                    },
                );
            }
        }
    }

    /// Whether the pool holds `node_id`.
    pub fn contains(&self, node_id: &NodeId) -> (r: bool)
        requires
            self.wf(),
        ensures
            r == self@.contains_key(*node_id),
    {
        self.find(node_id) < self.entries.len()
    }

    /// Takes `node_id` out of the pool. Returns its entry.
    pub fn remove(&mut self, node_id: &NodeId) -> (r: Option<PeerConnectionState>)
        requires
            old(self).wf(),
        ensures
            final(self).wf(),
            final(self)@ == old(self)@.remove(*node_id),
            r == (if old(self)@.contains_key(*node_id) {
                Some(old(self)@[*node_id])
            } else {
                None
            }),
    {
        let place: usize = self.find(node_id);
        if place < self.entries.len() {
            let state: PeerConnectionState = self.entries.remove(place);
            proof {
                let before = old(self).entries@;
                let after = self.entries@;
                lemma_entries(before);
                lemma_entries(after);
                assert(forall|i: int|
                    0 <= i < after.len() ==> #[trigger] after[i] == before[if i < place {
                        i
                    } else {
                        i + 1
                    }]);
                assert forall|id: NodeId| self@.contains_key(id) implies id != *node_id && old(
                    self,
                )@.contains_key(id) && self@[id] == old(self)@[id] by {
                    let i = choose|i: int|
                        0 <= i < after.len() && (#[trigger] after[i]).node_id == id;
                    let j = if i < place {
                        i
                    } else {
                        i + 1
                    };
                    assert(before[j] == after[i]);
                    assert(before[place as int].node_id == *node_id);
                }
                assert forall|id: NodeId|
                    id != *node_id && old(self)@.contains_key(id) implies self@.contains_key(id) by {
                    let j = choose|j: int|
                        0 <= j < before.len() && (#[trigger] before[j]).node_id == id;
                    let i = if j < place {
                        j
                    } else {
                        j - 1
                    };
                    assert(after[i] == before[j]);
                }
                assert(self@ =~= old(self)@.remove(*node_id));
            }
            Some(state)
        } else {
            assert(self@ =~= self@.remove(*node_id));
            None
        }
    }

    /// All entries of the pool.
    pub fn all(&self) -> (r: Vec<PeerConnectionState>)
        requires
            self.wf(),
        ensures
            lists_entries(r@, self@),
    {
        let mut states: Vec<PeerConnectionState> = Vec::new();
        let mut i: usize = 0;
        while i < self.entries.len()
            invariant
                i <= self.entries@.len(),
                states@ == self.entries@.take(i as int),
            decreases self.entries@.len() - i,
        {
            states.push(self.entries[i]);
            i += 1;
        }
        assert(states@ =~= self.entries@);
        states
    }

    /// How many peers are counted as connected.
    pub fn count_connected(&self) -> (r: usize)
        requires
            self.wf(),
        ensures
            r == connected_peers(self@).len(),
    {
        let mut count: usize = 0;
        let mut i: usize = 0;
        proof {
            lemma_counted_empty();
        }
        while i < self.entries.len()
            invariant
                self.wf(),
                i <= self.entries@.len(),
                count <= i,
                count == connected_peers(entries_by_peer(self.entries@.take(i as int))).len(),
            decreases self.entries@.len() - i,
        {
            proof {
                lemma_counted_step(self.entries@, i as int);
            }
            if self.entries[i].is_connected() {
                count += 1;
            }
            i += 1;
        }
        assert(self.entries@.take(i as int) =~= self.entries@);
        count
    }

    /// To how many peers connecting has failed.
    pub fn count_failed(&self) -> (r: usize)
        requires
            self.wf(),
        ensures
            r == failed_peers(self@).len(),
    {
        let mut count: usize = 0;
        let mut i: usize = 0;
        proof {
            lemma_counted_empty();
        }
        while i < self.entries.len()
            invariant
                self.wf(),
                i <= self.entries@.len(),
                count <= i,
                count == failed_peers(entries_by_peer(self.entries@.take(i as int))).len(),
            decreases self.entries@.len() - i,
        {
            proof {
                lemma_counted_step(self.entries@, i as int);
            }
            if self.entries[i].status == ConnectionStatus::Failed {
                count += 1;
            }
            i += 1;
        }
        assert(self.entries@.take(i as int) =~= self.entries@);
        count
    }

    /// The connections of the pool, open or not.
    pub fn connections(&self) -> (r: Vec<&PeerConnection>)
        requires
            self.wf(),
        ensures
            lists_connections(r@.unref(), self@, |conn: PeerConnection| true),
    {
        let mut conns: Vec<&PeerConnection> = Vec::new();
        let mut i: usize = 0;
        while i < self.entries.len()
            invariant
                self.wf(),
                i <= self.entries@.len(),
                lists_prefix(conns@.unref(), self.entries@, i as int, |c: PeerConnection| true),
            decreases self.entries@.len() - i,
        {
            let ghost before = conns@.unref();
            match &self.entries[i].connection {
                Some(conn) => {
                    conns.push(conn);
                    assert(conns@.unref() =~= before.push(*conn));
                },
                None => {},
            }
            proof {
                lemma_prefix_step(
                    before,
                    conns@.unref(),
                    self.entries@,
                    i as int,
                    |c: PeerConnection| true,
                );
            }
            i += 1;
        }
        proof {
            lemma_prefix_done(conns@.unref(), self.entries@, |c: PeerConnection| true);
        }
        conns
    }

    /// The connections of the pool that nobody uses.
    pub fn get_unused_connections(&self) -> (r: Vec<PeerConnection>)
        requires
            self.wf(),
        ensures
            lists_unused(r@, self@),
    {
        let mut conns: Vec<PeerConnection> = Vec::new();
        let mut i: usize = 0;
        while i < self.entries.len()
            invariant
                self.wf(),
                i <= self.entries@.len(),
                lists_prefix(conns@, self.entries@, i as int, |c: PeerConnection| !c.in_use),
            decreases self.entries@.len() - i,
        {
            let ghost before = conns@;
            match self.entries[i].connection {
                Some(conn) => {
                    if !conn.in_use {
                        conns.push(conn);
                    }
                },
                None => {},
            }
            proof {
                lemma_prefix_step(
                    before,
                    conns@,
                    self.entries@,
                    i as int,
                    |c: PeerConnection| !c.in_use,
                );
            }
            i += 1;
        }
        proof {
            lemma_prefix_done(conns@, self.entries@, |c: PeerConnection| !c.in_use);
        }
        conns
    }
}

impl ConnectionPool {
    /// Takes out the entries that are of no more use: those of inactive peers that are not
    /// among `wanted`. Returns what was taken out.
    pub fn drain_stale(&mut self, wanted: &[NodeId]) -> (r: Vec<PeerConnectionState>)
        requires
            old(self).wf(),
        ensures
            final(self).wf(),
            final(self)@ == without_stale(old(self)@, wanted@),
            lists_entries(r@, only_stale(old(self)@, wanted@)),
    {
        let ghost keep = |state: PeerConnectionState| !stale(state, wanted@);
        let ghost drop = |state: PeerConnectionState| stale(state, wanted@);
        let mut kept: Vec<PeerConnectionState> = Vec::new();
        let mut removed: Vec<PeerConnectionState> = Vec::new();
        let mut i: usize = 0;
        assert(self.entries@.take(0).filter(keep) =~= Seq::empty());
        assert(self.entries@.take(0).filter(drop) =~= Seq::empty());
        while i < self.entries.len()
            invariant
                i <= self.entries@.len(),
                keep == (|state: PeerConnectionState| !stale(state, wanted@)),
                drop == (|state: PeerConnectionState| stale(state, wanted@)),
                kept@ == self.entries@.take(i as int).filter(keep),
                removed@ == self.entries@.take(i as int).filter(drop),
            decreases self.entries@.len() - i,
        {
            let state: PeerConnectionState = self.entries[i];
            proof {
                assert(self.entries@.take(i + 1) =~= self.entries@.take(i as int).push(state));
                self.entries@.take(i as int).lemma_filter_push(state, keep);
                self.entries@.take(i as int).lemma_filter_push(state, drop);
            }
            let inactive: bool = state.status == ConnectionStatus::Failed || state.status
                == ConnectionStatus::Disconnected;
            if inactive && !contains_id(wanted, &state.node_id) {
                removed.push(state);
            } else {
                kept.push(state);
            }
            i += 1;
        }
        proof {
            assert(self.entries@.take(i as int) =~= self.entries@);
            lemma_entries(self.entries@);
            lemma_part(self.entries@, keep);
            lemma_part(self.entries@, drop);
        }
        self.entries = kept;
        proof {
            lemma_entries(self.entries@);
        }
        removed
    }
}

proof fn lemma_part(entries: Seq<PeerConnectionState>, kept: spec_fn(PeerConnectionState) -> bool)
    requires
        unique_peers(entries),
    ensures
        unique_peers(entries.filter(kept)),
        entries_by_peer(entries.filter(kept)) == part_of(entries_by_peer(entries), kept),
    decreases entries.len(),
{
    reveal(Seq::filter);
    let pool = entries_by_peer(entries);
    if entries.len() == 0 {
        assert(entries_by_peer(entries.filter(kept)) =~= part_of(pool, kept));
    } else {
        let front = entries.drop_last();
        let last = entries.last();
        let rest = entries_by_peer(front);
        lemma_part(front, kept);
        lemma_entries(front);
        lemma_entries(front.filter(kept));
        assert(!rest.contains_key(last.node_id)) by {
            if rest.contains_key(last.node_id) {
                let j = choose|j: int|
                    0 <= j < front.len() && (#[trigger] front[j]).node_id == last.node_id;
                assert(entries[j].node_id == entries[entries.len() - 1].node_id);
            }
        }
        assert(!part_of(rest, kept).contains_key(last.node_id));
        if kept(last) {
            let filtered = front.filter(kept).push(last);
            assert(filtered.drop_last() =~= front.filter(kept));
            assert forall|i: int, j: int|
                #![trigger filtered[i], filtered[j]]
                0 <= i < j < filtered.len() implies filtered[i].node_id != filtered[j].node_id by {
                if j == filtered.len() - 1 {
                    assert(front.filter(kept)[i] == filtered[i]);
                } else {
                    assert(front.filter(kept)[i] == filtered[i]);
                    assert(front.filter(kept)[j] == filtered[j]);
                }
            }
            assert(part_of(pool, kept) =~= part_of(rest, kept).insert(last.node_id, last));
        } else {
            assert(part_of(pool, kept) =~= part_of(rest, kept));
        }
    }
}

/// The connections of the first `n` entries that satisfy `chosen`, each of them once.
spec fn lists_prefix(
    conns: Seq<PeerConnection>,
    entries: Seq<PeerConnectionState>,
    n: int,
    chosen: spec_fn(PeerConnection) -> bool,
) -> bool {
    &&& forall|k: int, l: int|
        #![trigger conns[k], conns[l]]
        0 <= k < l < conns.len() ==> conns[k].peer_node_id != conns[l].peer_node_id
    &&& forall|k: int|
        0 <= k < conns.len() ==> exists|i: int|
            0 <= i < n && #[trigger] entries[i].connection == Some(#[trigger] conns[k]) && chosen(
                conns[k],
            )
    &&& forall|i: int|
        0 <= i < n ==> match #[trigger] entries[i].connection {
            Some(conn) => chosen(conn) ==> conns.contains(conn),
            None => true,
        }
}

proof fn lemma_prefix_step(
    before: Seq<PeerConnection>,
    after: Seq<PeerConnection>,
    entries: Seq<PeerConnectionState>,
    n: int,
    chosen: spec_fn(PeerConnection) -> bool,
)
    requires
        0 <= n < entries.len(),
        unique_peers(entries),
        pool_wf(entries_by_peer(entries)),
        lists_prefix(before, entries, n, chosen),
        after == match entries[n].connection {
            Some(conn) => if chosen(conn) {
                before.push(conn)
            } else {
                before
            },
            None => before,
        },
    ensures
        lists_prefix(after, entries, n + 1, chosen),
{
    lemma_entries(entries);
    assert forall|k: int, l: int|
        #![trigger after[k], after[l]]
        0 <= k < l < after.len() implies after[k].peer_node_id != after[l].peer_node_id by {
        if l == before.len() {
            let i = choose|i: int|
                0 <= i < n && #[trigger] entries[i].connection == Some(before[k]) && chosen(
                    before[k],
                );
            assert(entries_by_peer(entries)[entries[i].node_id] == entries[i]);
            assert(entries_by_peer(entries)[entries[n].node_id] == entries[n]);
            assert(entries_by_peer(entries).contains_key(entries[i].node_id));
            assert(entries_by_peer(entries).contains_key(entries[n].node_id));
            assert(entries[i].node_id != entries[n].node_id);
        } else {
            assert(before[k] == after[k] && before[l] == after[l]);
        }
    }
    assert forall|k: int| 0 <= k < after.len() implies exists|i: int|
        0 <= i < n + 1 && #[trigger] entries[i].connection == Some(#[trigger] after[k]) && chosen(
            after[k],
        ) by {
        if k < before.len() {
            let i = choose|i: int|
                0 <= i < n && #[trigger] entries[i].connection == Some(before[k]) && chosen(
                    before[k],
                );
            assert(entries[i].connection == Some(after[k]));
        } else {
            assert(entries[n].connection == Some(after[k]));
        }
    }
    assert forall|i: int| 0 <= i < n + 1 implies match #[trigger] entries[i].connection {
        Some(conn) => chosen(conn) ==> after.contains(conn),
        None => true,
    } by {
        match entries[i].connection {
            Some(conn) => {
                if chosen(conn) {
                    if i < n {
                        let k = choose|k: int| 0 <= k < before.len() && before[k] == conn;
                        assert(after[k] == conn);
                    } else {
                        assert(after[before.len() as int] == conn);
                    }
                }
            },
            None => {},
        }
    }
}

proof fn lemma_prefix_done(
    conns: Seq<PeerConnection>,
    entries: Seq<PeerConnectionState>,
    chosen: spec_fn(PeerConnection) -> bool,
)
    requires
        unique_peers(entries),
        pool_wf(entries_by_peer(entries)),
        lists_prefix(conns, entries, entries.len() as int, chosen),
    ensures
        lists_connections(conns, entries_by_peer(entries), chosen),
{
    let pool = entries_by_peer(entries);
    lemma_entries(entries);
    assert forall|conn: PeerConnection| #[trigger]
        conns.contains(conn) <==> connection_of(pool, conn.peer_node_id) == Some(conn) && chosen(
            conn,
        ) by {
        if conns.contains(conn) {
            let k = choose|k: int| 0 <= k < conns.len() && conns[k] == conn;
            let i = choose|i: int|
                0 <= i < entries.len() && #[trigger] entries[i].connection == Some(conns[k])
                    && chosen(conns[k]);
            assert(pool.contains_key(entries[i].node_id));
            assert(pool[entries[i].node_id] == entries[i]);
        }
        if connection_of(pool, conn.peer_node_id) == Some(conn) && chosen(conn) {
            let i = choose|i: int|
                0 <= i < entries.len() && (#[trigger] entries[i]).node_id == conn.peer_node_id;
            assert(pool[entries[i].node_id] == entries[i]);
        }
    }
}

proof fn lemma_counted_empty()
    ensures
        forall|entries: Seq<PeerConnectionState>|
            connected_peers(#[trigger] entries_by_peer(entries.take(0))).len() == 0 && failed_peers(
                entries_by_peer(entries.take(0)),
            ).len() == 0,
{
    assert forall|entries: Seq<PeerConnectionState>|
        connected_peers(#[trigger] entries_by_peer(entries.take(0))).len() == 0 && failed_peers(
            entries_by_peer(entries.take(0)),
        ).len() == 0 by {
        assert(connected_peers(entries_by_peer(entries.take(0))) =~= Set::empty());
        assert(failed_peers(entries_by_peer(entries.take(0))) =~= Set::empty());
    }
}

proof fn lemma_counted_step(entries: Seq<PeerConnectionState>, i: int)
    requires
        0 <= i < entries.len(),
        unique_peers(entries),
    ensures
        connected_peers(entries_by_peer(entries.take(i + 1))).len() == connected_peers(
            entries_by_peer(entries.take(i)),
        ).len() + (if entries[i].connected() {
            1int
        } else {
            0
        }),
        failed_peers(entries_by_peer(entries.take(i + 1))).len() == failed_peers(
            entries_by_peer(entries.take(i)),
        ).len() + (if entries[i].status == ConnectionStatus::Failed {
            1int
        } else {
            0
        }),
{
    let front = entries.take(i);
    let pool = entries_by_peer(front);
    let next = entries_by_peer(entries.take(i + 1));
    let id = entries[i].node_id;
    lemma_entries(front);
    assert(entries.take(i + 1).drop_last() =~= front);
    assert(next == pool.insert(id, entries[i]));
    assert(!pool.contains_key(id)) by {
        if pool.contains_key(id) {
            let j = choose|j: int| 0 <= j < front.len() && (#[trigger] front[j]).node_id == id;
            assert(entries[j].node_id == entries[i].node_id);
        }
    }
    if entries[i].connected() {
        assert(connected_peers(next) =~= connected_peers(pool).insert(id));
    } else {
        assert(connected_peers(next) =~= connected_peers(pool));
    }
    if entries[i].status == ConnectionStatus::Failed {
        assert(failed_peers(next) =~= failed_peers(pool).insert(id));
    } else {
        assert(failed_peers(next) =~= failed_peers(pool));
    }
}

} // verus!
