//! Which of the known peers a node can take for its neighbours.
use vstd::prelude::*;

use crate::dht::DhtConfig;
use crate::node_id::{
    by_distance, contains_id, distance_between, law_nearest, law_ordered_ids, lemma_by_distance,
    lemma_same_items, nearest, sort_by_distance, NodeId,
};
use crate::peer::Peer;

verus! {

/// What becomes of a peer that is considered for a neighbour.
#[derive(Debug, Clone, Copy, PartialEq, Eq, Structural)]
pub enum PeerVerdict {
    Banned,
    /// It is a client, not a communication node.
    NotCommunicationNode,
    /// It is offline, or connecting to it failed too often and not long enough ago.
    NotConnectable,
    Excluded,
    Eligible,
}

/// Whether a connection to the peer can be tried: it is not offline, and connecting to it has
/// not failed too often, or not for a while.
pub open spec fn connectable(peer: Peer, config: DhtConfig) -> bool {
    &&& !peer.offline
    &&& peer.failed_attempts <= config.broadcast_cooldown_max_attempts || match peer.since_last_failure {
        Some(nanos) => nanos >= config.broadcast_cooldown_period,
        None => true,
    }
}

/// The first reason against the peer, if there is one.
pub open spec fn verdict(peer: Peer, config: DhtConfig, excluded: Seq<NodeId>) -> PeerVerdict {
    if peer.banned {
        PeerVerdict::Banned
    } else if peer.features.client {
        PeerVerdict::NotCommunicationNode
    } else if !connectable(peer, config) {
        PeerVerdict::NotConnectable
    } else if excluded.contains(peer.node_id) {
        PeerVerdict::Excluded
    } else {
        PeerVerdict::Eligible
    }
}

/// The peers on which the verdict is `wanted`, in the order in which they stand.
pub open spec fn with_verdict(
    peers: Seq<Peer>,
    config: DhtConfig,
    excluded: Seq<NodeId>,
    wanted: PeerVerdict,
) -> Seq<Peer> {
    peers.filter(|peer: Peer| verdict(peer, config, excluded) == wanted)
}

/// The peers that there is nothing against.
pub open spec fn eligible_ids(
    peers: Seq<Peer>,
    config: DhtConfig,
    excluded: Seq<NodeId>,
) -> Seq<NodeId> {
    with_verdict(peers, config, excluded, PeerVerdict::Eligible).map_values(
        |peer: Peer| peer.node_id,
    )
}

/// What a query for neighbours gives.
#[derive(Debug)]
pub struct NeighbourQuery {
    /// The peers that were selected, the closest first.
    pub selected: Vec<NodeId>,
    /// How many peers were not selected because they are banned.
    pub banned: usize,
    /// How many were not because they are not communication nodes.
    pub filtered_out: usize,
    /// How many were not because they cannot be connected to.
    pub not_connectable: usize,
    /// How many were not because they were excluded.
    pub excluded: usize,
}

impl NeighbourQuery {
    /// How many peers there was something against.
    pub fn total_excluded(&self) -> (r: usize)
        requires
            self.banned + self.filtered_out + self.not_connectable + self.excluded <= usize::MAX,
        ensures
            r == self.banned + self.filtered_out + self.not_connectable + self.excluded,
    {
        self.banned + self.not_connectable + self.excluded + self.filtered_out
    }
}

/// Decides what becomes of a peer.
pub fn judge(peer: &Peer, config: &DhtConfig, excluded: &[NodeId]) -> (r: PeerVerdict)
    ensures
        r == verdict(*peer, *config, excluded@),
{
    if peer.banned {
        return PeerVerdict::Banned;
    }
    if peer.features.is_client() {
        return PeerVerdict::NotCommunicationNode;
    }
    let cooled_down: bool = match peer.since_last_failure {
        Some(nanos) => nanos >= config.broadcast_cooldown_period,
        None => true,
    };
    let is_connect_eligible: bool = !peer.offline && (peer.failed_attempts
        <= config.broadcast_cooldown_max_attempts || cooled_down);
    if !is_connect_eligible {
        return PeerVerdict::NotConnectable;
    }
    if contains_id(excluded, &peer.node_id) {
        return PeerVerdict::Excluded;
    }
    PeerVerdict::Eligible
}

/// The `n` known peers closest to `node_id` that there is nothing against, and how many peers
/// there was something against.
pub fn select_neighbours(
    peers: &Vec<Peer>,
    config: &DhtConfig,
    node_id: &NodeId,
    n: usize,
    excluded: &[NodeId],
) -> (r: NeighbourQuery)
    ensures
        r.selected@ == nearest(eligible_ids(peers@, *config, excluded@), n as nat, *node_id),
        r.banned == with_verdict(peers@, *config, excluded@, PeerVerdict::Banned).len(),
        r.filtered_out == with_verdict(
            peers@,
            *config,
            excluded@,
            PeerVerdict::NotCommunicationNode,
        ).len(),
        r.not_connectable == with_verdict(
            peers@,
            *config,
            excluded@,
            PeerVerdict::NotConnectable,
        ).len(),
        r.excluded == with_verdict(peers@, *config, excluded@, PeerVerdict::Excluded).len(),
        r.banned + r.filtered_out + r.not_connectable + r.excluded + eligible_ids(
            peers@,
            *config,
            excluded@,
        ).len() == peers@.len(),
{
    let mut eligible: Vec<NodeId> = Vec::new();
    let mut banned: usize = 0;
    let mut filtered_out: usize = 0;
    let mut not_connectable: usize = 0;
    let mut excluded_count: usize = 0;
    let mut i: usize = 0;
    proof {
        lemma_verdicts_start(peers@, *config, excluded@);
    }
    while i < peers.len()
        invariant
            i <= peers@.len(),
            eligible@ == eligible_ids(peers@.take(i as int), *config, excluded@),
            banned == with_verdict(
                peers@.take(i as int),
                *config,
                excluded@,
                PeerVerdict::Banned,
            ).len(),
            filtered_out == with_verdict(
                peers@.take(i as int),
                *config,
                excluded@,
                PeerVerdict::NotCommunicationNode,
            ).len(),
            not_connectable == with_verdict(
                peers@.take(i as int),
                *config,
                excluded@,
                PeerVerdict::NotConnectable,
            ).len(),
            excluded_count == with_verdict(
                peers@.take(i as int),
                *config,
                excluded@,
                PeerVerdict::Excluded,
            ).len(),
            banned + filtered_out + not_connectable + excluded_count + eligible@.len() == i,
        decreases peers@.len() - i,
    {
        let peer: Peer = peers[i];
        proof {
            lemma_verdicts_step(peers@, *config, excluded@, i as int);
        }
        match judge(&peer, config, excluded) {
            PeerVerdict::Banned => {
                banned += 1;
            },
            PeerVerdict::NotCommunicationNode => {
                filtered_out += 1;
            },
            PeerVerdict::NotConnectable => {
                not_connectable += 1;
            },
            PeerVerdict::Excluded => {
                excluded_count += 1;
            },
            PeerVerdict::Eligible => {
                eligible.push(peer.node_id);
            },
        }
        i += 1;
    }
    assert(peers@.take(i as int) =~= peers@);
    let mut selected: Vec<NodeId> = sort_by_distance(eligible, node_id);
    proof {
        lemma_by_distance(eligible@, *node_id);
    }
    selected.truncate(n);
    assert(selected@ =~= nearest(eligible@, n as nat, *node_id));
    NeighbourQuery {
        selected,
        banned,
        filtered_out,
        not_connectable,
        excluded: excluded_count,
    }
}

proof fn lemma_verdicts_start(peers: Seq<Peer>, config: DhtConfig, excluded: Seq<NodeId>)
    ensures
        forall|wanted: PeerVerdict| #[trigger]
            with_verdict(peers.take(0), config, excluded, wanted) == Seq::<Peer>::empty(),
        eligible_ids(peers.take(0), config, excluded) == Seq::<NodeId>::empty(),
{
    reveal(Seq::filter);
    assert forall|wanted: PeerVerdict| #[trigger]
        with_verdict(peers.take(0), config, excluded, wanted) == Seq::<Peer>::empty() by {
        assert(with_verdict(peers.take(0), config, excluded, wanted) =~= Seq::<Peer>::empty());
    }
    assert(eligible_ids(peers.take(0), config, excluded) =~= Seq::<NodeId>::empty());
}

proof fn lemma_verdicts_step(peers: Seq<Peer>, config: DhtConfig, excluded: Seq<NodeId>, i: int)
    requires
        0 <= i < peers.len(),
    ensures
        forall|wanted: PeerVerdict| #[trigger]
            with_verdict(peers.take(i + 1), config, excluded, wanted) == if verdict(
                peers[i],
                config,
                excluded,
            ) == wanted {
                with_verdict(peers.take(i), config, excluded, wanted).push(peers[i])
            } else {
                with_verdict(peers.take(i), config, excluded, wanted)
            },
        eligible_ids(peers.take(i + 1), config, excluded) == if verdict(peers[i], config, excluded)
            == PeerVerdict::Eligible {
            eligible_ids(peers.take(i), config, excluded).push(peers[i].node_id)
        } else {
            eligible_ids(peers.take(i), config, excluded)
        },
{
    assert(peers.take(i + 1) =~= peers.take(i).push(peers[i]));
    assert forall|wanted: PeerVerdict| #[trigger]
        with_verdict(peers.take(i + 1), config, excluded, wanted) == if verdict(
            peers[i],
            config,
            excluded,
        ) == wanted {
            with_verdict(peers.take(i), config, excluded, wanted).push(peers[i])
        } else {
            with_verdict(peers.take(i), config, excluded, wanted)
        } by {
        peers.take(i).lemma_filter_push(
            peers[i],
            |peer: Peer| verdict(peer, config, excluded) == wanted,
        );
    }
    let before = with_verdict(peers.take(i), config, excluded, PeerVerdict::Eligible);
    let id_of = |peer: Peer| peer.node_id;
    if verdict(peers[i], config, excluded) == PeerVerdict::Eligible {
        assert(before.push(peers[i]).map_values(id_of) =~= before.map_values(id_of).push(
            peers[i].node_id,
        ));
    }
}

/// Every selected peer is known, and there is nothing against it.
pub proof fn lemma_eligible(peers: Seq<Peer>, config: DhtConfig, excluded: Seq<NodeId>)
    ensures
        forall|id: NodeId| #[trigger]
            eligible_ids(peers, config, excluded).contains(id) <==> exists|i: int|
                0 <= i < peers.len() && #[trigger] peers[i].node_id == id && verdict(
                    peers[i],
                    config,
                    excluded,
                ) == PeerVerdict::Eligible,
{
    broadcast use vstd::seq_lib::group_filter_ensures;

    let chosen = |peer: Peer| verdict(peer, config, excluded) == PeerVerdict::Eligible;
    let good = with_verdict(peers, config, excluded, PeerVerdict::Eligible);
    let ids = eligible_ids(peers, config, excluded);
    assert forall|id: NodeId| #[trigger] ids.contains(id) <==> exists|i: int|
        0 <= i < peers.len() && #[trigger] peers[i].node_id == id && verdict(
            peers[i],
            config,
            excluded,
        ) == PeerVerdict::Eligible by {
        if ids.contains(id) {
            let k = choose|k: int| 0 <= k < ids.len() && ids[k] == id;
            assert(chosen(good[k]));
            assert(good.contains(good[k]));
            peers.lemma_filter_contains_rev(chosen, good[k]);
            let i = choose|i: int| 0 <= i < peers.len() && peers[i] == good[k];
            assert(peers[i].node_id == id);
        }
        if exists|i: int|
            0 <= i < peers.len() && #[trigger] peers[i].node_id == id && verdict(
                peers[i],
                config,
                excluded,
            ) == PeerVerdict::Eligible {
            let i = choose|i: int|
                0 <= i < peers.len() && #[trigger] peers[i].node_id == id && verdict(
                    peers[i],
                    config,
                    excluded,
                ) == PeerVerdict::Eligible;
            assert(good.contains(peers[i]));
            let k = choose|k: int| 0 <= k < good.len() && good[k] == peers[i];
            assert(ids[k] == id);
        }
    }
}

/// Of peers with different ids, none is selected twice.
pub proof fn lemma_eligible_distinct(peers: Seq<Peer>, config: DhtConfig, excluded: Seq<NodeId>)
    requires
        forall|i: int, j: int|
            #![trigger peers[i], peers[j]]
            0 <= i < j < peers.len() ==> peers[i].node_id != peers[j].node_id,
    ensures
        eligible_ids(peers, config, excluded).no_duplicates(),
    decreases peers.len(),
{
    lemma_verdicts_start(peers, config, excluded);
    if peers.len() == 0 {
        assert(peers.take(0) =~= peers);
    } else {
        let n = peers.len() - 1;
        let rest = peers.take(n);
        assert forall|i: int, j: int|
            #![trigger rest[i], rest[j]]
            0 <= i < j < rest.len() implies rest[i].node_id != rest[j].node_id by {
            assert(rest[i] == peers[i] && rest[j] == peers[j]);
        }
        lemma_eligible_distinct(rest, config, excluded);
        lemma_verdicts_step(peers, config, excluded, n);
        lemma_eligible(rest, config, excluded);
        assert(peers.take(n + 1) =~= peers);
        let ids = eligible_ids(rest, config, excluded);
        if ids.contains(peers[n].node_id) {
            let i = choose|i: int|
                0 <= i < rest.len() && #[trigger] rest[i].node_id == peers[n].node_id && verdict(
                    rest[i],
                    config,
                    excluded,
                ) == PeerVerdict::Eligible;
            assert(peers[i] == rest[i]);
        }
    }
}

/// What becomes of a peer: a ban counts before anything else, then that it is a client, then that it
/// is offline or has failed too often and not long enough ago, then that it is excluded. A peer that
/// is offline is never eligible, however long ago it failed.
pub proof fn law_verdict(peer: Peer, config: DhtConfig, excluded: Seq<NodeId>)
    ensures
        ({
            let failing = peer.failed_attempts > config.broadcast_cooldown_max_attempts
                && peer.since_last_failure is Some && peer.since_last_failure->0
                < config.broadcast_cooldown_period;
            let v = verdict(peer, config, excluded);
            &&& v is Banned <==> peer.banned
            &&& v is NotCommunicationNode <==> !peer.banned && peer.features.client
            &&& v is NotConnectable <==> !peer.banned && !peer.features.client && (peer.offline
                || failing)
            &&& v is Excluded <==> !peer.banned && !peer.features.client && !peer.offline
                && !failing && excluded.contains(peer.node_id)
            &&& v is Eligible <==> !peer.banned && !peer.features.client && !peer.offline
                && !failing && !excluded.contains(peer.node_id)
        }),
{
}

/// Whether there is nothing against a peer, by its fields.
pub open spec fn unobjectionable(peer: Peer, config: DhtConfig, excluded: Seq<NodeId>) -> bool {
    &&& !peer.banned
    &&& !peer.features.client
    &&& !peer.offline
    &&& !excluded.contains(peer.node_id)
    &&& peer.failed_attempts <= config.broadcast_cooldown_max_attempts || peer.since_last_failure
        is None || peer.since_last_failure->0 >= config.broadcast_cooldown_period
}

/// Every selected peer is known, is not banned, no client, not offline, not excluded, and has not
/// failed too often, or not for a while. Of those peers one is left out only if as many as were
/// asked for are selected, and none of them is farther.
pub proof fn law_selected(
    peers: Seq<Peer>,
    config: DhtConfig,
    excluded: Seq<NodeId>,
    n: nat,
    from: NodeId,
)
    ensures
        ({
            let selected = nearest(eligible_ids(peers, config, excluded), n, from);
            &&& forall|id: NodeId| #[trigger]
                selected.contains(id) ==> exists|i: int|
                    0 <= i < peers.len() && (#[trigger] peers[i]).node_id == id && unobjectionable(
                        peers[i],
                        config,
                        excluded,
                    )
            &&& forall|i: int|
                0 <= i < peers.len() && unobjectionable(#[trigger] peers[i], config, excluded)
                    && !selected.contains(peers[i].node_id) ==> selected.len() == n && (forall|
                    k: int,
                |
                    0 <= k < n ==> ((#[trigger] selected[k]).key ^ from.key) <= (
                    peers[i].node_id.key ^ from.key))
            &&& forall|i: int, j: int|
                #![trigger selected[i], selected[j]]
                0 <= i <= j < selected.len() ==> (selected[i].key ^ from.key) <= (
                selected[j].key ^ from.key)
            &&& selected.len() <= n
        }),
{
    let ids = eligible_ids(peers, config, excluded);
    let selected = nearest(ids, n, from);
    lemma_eligible(peers, config, excluded);
    law_nearest(ids, n, from);
    law_ordered_ids(selected, from);
    assert forall|id: NodeId| #[trigger] selected.contains(id) implies exists|i: int|
        0 <= i < peers.len() && (#[trigger] peers[i]).node_id == id && unobjectionable(
            peers[i],
            config,
            excluded,
        ) by {
        assert(ids.contains(id));
        let i = choose|i: int|
            0 <= i < peers.len() && #[trigger] peers[i].node_id == id && verdict(
                peers[i],
                config,
                excluded,
            ) == PeerVerdict::Eligible;
        assert(unobjectionable(peers[i], config, excluded));
    }
    assert forall|i: int|
        0 <= i < peers.len() && unobjectionable(#[trigger] peers[i], config, excluded)
            && !selected.contains(peers[i].node_id) implies selected.len() == n && (forall|k: int|
        0 <= k < n ==> ((#[trigger] selected[k]).key ^ from.key) <= (peers[i].node_id.key
            ^ from.key)) by {
        let id = peers[i].node_id;
        assert(verdict(peers[i], config, excluded) == PeerVerdict::Eligible);
        assert(ids.contains(id));
        if n >= ids.len() {
            let sorted = by_distance(ids, from);
            lemma_by_distance(ids, from);
            lemma_same_items(ids, sorted);
            assert(selected =~= sorted);
            assert(sorted.contains(id));
        }
        assert forall|k: int| 0 <= k < n implies ((#[trigger] selected[k]).key ^ from.key) <= (
        id.key ^ from.key) by {
            assert(distance_between(selected[k], from) <= distance_between(id, from));
        }
    }
}

/// The eligible peers are the known peers that there is nothing against, in the order in which they
/// are known, as often as they are; and the peers that there is something against are counted by
/// the first reason.
pub proof fn law_query_counts(peers: Seq<Peer>, config: DhtConfig, excluded: Seq<NodeId>)
    ensures
        eligible_ids(peers, config, excluded) == peers.filter(
            |peer: Peer| unobjectionable(peer, config, excluded),
        ).map_values(|peer: Peer| peer.node_id),
        with_verdict(peers, config, excluded, PeerVerdict::Banned) == peers.filter(
            |peer: Peer| peer.banned,
        ),
        with_verdict(peers, config, excluded, PeerVerdict::NotCommunicationNode) == peers.filter(
            |peer: Peer| !peer.banned && peer.features.client,
        ),
        with_verdict(peers, config, excluded, PeerVerdict::Excluded) == peers.filter(
            |peer: Peer|
                unobjectionable(peer, config, Seq::empty()) && excluded.contains(peer.node_id),
        ),
        with_verdict(peers, config, excluded, PeerVerdict::NotConnectable) == peers.filter(
            |peer: Peer|
                !peer.banned && !peer.features.client && !unobjectionable(
                    peer,
                    config,
                    Seq::empty(),
                ),
        ),
{
    assert((|peer: Peer| verdict(peer, config, excluded) == PeerVerdict::Eligible) =~= (|
        peer: Peer,
    | unobjectionable(peer, config, excluded)));
    assert((|peer: Peer| verdict(peer, config, excluded) == PeerVerdict::Banned) =~= (|
        peer: Peer,
    | peer.banned));
    assert((|peer: Peer| verdict(peer, config, excluded) == PeerVerdict::NotCommunicationNode)
        =~= (|peer: Peer| !peer.banned && peer.features.client));
    assert((|peer: Peer| verdict(peer, config, excluded) == PeerVerdict::Excluded) =~= (|
        peer: Peer,
    | unobjectionable(peer, config, Seq::empty()) && excluded.contains(peer.node_id)));
    assert((|peer: Peer| verdict(peer, config, excluded) == PeerVerdict::NotConnectable) =~= (|
        peer: Peer,
    |
        !peer.banned && !peer.features.client && !unobjectionable(peer, config, Seq::empty())));
}

} // verus!
