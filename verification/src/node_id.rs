//! Node ids and the distance between them.
use vstd::prelude::*;

verus! {

/// The id of a node on the network.
#[derive(Debug, Clone, Copy, PartialEq, Eq, Structural)]
pub struct NodeId {
    pub key: u128,
}

/// How far two nodes are apart: the exclusive or of their ids, read as a number.
#[derive(Debug, Clone, Copy, PartialEq, Eq, Structural)]
pub struct NodeDistance {
    pub value: u128,
}

/// The distance between two nodes, as a number.
pub open spec fn distance_between(a: NodeId, b: NodeId) -> u128 {
    a.key ^ b.key
}

impl NodeId {
    /// The distance from this node to `other`.
    pub fn distance(&self, other: &NodeId) -> (r: NodeDistance)
        ensures
            r.value == distance_between(*self, *other),
    {
        NodeDistance { value: self.key ^ other.key }
    }
}

impl NodeDistance {
    /// The largest distance that two nodes can have.
    pub fn max_distance() -> (r: NodeDistance)
        ensures
            r.value == u128::MAX,
    {
        NodeDistance { value: u128::MAX }
    }

    /// Whether this distance is strictly smaller than `other`.
    pub fn is_closer_than(&self, other: &NodeDistance) -> (r: bool)
        ensures
            r == (self.value < other.value),
    {
        self.value < other.value
    }
}

/// Whether `ids` holds `id`.
pub fn contains_id(ids: &[NodeId], id: &NodeId) -> (r: bool)
    ensures
        r == ids@.contains(*id),
{
    let mut i: usize = 0;
    while i < ids.len()
        invariant
            i <= ids@.len(),
            forall|j: int| 0 <= j < i ==> ids@[j] != *id,
        decreases ids@.len() - i,
    {
        if ids[i] == *id {
            return true;
        }
        i += 1;
    }
    false
}

/// A copy of a list of ids.
pub fn copy_ids(ids: &[NodeId]) -> (r: Vec<NodeId>)
    ensures
        r@ == ids@,
{
    let mut copy: Vec<NodeId> = Vec::new();
    let mut i: usize = 0;
    while i < ids.len()
        invariant
            i <= ids@.len(),
            copy@ == ids@.take(i as int),
        decreases ids@.len() - i,
    {
        copy.push(ids[i]);
        i += 1;
    }
    copy
}

/// Something that belongs to one node, and so has a place in the distance order.
pub trait Located: Sized {
    /// The node it belongs to.
    spec fn location(&self) -> NodeId;

    /// Returns the node it belongs to.
    fn node_id(&self) -> (r: NodeId)
        ensures
            r == self.location(),
    ;
}

impl Located for NodeId {
    open spec fn location(&self) -> NodeId {
        *self
    }

    fn node_id(&self) -> (r: NodeId) {
        *self
    }
}

/// Whether `items` stands in the order of distance from `from`, the closest first.
pub open spec fn ordered_by_distance<T: Located>(items: Seq<T>, from: NodeId) -> bool {
    forall|i: int, j: int|
        #![trigger items[i], items[j]]
        0 <= i <= j < items.len() ==> distance_between(items[i].location(), from)
            <= distance_between(items[j].location(), from)
}

/// The place in `items` of the first item that is farther from `from` than `distance`, if
/// there is one; otherwise the length of `items`.
pub fn first_farther<T: Located>(items: &Vec<T>, from: &NodeId, distance: &NodeDistance) -> (r:
    usize)
    ensures
        r <= items@.len(),
        forall|j: int|
            0 <= j < r ==> distance_between(#[trigger] items@[j].location(), *from)
                <= distance.value,
        r < items@.len() ==> distance_between(items@[r as int].location(), *from)
            > distance.value,
{
    let mut i: usize = 0;
    while i < items.len()
        invariant
            i <= items@.len(),
            forall|j: int|
                0 <= j < i ==> distance_between(#[trigger] items@[j].location(), *from)
                    <= distance.value,
        decreases items@.len() - i,
    {
        let d: NodeDistance = items[i].node_id().distance(from);
        if distance.is_closer_than(&d) {
            return i;
        }
        i += 1;
    }
    i
}

/// The items of `items`, the closest to `from` first.
pub fn sort_by_distance<T: Located>(items: Vec<T>, from: &NodeId) -> (r: Vec<T>)
    ensures
        ordered_by_distance(r@, *from),
        r@.to_multiset() == items@.to_multiset(),
{
    broadcast use {vstd::multiset::group_multiset_axioms, vstd::seq_lib::group_to_multiset_ensures};

    let mut unsorted = items;
    let mut sorted: Vec<T> = Vec::new();
    assert(sorted@.to_multiset().add(unsorted@.to_multiset()) =~= items@.to_multiset());
    while unsorted.len() > 0
        invariant
            ordered_by_distance(sorted@, *from),
            sorted@.to_multiset().add(unsorted@.to_multiset()) == items@.to_multiset(),
        decreases unsorted@.len(),
    {
        let ghost before = sorted@;
        let ghost rest = unsorted@;
        let item: T = unsorted.remove(0);
        let place: usize = first_farther(&sorted, from, &item.node_id().distance(from));
        sorted.insert(place, item);
        proof {
            broadcast use vstd::multiset::group_multiset_axioms;

            assert(rest.contains(item));
            vstd::seq_lib::to_multiset_contains(rest, item);
            vstd::seq_lib::to_multiset_insert(before, place as int, item);
            vstd::seq_lib::to_multiset_remove(rest, 0);
            assert(sorted@.to_multiset().add(unsorted@.to_multiset()) =~= before.to_multiset().add(
                rest.to_multiset(),
            ));
        }
    }
    assert(sorted@.to_multiset().add(unsorted@.to_multiset()) =~= sorted@.to_multiset());
    sorted
}

/// Whether one node is at most as far from `from` as another.
pub open spec fn no_farther(from: NodeId) -> spec_fn(NodeId, NodeId) -> bool {
    |a: NodeId, b: NodeId| distance_between(a, from) <= distance_between(b, from)
}

/// The ids of `ids`, the closest to `from` first.
pub open spec fn by_distance(ids: Seq<NodeId>, from: NodeId) -> Seq<NodeId> {
    ids.sort_by(no_farther(from))
}

/// The `n` ids of `ids` that are closest to `from`, the closest first; all of them if there are
/// not so many.
pub open spec fn nearest(ids: Seq<NodeId>, n: nat, from: NodeId) -> Seq<NodeId> {
    by_distance(ids, from).take(
        if n <= ids.len() {
            n as int
        } else {
            ids.len() as int
        },
    )
}

proof fn lemma_no_farther_total(from: NodeId)
    ensures
        vstd::relations::total_ordering(no_farther(from)),
{
    let leq = no_farther(from);
    assert forall|a: NodeId, b: NodeId| #[trigger] leq(a, b) && #[trigger] leq(b, a) implies a
        == b by {
        law_distance_injective(a, b, from);
    }
    assert(vstd::relations::antisymmetric(leq));
}

/// Sorting keeps the ids and puts them in order, and there is only one way to do so.
pub proof fn lemma_by_distance(ids: Seq<NodeId>, from: NodeId)
    ensures
        ordered_by_distance(by_distance(ids, from), from),
        by_distance(ids, from).to_multiset() == ids.to_multiset(),
        by_distance(ids, from).len() == ids.len(),
        forall|other: Seq<NodeId>|
            #![trigger ordered_by_distance(other, from)]
            ordered_by_distance(other, from) && other.to_multiset() == ids.to_multiset() ==> other
                == by_distance(ids, from),
{
    let leq = no_farther(from);
    let sorted = by_distance(ids, from);
    lemma_no_farther_total(from);
    ids.lemma_sort_by_ensures(leq);
    assert forall|i: int, j: int|
        #![trigger sorted[i], sorted[j]]
        0 <= i <= j < sorted.len() implies distance_between(sorted[i].location(), from)
        <= distance_between(sorted[j].location(), from) by {
        if i < j {
            assert(leq(sorted[i], sorted[j]));
        }
    }
    assert forall|other: Seq<NodeId>|
        #![trigger ordered_by_distance(other, from)]
        ordered_by_distance(other, from) && other.to_multiset() == ids.to_multiset() implies other
        == sorted by {
        assert forall|i: int, j: int| 0 <= i < j < other.len() implies #[trigger] leq(
            other[i],
            other[j],
        ) by {
            assert(other[i].location() == other[i] && other[j].location() == other[j]);
        }
        vstd::seq_lib::lemma_sorted_unique(other, sorted, leq);
    }
    vstd::seq_lib::to_multiset_len(ids);
    vstd::seq_lib::to_multiset_len(sorted);
}

/// What two lists of the same items have in common.
pub proof fn lemma_same_items<T>(a: Seq<T>, b: Seq<T>)
    requires
        a.to_multiset() == b.to_multiset(),
    ensures
        forall|x: T|
            #![trigger a.contains(x)]
            #![trigger b.contains(x)]
            a.contains(x) <==> b.contains(x),
        a.no_duplicates() ==> b.no_duplicates(),
        a.len() == b.len(),
{
    assert forall|x: T|
        #![trigger a.contains(x)]
        #![trigger b.contains(x)]
        a.contains(x) <==> b.contains(x) by {
        vstd::seq_lib::to_multiset_contains(a, x);
        vstd::seq_lib::to_multiset_contains(b, x);
    }
    if a.no_duplicates() {
        a.lemma_multiset_has_no_duplicates();
        b.lemma_multiset_has_no_duplicates_conv();
    }
    vstd::seq_lib::to_multiset_len(a);
    vstd::seq_lib::to_multiset_len(b);
}

/// The nearest ids are ids of the list, in order, and no id that was left out is closer.
pub proof fn law_nearest(ids: Seq<NodeId>, n: nat, from: NodeId)
    ensures
        ordered_by_distance(nearest(ids, n, from), from),
        nearest(ids, n, from).len() == if n <= ids.len() {
            n
        } else {
            ids.len()
        },
        forall|id: NodeId| #[trigger] nearest(ids, n, from).contains(id) ==> ids.contains(id),
        ids.no_duplicates() ==> nearest(ids, n, from).no_duplicates(),
        forall|id: NodeId, i: int|
            #![trigger ids.contains(id), nearest(ids, n, from)[i]]
            ids.contains(id) && !nearest(ids, n, from).contains(id) && 0 <= i < nearest(
                ids,
                n,
                from,
            ).len() ==> distance_between(nearest(ids, n, from)[i], from) <= distance_between(
                id,
                from,
            ),
{
    let sorted = by_distance(ids, from);
    let near = nearest(ids, n, from);
    lemma_by_distance(ids, from);
    lemma_same_items(ids, sorted);
    assert forall|i: int, j: int|
        #![trigger near[i], near[j]]
        0 <= i <= j < near.len() implies distance_between(near[i].location(), from)
        <= distance_between(near[j].location(), from) by {
        assert(sorted[i] == near[i] && sorted[j] == near[j]);
    }
    assert forall|id: NodeId| #[trigger] near.contains(id) implies ids.contains(id) by {
        let i = choose|i: int| 0 <= i < near.len() && near[i] == id;
        assert(sorted[i] == id);
        assert(sorted.contains(id));
    }
    assert forall|id: NodeId, i: int|
        #![trigger ids.contains(id), near[i]]
        ids.contains(id) && !near.contains(id) && 0 <= i < near.len() implies distance_between(
        near[i],
        from,
    ) <= distance_between(id, from) by {
        assert(sorted.contains(id));
        let j = choose|j: int| 0 <= j < sorted.len() && sorted[j] == id;
        if j < near.len() {
            assert(near[j] == id);
        }
        assert(sorted[i] == near[i]);
        assert(distance_between(sorted[i].location(), from) <= distance_between(
            sorted[j].location(),
            from,
        ));
    }
}

/// The distance is the exclusive or of the two ids.
pub proof fn law_distance_bits(a: NodeId, b: NodeId)
    ensures
        distance_between(a, b) == a.key ^ b.key,
{
}

/// To stand in the order of distance is that no id is followed by a closer one.
pub proof fn law_ordered_ids(ids: Seq<NodeId>, from: NodeId)
    ensures
        ordered_by_distance(ids, from) <==> forall|i: int, j: int|
            #![trigger ids[i], ids[j]]
            0 <= i <= j < ids.len() ==> (ids[i].key ^ from.key) <= (ids[j].key ^ from.key),
{
    if forall|i: int, j: int|
        #![trigger ids[i], ids[j]]
        0 <= i <= j < ids.len() ==> (ids[i].key ^ from.key) <= (ids[j].key ^ from.key) {
        assert forall|i: int, j: int|
            #![trigger ids[i], ids[j]]
            0 <= i <= j < ids.len() implies distance_between(ids[i].location(), from)
            <= distance_between(ids[j].location(), from) by {
            assert((ids[i].key ^ from.key) <= (ids[j].key ^ from.key));
        }
    }
    if ordered_by_distance(ids, from) {
        assert forall|i: int, j: int|
            #![trigger ids[i], ids[j]]
            0 <= i <= j < ids.len() implies (ids[i].key ^ from.key) <= (ids[j].key ^ from.key) by {
            assert(distance_between(ids[i].location(), from) <= distance_between(
                ids[j].location(),
                from,
            ));
        }
    }
}

/// However the ids are put in order, the nearest are the first of them.
pub proof fn law_nearest_first(ids: Seq<NodeId>, n: nat, from: NodeId, sorted: Seq<NodeId>)
    requires
        sorted.to_multiset() == ids.to_multiset(),
        forall|i: int, j: int|
            #![trigger sorted[i], sorted[j]]
            0 <= i <= j < sorted.len() ==> (sorted[i].key ^ from.key) <= (sorted[j].key ^ from.key),
    ensures
        by_distance(ids, from) == sorted,
        n <= ids.len() ==> nearest(ids, n, from) == sorted.take(n as int),
        n >= ids.len() ==> nearest(ids, n, from) == sorted,
{
    law_ordered_ids(sorted, from);
    lemma_by_distance(ids, from);
    assert(sorted == by_distance(ids, from));
    assert(sorted.take(sorted.len() as int) =~= sorted);
}

/// The distance is the same in both directions.
pub proof fn law_distance_symmetric(a: NodeId, b: NodeId)
    ensures
        distance_between(a, b) == distance_between(b, a),
{
    let x: u128 = a.key;
    let y: u128 = b.key;
    assert(x ^ y == y ^ x) by (bit_vector);
}

/// Only a node itself is at distance zero from it.
pub proof fn law_distance_zero(a: NodeId, b: NodeId)
    ensures
        distance_between(a, b) == 0 <==> a == b,
{
    let x: u128 = a.key;
    let y: u128 = b.key;
    assert(x ^ y == 0 <==> x == y) by (bit_vector);
}

/// Two different nodes are never at the same distance from a third: the order by distance has
/// no ties.
pub proof fn law_distance_injective(a: NodeId, b: NodeId, from: NodeId)
    ensures
        distance_between(a, from) == distance_between(b, from) <==> a == b,
{
    let x: u128 = a.key;
    let y: u128 = b.key;
    let z: u128 = from.key;
    assert(x ^ z == y ^ z <==> x == y) by (bit_vector);
}

/// No detour is shorter than the direct way.
pub proof fn law_distance_triangle(a: NodeId, b: NodeId, via: NodeId)
    ensures
        distance_between(a, b) <= distance_between(a, via) + distance_between(via, b),
{
    let x: u128 = a.key;
    let y: u128 = b.key;
    let z: u128 = via.key;
    assert((x ^ y) <= (x ^ z) + (z ^ y)) by (bit_vector);
}

} // verus!
