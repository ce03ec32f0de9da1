//! The spatial index: map nodes by their position on the grid, found again
//! by distance.
//!
//! An index is filled once and only read afterwards. It keeps its entries in
//! the order of insertion and answers a query by going through them.

use crate::node::{node_views, MapNode, NodeView};
use crate::planar::{squared_distance, PlanarPoint};
use crate::sequences::{kept_before, lemma_filter_map_place, lemma_filter_map_prefix};
use vstd::prelude::*;

verus! {

/// Why an insertion is refused.
#[derive(Clone, Copy, Debug, PartialEq, Eq, Structural)]
pub enum IndexError {
    /// The index already holds as many entries as it was made for.
    CapacityExhausted,
}

/// A node under the grid position it was indexed with.
#[derive(Clone, Copy, Debug, PartialEq, Eq)]
pub struct IndexEntry<'a> {
    pub point: PlanarPoint,
    pub node: &'a MapNode,
}

/// What an [`IndexEntry`] says.
pub struct EntryView {
    pub point: PlanarPoint,
    pub node: NodeView,
}

impl<'a> View for IndexEntry<'a> {
    type V = EntryView;

    open spec fn view(&self) -> EntryView {
        EntryView { point: self.point, node: self.node@ }
    }
}

/// A node found near a query point, with the exact square of its distance.
#[derive(Clone, Copy, Debug, PartialEq, Eq)]
pub struct Candidate<'a> {
    pub distance_squared: u64,
    pub node: &'a MapNode,
}

/// What a [`Candidate`] says.
pub struct CandidateView {
    pub distance_squared: int,
    pub node: NodeView,
}

impl<'a> View for Candidate<'a> {
    type V = CandidateView;

    open spec fn view(&self) -> CandidateView {
        CandidateView { distance_squared: self.distance_squared as int, node: self.node@ }
    }
}

/// What a list of candidates says, candidate by candidate.
pub open spec fn candidate_views(found: Seq<Candidate>) -> Seq<CandidateView> {
    found.map_values(|c: Candidate| c@)
}

/// What an entry answers to a query: itself with its squared distance, where
/// that does not exceed the squared radius.
pub open spec fn answer(entry: EntryView, point: PlanarPoint, radius_squared: int) -> Option<
    CandidateView,
> {
    if squared_distance(entry.point, point) <= radius_squared {
        Some(
            CandidateView {
                distance_squared: squared_distance(entry.point, point),
                node: entry.node,
            },
        )
    } else {
        None
    }
}

/// The entries within the radius of `point`, in the order of insertion.
pub open spec fn candidates_within(
    entries: Seq<EntryView>,
    point: PlanarPoint,
    radius_squared: int,
) -> Seq<CandidateView> {
    entries.filter_map(|e: EntryView| answer(e, point, radius_squared))
}

/// The entry that a node gives: none where it has no position.
pub open spec fn entry_of(node: NodeView) -> Option<EntryView> {
    match node.position {
        Some(point) => Some(EntryView { point, node }),
        None => None,
    }
}

/// The entries of the index over `nodes`: one for each node that has a
/// position, in the order of the nodes.
pub open spec fn indexable(nodes: Seq<NodeView>) -> Seq<EntryView> {
    nodes.filter_map(|n: NodeView| entry_of(n))
}

/// Every candidate that a query finds stands for an entry of the index
/// within the radius, with the exact square of its distance.
pub proof fn lemma_candidates_are_entries(
    entries: Seq<EntryView>,
    point: PlanarPoint,
    radius_squared: int,
)
    ensures
        forall|c: CandidateView| #[trigger]
            candidates_within(entries, point, radius_squared).contains(c) ==> {
                &&& c.distance_squared <= radius_squared
                &&& exists|i: int|
                    0 <= i < entries.len() && (#[trigger] entries[i]).node == c.node
                        && squared_distance(entries[i].point, point) == c.distance_squared
            },
{
    let f = |e: EntryView| answer(e, point, radius_squared);
    assert forall|c: CandidateView| #[trigger]
        candidates_within(entries, point, radius_squared).contains(c) implies {
        &&& c.distance_squared <= radius_squared
        &&& exists|i: int|
            0 <= i < entries.len() && (#[trigger] entries[i]).node == c.node && squared_distance(
                entries[i].point,
                point,
            ) == c.distance_squared
    } by {
        entries.lemma_filter_map_contains(f, c);
        let e = choose|e: EntryView| #[trigger] entries.contains(e) && f(e) == Some(c);
        let i = choose|i: int| 0 <= i < entries.len() && entries[i] == e;
        assert(entries[i].node == c.node);
    }
}

/// Every entry within the radius is found by the query.
pub proof fn lemma_entries_are_candidates(
    entries: Seq<EntryView>,
    point: PlanarPoint,
    radius_squared: int,
    i: int,
)
    requires
        0 <= i < entries.len(),
        squared_distance(entries[i].point, point) <= radius_squared,
    ensures
        candidates_within(entries, point, radius_squared).contains(
            CandidateView {
                distance_squared: squared_distance(entries[i].point, point),
                node: entries[i].node,
            },
        ),
{
    let answer_to = |e: EntryView| answer(e, point, radius_squared);
    lemma_filter_map_place(entries, answer_to, i);
    assert(entries.filter_map(answer_to)[kept_before(entries, answer_to, i)] == answer_to(
        entries[i],
    )->0);
}

/// A node without coordinates is never returned: whatever is asked of the
/// index over `nodes`, every node that comes back is one of `nodes`, has a
/// position, and lies at the stated distance from the query point.
pub proof fn lemma_unpositioned_never_returned(
    nodes: Seq<NodeView>,
    point: PlanarPoint,
    radius_squared: int,
)
    ensures
        forall|c: CandidateView| #[trigger]
            candidates_within(indexable(nodes), point, radius_squared).contains(c) ==> {
                &&& nodes.contains(c.node)
                &&& c.node.position is Some
                &&& c.distance_squared == squared_distance(c.node.position->0, point)
                &&& c.distance_squared <= radius_squared
            },
        forall|i: int, c: CandidateView|
            0 <= i < nodes.len() && (#[trigger] nodes[i]).position is None && #[trigger]
            candidates_within(indexable(nodes), point, radius_squared).contains(c) ==> c.node
                != nodes[i],
{
    let entries = indexable(nodes);
    lemma_candidates_are_entries(entries, point, radius_squared);
    assert forall|c: CandidateView| #[trigger]
        candidates_within(entries, point, radius_squared).contains(c) implies {
        &&& nodes.contains(c.node)
        &&& c.node.position is Some
        &&& c.distance_squared == squared_distance(c.node.position->0, point)
        &&& c.distance_squared <= radius_squared
    } by {
        let i = choose|i: int|
            0 <= i < entries.len() && (#[trigger] entries[i]).node == c.node && squared_distance(
                entries[i].point,
                point,
            ) == c.distance_squared;
        assert(entries.contains(entries[i]));
        nodes.lemma_filter_map_contains(|n: NodeView| entry_of(n), entries[i]);
    }
}

/// Whatever a query finds within a squared radius, the same query finds
/// within any squared radius that is no smaller.
pub proof fn lemma_radius_squared_monotone(
    entries: Seq<EntryView>,
    point: PlanarPoint,
    smaller: int,
    larger: int,
)
    requires
        smaller <= larger,
    ensures
        forall|c: CandidateView| #[trigger]
            candidates_within(entries, point, smaller).contains(c) ==> candidates_within(
                entries,
                point,
                larger,
            ).contains(c),
{
    lemma_candidates_are_entries(entries, point, smaller);
    assert forall|c: CandidateView| #[trigger]
        candidates_within(entries, point, smaller).contains(c) implies candidates_within(
        entries,
        point,
        larger,
    ).contains(c) by {
        let i = choose|i: int|
            0 <= i < entries.len() && (#[trigger] entries[i]).node == c.node && squared_distance(
                entries[i].point,
                point,
            ) == c.distance_squared;
        lemma_entries_are_candidates(entries, point, larger, i);
    }
}

/// Widening the search radius only adds candidates: whatever a query finds
/// within a radius, the same query finds within any radius that is no
/// smaller. None is ever lost.
pub proof fn lemma_radius_monotone(
    entries: Seq<EntryView>,
    point: PlanarPoint,
    smaller: int,
    larger: int,
)
    requires
        0 <= smaller <= larger,
    ensures
        forall|c: CandidateView| #[trigger]
            candidates_within(entries, point, smaller * smaller).contains(c)
                ==> candidates_within(entries, point, larger * larger).contains(c),
{
    assert(smaller * smaller <= larger * larger) by (nonlinear_arith)
        requires
            0 <= smaller <= larger,
    ;
    lemma_radius_squared_monotone(entries, point, smaller * smaller, larger * larger);
}

/// A two-dimensional index over grid positions. Nodes at the same position
/// are kept side by side.
pub struct SpatialIndex<'a> {
    entries: Vec<IndexEntry<'a>>,
    capacity: usize,
}

impl<'a> View for SpatialIndex<'a> {
    type V = Seq<EntryView>;

    closed spec fn view(&self) -> Seq<EntryView> {
        self.entries@.map_values(|e: IndexEntry| e@)
    }
}

impl<'a> SpatialIndex<'a> {
    /// The number of entries the index was made for.
    pub closed spec fn spec_capacity(&self) -> usize {
        self.capacity
    }

    /// The number of entries the index was made for.
    #[verifier::when_used_as_spec(spec_capacity)]
    pub fn capacity(&self) -> (c: usize)
        ensures
            c == self.capacity(),
    {
        self.capacity
    }

    /// An empty index for up to `capacity` entries.
    pub fn with_capacity(capacity: usize) -> (index: SpatialIndex<'a>)
        ensures
            index@ == Seq::<EntryView>::empty(),
            index.capacity() == capacity,
    {
        let index = SpatialIndex { entries: Vec::with_capacity(capacity), capacity };
        assert(index@ =~= Seq::<EntryView>::empty());
        index
    }

    /// The number of entries.
    pub fn len(&self) -> (n: usize)
        ensures
            n == self@.len(),
    {
        self.entries.len()
    }

    /// Adds a node under a position, after all earlier entries. It is
    /// refused, and the index left as it was, where the index is full.
    pub fn insert(&mut self, point: PlanarPoint, node: &'a MapNode) -> (r: Result<(), IndexError>)
        ensures
            final(self).capacity() == old(self).capacity(),
            match r {
                Ok(_) => old(self)@.len() < old(self).capacity() && final(self)@ == old(self)@.push(
                    EntryView { point, node: node@ },
                ),
                Err(e) => e == IndexError::CapacityExhausted && old(self)@.len() >= old(
                    self,
                ).capacity() && final(self)@ == old(self)@,
            },
    {
        if self.entries.len() >= self.capacity {
            return Err(IndexError::CapacityExhausted);
        }
        self.entries.push(IndexEntry { point, node });
        assert(self@ =~= old(self)@.push(EntryView { point, node: node@ }));
        Ok(())
    }

    /// All entries whose squared distance to `point` does not exceed
    /// `radius_squared`, each with that squared distance, in the order of
    /// insertion.
    pub fn query_within(&self, point: &PlanarPoint, radius_squared: u64) -> (found: Vec<
        Candidate<'a>,
    >)
        ensures
            candidate_views(found@) == candidates_within(self@, *point, radius_squared as int),
    {
        let ghost answer_to = |e: EntryView| answer(e, *point, radius_squared as int);
        let mut found: Vec<Candidate<'a>> = Vec::new();
        let mut i: usize = 0;
        assert(candidate_views(found@) =~= self@.take(0).filter_map(answer_to));
        while i < self.entries.len()
            invariant
                i <= self.entries@.len(),
                answer_to == |e: EntryView| answer(e, *point, radius_squared as int),
                candidate_views(found@) == self@.take(i as int).filter_map(answer_to),
            decreases self.entries@.len() - i,
        {
            let entry = &self.entries[i];
            let d = entry.point.squared_distance_to(point);
            let ghost before = candidate_views(found@);
            proof {
                self@.lemma_filter_map_take_succ(answer_to, i as int);
                assert(self@[i as int] == entry@);
            }
            if d <= radius_squared as u128 {
                let c = Candidate { distance_squared: d as u64, node: entry.node };
                found.push(c);
                assert(candidate_views(found@) =~= before.push(c@));
            }
            i += 1;
        }
        assert(self@.take(self@.len() as int) =~= self@);
        found
    }
}

/// The number of nodes that have a position.
pub fn count_positioned(nodes: &Vec<MapNode>) -> (n: usize)
    ensures
        n == indexable(node_views(nodes@)).len(),
{
    let ghost all = node_views(nodes@);
    let ghost entry = |n: NodeView| entry_of(n);
    let mut n: usize = 0;
    let mut i: usize = 0;
    while i < nodes.len()
        invariant
            i <= nodes@.len(),
            all == node_views(nodes@),
            entry == |n: NodeView| entry_of(n),
            n == all.take(i as int).filter_map(entry).len(),
            n <= i,
        decreases nodes@.len() - i,
    {
        proof {
            all.lemma_filter_map_take_succ(entry, i as int);
        }
        if nodes[i].position.is_some() {
            n += 1;
        }
        i += 1;
    }
    assert(all.take(nodes@.len() as int) =~= all);
    n
}

/// Builds the index over the nodes of the map: one entry for each node that
/// has a position, in the order of the nodes, in an index made for just as
/// many. Nodes without coordinates are left out.
pub fn build_index<'a>(nodes: &'a Vec<MapNode>) -> (index: SpatialIndex<'a>)
    ensures
        index@ == indexable(node_views(nodes@)),
        index.capacity() == index@.len(),
{
    let ghost all = node_views(nodes@);
    let ghost entry = |n: NodeView| entry_of(n);
    let capacity = count_positioned(nodes);
    let mut index = SpatialIndex::with_capacity(capacity);
    let mut i: usize = 0;
    while i < nodes.len()
        invariant
            i <= nodes@.len(),
            all == node_views(nodes@),
            entry == |n: NodeView| entry_of(n),
            index.capacity() == all.filter_map(entry).len(),
            index@ == all.take(i as int).filter_map(entry),
        decreases nodes@.len() - i,
    {
        proof {
            all.lemma_filter_map_take_succ(entry, i as int);
            lemma_filter_map_prefix(all, entry, i + 1);
        }
        let node = &nodes[i];
        match node.position {
            Some(point) => {
                let inserted = index.insert(point, node);
                assert(inserted is Ok);
            },
            None => {},
        }
        i += 1;
    }
    assert(all.take(nodes@.len() as int) =~= all);
    index
}

} // verus!
