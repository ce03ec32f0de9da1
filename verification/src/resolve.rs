//! The match resolver: what is to be done about each survey record.
//!
//! A record is held against the map nodes that lie within the search radius
//! of it and bear exactly its name. None: the peak is new. One: that node is
//! updated. Several: the record is skipped, because picking one would risk
//! merging two distinct peaks.

use crate::index::{
    answer, candidate_views, candidates_within, entry_of, indexable,
    lemma_unpositioned_never_returned, Candidate, CandidateView, EntryView, SpatialIndex,
};
use crate::sequences::{lemma_filter_is_filter_map, lemma_filter_map_twice};
use crate::node::{MapNode, NodeView};
use crate::planar::{floor_sqrt, integer_sqrt, squared_distance};
use crate::survey::{peak_views, PeakView, SurveyPeak};
use crate::tags::{find_tag, lookup, name_key};
use crate::text::same_text;
use vstd::prelude::*;

verus! {

/// Why a survey record is passed over.
#[derive(Clone, Copy, Debug, PartialEq, Eq, Structural)]
pub enum SkipReason {
    /// This many nodes of the record's name lie within the search radius,
    /// and they are more than one.
    Ambiguous { candidates: usize },
}

/// What is to be done about one survey record.
#[derive(Clone, Copy, Debug, PartialEq, Eq)]
pub enum MatchDecision<'a> {
    /// No node of that name is near: the peak is new to the map, and gets a
    /// provisional identifier below zero.
    Create { record: &'a SurveyPeak, id: i64 },
    /// Exactly one node of that name is near: it is the peak, at this
    /// squared distance from the record.
    Update { record: &'a SurveyPeak, node: &'a MapNode, distance_squared: u64 },
    /// The record is passed over.
    Skip { record: &'a SurveyPeak, reason: SkipReason },
}

/// What a [`MatchDecision`] says.
pub enum DecisionView {
    Create { record: PeakView, id: int },
    Update { record: PeakView, node: NodeView, distance_squared: int },
    Skip { record: PeakView, reason: SkipReason },
}

impl<'a> View for MatchDecision<'a> {
    type V = DecisionView;

    open spec fn view(&self) -> DecisionView {
        match *self {
            MatchDecision::Create { record, id } => DecisionView::Create {
                record: record@,
                id: id as int,
            },
            MatchDecision::Update { record, node, distance_squared } => DecisionView::Update {
                record: record@,
                node: node@,
                distance_squared: distance_squared as int,
            },
            MatchDecision::Skip { record, reason } => DecisionView::Skip { record: record@, reason },
        }
    }
}

impl DecisionView {
    /// The survey record that the decision is about.
    pub open spec fn record(self) -> PeakView {
        match self {
            DecisionView::Create { record, .. } => record,
            DecisionView::Update { record, .. } => record,
            DecisionView::Skip { record, .. } => record,
        }
    }
}

/// What a list of decisions says, decision by decision.
pub open spec fn decision_views(decisions: Seq<MatchDecision>) -> Seq<DecisionView> {
    decisions.map_values(|d: MatchDecision| d@)
}

/// Whether a node bears the given name: its first `name` tag says exactly
/// that, character for character.
pub open spec fn bears_name(node: NodeView, name: Seq<char>) -> bool {
    lookup(node.tags, name_key()) == Some(name)
}

/// The candidates that bear the given name, in their order.
pub open spec fn same_named(found: Seq<CandidateView>, name: Seq<char>) -> Seq<CandidateView> {
    found.filter(|c: CandidateView| bears_name(c.node, name))
}

/// What a node of the map answers to a record: itself with its squared
/// distance, where it has a position within the radius of the record and
/// bears the record's name.
pub open spec fn near_namesake(node: NodeView, record: PeakView, radius_squared: int) -> Option<
    CandidateView,
> {
    match node.position {
        Some(point) => if squared_distance(point, record.position) <= radius_squared && bears_name(
            node,
            record.name,
        ) {
            Some(
                CandidateView {
                    distance_squared: squared_distance(point, record.position),
                    node,
                },
            )
        } else {
            None
        },
        None => None,
    }
}

/// The nodes of the map that a record is held against, in the order of the
/// map: those with a position within the radius that bear its name.
pub open spec fn near_namesakes(nodes: Seq<NodeView>, record: PeakView, radius_squared: int) -> Seq<
    CandidateView,
> {
    nodes.filter_map(|n: NodeView| near_namesake(n, record, radius_squared))
}

/// The decision that a list of near namesakes gives for a record.
pub open spec fn decision_among(named: Seq<CandidateView>, record: PeakView, ordinal: int)
    -> DecisionView {
    if named.len() == 0 {
        DecisionView::Create { record, id: synthetic_id(ordinal) }
    } else if named.len() == 1 {
        DecisionView::Update {
            record,
            node: named[0].node,
            distance_squared: named[0].distance_squared,
        }
    } else {
        DecisionView::Skip {
            record,
            reason: SkipReason::Ambiguous { candidates: named.len() as usize },
        }
    }
}

/// The provisional identifier of the new peak that the record at `ordinal`
/// gives rise to: the records are counted from one, and the count is negated.
pub open spec fn synthetic_id(ordinal: int) -> int {
    -(ordinal + 1)
}

/// The decision about the record that stands at `ordinal` in the survey.
pub open spec fn decision(
    entries: Seq<EntryView>,
    record: PeakView,
    ordinal: int,
    radius_squared: int,
) -> DecisionView {
    decision_among(
        same_named(candidates_within(entries, record.position, radius_squared), record.name),
        record,
        ordinal,
    )
}

/// The decisions about a whole survey: one for each record, in the order of
/// the records.
pub open spec fn decisions(
    entries: Seq<EntryView>,
    survey: Seq<PeakView>,
    radius_squared: int,
) -> Seq<DecisionView> {
    Seq::new(survey.len(), |i: int| decision(entries, survey[i], i, radius_squared))
}

/// Every record of the survey gets exactly one decision, and the decisions
/// stand in the order of the records: the decision at each place is about the
/// record at that place, and there is no other.
pub proof fn lemma_one_decision_per_record(
    entries: Seq<EntryView>,
    survey: Seq<PeakView>,
    radius_squared: int,
)
    ensures
        decisions(entries, survey, radius_squared).len() == survey.len(),
        forall|i: int|
            0 <= i < survey.len() ==> (#[trigger] decisions(
                entries,
                survey,
                radius_squared,
            )[i]).record() == survey[i],
{
}

/// The identifier of a new peak is fixed by the place of its record alone:
/// the first record gives -1, the next -2, and so on. So the identifiers of
/// new peaks are below zero, and no two decisions of one run give the same.
pub proof fn lemma_synthetic_ids_negative_and_distinct(
    entries: Seq<EntryView>,
    survey: Seq<PeakView>,
    radius_squared: int,
)
    ensures
        forall|i: int|
            0 <= i < survey.len() ==> (#[trigger] decisions(entries, survey, radius_squared)[i]
                matches DecisionView::Create { id, .. } ==> id == -(i + 1) && id < 0),
        forall|i: int, j: int|
            0 <= i < j < survey.len() ==> (#[trigger] decisions(entries, survey, radius_squared)[i]
                matches DecisionView::Create { id: first, .. } ==> (#[trigger] decisions(
                entries,
                survey,
                radius_squared,
            )[j] matches DecisionView::Create { id: second, .. } ==> first != second)),
{
}

/// Asking the index over a map and keeping the candidates of a record's name
/// gives the near namesakes of the record among the nodes of the map: a
/// node without a position, one beyond the radius and one of another name
/// are never among them, and every other node is.
pub proof fn lemma_namesakes_by_node(nodes: Seq<NodeView>, record: PeakView, radius_squared: int)
    ensures
        same_named(
            candidates_within(indexable(nodes), record.position, radius_squared),
            record.name,
        ) == near_namesakes(nodes, record, radius_squared),
{
    let entry = |n: NodeView| entry_of(n);
    let answer_to = |e: EntryView| answer(e, record.position, radius_squared);
    let found = |n: NodeView|
        match entry_of(n) {
            Some(e) => answer(e, record.position, radius_squared),
            None => None,
        };
    let bears = |c: CandidateView| bears_name(c.node, record.name);
    let keep = |c: CandidateView|
        if bears_name(c.node, record.name) {
            Some(c)
        } else {
            None
        };
    let near = |n: NodeView| near_namesake(n, record, radius_squared);
    lemma_filter_map_twice(nodes, entry, answer_to, found);
    lemma_filter_is_filter_map(nodes.filter_map(found), bears, keep);
    lemma_filter_map_twice(nodes, found, keep, near);
}

/// The decision about a record is the one that its near namesakes among the
/// nodes of the map give: a create where there is none, an update of the one
/// where there is one, a skip where there are more.
pub proof fn lemma_decision_by_namesakes(
    nodes: Seq<NodeView>,
    record: PeakView,
    ordinal: int,
    radius_squared: int,
)
    ensures
        decision(indexable(nodes), record, ordinal, radius_squared) == decision_among(
            near_namesakes(nodes, record, radius_squared),
            record,
            ordinal,
        ),
{
    lemma_namesakes_by_node(nodes, record, radius_squared);
}

/// Every node that a decision updates is a node of the map, found within
/// the radius of its record, with a position and the record's name on it.
pub proof fn lemma_updated_nodes_are_near_namesakes(
    nodes: Seq<NodeView>,
    record: PeakView,
    ordinal: int,
    radius_squared: int,
)
    ensures
        decision(indexable(nodes), record, ordinal, radius_squared) matches DecisionView::Update {
            node,
            distance_squared,
            ..
        } ==> {
            &&& nodes.contains(node)
            &&& bears_name(node, record.name)
            &&& node.position is Some
            &&& distance_squared == squared_distance(node.position->0, record.position)
            &&& distance_squared <= radius_squared
        },
{
    let found = candidates_within(indexable(nodes), record.position, radius_squared);
    let bears = |c: CandidateView| bears_name(c.node, record.name);
    let named = same_named(found, record.name);
    if named.len() == 1 {
        assert(named.contains(named[0]));
        found.lemma_filter_contains_rev(bears, named[0]);
        found.lemma_filter_pred(bears, 0);
        lemma_unpositioned_never_returned(nodes, record.position, radius_squared);
    }
}

/// Whether a node bears the given name.
pub fn names_match(node: &MapNode, name: &str) -> (r: bool)
    ensures
        r == bears_name(node@, name@),
{
    match find_tag(&node.tags, "name") {
        Some(v) => same_text(v.as_str(), name),
        None => false,
    }
}

/// Keeps the candidates that bear the given name, in their order.
pub fn filter_by_name<'a>(found: &Vec<Candidate<'a>>, name: &str) -> (named: Vec<Candidate<'a>>)
    ensures
        candidate_views(named@) == same_named(candidate_views(found@), name@),
{
    let ghost all = candidate_views(found@);
    let ghost bears = |c: CandidateView| bears_name(c.node, name@);
    let mut named: Vec<Candidate<'a>> = Vec::new();
    let mut i: usize = 0;
    assert(candidate_views(named@) =~= all.take(0).filter(bears)) by {
        reveal(Seq::filter);
    }
    while i < found.len()
        invariant
            i <= found@.len(),
            all == candidate_views(found@),
            bears == |c: CandidateView| bears_name(c.node, name@),
            candidate_views(named@) == all.take(i as int).filter(bears),
        decreases found@.len() - i,
    {
        let ghost before = candidate_views(named@);
        proof {
            reveal(Seq::filter);
            assert(all.take(i + 1).drop_last() =~= all.take(i as int));
        }
        if names_match(found[i].node, name) {
            named.push(found[i]);
            assert(candidate_views(named@) =~= before.push(all[i as int]));
        }
        i += 1;
    }
    assert(all.take(found@.len() as int) =~= all);
    named
}

/// The provisional identifier for the record at `ordinal`.
pub fn provisional_id(ordinal: usize) -> (id: i64)
    requires
        ordinal <= i64::MAX,
    ensures
        id == synthetic_id(ordinal as int),
        id < 0,
{
    -(ordinal as i64) - 1
}

/// Decides about the record that stands at `ordinal` in the survey.
pub fn decide<'a>(
    index: &SpatialIndex<'a>,
    record: &'a SurveyPeak,
    ordinal: usize,
    radius_squared: u64,
) -> (d: MatchDecision<'a>)
    requires
        ordinal <= i64::MAX,
    ensures
        d@ == decision(index@, record@, ordinal as int, radius_squared as int),
{
    let found = index.query_within(&record.position, radius_squared);
    let named = filter_by_name(&found, record.name.as_str());
    if named.len() == 0 {
        MatchDecision::Create { record, id: provisional_id(ordinal) }
    } else if named.len() == 1 {
        MatchDecision::Update {
            record,
            node: named[0].node,
            distance_squared: named[0].distance_squared,
        }
    } else {
        MatchDecision::Skip { record, reason: SkipReason::Ambiguous { candidates: named.len() } }
    }
}

/// Decides about every record of the survey, in the order of the records.
pub fn resolve_all<'a>(
    index: &SpatialIndex<'a>,
    survey: &'a Vec<SurveyPeak>,
    radius_squared: u64,
) -> (made: Vec<MatchDecision<'a>>)
    requires
        survey@.len() <= i64::MAX,
    ensures
        decision_views(made@) == decisions(index@, peak_views(survey@), radius_squared as int),
{
    let mut made: Vec<MatchDecision<'a>> = Vec::with_capacity(survey.len());
    let mut i: usize = 0;
    while i < survey.len()
        invariant
            i <= survey@.len() <= i64::MAX,
            made@.len() == i,
            forall|j: int|
                0 <= j < i ==> (#[trigger] made@[j])@ == decision(
                    index@,
                    survey@[j]@,
                    j,
                    radius_squared as int,
                ),
        decreases survey@.len() - i,
    {
        made.push(decide(index, &survey[i], i, radius_squared));
        i += 1;
    }
    assert(decision_views(made@) =~= decisions(
        index@,
        peak_views(survey@),
        radius_squared as int,
    ));
    made
}

impl<'a> MatchDecision<'a> {
    /// The survey record that the decision is about.
    pub fn record(&self) -> (r: &'a SurveyPeak)
        ensures
            r@ == self@.record(),
    {
        match *self {
            MatchDecision::Create { record, .. } => record,
            MatchDecision::Update { record, .. } => record,
            MatchDecision::Skip { record, .. } => record,
        }
    }

    /// For an update, the distance between the record and the node in whole
    /// metres, rounded down.
    pub fn distance(&self) -> (r: Option<u32>)
        ensures
            match self@ {
                DecisionView::Update { distance_squared, .. } => r == Some(
                    floor_sqrt(distance_squared) as u32,
                ),
                _ => r is None,
            },
    {
        match *self {
            MatchDecision::Update { distance_squared, .. } => Some(integer_sqrt(distance_squared)),
            _ => None,
        }
    }
}

} // verus!
