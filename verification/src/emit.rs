//! From decisions to edits: what the diff says, element by element.
//!
//! An edit is a structured record; writing it down as markup is left to the
//! caller.

use crate::config::Config;
use crate::index::{build_index, indexable};
use crate::node::{node_views, MapNode, NodeView};
use crate::planar::squared_distance;
use crate::resolve::{
    bears_name, decision, decision_among, decision_views, decisions, lemma_decision_by_namesakes,
    lemma_updated_nodes_are_near_namesakes, near_namesake, near_namesakes, resolve_all,
    synthetic_id, DecisionView, MatchDecision,
};
use crate::sequences::{
    lemma_filter_map_place, lemma_filter_map_places_rise, lemma_filter_map_sources,
};
use crate::survey::{peak_views, rounded_metres, PeakView, SurveyPeak};
use crate::tags::{
    copy_tags, ele_key, has_key, has_tag, keys_unique, lookup, name_key, natural_key, peak_value,
    tag_views, Tag, TagView,
};
use crate::text::{signed_decimal, signed_decimal_string};
use vstd::prelude::*;

verus! {

/// What an edit asks of the map.
#[derive(Clone, Copy, Debug, PartialEq, Eq, Structural)]
pub enum EditAction {
    /// A node that the map does not have yet.
    Create,
    /// A change to a node that the map has.
    Modify,
}

/// One node element of the diff.
#[derive(Clone, Debug, PartialEq, Eq)]
pub struct NodeEdit {
    pub action: EditAction,
    /// The node's identifier: for a new node a provisional one below zero,
    /// else that of the map node.
    pub id: i64,
    /// The revision counter of the map node; none for a new node.
    pub version: Option<u32>,
    /// Latitude of the survey record, in units of 1e-7 degree.
    pub lat: i32,
    /// Longitude of the survey record, in units of 1e-7 degree.
    pub lon: i32,
    /// The tags of the element, in order.
    pub tags: Vec<Tag>,
}

/// What a [`NodeEdit`] says.
pub struct EditView {
    pub action: EditAction,
    pub id: int,
    pub version: Option<u32>,
    pub lat: i32,
    pub lon: i32,
    pub tags: Seq<TagView>,
}

impl View for NodeEdit {
    type V = EditView;

    open spec fn view(&self) -> EditView {
        EditView {
            action: self.action,
            id: self.id as int,
            version: self.version,
            lat: self.lat,
            lon: self.lon,
            tags: tag_views(self.tags@),
        }
    }
}

/// What a list of edits says, edit by edit.
pub open spec fn edit_views(edits: Seq<NodeEdit>) -> Seq<EditView> {
    edits.map_values(|e: NodeEdit| e@)
}

/// The elevation tag that a survey height gives: the height in whole metres,
/// in decimal, with a minus sign where it lies below sea level.
pub open spec fn elevation_tag(ele: int) -> TagView {
    TagView { key: ele_key(), value: signed_decimal(rounded_metres(ele)) }
}

/// The tags of a new peak: its name, its elevation, and the mark of a peak.
pub open spec fn created_tags(record: PeakView) -> Seq<TagView> {
    seq![
        TagView { key: name_key(), value: record.name },
        elevation_tag(record.ele as int),
        TagView { key: natural_key(), value: peak_value() },
    ]
}

/// The tags of an updated node: all that the node has, as they are; and
/// after them the survey's elevation, but only where the node states none.
pub open spec fn reconciled_tags(node_tags: Seq<TagView>, ele: int) -> Seq<TagView> {
    if has_key(node_tags, ele_key()) {
        node_tags
    } else {
        node_tags.push(elevation_tag(ele))
    }
}

/// The element for a new peak.
pub open spec fn created_edit(id: int, record: PeakView) -> EditView {
    EditView {
        action: EditAction::Create,
        id,
        version: None,
        lat: record.lat,
        lon: record.lon,
        tags: created_tags(record),
    }
}

/// The element for an updated node: the node's identifier and revision, the
/// survey's coordinates, and the reconciled tags.
pub open spec fn modified_edit(node: NodeView, record: PeakView) -> EditView {
    EditView {
        action: EditAction::Modify,
        id: node.id as int,
        version: Some(node.version),
        lat: record.lat,
        lon: record.lon,
        tags: reconciled_tags(node.tags, record.ele as int),
    }
}

/// The element that a decision gives: none for a record that is skipped.
pub open spec fn edit_of(decision: DecisionView) -> Option<EditView> {
    match decision {
        DecisionView::Create { record, id } => Some(created_edit(id, record)),
        DecisionView::Update { record, node, .. } => Some(modified_edit(node, record)),
        DecisionView::Skip { .. } => None,
    }
}

/// The elements that a list of decisions gives, in the order of the
/// decisions.
pub open spec fn edits_of(decisions: Seq<DecisionView>) -> Seq<EditView> {
    decisions.filter_map(|d: DecisionView| edit_of(d))
}

/// The whole diff for a map and a survey.
pub open spec fn diff(nodes: Seq<NodeView>, survey: Seq<PeakView>, radius_squared: int) -> Seq<
    EditView,
> {
    edits_of(decisions(indexable(nodes), survey, radius_squared))
}

/// An update never overwrites what the node has: in the element its tags
/// come first, each as it was and where it was. An elevation that the node
/// states is what the element states too, whatever the survey says; only a
/// node without one gets the survey's, after its own tags.
pub proof fn lemma_update_keeps_tags(node: NodeView, record: PeakView)
    ensures
        modified_edit(node, record).tags.len() >= node.tags.len(),
        modified_edit(node, record).tags.take(node.tags.len() as int) == node.tags,
        has_key(node.tags, ele_key()) ==> modified_edit(node, record).tags == node.tags && lookup(
            modified_edit(node, record).tags,
            ele_key(),
        ) == lookup(node.tags, ele_key()),
        !has_key(node.tags, ele_key()) ==> modified_edit(node, record).tags == node.tags.push(
            elevation_tag(record.ele as int),
        ),
{
    assert(modified_edit(node, record).tags.take(node.tags.len() as int) =~= node.tags);
}

/// The tags of an element never hold a key twice, provided the node's do
/// not.
pub proof fn lemma_edit_keys_unique(decision: DecisionView)
    requires
        decision matches DecisionView::Update { node, .. } ==> node.well_formed(),
    ensures
        edit_of(decision) matches Some(edit) ==> keys_unique(edit.tags),
{
    match decision {
        DecisionView::Create { record, id } => {
            reveal_strlit("name");
            reveal_strlit("ele");
            reveal_strlit("natural");
            assert(name_key().len() == 4 && ele_key().len() == 3 && natural_key().len() == 7);
        },
        DecisionView::Update { record, node, .. } => {},
        DecisionView::Skip { .. } => {},
    }
}

/// In the diff of one run, the elements for new peaks bear identifiers
/// below zero, and no two of them bear the same.
pub proof fn lemma_created_ids_negative_and_distinct(
    nodes: Seq<NodeView>,
    survey: Seq<PeakView>,
    radius_squared: int,
)
    ensures
        forall|k: int|
            0 <= k < diff(nodes, survey, radius_squared).len() && (#[trigger] diff(
                nodes,
                survey,
                radius_squared,
            )[k]).action == EditAction::Create ==> diff(nodes, survey, radius_squared)[k].id < 0,
        forall|k: int, l: int|
            0 <= k < l < diff(nodes, survey, radius_squared).len() && (#[trigger] diff(
                nodes,
                survey,
                radius_squared,
            )[k]).action == EditAction::Create && (#[trigger] diff(
                nodes,
                survey,
                radius_squared,
            )[l]).action == EditAction::Create ==> diff(nodes, survey, radius_squared)[k].id
                != diff(nodes, survey, radius_squared)[l].id,
{
    let made = decisions(indexable(nodes), survey, radius_squared);
    let edits = diff(nodes, survey, radius_squared);
    let sources = lemma_filter_map_sources(made, |d: DecisionView| edit_of(d));
    assert forall|k: int| 0 <= k < edits.len() && (#[trigger] edits[k]).action
        == EditAction::Create implies edits[k].id == synthetic_id(sources[k]) by {
        assert(edit_of(made[sources[k]]) == Some(edits[k]));
    }
}

/// Where no node of the map holds a key twice, no element of the diff does.
pub proof fn lemma_diff_keys_unique(
    nodes: Seq<NodeView>,
    survey: Seq<PeakView>,
    radius_squared: int,
)
    requires
        forall|i: int| 0 <= i < nodes.len() ==> (#[trigger] nodes[i]).well_formed(),
    ensures
        forall|k: int|
            0 <= k < diff(nodes, survey, radius_squared).len() ==> keys_unique(
                (#[trigger] diff(nodes, survey, radius_squared)[k]).tags,
            ),
{
    let made = decisions(indexable(nodes), survey, radius_squared);
    let edits = diff(nodes, survey, radius_squared);
    let sources = lemma_filter_map_sources(made, |d: DecisionView| edit_of(d));
    assert forall|k: int| 0 <= k < edits.len() implies keys_unique((#[trigger] edits[k]).tags) by {
        let i = sources[k];
        assert(edit_of(made[i]) == Some(edits[k]));
        lemma_updated_nodes_are_near_namesakes(nodes, survey[i], i, radius_squared);
        if let DecisionView::Update { node, .. } = made[i] {
            let j = choose|j: int| 0 <= j < nodes.len() && nodes[j] == node;
            assert(nodes[j].well_formed());
        }
        lemma_edit_keys_unique(made[i]);
    }
}

/// A record without a near namesake on the map makes a new node: the
/// decision is a create with the provisional identifier of the record's
/// place, and the element is that of a new peak at the record's coordinates.
pub proof fn lemma_no_namesake_creates(
    nodes: Seq<NodeView>,
    record: PeakView,
    ordinal: int,
    radius_squared: int,
)
    requires
        forall|j: int|
            0 <= j < nodes.len() ==> near_namesake(#[trigger] nodes[j], record, radius_squared)
                is None,
    ensures
        decision(indexable(nodes), record, ordinal, radius_squared) == (DecisionView::Create {
            record,
            id: synthetic_id(ordinal),
        }),
        edit_of(decision(indexable(nodes), record, ordinal, radius_squared)) == Some(
            created_edit(synthetic_id(ordinal), record),
        ),
{
    lemma_decision_by_namesakes(nodes, record, ordinal, radius_squared);
    let near = |n: NodeView| near_namesake(n, record, radius_squared);
    let sources = lemma_filter_map_sources(nodes, near);
    if sources.len() > 0 {
        assert(near(nodes[sources[0]]) is Some);
    }
}

/// Nodes without coordinates never stand in the way of a new node: where
/// every node of the record's name lacks a position, the record makes a new
/// node, whatever those nodes are and wherever the record lies.
pub proof fn lemma_unpositioned_namesakes_create(
    nodes: Seq<NodeView>,
    record: PeakView,
    ordinal: int,
    radius_squared: int,
)
    requires
        forall|j: int|
            0 <= j < nodes.len() && bears_name(#[trigger] nodes[j], record.name)
                ==> nodes[j].position is None,
    ensures
        decision(indexable(nodes), record, ordinal, radius_squared) == (DecisionView::Create {
            record,
            id: synthetic_id(ordinal),
        }),
        edit_of(decision(indexable(nodes), record, ordinal, radius_squared)) == Some(
            created_edit(synthetic_id(ordinal), record),
        ),
{
    lemma_no_namesake_creates(nodes, record, ordinal, radius_squared);
}

/// A record with exactly one near namesake on the map updates that node: the
/// decision is an update of it at its exact squared distance, and the
/// element is the one that changes it, and no other.
pub proof fn lemma_one_namesake_updates(
    nodes: Seq<NodeView>,
    record: PeakView,
    ordinal: int,
    radius_squared: int,
    m: int,
)
    requires
        0 <= m < nodes.len(),
        near_namesake(nodes[m], record, radius_squared) is Some,
        forall|j: int|
            0 <= j < nodes.len() && j != m ==> near_namesake(
                #[trigger] nodes[j],
                record,
                radius_squared,
            ) is None,
    ensures
        decision(indexable(nodes), record, ordinal, radius_squared) == (DecisionView::Update {
            record,
            node: nodes[m],
            distance_squared: squared_distance(nodes[m].position->0, record.position),
        }),
        edit_of(decision(indexable(nodes), record, ordinal, radius_squared)) == Some(
            modified_edit(nodes[m], record),
        ),
{
    lemma_decision_by_namesakes(nodes, record, ordinal, radius_squared);
    let near = |n: NodeView| near_namesake(n, record, radius_squared);
    let named = near_namesakes(nodes, record, radius_squared);
    lemma_filter_map_place(nodes, near, m);
    let sources = lemma_filter_map_sources(nodes, near);
    assert forall|k: int| 0 <= k < sources.len() implies #[trigger] sources[k] == m by {
        assert(near(nodes[sources[k]]) is Some);
    }
    if named.len() >= 2 {
        assert(sources[0] < sources[1]);
    }
    assert(near(nodes[sources[0]]) == Some(named[0]));
}

/// A record with two near namesakes on the map is passed over: the decision
/// is a skip, and no element is given for it.
pub proof fn lemma_two_namesakes_skip(
    nodes: Seq<NodeView>,
    record: PeakView,
    ordinal: int,
    radius_squared: int,
    a: int,
    b: int,
)
    requires
        0 <= a < b < nodes.len(),
        near_namesake(nodes[a], record, radius_squared) is Some,
        near_namesake(nodes[b], record, radius_squared) is Some,
    ensures
        decision(indexable(nodes), record, ordinal, radius_squared) is Skip,
        edit_of(decision(indexable(nodes), record, ordinal, radius_squared)) is None,
{
    lemma_decision_by_namesakes(nodes, record, ordinal, radius_squared);
    let near = |n: NodeView| near_namesake(n, record, radius_squared);
    lemma_filter_map_place(nodes, near, b);
    lemma_filter_map_places_rise(nodes, near, a, b);
}

/// What a wider radius does to a decision. A record that updates a node
/// within the smaller radius updates the same node at the same distance
/// within the larger, or is skipped because more namesakes came into reach;
/// it never makes a new node. A record that is skipped stays skipped. A
/// record that makes a new node within the larger radius makes the same
/// within the smaller.
pub proof fn lemma_wider_radius_squared(
    nodes: Seq<NodeView>,
    record: PeakView,
    ordinal: int,
    smaller: int,
    larger: int,
)
    requires
        smaller <= larger,
    ensures
        decision(indexable(nodes), record, ordinal, smaller) matches DecisionView::Update {
            node,
            distance_squared,
            ..
        } ==> decision(indexable(nodes), record, ordinal, larger) == (DecisionView::Update {
            record,
            node,
            distance_squared,
        }) || decision(indexable(nodes), record, ordinal, larger) is Skip,
        decision(indexable(nodes), record, ordinal, smaller) is Skip ==> decision(
            indexable(nodes),
            record,
            ordinal,
            larger,
        ) is Skip,
        decision(indexable(nodes), record, ordinal, larger) is Create ==> decision(
            indexable(nodes),
            record,
            ordinal,
            smaller,
        ) == decision(indexable(nodes), record, ordinal, larger),
{
    lemma_decision_by_namesakes(nodes, record, ordinal, smaller);
    lemma_decision_by_namesakes(nodes, record, ordinal, larger);
    let near = |n: NodeView| near_namesake(n, record, smaller);
    let wide = |n: NodeView| near_namesake(n, record, larger);
    let named = near_namesakes(nodes, record, smaller);
    let more = near_namesakes(nodes, record, larger);
    let sources = lemma_filter_map_sources(nodes, near);
    if named.len() >= 1 {
        let i = sources[0];
        assert(near(nodes[i]) == Some(named[0]));
        assert(wide(nodes[i]) == near(nodes[i]));
        lemma_filter_map_place(nodes, wide, i);
        if named.len() >= 2 {
            let j = sources[1];
            assert(i < j);
            assert(near(nodes[j]) is Some);
            assert(wide(nodes[j]) == near(nodes[j]));
            lemma_filter_map_place(nodes, wide, j);
            lemma_filter_map_places_rise(nodes, wide, i, j);
        }
    }
}

/// The same for radii: a wider search radius turns no update into a create
/// and no skip into anything else, and what it still updates is the same
/// node at the same distance.
pub proof fn lemma_wider_radius(
    nodes: Seq<NodeView>,
    record: PeakView,
    ordinal: int,
    smaller: int,
    larger: int,
)
    requires
        0 <= smaller <= larger,
    ensures
        decision(indexable(nodes), record, ordinal, smaller * smaller) matches DecisionView::Update {
            node,
            distance_squared,
            ..
        } ==> decision(indexable(nodes), record, ordinal, larger * larger) == (
        DecisionView::Update { record, node, distance_squared }) || decision(
            indexable(nodes),
            record,
            ordinal,
            larger * larger,
        ) is Skip,
        decision(indexable(nodes), record, ordinal, smaller * smaller) is Skip ==> decision(
            indexable(nodes),
            record,
            ordinal,
            larger * larger,
        ) is Skip,
        decision(indexable(nodes), record, ordinal, larger * larger) is Create ==> decision(
            indexable(nodes),
            record,
            ordinal,
            smaller * smaller,
        ) == decision(indexable(nodes), record, ordinal, larger * larger),
{
    assert(smaller * smaller <= larger * larger) by (nonlinear_arith)
        requires
            0 <= smaller <= larger,
    ;
    lemma_wider_radius_squared(nodes, record, ordinal, smaller * smaller, larger * larger);
}

/// The decisions among `made` that pass their record over.
pub open spec fn skipped(made: Seq<DecisionView>) -> Seq<DecisionView> {
    made.filter(|d: DecisionView| d is Skip)
}

/// Every decision gives one element or is a skip, never both: the elements
/// and the skips together are as many as the decisions.
pub proof fn lemma_elements_and_skips_add_up(made: Seq<DecisionView>)
    ensures
        edits_of(made).len() + skipped(made).len() == made.len(),
    decreases made.len(),
{
    reveal(Seq::filter);
    if made.len() > 0 {
        lemma_elements_and_skips_add_up(made.drop_last());
    }
}

/// Every record of a run is accounted for once. The decision about each is
/// the one that its near namesakes on the map give; the elements of the diff
/// and the records passed over are together as many as the records.
pub proof fn lemma_every_record_is_accounted_for(
    nodes: Seq<NodeView>,
    survey: Seq<PeakView>,
    radius_squared: int,
)
    ensures
        decisions(indexable(nodes), survey, radius_squared).len() == survey.len(),
        forall|i: int|
            0 <= i < survey.len() ==> (#[trigger] decisions(
                indexable(nodes),
                survey,
                radius_squared,
            )[i]) == decision_among(
                near_namesakes(nodes, survey[i], radius_squared),
                survey[i],
                i,
            ),
        diff(nodes, survey, radius_squared).len() + skipped(
            decisions(indexable(nodes), survey, radius_squared),
        ).len() == survey.len(),
{
    assert forall|i: int| 0 <= i < survey.len() implies (#[trigger] decisions(
        indexable(nodes),
        survey,
        radius_squared,
    )[i]) == decision_among(near_namesakes(nodes, survey[i], radius_squared), survey[i], i) by {
        lemma_decision_by_namesakes(nodes, survey[i], i, radius_squared);
    }
    lemma_elements_and_skips_add_up(decisions(indexable(nodes), survey, radius_squared));
}

/// Every element of the diff that changes a node is about a node of the map
/// that has a position within the radius of one of the records and bears
/// that record's name. A node without coordinates is changed by no element.
pub proof fn lemma_modified_elements_are_of_near_namesakes(
    nodes: Seq<NodeView>,
    survey: Seq<PeakView>,
    radius_squared: int,
)
    ensures
        forall|k: int|
            0 <= k < diff(nodes, survey, radius_squared).len() && (#[trigger] diff(
                nodes,
                survey,
                radius_squared,
            )[k]).action == EditAction::Modify ==> exists|i: int, j: int|
                0 <= i < survey.len() && 0 <= j < nodes.len() && (#[trigger] near_namesake(
                    nodes[j],
                    survey[i],
                    radius_squared,
                )) is Some && diff(nodes, survey, radius_squared)[k] == modified_edit(
                    nodes[j],
                    survey[i],
                ),
{
    let made = decisions(indexable(nodes), survey, radius_squared);
    let edits = diff(nodes, survey, radius_squared);
    let sources = lemma_filter_map_sources(made, |d: DecisionView| edit_of(d));
    assert forall|k: int| 0 <= k < edits.len() && (#[trigger] edits[k]).action
        == EditAction::Modify implies exists|i: int, j: int|
        0 <= i < survey.len() && 0 <= j < nodes.len() && (#[trigger] near_namesake(
            nodes[j],
            survey[i],
            radius_squared,
        )) is Some && edits[k] == modified_edit(nodes[j], survey[i]) by {
        let i = sources[k];
        assert(edit_of(made[i]) == Some(edits[k]));
        lemma_decision_by_namesakes(nodes, survey[i], i, radius_squared);
        let near = |n: NodeView| near_namesake(n, survey[i], radius_squared);
        let named = near_namesakes(nodes, survey[i], radius_squared);
        let origins = lemma_filter_map_sources(nodes, near);
        let j = origins[0];
        assert(near(nodes[j]) == Some(named[0]));
        assert(near_namesake(nodes[j], survey[i], radius_squared) is Some);
    }
}

/// The elevation tag for a survey record.
fn elevation_tag_for(record: &SurveyPeak) -> (t: Tag)
    ensures
        t@ == elevation_tag(record@.ele as int),
{
    let metres = signed_decimal_string(record.rounded_metres());
    Tag::new("ele", metres.as_str())
}

/// The tags of a new peak.
pub fn fresh_tags(record: &SurveyPeak) -> (tags: Vec<Tag>)
    ensures
        tag_views(tags@) == created_tags(record@),
{
    let mut tags: Vec<Tag> = Vec::with_capacity(3);
    tags.push(Tag::new("name", record.name.as_str()));
    tags.push(elevation_tag_for(record));
    tags.push(Tag::new("natural", "peak"));
    assert(tag_views(tags@) =~= created_tags(record@));
    tags
}

/// The tags of an updated node.
pub fn reconcile_tags(node: &MapNode, record: &SurveyPeak) -> (tags: Vec<Tag>)
    ensures
        tag_views(tags@) == reconciled_tags(node@.tags, record@.ele as int),
{
    let mut tags = copy_tags(&node.tags);
    if !has_tag(&node.tags, "ele") {
        let ghost before = tag_views(tags@);
        let t = elevation_tag_for(record);
        tags.push(t);
        assert(tag_views(tags@) =~= before.push(t@));
    }
    tags
}

/// The element for a new peak.
pub fn create_edit(id: i64, record: &SurveyPeak) -> (edit: NodeEdit)
    ensures
        edit@ == created_edit(id as int, record@),
{
    NodeEdit {
        action: EditAction::Create,
        id,
        version: None,
        lat: record.lat,
        lon: record.lon,
        tags: fresh_tags(record),
    }
}

/// The element for an updated node.
pub fn modify_edit(node: &MapNode, record: &SurveyPeak) -> (edit: NodeEdit)
    ensures
        edit@ == modified_edit(node@, record@),
{
    NodeEdit {
        action: EditAction::Modify,
        id: node.id,
        version: Some(node.version),
        lat: record.lat,
        lon: record.lon,
        tags: reconcile_tags(node, record),
    }
}

/// The element that a decision gives: none for a record that is skipped.
pub fn edit_for(decision: &MatchDecision) -> (edit: Option<NodeEdit>)
    ensures
        match edit {
            Some(e) => edit_of(decision@) == Some(e@),
            None => edit_of(decision@) is None,
        },
{
    match *decision {
        MatchDecision::Create { record, id } => Some(create_edit(id, record)),
        MatchDecision::Update { record, node, .. } => Some(modify_edit(node, record)),
        MatchDecision::Skip { .. } => None,
    }
}

/// The elements for a list of decisions: one for each decision that is not
/// a skip, in the order of the decisions.
pub fn emit(made: &Vec<MatchDecision>) -> (edits: Vec<NodeEdit>)
    ensures
        edit_views(edits@) == edits_of(decision_views(made@)),
{
    let ghost all = decision_views(made@);
    let ghost element = |d: DecisionView| edit_of(d);
    let mut edits: Vec<NodeEdit> = Vec::new();
    let mut i: usize = 0;
    assert(edit_views(edits@) =~= all.take(0).filter_map(element));
    while i < made.len()
        invariant
            i <= made@.len(),
            all == decision_views(made@),
            element == |d: DecisionView| edit_of(d),
            edit_views(edits@) == all.take(i as int).filter_map(element),
        decreases made@.len() - i,
    {
        let ghost before = edit_views(edits@);
        proof {
            all.lemma_filter_map_take_succ(element, i as int);
        }
        match edit_for(&made[i]) {
            Some(edit) => {
                edits.push(edit);
                assert(edit_views(edits@) =~= before.push(edit@));
            },
            None => {},
        }
        i += 1;
    }
    assert(all.take(made@.len() as int) =~= all);
    edits
}

/// Reconciles a survey with a map: indexes the nodes that have a position,
/// decides about each survey record in turn, and gives the elements of the
/// diff in the order of the records.
pub fn reconcile(nodes: &Vec<MapNode>, survey: &Vec<SurveyPeak>, config: &Config) -> (edits: Vec<
    NodeEdit,
>)
    requires
        survey@.len() <= i64::MAX,
    ensures
        edit_views(edits@) == diff(
            node_views(nodes@),
            peak_views(survey@),
            config.search_radius * config.search_radius,
        ),
{
    let index = build_index(nodes);
    let made = resolve_all(&index, survey, config.radius_squared());
    emit(&made)
}

} // verus!
