//! The diff as a sequence of markup events: elements opened, with their
//! attributes, and closed again.
//!
//! The events say all that the document says. Writing them down in a
//! markup syntax is left to the caller.

use crate::emit::{edit_views, EditAction, EditView, NodeEdit};
use crate::tags::{tag_views, Tag, TagView};
use crate::text::{decimal, decimal_string, degrees, degrees_string, signed_decimal, signed_decimal_string};
use vstd::prelude::*;

verus! {

/// One attribute of an element.
#[derive(Clone, Debug, PartialEq, Eq)]
pub struct Attribute {
    pub name: String,
    pub value: String,
}

/// What an [`Attribute`] says.
pub struct AttributeView {
    pub name: Seq<char>,
    pub value: Seq<char>,
}

impl View for Attribute {
    type V = AttributeView;

    open spec fn view(&self) -> AttributeView {
        AttributeView { name: self.name@, value: self.value@ }
    }
}

/// One step in writing the document.
#[derive(Clone, Debug, PartialEq, Eq)]
pub enum MarkupEvent {
    /// An element begins, with these attributes in this order.
    Open { name: String, attributes: Vec<Attribute> },
    /// The element that was opened last and is still open ends.
    Close,
}

/// What a [`MarkupEvent`] says.
pub enum EventView {
    Open { name: Seq<char>, attributes: Seq<AttributeView> },
    Close,
}

impl View for MarkupEvent {
    type V = EventView;

    open spec fn view(&self) -> EventView {
        match self {
            MarkupEvent::Open { name, attributes } => EventView::Open {
                name: name@,
                attributes: attributes@.map_values(|a: Attribute| a@),
            },
            MarkupEvent::Close => EventView::Close,
        }
    }
}

/// What a list of events says, event by event.
pub open spec fn event_views(events: Seq<MarkupEvent>) -> Seq<EventView> {
    events.map_values(|e: MarkupEvent| e@)
}

/// The version of the edit-set format that the document states.
pub open spec fn format_version() -> Seq<char> {
    "0.6"@
}

/// The element for one tag: its key under `k`, its value under `v`.
pub open spec fn tag_events(tag: TagView) -> Seq<EventView> {
    seq![
        EventView::Open {
            name: "tag"@,
            attributes: seq![
                AttributeView { name: "k"@, value: tag.key },
                AttributeView { name: "v"@, value: tag.value },
            ],
        },
        EventView::Close,
    ]
}

/// The elements for a list of tags, in their order.
pub open spec fn tags_events(tags: Seq<TagView>) -> Seq<EventView>
    decreases tags.len(),
{
    if tags.len() == 0 {
        Seq::empty()
    } else {
        tags_events(tags.drop_last()) + tag_events(tags.last())
    }
}

/// The attributes of a node element: the identifier; for a change to a node
/// of the map, the mark `modify`; the revision where there is one; and the
/// coordinates in degrees.
pub open spec fn node_attributes(edit: EditView) -> Seq<AttributeView> {
    seq![AttributeView { name: "id"@, value: signed_decimal(edit.id) }] + (if edit.action
        == EditAction::Modify {
        seq![AttributeView { name: "action"@, value: "modify"@ }]
    } else {
        Seq::empty()
    }) + (match edit.version {
        Some(v) => seq![AttributeView { name: "version"@, value: decimal(v as nat) }],
        None => Seq::empty(),
    }) + seq![
        AttributeView { name: "lat"@, value: degrees(edit.lat as int) },
        AttributeView { name: "lon"@, value: degrees(edit.lon as int) },
    ]
}

/// The events for one node element: it opens, its tags follow, it closes.
pub open spec fn node_events(edit: EditView) -> Seq<EventView> {
    seq![EventView::Open { name: "node"@, attributes: node_attributes(edit) }] + tags_events(
        edit.tags,
    ) + seq![EventView::Close]
}

/// The events for a list of node elements, in their order.
pub open spec fn nodes_events(edits: Seq<EditView>) -> Seq<EventView>
    decreases edits.len(),
{
    if edits.len() == 0 {
        Seq::empty()
    } else {
        nodes_events(edits.drop_last()) + node_events(edits.last())
    }
}

/// The events for the whole document: the root element, which states the
/// format's version, around the node elements.
pub open spec fn document_events(edits: Seq<EditView>) -> Seq<EventView> {
    seq![
        EventView::Open {
            name: "osm"@,
            attributes: seq![AttributeView { name: "version"@, value: format_version() }],
        },
    ] + nodes_events(edits) + seq![EventView::Close]
}

/// How many elements are open after the events: one more for each that
/// opens, one less for each that closes.
pub open spec fn open_after(events: Seq<EventView>) -> int
    decreases events.len(),
{
    if events.len() == 0 {
        0
    } else {
        open_after(events.drop_last()) + if events.last() is Open {
            1int
        } else {
            -1int
        }
    }
}

/// Whether the events nest well: none closes what is not open, and none is
/// left open at the end.
pub open spec fn well_nested(events: Seq<EventView>) -> bool {
    &&& open_after(events) == 0
    &&& forall|n: int| 0 <= n <= events.len() ==> open_after(#[trigger] events.take(n)) >= 0
}

/// Whether the events are those of one element: they begin by opening it,
/// keep it open up to the last event, and close it there.
pub open spec fn one_element(events: Seq<EventView>) -> bool {
    &&& events.len() >= 2
    &&& events[0] is Open
    &&& open_after(events) == 0
    &&& forall|n: int| 0 < n < events.len() ==> open_after(#[trigger] events.take(n)) >= 1
}

/// After one run of events and then another, as many elements are open as
/// after the one and after the other together.
pub proof fn lemma_open_after_both(first: Seq<EventView>, second: Seq<EventView>)
    ensures
        open_after(first + second) == open_after(first) + open_after(second),
    decreases second.len(),
{
    if second.len() == 0 {
        assert(first + second =~= first);
    } else {
        lemma_open_after_both(first, second.drop_last());
        assert((first + second).drop_last() =~= first + second.drop_last());
    }
}

/// Events that nest well, followed by events that nest well, nest well.
pub proof fn lemma_well_nested_both(first: Seq<EventView>, second: Seq<EventView>)
    requires
        well_nested(first),
        well_nested(second),
    ensures
        well_nested(first + second),
{
    let both = first + second;
    lemma_open_after_both(first, second);
    assert forall|n: int| 0 <= n <= both.len() implies open_after(#[trigger] both.take(n))
        >= 0 by {
        if n <= first.len() {
            assert(both.take(n) =~= first.take(n));
        } else {
            assert(both.take(n) =~= first + second.take(n - first.len()));
            lemma_open_after_both(first, second.take(n - first.len()));
        }
    }
}

/// Events that nest well, put between the opening and the closing of an
/// element, are the events of that one element.
pub proof fn lemma_one_element_around(open: EventView, inner: Seq<EventView>)
    requires
        open is Open,
        well_nested(inner),
    ensures
        one_element(seq![open] + inner + seq![EventView::Close]),
        well_nested(seq![open] + inner + seq![EventView::Close]),
{
    let head = seq![open];
    let all = head + inner + seq![EventView::Close];
    assert(open_after(head) == 1) by {
        reveal_with_fuel(open_after, 2);
        assert(head.drop_last() =~= Seq::<EventView>::empty());
    }
    assert(open_after(seq![EventView::Close]) == -1) by {
        reveal_with_fuel(open_after, 2);
        assert(seq![EventView::Close].drop_last() =~= Seq::<EventView>::empty());
    }
    lemma_open_after_both(head, inner);
    lemma_open_after_both(head + inner, seq![EventView::Close]);
    assert forall|n: int| 0 < n < all.len() implies open_after(#[trigger] all.take(n)) >= 1 by {
        assert(all.take(n) =~= head + inner.take(n - 1));
        lemma_open_after_both(head, inner.take(n - 1));
    }
    assert forall|n: int| 0 <= n <= all.len() implies open_after(#[trigger] all.take(n)) >= 0 by {
        if n == 0 {
            assert(all.take(0) =~= Seq::<EventView>::empty());
        } else if n == all.len() {
            assert(all.take(n) =~= all);
        }
    }
}

/// The events of a list of tags nest well.
pub proof fn lemma_tags_events_well_nested(tags: Seq<TagView>)
    ensures
        well_nested(tags_events(tags)),
    decreases tags.len(),
{
    let none = Seq::<EventView>::empty();
    assert(well_nested(none)) by {
        assert forall|n: int| 0 <= n <= none.len() implies open_after(#[trigger] none.take(n))
            >= 0 by {
            assert(none.take(n) =~= none);
        }
    }
    if tags.len() > 0 {
        lemma_tags_events_well_nested(tags.drop_last());
        let last = tag_events(tags.last());
        lemma_one_element_around(last[0], none);
        assert(seq![last[0]] + none + seq![EventView::Close] =~= last);
        lemma_well_nested_both(tags_events(tags.drop_last()), last);
    }
}

/// The events of a node element are those of one element: whatever its
/// tags, every element that is opened is closed again, and the node element
/// closes last.
pub proof fn lemma_node_events_one_element(edit: EditView)
    ensures
        one_element(node_events(edit)),
        well_nested(node_events(edit)),
        node_events(edit)[0] == (EventView::Open {
            name: "node"@,
            attributes: node_attributes(edit),
        }),
{
    lemma_tags_events_well_nested(edit.tags);
    lemma_one_element_around(
        EventView::Open { name: "node"@, attributes: node_attributes(edit) },
        tags_events(edit.tags),
    );
}

/// The events of a list of node elements nest well.
pub proof fn lemma_nodes_events_well_nested(edits: Seq<EditView>)
    ensures
        well_nested(nodes_events(edits)),
    decreases edits.len(),
{
    if edits.len() > 0 {
        lemma_nodes_events_well_nested(edits.drop_last());
        lemma_node_events_one_element(edits.last());
        lemma_well_nested_both(nodes_events(edits.drop_last()), node_events(edits.last()));
    } else {
        let none = Seq::<EventView>::empty();
        assert forall|n: int| 0 <= n <= none.len() implies open_after(#[trigger] none.take(n))
            >= 0 by {
            assert(none.take(n) =~= none);
        }
    }
}

/// The events of a document are those of one element, the root, whatever
/// the diff holds; a diff without elements gives the root alone.
pub proof fn lemma_document_one_element(edits: Seq<EditView>)
    ensures
        one_element(document_events(edits)),
        well_nested(document_events(edits)),
        edits.len() == 0 ==> document_events(edits).len() == 2,
{
    lemma_nodes_events_well_nested(edits);
    lemma_one_element_around(
        EventView::Open {
            name: "osm"@,
            attributes: seq![AttributeView { name: "version"@, value: format_version() }],
        },
        nodes_events(edits),
    );
}

impl Attribute {
    pub fn new(name: &str, value: &str) -> (a: Attribute)
        ensures
            a@ == (AttributeView { name: name@, value: value@ }),
    {
        Attribute { name: name.to_owned(), value: value.to_owned() }
    }
}

/// Appends the element for one tag.
fn push_tag_events(events: &mut Vec<MarkupEvent>, tag: &Tag)
    ensures
        event_views(final(events)@) == event_views(old(events)@) + tag_events(tag@),
{
    let mut attributes: Vec<Attribute> = Vec::with_capacity(2);
    attributes.push(Attribute::new("k", tag.key.as_str()));
    attributes.push(Attribute::new("v", tag.value.as_str()));
    let open = MarkupEvent::Open { name: "tag".to_owned(), attributes };
    assert(open@ == tag_events(tag@)[0]) by {
        assert(open@->attributes =~= tag_events(tag@)[0]->attributes);
    }
    events.push(open);
    events.push(MarkupEvent::Close);
    assert(event_views(events@) =~= event_views(old(events)@) + tag_events(tag@));
}

/// The attributes of a node element.
fn attributes_of(edit: &NodeEdit) -> (attributes: Vec<Attribute>)
    ensures
        attributes@.map_values(|a: Attribute| a@) == node_attributes(edit@),
{
    let mut attributes: Vec<Attribute> = Vec::with_capacity(5);
    attributes.push(Attribute::new("id", signed_decimal_string(edit.id).as_str()));
    match edit.action {
        EditAction::Modify => {
            attributes.push(Attribute::new("action", "modify"));
        },
        EditAction::Create => {},
    }
    match edit.version {
        Some(v) => {
            attributes.push(Attribute::new("version", decimal_string(v as u64).as_str()));
        },
        None => {},
    }
    attributes.push(Attribute::new("lat", degrees_string(edit.lat).as_str()));
    attributes.push(Attribute::new("lon", degrees_string(edit.lon).as_str()));
    assert(attributes@.map_values(|a: Attribute| a@) =~= node_attributes(edit@));
    attributes
}

/// Appends the events for one node element.
fn push_node_events(events: &mut Vec<MarkupEvent>, edit: &NodeEdit)
    ensures
        event_views(final(events)@) == event_views(old(events)@) + node_events(edit@),
{
    let ghost tags = tag_views(edit.tags@);
    let open = MarkupEvent::Open { name: "node".to_owned(), attributes: attributes_of(edit) };
    events.push(open);
    let ghost opened = event_views(events@);
    assert(opened =~= event_views(old(events)@) + seq![
        EventView::Open { name: "node"@, attributes: node_attributes(edit@) },
    ]);
    let mut i: usize = 0;
    assert(event_views(events@) =~= opened + tags_events(tags.take(0)));
    while i < edit.tags.len()
        invariant
            i <= edit.tags@.len(),
            tags == tag_views(edit.tags@),
            event_views(events@) == opened + tags_events(tags.take(i as int)),
        decreases edit.tags@.len() - i,
    {
        let ghost before = event_views(events@);
        push_tag_events(events, &edit.tags[i]);
        assert(tags.take(i + 1).drop_last() =~= tags.take(i as int));
        assert(tags.take(i + 1).last() == edit.tags@[i as int]@);
        assert(event_views(events@) =~= opened + tags_events(tags.take(i + 1)));
        i += 1;
    }
    assert(tags.take(edit.tags@.len() as int) =~= tags);
    let ghost filled = event_views(events@);
    assert(filled == opened + tags_events(edit@.tags));
    events.push(MarkupEvent::Close);
    assert(event_views(events@) =~= filled.push(EventView::Close));
    assert(event_views(events@) =~= event_views(old(events)@) + node_events(edit@));
}

/// The events of the whole document for a list of node elements.
pub fn render(edits: &Vec<NodeEdit>) -> (events: Vec<MarkupEvent>)
    ensures
        event_views(events@) == document_events(edit_views(edits@)),
{
    let ghost all = edit_views(edits@);
    let mut events: Vec<MarkupEvent> = Vec::new();
    let mut attributes: Vec<Attribute> = Vec::with_capacity(1);
    attributes.push(Attribute::new("version", "0.6"));
    let open = MarkupEvent::Open { name: "osm".to_owned(), attributes };
    assert(open@ == document_events(all)[0]) by {
        assert(open@->attributes =~= document_events(all)[0]->attributes);
    }
    events.push(open);
    let ghost opened = event_views(events@);
    assert(opened =~= seq![document_events(all)[0]]);
    let mut i: usize = 0;
    assert(event_views(events@) =~= opened + nodes_events(all.take(0)));
    while i < edits.len()
        invariant
            i <= edits@.len(),
            all == edit_views(edits@),
            event_views(events@) == opened + nodes_events(all.take(i as int)),
        decreases edits@.len() - i,
    {
        push_node_events(&mut events, &edits[i]);
        assert(all.take(i + 1).drop_last() =~= all.take(i as int));
        assert(all.take(i + 1).last() == edits@[i as int]@);
        assert(event_views(events@) =~= opened + nodes_events(all.take(i + 1)));
        i += 1;
    }
    assert(all.take(edits@.len() as int) =~= all);
    let ghost filled = event_views(events@);
    assert(filled == opened + nodes_events(all));
    events.push(MarkupEvent::Close);
    assert(event_views(events@) =~= filled.push(EventView::Close));
    assert(event_views(events@) =~= document_events(all));
    events
}

} // verus!
