//! Nodes of the map database.

use crate::error::LoadError;
use crate::planar::PlanarPoint;
use crate::tags::{find_tag, has_unique_keys, keys_unique, lookup, natural_key, peak_value, tag_views, Tag, TagView};
use crate::text::same_text;
use vstd::prelude::*;

verus! {

/// A point feature of the map database, as loaded. It is never changed: what
/// an edit says of it is computed afresh.
#[derive(Clone, Debug, PartialEq, Eq)]
pub struct MapNode {
    /// The identifier in the map database.
    pub id: i64,
    /// The revision counter.
    pub version: u32,
    /// Where the node lies on the projection grid; `None` where the map gives
    /// the node no coordinates.
    pub position: Option<PlanarPoint>,
    /// The attribute tags, in the order of the map file.
    pub tags: Vec<Tag>,
}

/// What a [`MapNode`] says.
pub struct NodeView {
    pub id: i64,
    pub version: u32,
    pub position: Option<PlanarPoint>,
    pub tags: Seq<TagView>,
}

impl View for MapNode {
    type V = NodeView;

    open spec fn view(&self) -> NodeView {
        NodeView {
            id: self.id,
            version: self.version,
            position: self.position,
            tags: tag_views(self.tags@),
        }
    }
}

/// What a list of nodes says, node by node.
pub open spec fn node_views(nodes: Seq<MapNode>) -> Seq<NodeView> {
    nodes.map_values(|n: MapNode| n@)
}

/// Whether tags classify their node as a peak: the first `natural` tag says
/// `peak`.
pub open spec fn mark_peak(tags: Seq<TagView>) -> bool {
    lookup(tags, natural_key()) == Some(peak_value())
}

impl NodeView {
    /// A node is well formed when no key occurs twice among its tags.
    pub open spec fn well_formed(self) -> bool {
        keys_unique(self.tags)
    }

    /// Whether the node is classified as a peak.
    pub open spec fn is_peak(self) -> bool {
        mark_peak(self.tags)
    }
}

/// Whether tags classify their node as a peak.
pub fn marks_peak(tags: &Vec<Tag>) -> (r: bool)
    ensures
        r == mark_peak(tag_views(tags@)),
{
    match find_tag(tags, "natural") {
        Some(v) => same_text(v.as_str(), "peak"),
        None => false,
    }
}

/// The nodes among `nodes` that are classified as peaks, in their order.
pub open spec fn peaks_among(nodes: Seq<NodeView>) -> Seq<NodeView> {
    nodes.filter(|n: NodeView| n.is_peak())
}

impl MapNode {
    /// Takes a node as the map file gives it. A node without a revision
    /// counter is refused; so is, after that, one that carries a key twice.
    pub fn new(id: i64, version: Option<u32>, position: Option<PlanarPoint>, tags: Vec<Tag>) -> (r:
        Result<MapNode, LoadError>)
        ensures
            match r {
                Ok(n) => version is Some && keys_unique(tag_views(tags@)) && n@ == (NodeView {
                    id,
                    version: version->0,
                    position,
                    tags: tag_views(tags@),
                }) && n@.well_formed(),
                Err(e) => if version is None {
                    e == (LoadError::MissingVersion { node: id })
                } else {
                    !keys_unique(tag_views(tags@)) && e == (LoadError::DuplicateTagKey { node: id })
                },
            },
    {
        match version {
            None => Err(LoadError::MissingVersion { node: id }),
            Some(v) => {
                if has_unique_keys(&tags) {
                    Ok(MapNode { id, version: v, position, tags })
                } else {
                    Err(LoadError::DuplicateTagKey { node: id })
                }
            },
        }
    }

    /// Whether the node is classified as a peak: its first `natural` tag
    /// says `peak`.
    pub fn is_peak(&self) -> (r: bool)
        ensures
            r == self@.is_peak(),
    {
        marks_peak(&self.tags)
    }
}

/// Keeps the nodes that are classified as peaks, in their order.
pub fn select_peaks(nodes: Vec<MapNode>) -> (peaks: Vec<MapNode>)
    ensures
        node_views(peaks@) == peaks_among(node_views(nodes@)),
{
    let ghost all = node_views(nodes@);
    let ghost is_peak = |n: NodeView| n.is_peak();
    let mut peaks: Vec<MapNode> = Vec::new();
    assert(node_views(peaks@) =~= all.take(0).filter(is_peak)) by {
        reveal(Seq::filter);
    }
    for node in it: nodes.into_iter()
        invariant
            it.seq() == nodes@,
            all == node_views(nodes@),
            is_peak == |n: NodeView| n.is_peak(),
            node_views(peaks@) == all.take(it.index() as int).filter(is_peak),
    {
        let ghost i = it.index() as int;
        let ghost before = node_views(peaks@);
        proof {
            reveal(Seq::filter);
            assert(all.take(i + 1).drop_last() =~= all.take(i));
            assert(all.take(i + 1).last() == node@);
        }
        if node.is_peak() {
            peaks.push(node);
            assert(node_views(peaks@) =~= before.push(all[i]));
        }
    }
    assert(all.take(nodes@.len() as int) =~= all);
    peaks
}

} // verus!
