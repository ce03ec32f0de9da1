//! Attribute tags: ordered key-value pairs of text, as map nodes carry them.

use crate::text::same_text;
use vstd::prelude::*;

verus! {

/// One attribute of a map node.
#[derive(Clone, Debug, PartialEq, Eq)]
pub struct Tag {
    pub key: String,
    pub value: String,
}

/// What a [`Tag`] says: its key and its value as sequences of characters.
pub struct TagView {
    pub key: Seq<char>,
    pub value: Seq<char>,
}

impl View for Tag {
    type V = TagView;

    open spec fn view(&self) -> TagView {
        TagView { key: self.key@, value: self.value@ }
    }
}

/// What a list of tags says, tag by tag.
pub open spec fn tag_views(tags: Seq<Tag>) -> Seq<TagView> {
    tags.map_values(|t: Tag| t@)
}

/// The key under which a node's name stands.
pub open spec fn name_key() -> Seq<char> {
    "name"@
}

/// The key under which a node's elevation stands.
pub open spec fn ele_key() -> Seq<char> {
    "ele"@
}

/// The key under which a node's kind of natural feature stands.
pub open spec fn natural_key() -> Seq<char> {
    "natural"@
}

/// The kind of natural feature that marks a peak.
pub open spec fn peak_value() -> Seq<char> {
    "peak"@
}

/// The value of the first tag with the given key, if there is one.
pub open spec fn lookup(tags: Seq<TagView>, key: Seq<char>) -> Option<Seq<char>>
    decreases tags.len(),
{
    if tags.len() == 0 {
        None
    } else if tags[0].key == key {
        Some(tags[0].value)
    } else {
        lookup(tags.drop_first(), key)
    }
}

/// Whether some tag has the given key.
pub open spec fn has_key(tags: Seq<TagView>, key: Seq<char>) -> bool {
    exists|i: int| 0 <= i < tags.len() && (#[trigger] tags[i]).key == key
}

/// Whether no key occurs twice.
pub open spec fn keys_unique(tags: Seq<TagView>) -> bool {
    forall|i: int, j: int|
        0 <= i < j < tags.len() ==> (#[trigger] tags[i]).key != (#[trigger] tags[j]).key
}

/// A lookup finds a value exactly when some tag has the key, and the value
/// it finds is that of a tag with that key.
pub proof fn lemma_lookup_finds(tags: Seq<TagView>, key: Seq<char>)
    ensures
        lookup(tags, key) is Some <==> has_key(tags, key),
        lookup(tags, key) matches Some(v) ==> exists|i: int|
            0 <= i < tags.len() && (#[trigger] tags[i]).key == key && tags[i].value == v,
    decreases tags.len(),
{
    if tags.len() == 0 {
    } else if tags[0].key == key {
        assert(tags[0].key == key);
    } else {
        let rest = tags.drop_first();
        lemma_lookup_finds(rest, key);
        if has_key(rest, key) {
            let i = choose|i: int| 0 <= i < rest.len() && (#[trigger] rest[i]).key == key;
            assert(tags[i + 1].key == key);
        }
        if has_key(tags, key) {
            let i = choose|i: int| 0 <= i < tags.len() && (#[trigger] tags[i]).key == key;
            assert(rest[i - 1].key == key);
        }
        if let Some(v) = lookup(rest, key) {
            let i = choose|i: int|
                0 <= i < rest.len() && (#[trigger] rest[i]).key == key && rest[i].value == v;
            assert(tags[i + 1].key == key && tags[i + 1].value == v);
        }
    }
}

impl Tag {
    pub fn new(key: &str, value: &str) -> (t: Tag)
        ensures
            t@ == (TagView { key: key@, value: value@ }),
    {
        Tag { key: key.to_owned(), value: value.to_owned() }
    }

    /// A copy that says the same.
    pub fn duplicate(&self) -> (t: Tag)
        ensures
            t@ == self@,
    {
        Tag { key: self.key.clone(), value: self.value.clone() }
    }
}

/// The value of the first tag with the given key.
pub fn find_tag<'a>(tags: &'a Vec<Tag>, key: &str) -> (r: Option<&'a String>)
    ensures
        match r {
            Some(v) => lookup(tag_views(tags@), key@) == Some(v@),
            None => lookup(tag_views(tags@), key@) is None,
        },
{
    let ghost all = tag_views(tags@);
    let mut i: usize = 0;
    assert(all.skip(0) =~= all);
    while i < tags.len()
        invariant
            i <= tags@.len(),
            all == tag_views(tags@),
            lookup(all, key@) == lookup(all.skip(i as int), key@),
        decreases tags@.len() - i,
    {
        if same_text(tags[i].key.as_str(), key) {
            return Some(&tags[i].value);
        }
        assert(all.skip(i as int).drop_first() =~= all.skip(i + 1));
        i += 1;
    }
    None
}

/// Whether some tag has the given key.
pub fn has_tag(tags: &Vec<Tag>, key: &str) -> (r: bool)
    ensures
        r == has_key(tag_views(tags@), key@),
{
    proof {
        lemma_lookup_finds(tag_views(tags@), key@);
    }
    find_tag(tags, key).is_some()
}

/// Whether no key occurs twice.
pub fn has_unique_keys(tags: &Vec<Tag>) -> (r: bool)
    ensures
        r == keys_unique(tag_views(tags@)),
{
    let ghost all = tag_views(tags@);
    let mut j: usize = 0;
    while j < tags.len()
        invariant
            j <= tags@.len(),
            all == tag_views(tags@),
            forall|a: int, b: int|
                0 <= a < b < j ==> (#[trigger] all[a]).key != (#[trigger] all[b]).key,
        decreases tags@.len() - j,
    {
        let mut i: usize = 0;
        while i < j
            invariant
                i <= j < tags@.len(),
                all == tag_views(tags@),
                forall|a: int| 0 <= a < i ==> (#[trigger] all[a]).key != all[j as int].key,
            decreases j - i,
        {
            if same_text(tags[i].key.as_str(), tags[j].key.as_str()) {
                assert(all[i as int].key == all[j as int].key);
                return false;
            }
            i += 1;
        }
        j += 1;
    }
    true
}

/// A copy of a list of tags that says the same, in the same order.
pub fn copy_tags(tags: &Vec<Tag>) -> (r: Vec<Tag>)
    ensures
        tag_views(r@) == tag_views(tags@),
{
    let mut out: Vec<Tag> = Vec::with_capacity(tags.len());
    let mut i: usize = 0;
    while i < tags.len()
        invariant
            i <= tags@.len(),
            out@.len() == i,
            forall|j: int| 0 <= j < i ==> (#[trigger] out@[j])@ == tags@[j]@,
        decreases tags@.len() - i,
    {
        out.push(tags[i].duplicate());
        i += 1;
    }
    assert(tag_views(out@) =~= tag_views(tags@));
    out
}

} // verus!
