//! Facts about filtered and mapped sequences, on which the laws of the
//! library rest.

use vstd::prelude::*;

verus! {

/// How many of the first `i` elements of `s` the mapping keeps: the place at
/// which the element at `i` lands, if it is kept too.
pub open spec fn kept_before<A, B>(s: Seq<A>, f: spec_fn(A) -> Option<B>, i: int) -> int {
    s.take(i).filter_map(f).len() as int
}

/// What is kept of the first `n` elements stands first in what is kept of
/// all.
pub proof fn lemma_filter_map_prefix<A, B>(s: Seq<A>, f: spec_fn(A) -> Option<B>, n: int)
    requires
        0 <= n <= s.len(),
    ensures
        kept_before(s, f, n) <= s.filter_map(f).len(),
        s.filter_map(f).take(kept_before(s, f, n)) == s.take(n).filter_map(f),
    decreases s.len() - n,
{
    if n < s.len() {
        s.lemma_filter_map_take_succ(f, n);
        lemma_filter_map_prefix(s, f, n + 1);
        assert(s.filter_map(f).take(kept_before(s, f, n)) =~= s.filter_map(f).take(
            kept_before(s, f, n + 1),
        ).take(kept_before(s, f, n)));
        assert(s.filter_map(f).take(kept_before(s, f, n)) =~= s.take(n).filter_map(f));
    } else {
        assert(s.take(n) =~= s);
        assert(s.filter_map(f).take(kept_before(s, f, n)) =~= s.filter_map(f));
    }
}

/// An element that is kept lands at the place that `kept_before` gives.
pub proof fn lemma_filter_map_place<A, B>(s: Seq<A>, f: spec_fn(A) -> Option<B>, i: int)
    requires
        0 <= i < s.len(),
        f(s[i]) is Some,
    ensures
        0 <= kept_before(s, f, i) < s.filter_map(f).len(),
        s.filter_map(f)[kept_before(s, f, i)] == f(s[i])->0,
{
    s.lemma_filter_map_take_succ(f, i);
    lemma_filter_map_prefix(s, f, i + 1);
    let upto = s.take(i + 1).filter_map(f);
    assert(upto[kept_before(s, f, i)] == f(s[i])->0);
    assert(s.filter_map(f).take(kept_before(s, f, i + 1))[kept_before(s, f, i)] == upto[kept_before(
        s,
        f,
        i,
    )]);
}

/// Of two elements, the later lands after the earlier, if the earlier is
/// kept.
pub proof fn lemma_filter_map_places_rise<A, B>(
    s: Seq<A>,
    f: spec_fn(A) -> Option<B>,
    i: int,
    j: int,
)
    requires
        0 <= i < j <= s.len(),
        f(s[i]) is Some,
    ensures
        kept_before(s, f, i) < kept_before(s, f, j),
{
    let t = s.take(j);
    assert(t.take(i) =~= s.take(i));
    assert(t.take(i + 1) =~= s.take(i + 1));
    assert(t[i] == s[i]);
    t.lemma_filter_map_take_succ(f, i);
    lemma_filter_map_prefix(t, f, i + 1);
}

/// For each element of a filtered and mapped sequence, the place in the
/// sequence that it comes from; the places rise with the elements.
pub proof fn lemma_filter_map_sources<A, B>(s: Seq<A>, f: spec_fn(A) -> Option<B>) -> (sources:
    Seq<int>)
    ensures
        sources.len() == s.filter_map(f).len(),
        forall|k: int|
            0 <= k < sources.len() ==> 0 <= #[trigger] sources[k] < s.len() && f(s[sources[k]])
                == Some(s.filter_map(f)[k]),
        forall|k: int, l: int| 0 <= k < l < sources.len() ==> sources[k] < sources[l],
    decreases s.len(),
{
    if s.len() == 0 {
        Seq::empty()
    } else {
        let earlier = lemma_filter_map_sources(s.drop_last(), f);
        match f(s.last()) {
            Some(_) => earlier.push(s.len() - 1),
            None => earlier,
        }
    }
}

/// Filtering and mapping twice is filtering and mapping once, by the two
/// mappings in turn.
pub proof fn lemma_filter_map_twice<A, B, C>(
    s: Seq<A>,
    f: spec_fn(A) -> Option<B>,
    g: spec_fn(B) -> Option<C>,
    h: spec_fn(A) -> Option<C>,
)
    requires
        forall|x: A|
            #[trigger] h(x) == (match f(x) {
                Some(y) => g(y),
                None => None,
            }),
    ensures
        s.filter_map(f).filter_map(g) == s.filter_map(h),
    decreases s.len(),
{
    if s.len() > 0 {
        let rest = s.drop_last();
        lemma_filter_map_twice(rest, f, g, h);
        match f(s.last()) {
            Some(y) => {
                let mid = rest.filter_map(f);
                assert(s.filter_map(f) =~= mid.push(y));
                assert(mid.push(y).drop_last() =~= mid);
                assert(mid.push(y).last() == y);
                assert(s.filter_map(f).filter_map(g) =~= s.filter_map(h));
            },
            None => {},
        }
    }
}

/// Filtering is filtering and mapping, each element that passes to itself.
pub proof fn lemma_filter_is_filter_map<A>(
    s: Seq<A>,
    p: spec_fn(A) -> bool,
    f: spec_fn(A) -> Option<A>,
)
    requires
        forall|x: A|
            #[trigger] f(x) == (if p(x) {
                Some(x)
            } else {
                None
            }),
    ensures
        s.filter(p) == s.filter_map(f),
    decreases s.len(),
{
    reveal(Seq::filter);
    if s.len() > 0 {
        lemma_filter_is_filter_map(s.drop_last(), p, f);
        assert(s.filter(p) =~= s.filter_map(f));
    } else {
        assert(s.filter(p) =~= s.filter_map(f));
    }
}

} // verus!
