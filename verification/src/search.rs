//! First matches in sequences.

use vstd::prelude::*;

verus! {

/// The first element of `s` that satisfies `p`, if any.
pub open spec fn first_match<A>(s: Seq<A>, p: spec_fn(A) -> bool) -> Option<A>
    decreases s.len(),
{
    if s.len() == 0 {
        None
    } else if p(s[0]) {
        Some(s[0])
    } else {
        first_match(s.drop_first(), p)
    }
}

/// When no element before `i` satisfies `p`, the first match in `s` is the
/// first match in `s` from `i` on.
pub proof fn lemma_first_match_skip<A>(s: Seq<A>, p: spec_fn(A) -> bool, i: int)
    requires
        0 <= i <= s.len(),
        forall|j: int| 0 <= j < i ==> !p(#[trigger] s[j]),
    ensures
        first_match(s, p) == first_match(s.skip(i), p),
    decreases i,
{
    if i > 0 {
        lemma_first_match_skip(s.drop_first(), p, i - 1);
        assert(s.drop_first().skip(i - 1) =~= s.skip(i));
    } else {
        assert(s.skip(0) =~= s);
    }
}

/// The index of the first element of `s` that satisfies `p`, if any.
pub open spec fn first_index<A>(s: Seq<A>, p: spec_fn(A) -> bool) -> Option<int>
    decreases s.len(),
{
    if s.len() == 0 {
        None
    } else if p(s[0]) {
        Some(0)
    } else {
        match first_index(s.drop_first(), p) {
            Some(k) => Some(k + 1),
            None => None,
        }
    }
}

/// `first_index` is the least index whose element satisfies `p`.
pub proof fn lemma_first_index<A>(s: Seq<A>, p: spec_fn(A) -> bool, i: int)
    requires
        0 <= i <= s.len(),
        forall|j: int| 0 <= j < i ==> !p(#[trigger] s[j]),
    ensures
        i < s.len() && p(s[i]) ==> first_index(s, p) == Some(i),
        i == s.len() ==> first_index(s, p) is None,
    decreases i,
{
    if i > 0 {
        lemma_first_index(s.drop_first(), p, i - 1);
    }
}

/// The first match satisfies the predicate and is an element.
pub proof fn lemma_first_match_some<A>(s: Seq<A>, p: spec_fn(A) -> bool)
    requires
        first_match(s, p) is Some,
    ensures
        p(first_match(s, p)->Some_0),
        s.contains(first_match(s, p)->Some_0),
    decreases s.len(),
{
    if !p(s[0]) {
        lemma_first_match_some(s.drop_first(), p);
        let x = first_match(s, p)->Some_0;
        let k = choose|k: int| 0 <= k < s.drop_first().len() && s.drop_first()[k] == x;
        assert(s[k + 1] == x);
    } else {
        assert(s[0] == first_match(s, p)->Some_0);
    }
}

/// Where `f` gives a value exactly for the elements that satisfy `p`,
/// `filter_map` by `f` gives one value for each element that `p` keeps, in
/// order: the `k`-th value is what `f` gives for the `k`-th kept element.
pub proof fn lemma_filter_map_as_filter<A, B>(s: Seq<A>, f: spec_fn(A) -> Option<B>, p: spec_fn(A) -> bool)
    requires
        forall|x: A| #[trigger] f(x) is Some <==> p(x),
    ensures
        s.filter_map(f).len() == s.filter(p).len(),
        forall|k: int| 0 <= k < s.filter(p).len() ==> f(#[trigger] s.filter(p)[k]) == Some(s.filter_map(f)[k]),
        forall|k: int| 0 <= k < s.filter(p).len() ==> s.contains(#[trigger] s.filter(p)[k]),
    decreases s.len(),
{
    if s.len() > 0 {
        let rest = s.drop_last();
        lemma_filter_map_as_filter(rest, f, p);
        let x = s.last();
        reveal(Seq::filter);
        assert(s.filter(p) == if p(x) {
            rest.filter(p).push(x)
        } else {
            rest.filter(p)
        });
        assert forall|k: int| 0 <= k < s.filter(p).len() implies s.contains(#[trigger] s.filter(p)[k]) by {
            if k < rest.filter(p).len() {
                assert(s.filter(p)[k] == rest.filter(p)[k]);
                let i = choose|i: int| 0 <= i < rest.len() && rest[i] == rest.filter(p)[k];
                assert(s[i] == rest[i]);
            } else {
                assert(s.filter(p)[k] == x);
                assert(s[s.len() - 1] == x);
            }
        }
        if p(x) {
            assert forall|k: int| 0 <= k < s.filter(p).len() implies f(#[trigger] s.filter(p)[k]) == Some(
                s.filter_map(f)[k],
            ) by {
                if k < rest.filter(p).len() {
                    assert(s.filter(p)[k] == rest.filter(p)[k]);
                    assert(s.filter_map(f)[k] == rest.filter_map(f)[k]);
                } else {
                    assert(s.filter(p)[k] == x);
                    assert(s.filter_map(f)[k] == f(x)->Some_0);
                }
            }
        }
    }
}

} // verus!
