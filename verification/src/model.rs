//! The sequences that the contracts of a chain speak of.

use vstd::prelude::*;

verus! {

/// Whether `after` holds, place by place, a result of `f` on the element of
/// `before` at that place.
pub open spec fn is_image<T, F: Fn(&T) -> T>(f: F, before: Seq<T>, after: Seq<T>) -> bool {
    &&& after.len() == before.len()
    &&& forall|i: int| 0 <= i < before.len() ==> call_ensures(f, (&before[i],), #[trigger] after[i])
}

/// Whether `keep` holds, place by place, an answer of `p` on the element of
/// `s` at that place.
pub open spec fn is_verdict<T, P: Fn(&T) -> bool>(p: P, s: Seq<T>, keep: Seq<bool>) -> bool {
    &&& keep.len() == s.len()
    &&& forall|i: int| 0 <= i < s.len() ==> call_ensures(p, (&s[i],), #[trigger] keep[i])
}

/// The elements of `s` whose place holds `true` in `keep`, in the order of `s`.
pub open spec fn retained<T>(s: Seq<T>, keep: Seq<bool>) -> Seq<T>
    decreases s.len(),
{
    if s.len() == 0 || keep.len() == 0 {
        Seq::empty()
    } else {
        let before = retained(s.drop_last(), keep.drop_last());
        if keep.last() {
            before.push(s.last())
        } else {
            before
        }
    }
}

/// What a chain of the elements `s` holds once it was filtered with the
/// answers `keep`: the retained elements, or all of `s` where none is
/// retained, since a chain cannot be empty.
pub open spec fn filtered<T>(s: Seq<T>, keep: Seq<bool>) -> Seq<T> {
    if retained(s, keep).len() == 0 {
        s
    } else {
        retained(s, keep)
    }
}

/// Where every answer is `false`, nothing is retained.
pub proof fn lemma_retained_none<T>(s: Seq<T>, keep: Seq<bool>)
    requires
        forall|i: int| 0 <= i < keep.len() ==> !keep[i],
    ensures
        retained(s, keep).len() == 0,
    decreases s.len(),
{
    if s.len() != 0 && keep.len() != 0 {
        lemma_retained_none(s.drop_last(), keep.drop_last());
    }
}

/// One more element with its answer: it is retained behind the others, or
/// not at all.
pub proof fn lemma_retained_push<T>(s: Seq<T>, keep: Seq<bool>, x: T, answer: bool)
    ensures
        retained(s.push(x), keep.push(answer)) == if answer {
            retained(s, keep).push(x)
        } else {
            retained(s, keep)
        },
{
    assert(s.push(x).drop_last() =~= s);
    assert(keep.push(answer).drop_last() =~= keep);
}

/// Where every answer is `true`, everything is retained.
pub proof fn lemma_retained_all<T>(s: Seq<T>, keep: Seq<bool>)
    requires
        keep.len() == s.len(),
        forall|i: int| 0 <= i < keep.len() ==> keep[i],
    ensures
        retained(s, keep) == s,
    decreases s.len(),
{
    if s.len() != 0 {
        lemma_retained_all(s.drop_last(), keep.drop_last());
        assert(s.drop_last().push(s.last()) =~= s);
    } else {
        assert(retained(s, keep) =~= s);
    }
}

/// Where the answers are those of the predicate `pred`, the retained
/// elements are the elements that satisfy `pred`, in the order of `s`, and
/// as many as satisfy it.
pub proof fn lemma_retained_is_filter<T>(s: Seq<T>, keep: Seq<bool>, pred: spec_fn(T) -> bool)
    requires
        keep.len() == s.len(),
        forall|i: int| 0 <= i < s.len() ==> keep[i] == pred(s[i]),
    ensures
        retained(s, keep) == s.filter(pred),
    decreases s.len(),
{
    reveal(Seq::filter);
    if s.len() != 0 {
        lemma_retained_is_filter(s.drop_last(), keep.drop_last(), pred);
    } else {
        assert(retained(s, keep) =~= s.filter(pred));
    }
}

/// Whether the contract of `p` admits the answer `true` on `x`.
pub open spec fn accepts<T, P: Fn(&T) -> bool>(p: P, x: T) -> bool {
    call_ensures(p, (&x,), true)
}

/// Whether the contract of `p` fixes its answer on each element of `s`.
pub open spec fn decides<T, P: Fn(&T) -> bool>(p: P, s: Seq<T>) -> bool {
    forall|i: int, answer: bool|
        0 <= i < s.len() && #[trigger] call_ensures(p, (&s[i],), answer) ==> answer == accepts(
            p,
            s[i],
        )
}

/// The chain that one element `first` and then the elements of `later`,
/// each put in front of those before it, make.
pub open spec fn built<T>(first: T, later: Seq<T>) -> Seq<T>
    decreases later.len(),
{
    if later.len() == 0 {
        seq![first]
    } else {
        seq![later.last()] + built(first, later.drop_last())
    }
}

/// A chain made of one element and `later.len()` more, each put in front,
/// has `later.len() + 1` elements. Counted from the head, they are the
/// elements of `later` from the last one back to the first, and then `first`.
pub proof fn lemma_built<T>(first: T, later: Seq<T>)
    ensures
        built(first, later).len() == later.len() + 1,
        forall|i: int| 0 <= i < later.len() ==> built(first, later)[i] == later[later.len() - 1 - i],
        built(first, later)[later.len() as int] == first,
    decreases later.len(),
{
    if later.len() != 0 {
        lemma_built(first, later.drop_last());
    }
}

/// Whether `z` is a result of `g` on a result of `f` on `x`.
pub open spec fn is_composed<T, F: Fn(&T) -> T, G: Fn(&T) -> T>(f: F, g: G, x: T, z: T) -> bool {
    exists|m: T| call_ensures(f, (&x,), m) && #[trigger] call_ensures(g, (&m,), z)
}

/// Two transforms, one after the other: the chain keeps its length, and each
/// element is a result of `g` on a result of `f` on the element that stood
/// at its place.
pub proof fn lemma_map_twice<T, F: Fn(&T) -> T, G: Fn(&T) -> T>(
    f: F,
    g: G,
    s: Seq<T>,
    once: Seq<T>,
    twice: Seq<T>,
)
    requires
        is_image(f, s, once),
        is_image(g, once, twice),
    ensures
        twice.len() == s.len(),
        forall|i: int| 0 <= i < s.len() ==> is_composed(f, g, s[i], #[trigger] twice[i]),
{
    assert forall|i: int| 0 <= i < s.len() implies is_composed(f, g, s[i], #[trigger] twice[i]) by {
        assert(call_ensures(f, (&s[i],), once[i]) && call_ensures(g, (&once[i],), twice[i]));
    }
}

/// Filtering with a predicate that accepts at least one element leaves
/// exactly the accepted elements, in their order, and so as many as there
/// are accepted elements.
pub proof fn lemma_filter_exact<T, P: Fn(&T) -> bool>(p: P, s: Seq<T>, keep: Seq<bool>)
    requires
        is_verdict(p, s, keep),
        decides(p, s),
        exists|i: int| 0 <= i < s.len() && accepts(p, #[trigger] s[i]),
    ensures
        filtered(s, keep) == s.filter(|x: T| accepts(p, x)),
        filtered(s, keep).len() == s.filter(|x: T| accepts(p, x)).len(),
{
    let pred = |x: T| accepts(p, x);
    lemma_retained_is_filter(s, keep, pred);
    let i = choose|i: int| 0 <= i < s.len() && accepts(p, #[trigger] s[i]);
    assert(pred(s[i]));
    s.lemma_filter_contains(pred, i);
}

/// Filtering a second time with the same predicate changes nothing.
pub proof fn lemma_filter_twice<T, P: Fn(&T) -> bool>(
    p: P,
    s: Seq<T>,
    keep: Seq<bool>,
    again: Seq<bool>,
)
    requires
        is_verdict(p, s, keep),
        decides(p, s),
        is_verdict(p, filtered(s, keep), again),
    ensures
        filtered(filtered(s, keep), again) == filtered(s, keep),
{
    let pred = |x: T| accepts(p, x);
    let once = filtered(s, keep);
    lemma_retained_is_filter(s, keep, pred);
    if retained(s, keep).len() == 0 {
        assert(again =~= keep);
    } else {
        assert forall|j: int| 0 <= j < again.len() implies again[j] by {
            s.lemma_filter_pred(pred, j);
            assert(once.contains(once[j]));
            s.lemma_filter_contains_rev(pred, once[j]);
            let i = choose|i: int| 0 <= i < s.len() && s[i] == once[j];
            assert(call_ensures(p, (&s[i],), again[j]));
        }
        lemma_retained_all(once, again);
    }
}

} // verus!
