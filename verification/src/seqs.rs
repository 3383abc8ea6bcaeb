//! Facts about sequences that the proofs of the broker rest on: what a
//! filter keeps, and what a push does to a sequence without duplicates.

use vstd::prelude::*;

verus! {

/// An element that a sequence without duplicates does not hold can be
/// pushed: the sequence stays without duplicates, and its set gains the
/// element.
pub proof fn lemma_push_new<A>(s: Seq<A>, x: A)
    requires
        s.no_duplicates(),
        !s.contains(x),
    ensures
        s.push(x).no_duplicates(),
        s.push(x).to_set() == s.to_set().insert(x),
{
    let after = s.push(x);
    assert(after[s.len() as int] == x);
    assert forall|c: A| s.contains(c) implies after.contains(c) by {
        let j = choose|j: int| 0 <= j < s.len() && s[j] == c;
        assert(after[j] == c);
    }
    assert(after.to_set() =~= s.to_set().insert(x));
}

/// A filter that every element passes keeps the sequence.
pub proof fn lemma_filter_keeps_all<A>(s: Seq<A>, pred: spec_fn(A) -> bool)
    requires
        forall|i: int| 0 <= i < s.len() ==> pred(#[trigger] s[i]),
    ensures
        s.filter(pred) == s,
    decreases s.len(),
{
    reveal(Seq::filter);
    if s.len() > 0 {
        lemma_filter_keeps_all(s.drop_last(), pred);
        assert(s.drop_last().push(s.last()) =~= s);
    }
}

/// A filter that no element passes leaves nothing.
pub proof fn lemma_filter_drops_all<A>(s: Seq<A>, pred: spec_fn(A) -> bool)
    requires
        forall|i: int| 0 <= i < s.len() ==> !pred(#[trigger] s[i]),
    ensures
        s.filter(pred) == Seq::<A>::empty(),
    decreases s.len(),
{
    reveal(Seq::filter);
    if s.len() > 0 {
        lemma_filter_drops_all(s.drop_last(), pred);
    }
}

/// A filter that the elements before place `k` pass, and no other, keeps
/// the first `k` elements.
pub proof fn lemma_filter_keeps_head<A>(s: Seq<A>, pred: spec_fn(A) -> bool, k: int)
    requires
        0 <= k <= s.len(),
        forall|i: int| 0 <= i < k ==> pred(#[trigger] s[i]),
        forall|i: int| k <= i < s.len() ==> !pred(#[trigger] s[i]),
    ensures
        s.filter(pred) == s.take(k),
{
    assert(s =~= s.take(k) + s.skip(k));
    Seq::filter_distributes_over_add(s.take(k), s.skip(k), pred);
    lemma_filter_keeps_all(s.take(k), pred);
    lemma_filter_drops_all(s.skip(k), pred);
    assert(s.take(k) + Seq::<A>::empty() =~= s.take(k));
}

/// A filter that the elements from place `k` on pass, and no other, keeps
/// the elements from place `k` on.
pub proof fn lemma_filter_keeps_tail<A>(s: Seq<A>, pred: spec_fn(A) -> bool, k: int)
    requires
        0 <= k <= s.len(),
        forall|i: int| 0 <= i < k ==> !pred(#[trigger] s[i]),
        forall|i: int| k <= i < s.len() ==> pred(#[trigger] s[i]),
    ensures
        s.filter(pred) == s.skip(k),
{
    assert(s =~= s.take(k) + s.skip(k));
    Seq::filter_distributes_over_add(s.take(k), s.skip(k), pred);
    lemma_filter_drops_all(s.take(k), pred);
    lemma_filter_keeps_all(s.skip(k), pred);
    assert(Seq::<A>::empty() + s.skip(k) =~= s.skip(k));
}

/// Two filters that agree on every element keep the same elements.
pub proof fn lemma_filter_agree<A>(s: Seq<A>, p: spec_fn(A) -> bool, q: spec_fn(A) -> bool)
    requires
        forall|i: int| 0 <= i < s.len() ==> p(#[trigger] s[i]) == q(s[i]),
    ensures
        s.filter(p) == s.filter(q),
    decreases s.len(),
{
    reveal(Seq::filter);
    if s.len() > 0 {
        lemma_filter_agree(s.drop_last(), p, q);
    }
}

/// Filtering twice is filtering once by both conditions.
pub proof fn lemma_filter_twice<A>(s: Seq<A>, p: spec_fn(A) -> bool, q: spec_fn(A) -> bool)
    ensures
        s.filter(p).filter(q) == s.filter(|x: A| p(x) && q(x)),
    decreases s.len(),
{
    let both = |x: A| p(x) && q(x);
    if s.len() == 0 {
        reveal(Seq::filter);
    } else {
        let head = s.drop_last();
        let x = s.last();
        assert(s =~= head.push(x));
        lemma_filter_twice(head, p, q);
        head.lemma_filter_push(x, p);
        head.lemma_filter_push(x, both);
        if p(x) {
            head.filter(p).lemma_filter_push(x, q);
        }
    }
}

/// What a filter keeps, it keeps in order: two kept elements stand in the
/// sequence as they stand among the kept.
pub proof fn lemma_filter_keeps_order<A>(s: Seq<A>, keep: spec_fn(A) -> bool, a: int, b: int)
    requires
        0 <= a < b < s.filter(keep).len(),
    ensures
        exists|x: int, y: int|
            0 <= x < y < s.len() && #[trigger] s[x] == s.filter(keep)[a] && #[trigger] s[y]
                == s.filter(keep)[b],
    decreases s.len(),
{
    if s.len() == 0 {
        reveal(Seq::filter);
    } else {
        let head = s.drop_last();
        let last = s.last();
        let n = s.len() - 1;
        assert(s =~= head.push(last));
        head.lemma_filter_push(last, keep);
        let kept = s.filter(keep);
        let front = head.filter(keep);
        if b < front.len() {
            lemma_filter_keeps_order(head, keep, a, b);
            let (x, y) = choose|x: int, y: int|
                0 <= x < y < head.len() && #[trigger] head[x] == front[a] && #[trigger] head[y]
                    == front[b];
            assert(s[x] == kept[a] && s[y] == kept[b]);
        } else {
            assert(kept[b] == last);
            assert(kept[a] == front[a]);
            assert(front.contains(front[a]));
            head.lemma_filter_contains_rev(keep, front[a]);
            let x = choose|x: int| 0 <= x < head.len() && head[x] == front[a];
            assert(s[x] == kept[a] && s[n] == kept[b]);
        }
    }
}

} // verus!
