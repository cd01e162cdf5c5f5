//! Facts about sequences: the part that a predicate picks out, and what a
//! rearrangement leaves as it is.

use vstd::multiset::Multiset;
use vstd::prelude::*;

verus! {

/// Picking from nothing gives nothing.
pub proof fn lemma_filter_empty<A>(p: spec_fn(A) -> bool)
    ensures
        Seq::<A>::empty().filter(p) == Seq::<A>::empty(),
{
    Seq::<A>::empty().lemma_filter_len(p);
    assert(Seq::<A>::empty().filter(p) =~= Seq::<A>::empty());
}

/// What is picked from `s` is what is picked from all but its last element,
/// with the last element behind it if it is picked too.
pub proof fn lemma_filter_last<A>(s: Seq<A>, p: spec_fn(A) -> bool)
    requires
        s.len() > 0,
    ensures
        s.filter(p) == if p(s.last()) {
            s.drop_last().filter(p).push(s.last())
        } else {
            s.drop_last().filter(p)
        },
{
    assert(s =~= s.drop_last().push(s.last()));
    s.drop_last().lemma_filter_push(s.last(), p);
}

/// Picking from a sequence read backwards is reading backwards what is picked.
pub proof fn lemma_filter_reverse<A>(s: Seq<A>, p: spec_fn(A) -> bool)
    ensures
        s.reverse().filter(p) == s.filter(p).reverse(),
    decreases s.len(),
{
    if s.len() == 0 {
        lemma_filter_empty(p);
        assert(s =~= Seq::<A>::empty());
        assert(s.reverse() =~= Seq::<A>::empty());
        assert(Seq::<A>::empty().reverse() =~= Seq::<A>::empty());
    } else {
        let t = s.drop_last();
        let x = s.last();
        lemma_filter_reverse(t, p);
        lemma_filter_last(s, p);
        let head = Seq::<A>::empty().push(x);
        assert(s.reverse() =~= head + t.reverse());
        Seq::filter_distributes_over_add(head, t.reverse(), p);
        lemma_filter_empty(p);
        Seq::<A>::empty().lemma_filter_push(x, p);
        if p(x) {
            assert(t.filter(p).push(x).reverse() =~= head + t.filter(p).reverse());
        } else {
            assert(Seq::<A>::empty() + t.filter(p).reverse() =~= t.filter(p).reverse());
        }
    }
}

/// Picking by `p` from what `q` picked is picking by `p`, where `q` holds of
/// all that `p` holds of.
pub proof fn lemma_filter_within<A>(s: Seq<A>, q: spec_fn(A) -> bool, p: spec_fn(A) -> bool)
    requires
        forall|v: A| #[trigger] p(v) ==> q(v),
    ensures
        s.filter(q).filter(p) == s.filter(p),
    decreases s.len(),
{
    if s.len() == 0 {
        lemma_filter_empty(p);
        lemma_filter_empty(q);
        assert(s =~= Seq::<A>::empty());
    } else {
        lemma_filter_within(s.drop_last(), q, p);
        lemma_filter_last(s, q);
        lemma_filter_last(s, p);
        if q(s.last()) {
            s.drop_last().filter(q).lemma_filter_push(s.last(), p);
        }
    }
}

/// Picking by `p` from what `q` picked gives nothing, where `p` and `q` hold
/// of nothing in common.
pub proof fn lemma_filter_apart<A>(s: Seq<A>, q: spec_fn(A) -> bool, p: spec_fn(A) -> bool)
    requires
        forall|v: A| #[trigger] p(v) ==> !q(v),
    ensures
        s.filter(q).filter(p) == Seq::<A>::empty(),
    decreases s.len(),
{
    if s.len() == 0 {
        lemma_filter_empty(p);
        lemma_filter_empty(q);
        assert(s =~= Seq::<A>::empty());
    } else {
        lemma_filter_apart(s.drop_last(), q, p);
        lemma_filter_last(s, q);
        if q(s.last()) {
            s.drop_last().filter(q).lemma_filter_push(s.last(), p);
        }
    }
}

/// Nothing is picked where the predicate holds of no element.
pub proof fn lemma_filter_none<A>(s: Seq<A>, p: spec_fn(A) -> bool)
    requires
        forall|i: int| 0 <= i < s.len() ==> !p(#[trigger] s[i]),
    ensures
        s.filter(p) == Seq::<A>::empty(),
    decreases s.len(),
{
    if s.len() == 0 {
        lemma_filter_empty(p);
        assert(s =~= Seq::<A>::empty());
    } else {
        assert forall|i: int| 0 <= i < s.drop_last().len() implies !p(
            #[trigger] s.drop_last()[i],
        ) by {
            assert(s.drop_last()[i] == s[i]);
        }
        lemma_filter_none(s.drop_last(), p);
        lemma_filter_last(s, p);
        assert(s.last() == s[s.len() - 1]);
    }
}

/// What is picked holds a value as often as the sequence does, where the
/// predicate holds of the value, and not at all where it does not.
pub proof fn lemma_filter_count<A>(s: Seq<A>, p: spec_fn(A) -> bool, v: A)
    ensures
        s.filter(p).to_multiset().count(v) == if p(v) {
            s.to_multiset().count(v)
        } else {
            0
        },
    decreases s.len(),
{
    broadcast use vstd::multiset::group_multiset_axioms;

    if s.len() == 0 {
        lemma_filter_empty(p);
        assert(s =~= Seq::<A>::empty());
        assert(Seq::<A>::empty().to_multiset() =~= Multiset::<A>::empty()) by {
            Seq::<A>::empty().to_multiset_ensures();
        }
    } else {
        let t = s.drop_last();
        let x = s.last();
        lemma_filter_count(t, p, v);
        lemma_filter_last(s, p);
        assert(s =~= t.push(x));
        vstd::seq_lib::to_multiset_build(t, x);
        if p(x) {
            vstd::seq_lib::to_multiset_build(t.filter(p), x);
        }
    }
}

/// Applying a function to each element of two sequences that hold the same
/// elements equally often gives two sequences that do so too.
pub proof fn lemma_map_permutation<A, B>(a: Seq<A>, b: Seq<A>, f: spec_fn(A) -> B)
    requires
        a.to_multiset() == b.to_multiset(),
    ensures
        a.map_values(f).to_multiset() == b.map_values(f).to_multiset(),
    decreases a.len(),
{
    broadcast use vstd::multiset::group_multiset_axioms;

    vstd::seq_lib::to_multiset_len(a);
    vstd::seq_lib::to_multiset_len(b);
    if a.len() == 0 {
        assert(a.map_values(f) =~= b.map_values(f));
    } else {
        let x = a.last();
        let rest = a.drop_last();
        assert(a =~= rest.push(x));
        vstd::seq_lib::to_multiset_build(rest, x);
        assert(b.to_multiset().count(x) > 0);
        vstd::seq_lib::to_multiset_contains(b, x);
        let k = choose|k: int| 0 <= k < b.len() && b[k] == x;
        let others = b.remove(k);
        vstd::seq_lib::to_multiset_remove(b, k);
        assert(others.to_multiset() =~= rest.to_multiset());
        lemma_map_permutation(rest, others, f);
        assert(a.map_values(f) =~= rest.map_values(f).push(f(x)));
        assert(b.map_values(f) =~= others.map_values(f).insert(k, f(x)));
        vstd::seq_lib::to_multiset_build(rest.map_values(f), f(x));
        vstd::seq_lib::to_multiset_insert(others.map_values(f), k, f(x));
    }
}

} // verus!
