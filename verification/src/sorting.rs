//! Ordering the variants of one block by bandwidth, highest first.

use vstd::prelude::*;
use crate::bandwidth::get_bandwidth;
use crate::error::ReorderError;
use crate::sequences::{lemma_filter_empty, lemma_filter_last, lemma_filter_reverse};
use crate::variant::Variant;

verus! {

/// Some variant of `s` has a bandwidth that denotes no number.
pub open spec fn has_malformed<P>(s: Seq<Variant<P>>) -> bool {
    exists|i: int| 0 <= i < s.len() && (#[trigger] s[i]).is_malformed()
}

/// `sorted` with `x` put in behind every variant whose bandwidth is not
/// higher than that of `x`.
pub open spec fn insert_by_rate<P>(sorted: Seq<Variant<P>>, x: Variant<P>) -> Seq<Variant<P>>
    decreases sorted.len(),
{
    if sorted.len() == 0 || sorted.last().rate_or_zero() <= x.rate_or_zero() {
        sorted.push(x)
    } else {
        insert_by_rate(sorted.drop_last(), x).push(sorted.last())
    }
}

/// `s` sorted by bandwidth, lowest first, by a stable sort: variants of equal
/// bandwidth keep the order in which they stand in `s`.
pub open spec fn ascending<P>(s: Seq<Variant<P>>) -> Seq<Variant<P>>
    decreases s.len(),
{
    if s.len() == 0 {
        s
    } else {
        insert_by_rate(ascending(s.drop_last()), s.last())
    }
}

/// `s` sorted by bandwidth, highest first: the stable ascending sort, read
/// backwards. Among variants of equal bandwidth, one that stands later in `s`
/// therefore comes out earlier.
pub open spec fn descending<P>(s: Seq<Variant<P>>) -> Seq<Variant<P>> {
    ascending(s).reverse()
}

/// Inserting by bandwidth is inserting at the position behind which every
/// bandwidth is higher and before which the nearest one is not.
pub proof fn lemma_insert_position<P>(t: Seq<Variant<P>>, x: Variant<P>, pos: int)
    requires
        0 <= pos <= t.len(),
        forall|j: int| pos <= j < t.len() ==> (#[trigger] t[j]).rate_or_zero() > x.rate_or_zero(),
        pos == 0 || t[pos - 1].rate_or_zero() <= x.rate_or_zero(),
    ensures
        insert_by_rate(t, x) == t.insert(pos, x),
    decreases t.len(),
{
    if pos == t.len() {
        assert(t.insert(pos, x) =~= t.push(x));
    } else {
        assert(t.last() == t[t.len() - 1]);
        lemma_insert_position(t.drop_last(), x, pos);
        assert(t.drop_last().insert(pos, x).push(t.last()) =~= t.insert(pos, x));
    }
}

/// The bandwidth never falls from one variant of `s` to the next.
pub open spec fn is_nondecreasing<P>(s: Seq<Variant<P>>) -> bool {
    forall|i: int, j: int|
        0 <= i < j < s.len() ==> (#[trigger] s[i]).rate_or_zero() <= (#[trigger] s[j]).rate_or_zero()
}

/// The bandwidth never rises from one variant of `s` to the next.
pub open spec fn is_nonincreasing<P>(s: Seq<Variant<P>>) -> bool {
    forall|i: int, j: int|
        0 <= i < j < s.len() ==> (#[trigger] s[i]).rate_or_zero() >= (#[trigger] s[j]).rate_or_zero()
}

/// Where `insert_by_rate` puts `x`: behind the last variant of `t` whose
/// bandwidth is not higher, if every variant behind that one has a higher one.
pub open spec fn insert_position<P>(t: Seq<Variant<P>>, x: Variant<P>) -> int
    decreases t.len(),
{
    if t.len() == 0 || t.last().rate_or_zero() <= x.rate_or_zero() {
        t.len() as int
    } else {
        insert_position(t.drop_last(), x)
    }
}

/// `insert_by_rate` is an insertion at `insert_position`.
pub proof fn lemma_insert_by_rate<P>(t: Seq<Variant<P>>, x: Variant<P>)
    ensures
        0 <= insert_position(t, x) <= t.len(),
        insert_by_rate(t, x) == t.insert(insert_position(t, x), x),
        forall|j: int|
            insert_position(t, x) <= j < t.len() ==> (#[trigger] t[j]).rate_or_zero()
                > x.rate_or_zero(),
        insert_position(t, x) == 0 || t[insert_position(t, x) - 1].rate_or_zero()
            <= x.rate_or_zero(),
    decreases t.len(),
{
    if t.len() == 0 || t.last().rate_or_zero() <= x.rate_or_zero() {
        assert(t.insert(t.len() as int, x) =~= t.push(x));
    } else {
        let rest = t.drop_last();
        lemma_insert_by_rate(rest, x);
        let pos = insert_position(rest, x);
        assert forall|j: int| pos <= j < t.len() implies (#[trigger] t[j]).rate_or_zero()
            > x.rate_or_zero() by {
            if j < rest.len() {
                assert(rest[j] == t[j]);
            }
        }
        if pos > 0 {
            assert(rest[pos - 1] == t[pos - 1]);
        }
        assert(rest.insert(pos, x).push(t.last()) =~= t.insert(pos, x));
    }
}

/// Inserting by bandwidth into a sorted sequence leaves it sorted.
pub proof fn lemma_insert_keeps_order<P>(t: Seq<Variant<P>>, x: Variant<P>)
    requires
        is_nondecreasing(t),
    ensures
        is_nondecreasing(insert_by_rate(t, x)),
{
    lemma_insert_by_rate(t, x);
    let pos = insert_position(t, x);
    let r = t.insert(pos, x);
    assert forall|i: int, j: int| 0 <= i < j < r.len() implies (#[trigger] r[i]).rate_or_zero() <= (
    #[trigger] r[j]).rate_or_zero() by {
        if i == pos {
            assert(r[j] == t[j - 1]);
        } else if j == pos {
            assert(r[i] == t[i]);
            if i < pos - 1 {
                assert(t[i].rate_or_zero() <= t[pos - 1].rate_or_zero());
            }
        } else {
            let a = if i < pos { i } else { i - 1 };
            let b = if j < pos { j } else { j - 1 };
            assert(r[i] == t[a]);
            assert(r[j] == t[b]);
        }
    }
}

/// The ascending sort is sorted, and holds what the sequence holds.
pub proof fn lemma_ascending<P>(s: Seq<Variant<P>>)
    ensures
        is_nondecreasing(ascending(s)),
        ascending(s).len() == s.len(),
        ascending(s).to_multiset() == s.to_multiset(),
    decreases s.len(),
{
    if s.len() > 0 {
        let rest = s.drop_last();
        lemma_ascending(rest);
        lemma_insert_keeps_order(ascending(rest), s.last());
        lemma_insert_by_rate(ascending(rest), s.last());
        vstd::seq_lib::to_multiset_insert(
            ascending(rest),
            insert_position(ascending(rest), s.last()),
            s.last(),
        );
        assert(s =~= rest.push(s.last()));
        vstd::seq_lib::to_multiset_build(rest, s.last());
    }
}

/// A sorted sequence is its own ascending sort.
pub proof fn lemma_ascending_of_sorted<P>(s: Seq<Variant<P>>)
    requires
        is_nondecreasing(s),
    ensures
        ascending(s) == s,
    decreases s.len(),
{
    if s.len() > 0 {
        let rest = s.drop_last();
        assert forall|i: int, j: int| 0 <= i < j < rest.len() implies (
        #[trigger] rest[i]).rate_or_zero() <= (#[trigger] rest[j]).rate_or_zero() by {
            assert(rest[i] == s[i]);
            assert(rest[j] == s[j]);
        }
        lemma_ascending_of_sorted(rest);
        if rest.len() > 0 {
            assert(rest.last() == s[s.len() - 2]);
            assert(s.last() == s[s.len() - 1]);
        }
        assert(s =~= rest.push(s.last()));
    }
}

/// Picking from a sorted sequence with one more variant inserted is inserting
/// the variant, if it is picked, into what is picked from the sequence.
pub proof fn lemma_insert_filter<P>(
    t: Seq<Variant<P>>,
    x: Variant<P>,
    p: spec_fn(Variant<P>) -> bool,
)
    requires
        is_nondecreasing(t),
    ensures
        insert_by_rate(t, x).filter(p) == if p(x) {
            insert_by_rate(t.filter(p), x)
        } else {
            t.filter(p)
        },
    decreases t.len(),
{
    if t.len() == 0 {
        lemma_filter_empty(p);
        assert(t =~= Seq::<Variant<P>>::empty());
        t.lemma_filter_push(x, p);
    } else if t.last().rate_or_zero() <= x.rate_or_zero() {
        t.lemma_filter_push(x, p);
        let kept = t.filter(p);
        if p(x) && kept.len() > 0 {
            assert(kept.contains(kept.last()));
            t.lemma_filter_contains_rev(p, kept.last());
            let i = choose|i: int| 0 <= i < t.len() && t[i] == kept.last();
            if i < t.len() - 1 {
                assert(t[i].rate_or_zero() <= t[t.len() - 1].rate_or_zero());
            }
        }
    } else {
        let rest = t.drop_last();
        let last = t.last();
        assert forall|i: int, j: int| 0 <= i < j < rest.len() implies (
        #[trigger] rest[i]).rate_or_zero() <= (#[trigger] rest[j]).rate_or_zero() by {
            assert(rest[i] == t[i]);
            assert(rest[j] == t[j]);
        }
        lemma_insert_filter(rest, x, p);
        insert_by_rate(rest, x).lemma_filter_push(last, p);
        lemma_filter_last(t, p);
        if p(last) && p(x) {
            assert(rest.filter(p).push(last).drop_last() =~= rest.filter(p));
        }
    }
}

/// Sorting what is picked is picking from what is sorted: the stable sort
/// keeps the order of the variants that it does not tell apart.
pub proof fn lemma_ascending_filter<P>(s: Seq<Variant<P>>, p: spec_fn(Variant<P>) -> bool)
    ensures
        ascending(s).filter(p) == ascending(s.filter(p)),
    decreases s.len(),
{
    if s.len() == 0 {
        lemma_filter_empty(p);
        assert(s =~= Seq::<Variant<P>>::empty());
    } else {
        let rest = s.drop_last();
        lemma_ascending_filter(rest, p);
        lemma_ascending(rest);
        lemma_insert_filter(ascending(rest), s.last(), p);
        lemma_filter_last(s, p);
        if p(s.last()) {
            assert(rest.filter(p).push(s.last()).drop_last() =~= rest.filter(p));
        }
    }
}

/// The descending sort is sorted, and holds what the sequence holds.
pub proof fn lemma_descending<P>(s: Seq<Variant<P>>)
    ensures
        is_nonincreasing(descending(s)),
        descending(s).len() == s.len(),
        descending(s).to_multiset() == s.to_multiset(),
{
    lemma_ascending(s);
    ascending(s).lemma_reverse_to_multiset();
    let a = ascending(s);
    let d = descending(s);
    assert forall|i: int, j: int| 0 <= i < j < d.len() implies (#[trigger] d[i]).rate_or_zero() >= (
    #[trigger] d[j]).rate_or_zero() by {
        assert(d[i] == a[a.len() - 1 - i]);
        assert(d[j] == a[a.len() - 1 - j]);
    }
}

/// Among variants of one bandwidth the descending sort turns the order
/// round: what `p` picks from it is what `p` picks from the sequence, read
/// backwards, where `p` holds of variants of one bandwidth only.
pub proof fn lemma_descending_ties<P>(s: Seq<Variant<P>>, p: spec_fn(Variant<P>) -> bool)
    requires
        forall|v: Variant<P>, w: Variant<P>|
            #[trigger] p(v) && #[trigger] p(w) ==> v.rate_or_zero() == w.rate_or_zero(),
    ensures
        descending(s).filter(p) == s.filter(p).reverse(),
{
    lemma_filter_reverse(ascending(s), p);
    lemma_ascending_filter(s, p);
    let kept = s.filter(p);
    assert forall|i: int, j: int| 0 <= i < j < kept.len() implies (
    #[trigger] kept[i]).rate_or_zero() <= (#[trigger] kept[j]).rate_or_zero() by {
        s.lemma_filter_pred(p, i);
        s.lemma_filter_pred(p, j);
    }
    lemma_ascending_of_sorted(kept);
}

/// The variants of `s` whose bandwidth is `rate`, in their order in `s`.
pub open spec fn with_rate<P>(s: Seq<Variant<P>>, rate: nat) -> Seq<Variant<P>> {
    s.filter(|v: Variant<P>| v.rate_or_zero() == rate)
}

/// Two sorted sequences that hold, for every bandwidth, the same variants in
/// the same order are one sequence.
pub proof fn lemma_sorted_unique<P>(a: Seq<Variant<P>>, b: Seq<Variant<P>>)
    requires
        is_nondecreasing(a),
        is_nondecreasing(b),
        forall|rate: nat| #[trigger] with_rate(a, rate) == with_rate(b, rate),
    ensures
        a == b,
    decreases a.len(),
{
    if a.len() == 0 {
        if b.len() > 0 {
            let n = b.last().rate_or_zero();
            lemma_filter_last(b, |v: Variant<P>| v.rate_or_zero() == n);
            assert(with_rate(a, n) == with_rate(b, n));
            a.lemma_filter_len(|v: Variant<P>| v.rate_or_zero() == n);
        }
        assert(a =~= b);
    } else {
        let m = a.last().rate_or_zero();
        let pm = |v: Variant<P>| v.rate_or_zero() == m;
        lemma_filter_last(a, pm);
        assert(with_rate(a, m) == with_rate(b, m));
        b.lemma_filter_len(pm);
        let n = b.last().rate_or_zero();
        let pn = |v: Variant<P>| v.rate_or_zero() == n;
        lemma_filter_last(b, pn);
        assert(with_rate(a, n) == with_rate(b, n));
        assert(m == n) by {
            assert(with_rate(b, m).contains(a.last())) by {
                assert(with_rate(a, m)[with_rate(a, m).len() - 1] == a.last());
            }
            b.lemma_filter_contains_rev(pm, a.last());
            let q = choose|q: int| 0 <= q < b.len() && b[q] == a.last();
            assert(with_rate(a, n).contains(b.last())) by {
                assert(with_rate(b, n)[with_rate(b, n).len() - 1] == b.last());
            }
            a.lemma_filter_contains_rev(pn, b.last());
            let r = choose|r: int| 0 <= r < a.len() && a[r] == b.last();
            if q < b.len() - 1 {
                assert(b[q].rate_or_zero() <= b[b.len() - 1].rate_or_zero());
            }
            if r < a.len() - 1 {
                assert(a[r].rate_or_zero() <= a[a.len() - 1].rate_or_zero());
            }
        }
        lemma_filter_last(b, pm);
        assert(a.last() == b.last()) by {
            assert(with_rate(a, m).last() == a.last());
            assert(with_rate(b, m).last() == b.last());
        }
        let front_a = a.drop_last();
        let front_b = b.drop_last();
        assert forall|rate: nat| #[trigger] with_rate(front_a, rate) == with_rate(front_b, rate) by {
            let p = |v: Variant<P>| v.rate_or_zero() == rate;
            lemma_filter_last(a, p);
            lemma_filter_last(b, p);
            assert(with_rate(a, rate) == with_rate(b, rate));
            if rate == m {
                assert(with_rate(front_a, rate).push(a.last()).drop_last() =~= with_rate(
                    front_a,
                    rate,
                ));
                assert(with_rate(front_b, rate).push(a.last()).drop_last() =~= with_rate(
                    front_b,
                    rate,
                ));
            }
        }
        assert(is_nondecreasing(front_a)) by {
            assert forall|i: int, j: int| 0 <= i < j < front_a.len() implies (
            #[trigger] front_a[i]).rate_or_zero() <= (#[trigger] front_a[j]).rate_or_zero() by {
                assert(front_a[i] == a[i]);
                assert(front_a[j] == a[j]);
            }
        }
        assert(is_nondecreasing(front_b)) by {
            assert forall|i: int, j: int| 0 <= i < j < front_b.len() implies (
            #[trigger] front_b[i]).rate_or_zero() <= (#[trigger] front_b[j]).rate_or_zero() by {
                assert(front_b[i] == b[i]);
                assert(front_b[j] == b[j]);
            }
        }
        lemma_sorted_unique(front_a, front_b);
        assert(a =~= front_a.push(a.last()));
        assert(b =~= front_b.push(b.last()));
    }
}

/// What the descending sort is: the one sequence in which no bandwidth is
/// higher than one before it and which holds, for every bandwidth, the
/// variants of `s` that have it, in the reverse of their order in `s`.
pub proof fn lemma_descending_is_determined<P>(s: Seq<Variant<P>>, out: Seq<Variant<P>>)
    requires
        is_nonincreasing(out),
        forall|rate: nat| #[trigger] with_rate(out, rate) == with_rate(s, rate).reverse(),
    ensures
        out == descending(s),
{
    let back = out.reverse();
    lemma_ascending(s);
    assert(is_nondecreasing(back)) by {
        assert forall|i: int, j: int| 0 <= i < j < back.len() implies (
        #[trigger] back[i]).rate_or_zero() <= (#[trigger] back[j]).rate_or_zero() by {
            assert(back[i] == out[out.len() - 1 - i]);
            assert(back[j] == out[out.len() - 1 - j]);
        }
    }
    assert forall|rate: nat| #[trigger] with_rate(back, rate) == with_rate(ascending(s), rate) by {
        let p = |v: Variant<P>| v.rate_or_zero() == rate;
        lemma_filter_reverse(out, p);
        assert(with_rate(out, rate) == with_rate(s, rate).reverse());
        assert(with_rate(s, rate).reverse().reverse() =~= with_rate(s, rate));
        lemma_ascending_filter(s, p);
        let kept = s.filter(p);
        assert forall|i: int, j: int| 0 <= i < j < kept.len() implies (
        #[trigger] kept[i]).rate_or_zero() <= (#[trigger] kept[j]).rate_or_zero() by {
            s.lemma_filter_pred(p, i);
            s.lemma_filter_pred(p, j);
        }
        lemma_ascending_of_sorted(kept);
    }
    lemma_sorted_unique(back, ascending(s));
    assert(out =~= back.reverse());
}

/// The bandwidths of `v`, in order, or the failure where one is malformed.
fn bandwidths<P>(v: &Vec<Variant<P>>) -> (r: Result<Vec<usize>, ReorderError>)
    ensures
        match r {
            Ok(keys) => {
                &&& !has_malformed(v@)
                &&& keys@.len() == v@.len()
                &&& forall|i: int| 0 <= i < v@.len() ==> v@[i].rate() == Some(keys@[i] as nat)
            },
            Err(e) => e == ReorderError::MalformedBandwidth && has_malformed(v@),
        },
{
    let mut keys: Vec<usize> = Vec::new();
    let mut i: usize = 0;
    while i < v.len()
        invariant
            i <= v.len(),
            keys@.len() == i,
            forall|j: int| 0 <= j < i ==> v@[j].rate() == Some(keys@[j] as nat),
        decreases v.len() - i,
    {
        match get_bandwidth(&v[i]) {
            Ok(k) => keys.push(k),
            Err(e) => {
                return Err(e);
            },
        }
        i += 1;
    }
    assert forall|j: int| 0 <= j < v@.len() implies !(#[trigger] v@[j]).is_malformed() by {
        assert(v@[j].rate() == Some(keys@[j] as nat));
    }
    Ok(keys)
}

/// Sorts `v` by bandwidth, lowest first, keeping variants of equal bandwidth
/// in their order. `keys` holds the bandwidth of each.
fn sort_ascending<P>(v: Vec<Variant<P>>, keys: Vec<usize>) -> (out: Vec<Variant<P>>)
    requires
        keys@.len() == v@.len(),
        forall|i: int| 0 <= i < v@.len() ==> v@[i].rate_or_zero() == keys@[i],
    ensures
        out@ == ascending(v@),
{
    let ghost s = v@;
    let mut sorted: Vec<Variant<P>> = Vec::new();
    let mut sorted_keys: Vec<usize> = Vec::new();
    let mut n: usize = 0;
    for x in it: v
        invariant
            it.seq() == s,
            n == it.index(),
            keys@.len() == s.len(),
            forall|i: int| 0 <= i < s.len() ==> s[i].rate_or_zero() == keys@[i],
            sorted@ == ascending(s.take(n as int)),
            sorted_keys@.len() == sorted@.len(),
            forall|i: int| 0 <= i < sorted@.len() ==> sorted@[i].rate_or_zero() == sorted_keys@[i],
    {
        let key: usize = keys[n];
        let mut pos: usize = sorted.len();
        while pos > 0 && sorted_keys[pos - 1] > key
            invariant
                pos <= sorted@.len(),
                sorted_keys@.len() == sorted@.len(),
                forall|i: int| 0 <= i < sorted@.len() ==> sorted@[i].rate_or_zero() == sorted_keys@[i],
                forall|j: int| pos <= j < sorted@.len() ==> (#[trigger] sorted@[j]).rate_or_zero() > key,
            decreases pos,
        {
            pos -= 1;
        }
        proof {
            lemma_insert_position(sorted@, x, pos as int);
            assert(s.take(n + 1).drop_last() =~= s.take(n as int));
        }
        sorted.insert(pos, x);
        sorted_keys.insert(pos, key);
        assert(n < keys.len());
        n += 1;
    }
    assert(s.take(n as int) =~= s);
    sorted
}

/// `v` read backwards.
fn reversed<P>(v: Vec<Variant<P>>) -> (out: Vec<Variant<P>>)
    ensures
        out@ == v@.reverse(),
{
    let ghost s = v@;
    let mut v = v;
    let mut out: Vec<Variant<P>> = Vec::new();
    while v.len() > 0
        invariant
            v@.len() + out@.len() == s.len(),
            v@ == s.take(v@.len() as int),
            forall|i: int| 0 <= i < out@.len() ==> out@[i] == s[s.len() - 1 - i],
        decreases v.len(),
    {
        match v.pop() {
            Some(x) => out.push(x),
            None => {},
        }
    }
    assert(out@ =~= s.reverse());
    out
}

/// Sorts the variants of one block by bandwidth, highest first; among
/// variants of equal bandwidth the later one of `v` comes first. Fails, with
/// nothing produced, where a bandwidth is malformed.
pub fn sort_descending<P>(v: Vec<Variant<P>>) -> (r: Result<Vec<Variant<P>>, ReorderError>)
    ensures
        match r {
            Ok(out) => {
                &&& !has_malformed(v@)
                &&& out@ == descending(v@)
                &&& is_nonincreasing(out@)
                &&& out@.to_multiset() == v@.to_multiset()
            },
            Err(e) => e == ReorderError::MalformedBandwidth && has_malformed(v@),
        },
{
    proof {
        lemma_descending(v@);
    }
    match bandwidths(&v) {
        Ok(keys) => Ok(reversed(sort_ascending(v, keys))),
        Err(e) => Err(e),
    }
}

} // verus!
