//! Putting the buckets back together in their final order.

use vstd::prelude::*;
use crate::error::ReorderError;
use crate::grouping::{
    group_of, group_variants, groups_of, has_ungrouped, iframes_of, lemma_group_kept,
    lemma_group_member, lemma_iframe_kept, lemma_iframe_member, Group, Grouping,
};
use crate::laws::{
    in_final_order, lemma_reorder_permutes, lemma_reordered_in_order, lemma_reordered_ties,
    ties_with,
};
use crate::sorting::{descending, has_malformed, sort_descending};
use crate::text::{
    lemma_lex_asymmetric, lemma_lex_irreflexive, lemma_lex_total, lemma_lex_transitive, lex_lt,
    str_lt,
};
use crate::variant::Variant;

verus! {

/// Each identifier of `ids` comes before those behind it.
pub open spec fn is_ascending(ids: Seq<Seq<char>>) -> bool {
    forall|i: int, j: int| 0 <= i < j < ids.len() ==> lex_lt(#[trigger] ids[i], #[trigger] ids[j])
}

/// `ids` lists the identifiers in `keys`, each once, in ascending order.
pub open spec fn lists(ids: Seq<Seq<char>>, keys: Set<Seq<char>>) -> bool {
    &&& is_ascending(ids)
    &&& forall|id: Seq<char>| ids.contains(id) <==> keys.contains(id)
}

/// The identifiers in `keys` in ascending lexicographic order.
pub open spec fn sorted_ids(keys: Set<Seq<char>>) -> Seq<Seq<char>> {
    choose|ids: Seq<Seq<char>>| lists(ids, keys)
}

/// The buckets named by `ids`, each sorted by bandwidth, highest first, one
/// behind the other in the order of `ids`.
pub open spec fn blocks<P>(
    buckets: Map<Seq<char>, Seq<Variant<P>>>,
    ids: Seq<Seq<char>>,
) -> Seq<Variant<P>>
    decreases ids.len(),
{
    if ids.len() == 0 {
        Seq::empty()
    } else {
        blocks(buckets, ids.drop_last()) + descending(buckets[ids.last()])
    }
}

/// The final order: the buckets of regular variants in ascending order of
/// their identifiers, then the I-frame variants; each bucket sorted by
/// bandwidth, highest first.
pub open spec fn reassembled<P>(
    iframes: Seq<Variant<P>>,
    buckets: Map<Seq<char>, Seq<Variant<P>>>,
) -> Seq<Variant<P>> {
    blocks(buckets, sorted_ids(buckets.dom())) + descending(iframes)
}

/// Some variant in one of the buckets has a malformed bandwidth.
pub open spec fn any_malformed<P>(
    iframes: Seq<Variant<P>>,
    buckets: Map<Seq<char>, Seq<Variant<P>>>,
) -> bool {
    has_malformed(iframes) || exists|id: Seq<char>|
        buckets.dom().contains(id) && has_malformed(#[trigger] buckets[id])
}

/// Only one sequence lists a given set of identifiers.
pub proof fn lemma_lists_unique(a: Seq<Seq<char>>, b: Seq<Seq<char>>, keys: Set<Seq<char>>)
    requires
        lists(a, keys),
        lists(b, keys),
    ensures
        a == b,
    decreases a.len(),
{
    if a.len() == 0 {
        if b.len() > 0 {
            assert(b.contains(b[0]));
            assert(a.contains(b[0]));
        }
        assert(a =~= b);
    } else {
        let m = a.last();
        assert(a.contains(m));
        assert(b.contains(m));
        let j = choose|j: int| 0 <= j < b.len() && b[j] == m;
        let n = b.last();
        assert(b.contains(n));
        assert(a.contains(n));
        let i = choose|i: int| 0 <= i < a.len() && a[i] == n;
        if i < a.len() - 1 {
            assert(lex_lt(a[i], a[a.len() - 1]));
            if j < b.len() - 1 {
                assert(lex_lt(b[j], b[b.len() - 1]));
                lemma_lex_asymmetric(n, m);
            } else {
                lemma_lex_irreflexive(m);
            }
        }
        assert(m == n);
        let rest = keys.remove(m);
        assert forall|id: Seq<char>| a.drop_last().contains(id) <==> rest.contains(id) by {
            if a.drop_last().contains(id) {
                let k = choose|k: int| 0 <= k < a.drop_last().len() && a.drop_last()[k] == id;
                assert(a[k] == id);
                assert(a.contains(id));
                assert(lex_lt(a[k], a[a.len() - 1]));
                lemma_lex_irreflexive(m);
            }
            if rest.contains(id) {
                assert(a.contains(id));
                let k = choose|k: int| 0 <= k < a.len() && a[k] == id;
                assert(a.drop_last()[k] == id);
            }
        }
        assert forall|id: Seq<char>| b.drop_last().contains(id) <==> rest.contains(id) by {
            if b.drop_last().contains(id) {
                let k = choose|k: int| 0 <= k < b.drop_last().len() && b.drop_last()[k] == id;
                assert(b[k] == id);
                assert(b.contains(id));
                assert(lex_lt(b[k], b[b.len() - 1]));
                lemma_lex_irreflexive(m);
            }
            if rest.contains(id) {
                assert(b.contains(id));
                let k = choose|k: int| 0 <= k < b.len() && b[k] == id;
                assert(b.drop_last()[k] == id);
            }
        }
        assert(is_ascending(a.drop_last())) by {
            assert forall|p: int, q: int| 0 <= p < q < a.drop_last().len() implies lex_lt(
                #[trigger] a.drop_last()[p],
                #[trigger] a.drop_last()[q],
            ) by {
                assert(lex_lt(a[p], a[q]));
            }
        }
        assert(is_ascending(b.drop_last())) by {
            assert forall|p: int, q: int| 0 <= p < q < b.drop_last().len() implies lex_lt(
                #[trigger] b.drop_last()[p],
                #[trigger] b.drop_last()[q],
            ) by {
                assert(lex_lt(b[p], b[q]));
            }
        }
        lemma_lists_unique(a.drop_last(), b.drop_last(), rest);
        assert(a =~= a.drop_last().push(m));
        assert(b =~= b.drop_last().push(n));
    }
}

/// The identifiers of the buckets `gs`, in their order.
pub open spec fn ids_of<P>(gs: Seq<Group<P>>) -> Seq<Seq<char>> {
    Seq::new(gs.len(), |j: int| gs[j].id@)
}

/// The bucket at `j` is the one that the map holds under its identifier.
pub proof fn lemma_bucket_at<P>(g: Grouping<P>, j: int)
    requires
        g.wf(),
        0 <= j < g.groups@.len(),
    ensures
        g.buckets().dom().contains(g.groups@[j].id@),
        g.buckets()[g.groups@[j].id@] == g.groups@[j].members@,
{
    let id = g.groups@[j].id@;
    assert(g.has_id(id));
    let k = g.index_of(id);
    assert(g.groups@[k].id@ == id);
    if k < j {
        assert(g.groups@[k].id@ != g.groups@[j].id@);
    } else if j < k {
        assert(g.groups@[j].id@ != g.groups@[k].id@);
    }
}

/// Sorts buckets with distinct identifiers by identifier, ascending.
fn sort_groups<P>(groups: Vec<Group<P>>) -> (out: Vec<Group<P>>)
    requires
        forall|i: int, j: int|
            0 <= i < j < groups@.len() ==> (#[trigger] groups@[i]).id@ != (#[trigger] groups@[j]).id@,
    ensures
        is_ascending(ids_of(out@)),
        forall|g: Group<P>| out@.contains(g) <==> groups@.contains(g),
{
    let ghost s = groups@;
    let mut out: Vec<Group<P>> = Vec::new();
    for x in it: groups
        invariant
            it.seq() == s,
            forall|i: int, j: int|
                0 <= i < j < s.len() ==> (#[trigger] s[i]).id@ != (#[trigger] s[j]).id@,
            is_ascending(ids_of(out@)),
            forall|g: Group<P>| out@.contains(g) <==> s.take(it.index() as int).contains(g),
    {
        let ghost n: int = it.index() as int;
        let ghost before = out@;
        let mut pos: usize = out.len();
        while pos > 0 && str_lt(x.id.as_str(), out[pos - 1].id.as_str())
            invariant
                pos <= out@.len(),
                out@ == before,
                forall|j: int| pos <= j < out@.len() ==> lex_lt(x.id@, (#[trigger] out@[j]).id@),
            decreases pos,
        {
            pos -= 1;
        }
        proof {
            assert forall|i: int| 0 <= i < pos implies lex_lt((#[trigger] before[i]).id@, x.id@) by {
                let last = before[pos - 1];
                assert(before.contains(last));
                assert(s.take(n).contains(last));
                let k = choose|k: int| 0 <= k < s.take(n).len() && s.take(n)[k] == last;
                assert(s[k].id@ != s[n].id@);
                lemma_lex_total(last.id@, x.id@);
                if i < pos - 1 {
                    assert(lex_lt(ids_of(before)[i], ids_of(before)[pos - 1]));
                    lemma_lex_transitive(before[i].id@, last.id@, x.id@);
                }
            }
        }
        out.insert(pos, x);
        proof {
            let after = out@;
            assert forall|i: int, j: int| 0 <= i < j < after.len() implies lex_lt(
                #[trigger] ids_of(after)[i],
                #[trigger] ids_of(after)[j],
            ) by {
                let bi = if i < pos { i } else { i - 1 };
                let bj = if j < pos { j } else { j - 1 };
                if i != pos && j != pos {
                    assert(lex_lt(ids_of(before)[bi], ids_of(before)[bj]));
                } else if i == pos {
                    assert(lex_lt(x.id@, before[bj].id@));
                } else {
                    assert(lex_lt(before[bi].id@, x.id@));
                }
            }
            let seen = s.take(n + 1);
            assert forall|g: Group<P>| after.contains(g) <==> seen.contains(g) by {
                if after.contains(g) {
                    let k = choose|k: int| 0 <= k < after.len() && after[k] == g;
                    if k == pos {
                        assert(seen[n] == g);
                    } else {
                        let bk = if k < pos { k } else { k - 1 };
                        assert(before[bk] == g);
                        assert(before.contains(g));
                        let q = choose|q: int| 0 <= q < s.take(n).len() && s.take(n)[q] == g;
                        assert(seen[q] == g);
                    }
                }
                if seen.contains(g) {
                    let q = choose|q: int| 0 <= q < seen.len() && seen[q] == g;
                    if q == n {
                        assert(after[pos as int] == g);
                    } else {
                        assert(s.take(n)[q] == g);
                        assert(before.contains(g));
                        let k = choose|k: int| 0 <= k < before.len() && before[k] == g;
                        let ak = if k < pos { k } else { k + 1 };
                        assert(after[ak] == g);
                    }
                }
            }
        }
    }
    assert(s.take(s.len() as int) =~= s);
    out
}

/// Puts the buckets of `grouping` together in the final order: the buckets of
/// regular variants in ascending order of their identifiers, then the I-frame
/// variants, each bucket sorted by bandwidth, highest first. Fails, with
/// nothing produced, where a bandwidth is malformed.
pub fn reassemble<P>(grouping: Grouping<P>) -> (r: Result<Vec<Variant<P>>, ReorderError>)
    requires
        grouping.wf(),
    ensures
        match r {
            Ok(out) => {
                &&& !any_malformed(grouping.iframes@, grouping.buckets())
                &&& out@ == reassembled(grouping.iframes@, grouping.buckets())
            },
            Err(e) => {
                &&& e == ReorderError::MalformedBandwidth
                &&& any_malformed(grouping.iframes@, grouping.buckets())
            },
        },
{
    let ghost buckets = grouping.buckets();
    let ghost unsorted = grouping.groups@;
    let Grouping { iframes, groups } = grouping;
    let sorted = sort_groups(groups);
    let ghost gs = sorted@;
    let ghost ids = ids_of(gs);
    proof {
        assert forall|j: int| 0 <= j < gs.len() implies buckets.dom().contains(#[trigger] ids[j])
            && buckets[ids[j]] == gs[j].members@ by {
            assert(gs.contains(gs[j]));
            let k = choose|k: int| 0 <= k < unsorted.len() && unsorted[k] == gs[j];
            lemma_bucket_at(grouping, k);
        }
        assert forall|id: Seq<char>| ids.contains(id) <==> buckets.dom().contains(id) by {
            if ids.contains(id) {
                let j = choose|j: int| 0 <= j < ids.len() && ids[j] == id;
                assert(buckets.dom().contains(ids[j]));
            }
            if buckets.dom().contains(id) {
                let k = grouping.index_of(id);
                assert(unsorted.contains(unsorted[k]));
                let j = choose|j: int| 0 <= j < gs.len() && gs[j] == unsorted[k];
                assert(ids[j] == id);
            }
        }
        assert(lists(ids, buckets.dom()));
        lemma_lists_unique(ids, sorted_ids(buckets.dom()), buckets.dom());
    }
    let mut out: Vec<Variant<P>> = Vec::new();
    assert(ids.take(0) =~= Seq::<Seq<char>>::empty());
    for group in it: sorted
        invariant
            it.seq() == gs,
            ids == ids_of(gs),
            buckets == grouping.buckets(),
            forall|j: int|
                0 <= j < gs.len() ==> buckets.dom().contains(#[trigger] ids[j]) && buckets[ids[j]]
                    == gs[j].members@,
            out@ == blocks(buckets, ids.take(it.index() as int)),
            forall|j: int| 0 <= j < it.index() ==> !has_malformed(buckets[#[trigger] ids[j]]),
    {
        let ghost n: int = it.index() as int;
        proof {
            assert(ids.take(n + 1).drop_last() =~= ids.take(n));
            assert(ids.take(n + 1).last() == ids[n]);
        }
        match sort_descending(group.members) {
            Ok(block) => {
                let mut block = block;
                out.append(&mut block);
            },
            Err(e) => {
                proof {
                    assert(buckets.dom().contains(ids[n]));
                    assert(has_malformed(buckets[ids[n]]));
                }
                return Err(e);
            },
        }
    }
    assert(ids.take(gs.len() as int) =~= ids);
    match sort_descending(iframes) {
        Ok(block) => {
            let mut block = block;
            out.append(&mut block);
            proof {
                assert forall|id: Seq<char>| buckets.dom().contains(id) implies !has_malformed(
                    #[trigger] buckets[id],
                ) by {
                    assert(ids.contains(id));
                    let j = choose|j: int| 0 <= j < ids.len() && ids[j] == id;
                    assert(!has_malformed(buckets[ids[j]]));
                }
            }
            Ok(out)
        },
        Err(e) => Err(e),
    }
}

/// The variants of `s` in their final order: the regular variants audio
/// group by audio group, the groups in ascending order of their identifiers,
/// then the I-frame variants; within each of these blocks by bandwidth,
/// highest first, ties in the reverse of their order in `s`.
pub open spec fn reordered<P>(s: Seq<Variant<P>>) -> Seq<Variant<P>> {
    reassembled(iframes_of(s), groups_of(s))
}

/// What reordering `s` gives: the final order, or the failure. A regular
/// variant without an audio group fails the whole list, and so does a
/// malformed bandwidth; where both occur, the missing audio group is reported.
pub open spec fn reorder_outcome<P>(s: Seq<Variant<P>>) -> Result<Seq<Variant<P>>, ReorderError> {
    if has_ungrouped(s) {
        Err(ReorderError::MissingAudioGroup)
    } else if has_malformed(s) {
        Err(ReorderError::MalformedBandwidth)
    } else {
        Ok(reordered(s))
    }
}

/// A malformed bandwidth in a bucket is a malformed bandwidth in the list,
/// and the other way round.
pub proof fn lemma_malformed_in_buckets<P>(s: Seq<Variant<P>>)
    requires
        !has_ungrouped(s),
    ensures
        any_malformed(iframes_of(s), groups_of(s)) <==> has_malformed(s),
{
    let frames = iframes_of(s);
    let buckets = groups_of(s);
    if has_malformed(s) {
        let i = choose|i: int| 0 <= i < s.len() && (#[trigger] s[i]).is_malformed();
        if s[i].is_i_frame {
            lemma_iframe_kept(s, i);
            let k = choose|k: int| 0 <= k < frames.len() && frames[k] == s[i];
            assert(frames[k].is_malformed());
        } else {
            assert(!s[i].is_ungrouped());
            let id = s[i].group_id()->0;
            assert(s[i].in_group(id));
            lemma_group_kept(s, id, i);
            let k = choose|k: int| 0 <= k < group_of(s, id).len() && group_of(s, id)[k] == s[i];
            assert(group_of(s, id)[k].is_malformed());
            assert(buckets.dom().contains(id));
            assert(has_malformed(buckets[id]));
        }
    }
    if has_malformed(frames) {
        let k = choose|k: int| 0 <= k < frames.len() && (#[trigger] frames[k]).is_malformed();
        lemma_iframe_member(s, k);
        let i = choose|i: int| 0 <= i < s.len() && s[i] == frames[k];
        assert(s[i].is_malformed());
    }
    if exists|id: Seq<char>| buckets.dom().contains(id) && has_malformed(#[trigger] buckets[id]) {
        let id = choose|id: Seq<char>|
            buckets.dom().contains(id) && has_malformed(#[trigger] buckets[id]);
        let bucket = group_of(s, id);
        let k = choose|k: int| 0 <= k < bucket.len() && (#[trigger] bucket[k]).is_malformed();
        lemma_group_member(s, id, k);
        let i = choose|i: int| 0 <= i < s.len() && s[i] == bucket[k];
        assert(s[i].is_malformed());
    }
}

/// Reorders a variant list: regular variants audio group by audio group, the
/// groups in ascending lexicographic order of their identifiers, then the
/// I-frame variants; within each block by bandwidth, highest first, variants
/// of equal bandwidth in the reverse of their order in `vars`. The variants
/// themselves are moved, not changed. Fails, with nothing produced, where a
/// regular variant names no audio group or a bandwidth is malformed.
pub fn reorder<P>(vars: Vec<Variant<P>>) -> (r: Result<Vec<Variant<P>>, ReorderError>)
    ensures
        match r {
            Ok(out) => {
                &&& reorder_outcome(vars@) == Ok::<Seq<Variant<P>>, ReorderError>(out@)
                &&& out@.to_multiset() == vars@.to_multiset()
                &&& in_final_order(out@)
                &&& forall|x: Variant<P>| #[trigger]
                    ties_with(out@, x) == ties_with(vars@, x).reverse()
            },
            Err(e) => reorder_outcome(vars@) == Err::<Seq<Variant<P>>, ReorderError>(e),
        },
{
    match group_variants(vars) {
        Ok(grouping) => {
            proof {
                lemma_malformed_in_buckets(vars@);
                lemma_reorder_permutes(vars@);
                lemma_reordered_in_order(vars@);
                assert forall|x: Variant<P>| #[trigger]
                    ties_with(reordered(vars@), x) == ties_with(vars@, x).reverse() by {
                    lemma_reordered_ties(vars@, x);
                }
            }
            reassemble(grouping)
        },
        Err(e) => Err(e),
    }
}

} // verus!
