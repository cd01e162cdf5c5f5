//! What holds of every reordered variant list.

use vstd::prelude::*;
use crate::grouping::{
    group_of, groups_of, has_group, has_ungrouped, iframes_of, lemma_buckets_push,
    lemma_group_member, lemma_iframe_member,
};
use crate::reorder::{blocks, is_ascending, lists, reordered, sorted_ids};
use crate::sequences::{
    lemma_filter_apart, lemma_filter_count, lemma_filter_empty, lemma_filter_last,
    lemma_filter_none, lemma_filter_reverse, lemma_filter_within,
};
use crate::sorting::{descending, lemma_descending, lemma_descending_ties};
use crate::text::{
    lemma_lex_asymmetric, lemma_lex_irreflexive, lemma_lex_total, lemma_lex_transitive, lex_le,
    lex_lt,
};
use crate::variant::Variant;

verus! {

/// `x` and `y` belong to one block of the final order: both are I-frame
/// variants, or both are regular variants of one audio group.
pub open spec fn same_block<P>(x: Variant<P>, y: Variant<P>) -> bool {
    if x.is_i_frame {
        y.is_i_frame
    } else {
        !y.is_i_frame && x.group_id() == y.group_id()
    }
}

/// The block of `x` stands before that of `y`: `x` is a regular variant, and
/// `y` is an I-frame variant or a regular variant of an audio group whose
/// identifier comes later.
pub open spec fn block_before<P>(x: Variant<P>, y: Variant<P>) -> bool {
    &&& !x.is_i_frame
    &&& x.group_id() is Some
    &&& y.is_i_frame || (y.group_id() is Some && lex_lt(x.group_id()->0, y.group_id()->0))
}

/// `x` and `y` belong to one block and have the same bandwidth: nothing but
/// their order in the input decides which comes first.
pub open spec fn tied<P>(x: Variant<P>, y: Variant<P>) -> bool {
    same_block(x, y) && x.rate_or_zero() == y.rate_or_zero()
}

/// The final order lets `x` stand before `y`: the block of `x` stands before
/// that of `y`, or they share a block and the bandwidth of `x` is not lower.
pub open spec fn may_precede<P>(x: Variant<P>, y: Variant<P>) -> bool {
    block_before(x, y) || (same_block(x, y) && x.rate_or_zero() >= y.rate_or_zero())
}

/// Blocks in their order, and within each block no bandwidth higher than one
/// before it.
pub open spec fn in_final_order<P>(s: Seq<Variant<P>>) -> bool {
    forall|i: int, j: int| 0 <= i < j < s.len() ==> may_precede(#[trigger] s[i], #[trigger] s[j])
}

/// The variants of `s` that are tied with `x`, in their order in `s`.
pub open spec fn ties_with<P>(s: Seq<Variant<P>>, x: Variant<P>) -> Seq<Variant<P>> {
    s.filter(|v: Variant<P>| tied(v, x))
}

/// Every variant of the descending sort of `t` is a variant of `t`.
proof fn lemma_descending_member<P>(t: Seq<Variant<P>>, k: int)
    requires
        0 <= k < descending(t).len(),
    ensures
        t.contains(descending(t)[k]),
{
    broadcast use vstd::seq_lib::to_multiset_contains;

    lemma_descending(t);
    let e = descending(t)[k];
    assert(descending(t).contains(e));
    assert(descending(t).to_multiset().count(e) > 0);
}

/// Every identifier of `ids` is that of an audio group of `s`.
pub open spec fn all_named<P>(s: Seq<Variant<P>>, ids: Seq<Seq<char>>) -> bool {
    forall|j: int| 0 <= j < ids.len() ==> has_group(s, #[trigger] ids[j])
}

/// Every variant in the blocks named by `ids` is a regular variant of `s`
/// that names one of `ids`.
proof fn lemma_blocks_member<P>(s: Seq<Variant<P>>, ids: Seq<Seq<char>>, k: int) -> (j: int)
    requires
        all_named(s, ids),
        0 <= k < blocks(groups_of(s), ids).len(),
    ensures
        0 <= j < ids.len(),
        blocks(groups_of(s), ids)[k].in_group(ids[j]),
        s.contains(blocks(groups_of(s), ids)[k]),
    decreases ids.len(),
{
    let front = blocks(groups_of(s), ids.drop_last());
    if k < front.len() {
        assert forall|j: int| 0 <= j < ids.drop_last().len() implies has_group(
            s,
            #[trigger] ids.drop_last()[j],
        ) by {
            assert(ids.drop_last()[j] == ids[j]);
        }
        let j = lemma_blocks_member(s, ids.drop_last(), k);
        assert(ids.drop_last()[j] == ids[j]);
        j
    } else {
        let id = ids.last();
        assert(has_group(s, ids[ids.len() - 1]));
        let bucket = group_of(s, id);
        assert(groups_of(s)[id] == bucket);
        let e = descending(bucket)[k - front.len()];
        lemma_descending_member(bucket, k - front.len());
        let q = choose|q: int| 0 <= q < bucket.len() && bucket[q] == e;
        lemma_group_member(s, id, q);
        ids.len() - 1
    }
}

/// `ids` with `a` put in at its place in the ascending order, unless it is
/// there already.
spec fn insert_id(ids: Seq<Seq<char>>, a: Seq<char>) -> Seq<Seq<char>>
    decreases ids.len(),
{
    if ids.len() == 0 || lex_lt(ids.last(), a) {
        ids.push(a)
    } else if ids.last() == a {
        ids
    } else {
        insert_id(ids.drop_last(), a).push(ids.last())
    }
}

/// Putting an identifier in keeps the list ascending, and adds that
/// identifier and no other.
proof fn lemma_insert_id(ids: Seq<Seq<char>>, a: Seq<char>)
    requires
        is_ascending(ids),
    ensures
        is_ascending(insert_id(ids, a)),
        forall|id: Seq<char>|
            #![trigger insert_id(ids, a).contains(id)]
            #![trigger ids.contains(id)]
            insert_id(ids, a).contains(id) <==> ids.contains(id) || id == a,
    decreases ids.len(),
{
    let r = insert_id(ids, a);
    if ids.len() == 0 || lex_lt(ids.last(), a) {
        assert forall|i: int, j: int| 0 <= i < j < r.len() implies lex_lt(
            #[trigger] r[i],
            #[trigger] r[j],
        ) by {
            if j == ids.len() {
                assert(r[i] == ids[i]);
                if i < ids.len() - 1 {
                    assert(lex_lt(ids[i], ids[ids.len() - 1]));
                    lemma_lex_transitive(ids[i], ids.last(), a);
                }
            } else {
                assert(lex_lt(ids[i], ids[j]));
            }
        }
        assert forall|id: Seq<char>| r.contains(id) <==> ids.contains(id) || id == a by {
            if r.contains(id) {
                let k = choose|k: int| 0 <= k < r.len() && r[k] == id;
                if k < ids.len() {
                    assert(ids[k] == id);
                }
            }
            if ids.contains(id) {
                let k = choose|k: int| 0 <= k < ids.len() && ids[k] == id;
                assert(r[k] == id);
            }
            if id == a {
                assert(r[ids.len() as int] == id);
            }
        }
    } else if ids.last() == a {
        assert(ids.contains(ids[ids.len() - 1]));
    } else {
        let rest = ids.drop_last();
        let last = ids.last();
        assert forall|i: int, j: int| 0 <= i < j < rest.len() implies lex_lt(
            #[trigger] rest[i],
            #[trigger] rest[j],
        ) by {
            assert(lex_lt(ids[i], ids[j]));
        }
        lemma_insert_id(rest, a);
        let front = insert_id(rest, a);
        lemma_lex_total(last, a);
        assert(lex_lt(a, last));
        assert forall|i: int, j: int| 0 <= i < j < r.len() implies lex_lt(
            #[trigger] r[i],
            #[trigger] r[j],
        ) by {
            if j == front.len() {
                assert(r[i] == front[i]);
                assert(front.contains(front[i]));
                if front[i] != a {
                    assert(rest.contains(front[i]));
                    let k = choose|k: int| 0 <= k < rest.len() && rest[k] == front[i];
                    assert(lex_lt(ids[k], ids[ids.len() - 1]));
                }
            } else {
                assert(lex_lt(front[i], front[j]));
            }
        }
        assert forall|id: Seq<char>| r.contains(id) <==> ids.contains(id) || id == a by {
            if r.contains(id) {
                let k = choose|k: int| 0 <= k < r.len() && r[k] == id;
                if k < front.len() {
                    assert(front[k] == id);
                    assert(front.contains(id));
                    if id != a {
                        let q = choose|q: int| 0 <= q < rest.len() && rest[q] == id;
                        assert(ids[q] == id);
                    }
                } else {
                    assert(ids[ids.len() - 1] == id);
                }
            }
            if ids.contains(id) {
                let q = choose|q: int| 0 <= q < ids.len() && ids[q] == id;
                if q < rest.len() {
                    assert(rest[q] == id);
                    assert(rest.contains(id));
                    let k = choose|k: int| 0 <= k < front.len() && front[k] == id;
                    assert(r[k] == id);
                } else {
                    assert(r[front.len() as int] == id);
                }
            }
            if id == a {
                assert(front.contains(a));
                let k = choose|k: int| 0 <= k < front.len() && front[k] == a;
                assert(r[k] == id);
            }
        }
    }
}

/// Some sequence lists the audio groups of `s`.
proof fn lemma_listing_exists<P>(s: Seq<Variant<P>>)
    ensures
        exists|ids: Seq<Seq<char>>| lists(ids, groups_of(s).dom()),
    decreases s.len(),
{
    let keys = groups_of(s).dom();
    if s.len() == 0 {
        let none = Seq::<Seq<char>>::empty();
        assert(lists(none, keys));
    } else {
        let rest = s.drop_last();
        let x = s.last();
        lemma_listing_exists(rest);
        let before = choose|ids: Seq<Seq<char>>| lists(ids, groups_of(rest).dom());
        assert(s =~= rest.push(x));
        lemma_buckets_push(rest, x);
        if !x.is_i_frame && x.group_id() is Some {
            let a = x.group_id()->0;
            lemma_insert_id(before, a);
            let ids = insert_id(before, a);
            assert forall|id: Seq<char>| ids.contains(id) <==> keys.contains(id) by {
                assert(has_group(s, id) <==> has_group(rest, id) || x.in_group(id));
                assert(before.contains(id) <==> groups_of(rest).dom().contains(id));
            }
            assert(lists(ids, keys));
        } else {
            assert forall|id: Seq<char>| before.contains(id) <==> keys.contains(id) by {
                assert(has_group(s, id) <==> has_group(rest, id) || x.in_group(id));
                assert(before.contains(id) <==> groups_of(rest).dom().contains(id));
            }
            assert(lists(before, keys));
        }
    }
}

/// The audio groups of `s` can be listed in ascending order: `sorted_ids`
/// holds each of their identifiers once, and nothing else.
pub proof fn lemma_sorted_ids<P>(s: Seq<Variant<P>>)
    ensures
        lists(sorted_ids(groups_of(s).dom()), groups_of(s).dom()),
        all_named(s, sorted_ids(groups_of(s).dom())),
{
    lemma_listing_exists(s);
    let ids = sorted_ids(groups_of(s).dom());
    assert forall|j: int| 0 <= j < ids.len() implies has_group(s, #[trigger] ids[j]) by {
        assert(ids.contains(ids[j]));
    }
}

/// The blocks named by an ascending list of identifiers stand in the final
/// order.
proof fn lemma_blocks_in_order<P>(s: Seq<Variant<P>>, ids: Seq<Seq<char>>)
    requires
        all_named(s, ids),
        is_ascending(ids),
    ensures
        in_final_order(blocks(groups_of(s), ids)),
    decreases ids.len(),
{
    let all = blocks(groups_of(s), ids);
    if ids.len() > 0 {
        let rest = ids.drop_last();
        let id = ids.last();
        assert(all_named(s, rest)) by {
            assert forall|j: int| 0 <= j < rest.len() implies has_group(s, #[trigger] rest[j]) by {
                assert(rest[j] == ids[j]);
            }
        }
        assert(is_ascending(rest)) by {
            assert forall|i: int, j: int| 0 <= i < j < rest.len() implies lex_lt(
                #[trigger] rest[i],
                #[trigger] rest[j],
            ) by {
                assert(lex_lt(ids[i], ids[j]));
            }
        }
        lemma_blocks_in_order(s, rest);
        let front = blocks(groups_of(s), rest);
        assert(has_group(s, ids[ids.len() - 1]));
        let bucket = group_of(s, id);
        assert(groups_of(s)[id] == bucket);
        let back = descending(bucket);
        lemma_descending(bucket);
        assert forall|i: int, j: int| 0 <= i < j < all.len() implies may_precede(
            #[trigger] all[i],
            #[trigger] all[j],
        ) by {
            if j < front.len() {
                assert(may_precede(front[i], front[j]));
            } else {
                let y = back[j - front.len()];
                lemma_descending_member(bucket, j - front.len());
                let q = choose|q: int| 0 <= q < bucket.len() && bucket[q] == y;
                lemma_group_member(s, id, q);
                if i < front.len() {
                    let k = lemma_blocks_member(s, rest, i);
                    assert(lex_lt(ids[k], ids[ids.len() - 1]));
                    assert(block_before(all[i], all[j]));
                } else {
                    let x = back[i - front.len()];
                    lemma_descending_member(bucket, i - front.len());
                    let r = choose|r: int| 0 <= r < bucket.len() && bucket[r] == x;
                    lemma_group_member(s, id, r);
                    assert(same_block(x, y));
                    assert(x.rate_or_zero() >= y.rate_or_zero());
                }
            }
        }
    }
}

/// Group ordering and intra-group ordering: the reordered list stands in the
/// final order. Regular variants come before I-frame variants, an audio
/// group whose identifier comes earlier in lexicographic order comes
/// earlier, and within a block no bandwidth is higher than one before it.
pub proof fn lemma_reordered_in_order<P>(s: Seq<Variant<P>>)
    ensures
        in_final_order(reordered(s)),
{
    lemma_sorted_ids(s);
    let ids = sorted_ids(groups_of(s).dom());
    lemma_blocks_in_order(s, ids);
    let front = blocks(groups_of(s), ids);
    let frames = iframes_of(s);
    let back = descending(frames);
    lemma_descending(frames);
    let all = reordered(s);
    assert forall|i: int, j: int| 0 <= i < j < all.len() implies may_precede(
        #[trigger] all[i],
        #[trigger] all[j],
    ) by {
        if j < front.len() {
            assert(may_precede(front[i], front[j]));
        } else {
            let y = back[j - front.len()];
            lemma_descending_member(frames, j - front.len());
            let q = choose|q: int| 0 <= q < frames.len() && frames[q] == y;
            lemma_iframe_member(s, q);
            if i < front.len() {
                let k = lemma_blocks_member(s, ids, i);
                assert(block_before(all[i], all[j]));
            } else {
                let x = back[i - front.len()];
                lemma_descending_member(frames, i - front.len());
                let r = choose|r: int| 0 <= r < frames.len() && frames[r] == x;
                lemma_iframe_member(s, r);
                assert(same_block(x, y));
                assert(x.rate_or_zero() >= y.rate_or_zero());
            }
        }
    }
}

/// `x` is a regular variant of one of the audio groups `ids`.
spec fn names_one<P>(ids: Seq<Seq<char>>, x: Variant<P>) -> bool {
    exists|j: int| 0 <= j < ids.len() && x.in_group(#[trigger] ids[j])
}

/// The bucket of `id` holds all variants tied with `x` or none of them.
proof fn lemma_ties_in_group<P>(s: Seq<Variant<P>>, id: Seq<char>, x: Variant<P>)
    ensures
        ties_with(group_of(s, id), x) == if x.in_group(id) {
            ties_with(s, x)
        } else {
            Seq::<Variant<P>>::empty()
        },
{
    let q = |v: Variant<P>| v.in_group(id);
    let p = |v: Variant<P>| tied(v, x);
    if x.in_group(id) {
        lemma_filter_within(s, q, p);
    } else {
        lemma_filter_apart(s, q, p);
    }
}

/// The I-frame bucket holds all variants tied with `x` or none of them.
proof fn lemma_ties_in_iframes<P>(s: Seq<Variant<P>>, x: Variant<P>)
    ensures
        ties_with(iframes_of(s), x) == if x.is_i_frame {
            ties_with(s, x)
        } else {
            Seq::<Variant<P>>::empty()
        },
{
    let q = |v: Variant<P>| v.is_i_frame;
    let p = |v: Variant<P>| tied(v, x);
    if x.is_i_frame {
        lemma_filter_within(s, q, p);
    } else {
        lemma_filter_apart(s, q, p);
    }
}

/// Sorting a bucket turns the order of the variants tied with `x` round.
proof fn lemma_descending_turns_ties<P>(t: Seq<Variant<P>>, x: Variant<P>)
    ensures
        ties_with(descending(t), x) == ties_with(t, x).reverse(),
{
    lemma_descending_ties(t, |v: Variant<P>| tied(v, x));
}

/// The blocks named by `ids` hold the variants tied with `x`, turned round,
/// if `x` names one of `ids`, and none of them if not.
proof fn lemma_blocks_ties<P>(s: Seq<Variant<P>>, ids: Seq<Seq<char>>, x: Variant<P>)
    requires
        all_named(s, ids),
        is_ascending(ids),
    ensures
        ties_with(blocks(groups_of(s), ids), x) == if names_one(ids, x) {
            ties_with(s, x).reverse()
        } else {
            Seq::<Variant<P>>::empty()
        },
    decreases ids.len(),
{
    let p = |v: Variant<P>| tied(v, x);
    let none = Seq::<Variant<P>>::empty();
    if ids.len() == 0 {
        lemma_filter_empty(p);
    } else {
        let rest = ids.drop_last();
        let id = ids.last();
        assert(all_named(s, rest)) by {
            assert forall|j: int| 0 <= j < rest.len() implies has_group(s, #[trigger] rest[j]) by {
                assert(rest[j] == ids[j]);
            }
        }
        assert(is_ascending(rest)) by {
            assert forall|i: int, j: int| 0 <= i < j < rest.len() implies lex_lt(
                #[trigger] rest[i],
                #[trigger] rest[j],
            ) by {
                assert(lex_lt(ids[i], ids[j]));
            }
        }
        lemma_blocks_ties(s, rest, x);
        let front = blocks(groups_of(s), rest);
        assert(has_group(s, ids[ids.len() - 1]));
        let bucket = group_of(s, id);
        assert(groups_of(s)[id] == bucket);
        Seq::filter_distributes_over_add(front, descending(bucket), p);
        lemma_descending_turns_ties(bucket, x);
        lemma_ties_in_group(s, id, x);
        if x.in_group(id) {
            assert(x.in_group(ids[ids.len() - 1]));
            assert(!names_one(rest, x)) by {
                if names_one(rest, x) {
                    let j = choose|j: int| 0 <= j < rest.len() && x.in_group(#[trigger] rest[j]);
                    assert(lex_lt(ids[j], ids[ids.len() - 1]));
                    lemma_lex_irreflexive(id);
                }
            }
            assert(none + ties_with(s, x).reverse() =~= ties_with(s, x).reverse());
        } else {
            assert(none.reverse() =~= none);
            assert(ties_with(front, x) + none =~= ties_with(front, x));
            if names_one(rest, x) {
                let j = choose|j: int| 0 <= j < rest.len() && x.in_group(#[trigger] rest[j]);
                assert(x.in_group(ids[j]));
            }
            if names_one(ids, x) {
                let j = choose|j: int| 0 <= j < ids.len() && x.in_group(#[trigger] ids[j]);
                assert(x.in_group(rest[j]));
            }
        }
    }
}

/// Grouping: in the reordered list nothing but I-frame variants follows an
/// I-frame variant, and the variants of one block stand together, with no
/// variant of another block between them.
pub proof fn lemma_reordered_blocks<P>(s: Seq<Variant<P>>)
    ensures
        forall|i: int, j: int|
            0 <= i < j < reordered(s).len() && (#[trigger] reordered(s)[i]).is_i_frame ==> (
            #[trigger] reordered(s)[j]).is_i_frame,
        forall|i: int, k: int, j: int|
            0 <= i < k < j < reordered(s).len() && same_block(
                #[trigger] reordered(s)[i],
                #[trigger] reordered(s)[j],
            ) ==> same_block(reordered(s)[i], #[trigger] reordered(s)[k]),
{
    let out = reordered(s);
    lemma_reordered_in_order(s);
    assert forall|i: int, k: int, j: int|
        0 <= i < k < j < out.len() && same_block(#[trigger] out[i], #[trigger] out[j])
        implies same_block(out[i], #[trigger] out[k]) by {
        assert(may_precede(out[i], out[k]));
        assert(may_precede(out[k], out[j]));
        if block_before(out[i], out[k]) {
            let a = out[i].group_id()->0;
            if block_before(out[k], out[j]) {
                lemma_lex_asymmetric(a, out[k].group_id()->0);
            } else {
                lemma_lex_irreflexive(a);
            }
        }
    }
}

/// Every variant of the reordered list is a variant of `s`: an I-frame
/// variant, or a regular variant that names an audio group.
pub proof fn lemma_reordered_member<P>(s: Seq<Variant<P>>, k: int)
    requires
        0 <= k < reordered(s).len(),
    ensures
        s.contains(reordered(s)[k]),
        reordered(s)[k].is_i_frame || reordered(s)[k].group_id() is Some,
{
    lemma_sorted_ids(s);
    let ids = sorted_ids(groups_of(s).dom());
    let front = blocks(groups_of(s), ids);
    if k < front.len() {
        let j = lemma_blocks_member(s, ids, k);
    } else {
        let frames = iframes_of(s);
        lemma_descending_member(frames, k - front.len());
        let e = descending(frames)[k - front.len()];
        let q = choose|q: int| 0 <= q < frames.len() && frames[q] == e;
        lemma_iframe_member(s, q);
    }
}

/// Group ordering: of two regular variants in the reordered list, the later
/// one names the same audio group as the earlier one or a group whose
/// identifier comes later in lexicographic order.
pub proof fn lemma_reordered_groups_ascend<P>(s: Seq<Variant<P>>)
    ensures
        forall|i: int, j: int|
            0 <= i < j < reordered(s).len() && !(#[trigger] reordered(s)[i]).is_i_frame && !(
            #[trigger] reordered(s)[j]).is_i_frame ==> {
                &&& reordered(s)[i].group_id() is Some
                &&& reordered(s)[j].group_id() is Some
                &&& lex_le(reordered(s)[i].group_id()->0, reordered(s)[j].group_id()->0)
            },
{
    let out = reordered(s);
    lemma_reordered_in_order(s);
    assert forall|i: int, j: int|
        0 <= i < j < out.len() && !(#[trigger] out[i]).is_i_frame && !(
        #[trigger] out[j]).is_i_frame implies {
        &&& out[i].group_id() is Some
        &&& out[j].group_id() is Some
        &&& lex_le(out[i].group_id()->0, out[j].group_id()->0)
    } by {
        assert(may_precede(out[i], out[j]));
        lemma_reordered_member(s, i);
        lemma_reordered_member(s, j);
    }
}

/// Intra-group ordering: within a block of the reordered list no bandwidth
/// is higher than one before it.
pub proof fn lemma_reordered_bandwidth_falls<P>(s: Seq<Variant<P>>)
    ensures
        forall|i: int, j: int|
            0 <= i < j < reordered(s).len() && same_block(
                #[trigger] reordered(s)[i],
                #[trigger] reordered(s)[j],
            ) ==> reordered(s)[i].rate_or_zero() >= reordered(s)[j].rate_or_zero(),
{
    let out = reordered(s);
    lemma_reordered_in_order(s);
    assert forall|i: int, j: int|
        0 <= i < j < out.len() && same_block(#[trigger] out[i], #[trigger] out[j])
        implies out[i].rate_or_zero() >= out[j].rate_or_zero() by {
        assert(may_precede(out[i], out[j]));
        if block_before(out[i], out[j]) {
            lemma_lex_irreflexive(out[i].group_id()->0);
        }
    }
}

/// The tie-break: among the variants of one block that have one bandwidth,
/// the reordered list holds those of `s`, in the reverse of their order in
/// `s`.
pub proof fn lemma_reordered_ties<P>(s: Seq<Variant<P>>, x: Variant<P>)
    requires
        !has_ungrouped(s),
    ensures
        ties_with(reordered(s), x) == ties_with(s, x).reverse(),
{
    let p = |v: Variant<P>| tied(v, x);
    let none = Seq::<Variant<P>>::empty();
    lemma_sorted_ids(s);
    let ids = sorted_ids(groups_of(s).dom());
    let front = blocks(groups_of(s), ids);
    let frames = iframes_of(s);
    lemma_blocks_ties(s, ids, x);
    Seq::filter_distributes_over_add(front, descending(frames), p);
    lemma_descending_turns_ties(frames, x);
    lemma_ties_in_iframes(s, x);
    assert(none.reverse() =~= none);
    if x.is_i_frame {
        assert(!names_one(ids, x));
        assert(none + ties_with(s, x).reverse() =~= ties_with(s, x).reverse());
    } else if names_one(ids, x) {
        assert(ties_with(s, x).reverse() + none =~= ties_with(s, x).reverse());
    } else {
        assert forall|i: int| 0 <= i < s.len() implies !p(#[trigger] s[i]) by {
            if tied(s[i], x) {
                assert(!s[i].is_ungrouped());
                let id = s[i].group_id()->0;
                assert(s[i].in_group(id));
                assert(has_group(s, id));
                assert(ids.contains(id));
                let j = choose|j: int| 0 <= j < ids.len() && ids[j] == id;
                assert(x.in_group(ids[j]));
            }
        }
        lemma_filter_none(s, p);
        assert(none + none =~= none);
    }
}

/// The permutation invariant: the reordered list holds exactly the variants
/// of `s`, each as often as `s` does.
pub proof fn lemma_reorder_permutes<P>(s: Seq<Variant<P>>)
    requires
        !has_ungrouped(s),
    ensures
        reordered(s).to_multiset() == s.to_multiset(),
{
    assert forall|v: Variant<P>|
        reordered(s).to_multiset().count(v) == s.to_multiset().count(v) by {
        let p = |w: Variant<P>| tied(w, v);
        lemma_reordered_ties(s, v);
        lemma_filter_count(reordered(s), p, v);
        lemma_filter_count(s, p, v);
        ties_with(s, v).lemma_reverse_to_multiset();
    }
    assert(reordered(s).to_multiset() =~= s.to_multiset());
}

/// Two variants each of which may stand before the other are tied.
proof fn lemma_mutual_precedence<P>(x: Variant<P>, y: Variant<P>)
    requires
        may_precede(x, y),
        may_precede(y, x),
    ensures
        tied(x, y),
{
    if block_before(x, y) {
        let a = x.group_id()->0;
        if block_before(y, x) {
            lemma_lex_asymmetric(a, y.group_id()->0);
        } else {
            lemma_lex_irreflexive(a);
        }
    } else if block_before(y, x) {
        lemma_lex_irreflexive(y.group_id()->0);
    }
}

/// The final order and the order within each set of tied variants leave one
/// list only: two lists in the final order with the same tied variants in the
/// same order are the same list.
pub proof fn lemma_final_order_unique<P>(a: Seq<Variant<P>>, b: Seq<Variant<P>>)
    requires
        in_final_order(a),
        in_final_order(b),
        forall|x: Variant<P>| #[trigger] ties_with(a, x) == ties_with(b, x),
    ensures
        a == b,
    decreases a.len(),
{
    if a.len() == 0 {
        if b.len() > 0 {
            let n = b.last();
            lemma_filter_last(b, |v: Variant<P>| tied(v, n));
            assert(ties_with(a, n) == ties_with(b, n));
            a.lemma_filter_len(|v: Variant<P>| tied(v, n));
        }
        assert(a =~= b);
    } else {
        let m = a.last();
        let pm = |v: Variant<P>| tied(v, m);
        lemma_filter_last(a, pm);
        assert(ties_with(a, m) == ties_with(b, m));
        b.lemma_filter_len(pm);
        let n = b.last();
        let pn = |v: Variant<P>| tied(v, n);
        lemma_filter_last(b, pn);
        assert(ties_with(a, n) == ties_with(b, n));
        assert(tied(n, m)) by {
            assert(ties_with(b, m).contains(m)) by {
                assert(ties_with(a, m)[ties_with(a, m).len() - 1] == m);
            }
            b.lemma_filter_contains_rev(pm, m);
            let q = choose|q: int| 0 <= q < b.len() && b[q] == m;
            assert(ties_with(a, n).contains(n)) by {
                assert(ties_with(b, n)[ties_with(b, n).len() - 1] == n);
            }
            a.lemma_filter_contains_rev(pn, n);
            let r = choose|r: int| 0 <= r < a.len() && a[r] == n;
            if q < b.len() - 1 && r < a.len() - 1 {
                assert(may_precede(b[q], b[b.len() - 1]));
                assert(may_precede(a[r], a[a.len() - 1]));
                lemma_mutual_precedence(m, n);
            }
        }
        lemma_filter_last(b, pm);
        assert(m == n) by {
            assert(ties_with(a, m).last() == m);
            assert(ties_with(b, m).last() == n);
        }
        let front_a = a.drop_last();
        let front_b = b.drop_last();
        assert forall|x: Variant<P>| #[trigger] ties_with(front_a, x) == ties_with(front_b, x) by {
            let px = |v: Variant<P>| tied(v, x);
            lemma_filter_last(a, px);
            lemma_filter_last(b, px);
            assert(ties_with(a, x) == ties_with(b, x));
            if tied(m, x) {
                assert(ties_with(front_a, x).push(m).drop_last() =~= ties_with(front_a, x));
                assert(ties_with(front_b, x).push(m).drop_last() =~= ties_with(front_b, x));
            }
        }
        assert(in_final_order(front_a)) by {
            assert forall|i: int, j: int| 0 <= i < j < front_a.len() implies may_precede(
                #[trigger] front_a[i],
                #[trigger] front_a[j],
            ) by {
                assert(may_precede(a[i], a[j]));
            }
        }
        assert(in_final_order(front_b)) by {
            assert forall|i: int, j: int| 0 <= i < j < front_b.len() implies may_precede(
                #[trigger] front_b[i],
                #[trigger] front_b[j],
            ) by {
                assert(may_precede(b[i], b[j]));
            }
        }
        lemma_final_order_unique(front_a, front_b);
        assert(a =~= front_a.push(m));
        assert(b =~= front_b.push(n));
    }
}

/// The final order and the tie-break say all there is to say: a list that
/// stands in the final order and holds the tied variants of `s` in the
/// reverse of their order in `s` is the reordered list.
pub proof fn lemma_reordered_is_determined<P>(s: Seq<Variant<P>>, out: Seq<Variant<P>>)
    requires
        !has_ungrouped(s),
        in_final_order(out),
        forall|x: Variant<P>| #[trigger] ties_with(out, x) == ties_with(s, x).reverse(),
    ensures
        out == reordered(s),
{
    lemma_reordered_in_order(s);
    assert forall|x: Variant<P>| #[trigger] ties_with(out, x) == ties_with(reordered(s), x) by {
        lemma_reordered_ties(s, x);
    }
    lemma_final_order_unique(out, reordered(s));
}

/// Reordering brings in no regular variant without an audio group.
pub proof fn lemma_reordered_grouped<P>(s: Seq<Variant<P>>)
    requires
        !has_ungrouped(s),
    ensures
        !has_ungrouped(reordered(s)),
{
    broadcast use vstd::seq_lib::to_multiset_contains;

    lemma_reorder_permutes(s);
    let out = reordered(s);
    if has_ungrouped(out) {
        let i = choose|i: int| 0 <= i < out.len() && (#[trigger] out[i]).is_ungrouped();
        assert(out.contains(out[i]));
        assert(out.to_multiset().count(out[i]) > 0);
        assert(s.contains(out[i]));
        let k = choose|k: int| 0 <= k < s.len() && s[k] == out[i];
        assert(s[k].is_ungrouped());
    }
}

/// In every set of tied variants of `s` the order reads the same in both
/// directions.
pub open spec fn ties_symmetric<P>(s: Seq<Variant<P>>) -> bool {
    forall|x: Variant<P>| #[trigger] ties_with(s, x).reverse() == ties_with(s, x)
}

/// Reordering twice is reordering the list read backwards: the second pass
/// leaves every variant in its block and turns each set of tied variants
/// round once more.
pub proof fn lemma_reorder_twice<P>(s: Seq<Variant<P>>)
    requires
        !has_ungrouped(s),
    ensures
        reordered(reordered(s)) == reordered(s.reverse()),
{
    let once = reordered(s);
    let back = s.reverse();
    lemma_reordered_grouped(s);
    lemma_reordered_in_order(once);
    assert(!has_ungrouped(back)) by {
        if has_ungrouped(back) {
            let i = choose|i: int| 0 <= i < back.len() && (#[trigger] back[i]).is_ungrouped();
            assert(s[s.len() - 1 - i].is_ungrouped());
        }
    }
    assert forall|x: Variant<P>| #[trigger]
        ties_with(reordered(once), x) == ties_with(back, x).reverse() by {
        lemma_reordered_ties(once, x);
        lemma_reordered_ties(s, x);
        lemma_filter_reverse(s, |v: Variant<P>| tied(v, x));
    }
    lemma_reordered_is_determined(back, reordered(once));
}

/// Idempotence: reordering a reordered list changes nothing, where in every
/// set of tied variants of `s` the order reads the same in both directions
/// (as it does where no two different variants are tied).
pub proof fn lemma_reorder_idempotent<P>(s: Seq<Variant<P>>)
    requires
        !has_ungrouped(s),
        ties_symmetric(s),
    ensures
        reordered(reordered(s)) == reordered(s),
{
    let once = reordered(s);
    lemma_reordered_grouped(s);
    lemma_reordered_in_order(once);
    assert forall|x: Variant<P>| #[trigger]
        ties_with(reordered(once), x) == ties_with(s, x).reverse() by {
        lemma_reordered_ties(once, x);
        lemma_reordered_ties(s, x);
        assert(ties_with(s, x).reverse() == ties_with(s, x));
    }
    lemma_reordered_is_determined(s, reordered(once));
}

/// Where tied variants do not read the same in both directions, the second
/// reordering does change the list: it turns them round again.
pub proof fn lemma_reorder_idempotent_only_then<P>(s: Seq<Variant<P>>)
    requires
        !has_ungrouped(s),
        reordered(reordered(s)) == reordered(s),
    ensures
        ties_symmetric(s),
{
    let once = reordered(s);
    lemma_reordered_grouped(s);
    assert forall|x: Variant<P>| #[trigger] ties_with(s, x).reverse() == ties_with(s, x) by {
        lemma_reordered_ties(once, x);
        lemma_reordered_ties(s, x);
        assert(ties_with(s, x).reverse().reverse() =~= ties_with(s, x));
    }
}

} // verus!
