//! Sorting variants into buckets: the I-frame variants, and the regular
//! variants by audio group.

use vstd::prelude::*;
use crate::error::ReorderError;
use crate::variant::Variant;

verus! {

/// The I-frame variants of `s`, in the order in which they stand in `s`.
pub open spec fn iframes_of<P>(s: Seq<Variant<P>>) -> Seq<Variant<P>> {
    s.filter(|v: Variant<P>| v.is_i_frame)
}

/// The regular variants of `s` that name the audio group `id`, in the order
/// in which they stand in `s`.
pub open spec fn group_of<P>(s: Seq<Variant<P>>, id: Seq<char>) -> Seq<Variant<P>> {
    s.filter(|v: Variant<P>| v.in_group(id))
}

/// Some regular variant of `s` names the audio group `id`.
pub open spec fn has_group<P>(s: Seq<Variant<P>>, id: Seq<char>) -> bool {
    exists|i: int| 0 <= i < s.len() && (#[trigger] s[i]).in_group(id)
}

/// Some regular variant of `s` names no audio group.
pub open spec fn has_ungrouped<P>(s: Seq<Variant<P>>) -> bool {
    exists|i: int| 0 <= i < s.len() && (#[trigger] s[i]).is_ungrouped()
}

/// The regular variants of `s` by audio group: each group that occurs in `s`,
/// with its variants in the order in which they stand in `s`.
pub open spec fn groups_of<P>(s: Seq<Variant<P>>) -> Map<Seq<char>, Seq<Variant<P>>> {
    Map::new(|id: Seq<char>| has_group(s, id), |id: Seq<char>| group_of(s, id))
}

/// The regular variants that name one audio group.
#[derive(Debug)]
pub struct Group<P> {
    /// The audio group's identifier.
    pub id: String,
    /// The variants, in the order in which they were met.
    pub members: Vec<Variant<P>>,
}

/// A variant list sorted into buckets. The groups stand in no particular
/// order.
#[derive(Debug)]
pub struct Grouping<P> {
    /// The I-frame variants.
    pub iframes: Vec<Variant<P>>,
    /// The regular variants, one bucket for each audio group.
    pub groups: Vec<Group<P>>,
}

/// The number of variants in the buckets `gs`.
pub open spec fn total_members<P>(gs: Seq<Group<P>>) -> nat
    decreases gs.len(),
{
    if gs.len() == 0 {
        0
    } else {
        total_members(gs.drop_last()) + gs.last().members@.len()
    }
}

impl<P> Grouping<P> {
    /// No two buckets have the same identifier.
    pub open spec fn wf(self) -> bool {
        forall|i: int, j: int|
            0 <= i < j < self.groups@.len() ==> (#[trigger] self.groups@[i]).id@ != (
            #[trigger] self.groups@[j]).id@
    }

    /// There is a bucket for the audio group `id`.
    pub open spec fn has_id(self, id: Seq<char>) -> bool {
        exists|j: int| 0 <= j < self.groups@.len() && (#[trigger] self.groups@[j]).id@ == id
    }

    /// Where the bucket for the audio group `id` stands.
    pub open spec fn index_of(self, id: Seq<char>) -> int {
        choose|j: int| 0 <= j < self.groups@.len() && (#[trigger] self.groups@[j]).id@ == id
    }

    /// The buckets of regular variants, as a map from the audio group's
    /// identifier to its variants.
    pub open spec fn buckets(self) -> Map<Seq<char>, Seq<Variant<P>>> {
        Map::new(
            |id: Seq<char>| self.has_id(id),
            |id: Seq<char>| self.groups@[self.index_of(id)].members@,
        )
    }

    /// The number of variants in all buckets together.
    pub open spec fn count(self) -> nat {
        self.iframes@.len() + total_members(self.groups@)
    }
}

/// What one more variant at the end of `t` changes in the buckets.
pub proof fn lemma_buckets_push<P>(t: Seq<Variant<P>>, x: Variant<P>)
    ensures
        iframes_of(t.push(x)) == if x.is_i_frame {
            iframes_of(t).push(x)
        } else {
            iframes_of(t)
        },
        forall|id: Seq<char>| #[trigger]
            group_of(t.push(x), id) == if x.in_group(id) {
                group_of(t, id).push(x)
            } else {
                group_of(t, id)
            },
        forall|id: Seq<char>| #[trigger]
            has_group(t.push(x), id) <==> has_group(t, id) || x.in_group(id),
        has_ungrouped(t.push(x)) <==> has_ungrouped(t) || x.is_ungrouped(),
{
    let u = t.push(x);
    t.lemma_filter_push(x, |v: Variant<P>| v.is_i_frame);
    assert forall|id: Seq<char>| #[trigger]
        group_of(u, id) == if x.in_group(id) {
            group_of(t, id).push(x)
        } else {
            group_of(t, id)
        } by {
        t.lemma_filter_push(x, |v: Variant<P>| v.in_group(id));
    }
    assert forall|id: Seq<char>| #[trigger]
        has_group(u, id) <==> has_group(t, id) || x.in_group(id) by {
        if has_group(t, id) {
            let i = choose|i: int| 0 <= i < t.len() && (#[trigger] t[i]).in_group(id);
            assert(u[i].in_group(id));
        }
        if x.in_group(id) {
            assert(u[t.len() as int].in_group(id));
        }
        if has_group(u, id) {
            let i = choose|i: int| 0 <= i < u.len() && (#[trigger] u[i]).in_group(id);
            if i < t.len() {
                assert(t[i].in_group(id));
            }
        }
    }
    if has_ungrouped(t) {
        let i = choose|i: int| 0 <= i < t.len() && (#[trigger] t[i]).is_ungrouped();
        assert(u[i].is_ungrouped());
    }
    if x.is_ungrouped() {
        assert(u[t.len() as int].is_ungrouped());
    }
    if has_ungrouped(u) {
        let i = choose|i: int| 0 <= i < u.len() && (#[trigger] u[i]).is_ungrouped();
        if i < t.len() {
            assert(t[i].is_ungrouped());
        }
    }
}

/// Every variant in the I-frame bucket is an I-frame variant of `s`.
pub proof fn lemma_iframe_member<P>(s: Seq<Variant<P>>, k: int)
    requires
        0 <= k < iframes_of(s).len(),
    ensures
        iframes_of(s)[k].is_i_frame,
        s.contains(iframes_of(s)[k]),
{
    let p = |v: Variant<P>| v.is_i_frame;
    s.lemma_filter_pred(p, k);
    assert(s.filter(p).contains(s.filter(p)[k]));
    s.lemma_filter_contains_rev(p, s.filter(p)[k]);
}

/// Every I-frame variant of `s` is in the I-frame bucket.
pub proof fn lemma_iframe_kept<P>(s: Seq<Variant<P>>, i: int)
    requires
        0 <= i < s.len(),
        s[i].is_i_frame,
    ensures
        iframes_of(s).contains(s[i]),
{
    s.lemma_filter_contains(|v: Variant<P>| v.is_i_frame, i);
}

/// Every variant in the bucket of `id` is a variant of `s` that names `id`.
pub proof fn lemma_group_member<P>(s: Seq<Variant<P>>, id: Seq<char>, k: int)
    requires
        0 <= k < group_of(s, id).len(),
    ensures
        group_of(s, id)[k].in_group(id),
        s.contains(group_of(s, id)[k]),
{
    let p = |v: Variant<P>| v.in_group(id);
    s.lemma_filter_pred(p, k);
    assert(s.filter(p).contains(s.filter(p)[k]));
    s.lemma_filter_contains_rev(p, s.filter(p)[k]);
}

/// Every variant of `s` that names `id` is in the bucket of `id`.
pub proof fn lemma_group_kept<P>(s: Seq<Variant<P>>, id: Seq<char>, i: int)
    requires
        0 <= i < s.len(),
        s[i].in_group(id),
    ensures
        group_of(s, id).contains(s[i]),
{
    s.lemma_filter_contains(|v: Variant<P>| v.in_group(id), i);
}

/// A group that no variant of `t` names has no variants.
pub proof fn lemma_group_absent<P>(t: Seq<Variant<P>>, id: Seq<char>)
    requires
        !has_group(t, id),
    ensures
        group_of(t, id) == Seq::<Variant<P>>::empty(),
{
    let p = |v: Variant<P>| v.in_group(id);
    if t.filter(p).len() > 0 {
        let e = t.filter(p)[0];
        t.lemma_filter_pred(p, 0);
        assert(t.filter(p).contains(e));
        t.lemma_filter_contains_rev(p, e);
        let i = choose|i: int| 0 <= i < t.len() && t[i] == e;
        assert(t[i].in_group(id));
    }
    assert(t.filter(p) =~= Seq::<Variant<P>>::empty());
}

/// One more variant in the bucket at `j` is one more variant in all.
proof fn lemma_total_members_grow<P>(old_gs: Seq<Group<P>>, new_gs: Seq<Group<P>>, j: int)
    requires
        0 <= j < old_gs.len(),
        new_gs.len() == old_gs.len(),
        new_gs[j].members@.len() == old_gs[j].members@.len() + 1,
        forall|i: int| 0 <= i < old_gs.len() && i != j ==> new_gs[i] == old_gs[i],
    ensures
        total_members(new_gs) == total_members(old_gs) + 1,
    decreases old_gs.len(),
{
    if j == old_gs.len() - 1 {
        assert(new_gs.drop_last() =~= old_gs.drop_last());
    } else {
        lemma_total_members_grow(old_gs.drop_last(), new_gs.drop_last(), j);
    }
}

/// A copy of the audio group identifier of `var`.
fn audio_id<P>(var: &Variant<P>) -> (r: Option<String>)
    ensures
        match r {
            Some(id) => var.group_id() == Some(id@),
            None => var.audio is None,
        },
{
    match &var.audio {
        Some(id) => Some(id.clone()),
        None => None,
    }
}

/// Where in `groups` the bucket for `id` stands, if there is one.
fn find_group<P>(groups: &Vec<Group<P>>, id: &String) -> (r: Option<usize>)
    ensures
        match r {
            Some(j) => j < groups@.len() && groups@[j as int].id@ == id@,
            None => forall|j: int| 0 <= j < groups@.len() ==> (#[trigger] groups@[j]).id@ != id@,
        },
{
    let mut j: usize = 0;
    while j < groups.len()
        invariant
            j <= groups@.len(),
            forall|i: int| 0 <= i < j ==> (#[trigger] groups@[i]).id@ != id@,
        decreases groups.len() - j,
    {
        if groups[j].id == *id {
            return Some(j);
        }
        j += 1;
    }
    None
}

/// Sorts `vars` into buckets: the I-frame variants into one, each regular
/// variant into that of its audio group, every bucket in the order of `vars`.
/// No variant is dropped and none is copied. Fails where a regular variant
/// names no audio group.
pub fn group_variants<P>(vars: Vec<Variant<P>>) -> (r: Result<Grouping<P>, ReorderError>)
    ensures
        match r {
            Ok(g) => {
                &&& !has_ungrouped(vars@)
                &&& g.wf()
                &&& g.iframes@ == iframes_of(vars@)
                &&& g.buckets() == groups_of(vars@)
                &&& g.count() == vars@.len()
            },
            Err(e) => e == ReorderError::MissingAudioGroup && has_ungrouped(vars@),
        },
{
    let ghost s = vars@;
    let mut iframes: Vec<Variant<P>> = Vec::new();
    let mut groups: Vec<Group<P>> = Vec::new();
    assert(s.take(0) =~= Seq::<Variant<P>>::empty());
    assert(iframes_of(s.take(0)) =~= Seq::<Variant<P>>::empty()) by {
        reveal(Seq::filter);
    }
    for var in it: vars
        invariant
            it.seq() == s,
            !has_ungrouped(s.take(it.index() as int)),
            iframes@ == iframes_of(s.take(it.index() as int)),
            forall|i: int, j: int|
                0 <= i < j < groups@.len() ==> (#[trigger] groups@[i]).id@ != (
                #[trigger] groups@[j]).id@,
            forall|j: int|
                0 <= j < groups@.len() ==> (#[trigger] groups@[j]).members@ == group_of(
                    s.take(it.index() as int),
                    groups@[j].id@,
                ),
            forall|j: int|
                0 <= j < groups@.len() ==> has_group(
                    s.take(it.index() as int),
                    (#[trigger] groups@[j]).id@,
                ),
            forall|id: Seq<char>|
                has_group(s.take(it.index() as int), id) ==> exists|j: int|
                    0 <= j < groups@.len() && (#[trigger] groups@[j]).id@ == id,
            iframes@.len() + total_members(groups@) == it.index(),
    {
        let ghost n: int = it.index() as int;
        let ghost t = s.take(n);
        let ghost before = groups@;
        let ghost mut slot: int = 0;
        proof {
            assert(s.take(n + 1) =~= t.push(var));
            lemma_buckets_push(t, var);
        }
        if var.is_i_frame {
            iframes.push(var);
        } else {
            match audio_id(&var) {
                None => {
                    proof {
                        assert(s[n].is_ungrouped());
                    }
                    return Err(ReorderError::MissingAudioGroup);
                },
                Some(id) => {
                    match find_group(&groups, &id) {
                        Some(j) => {
                            groups[j].members.push(var);
                            proof {
                                slot = j as int;
                                lemma_total_members_grow(before, groups@, j as int);
                            }
                        },
                        None => {
                            let mut members: Vec<Variant<P>> = Vec::new();
                            members.push(var);
                            proof {
                                lemma_group_absent(t, id@);
                            }
                            groups.push(Group { id, members });
                            proof {
                                slot = before.len() as int;
                                assert(groups@.drop_last() =~= before);
                            }
                        },
                    }
                },
            }
        }
        proof {
            assert forall|id: Seq<char>| #[trigger] has_group(s.take(n + 1), id) implies exists|j: int|
                0 <= j < groups@.len() && (#[trigger] groups@[j]).id@ == id by {
                if has_group(t, id) {
                    let j = choose|j: int| 0 <= j < before.len() && (#[trigger] before[j]).id@ == id;
                    assert(groups@[j].id@ == id);
                } else {
                    assert(groups@[slot].id@ == id);
                }
            }
        }
    }
    assert(s.take(s.len() as int) =~= s);
    let g = Grouping { iframes, groups };
    proof {
        assert forall|id: Seq<char>| g.has_id(id) implies g.groups@[g.index_of(id)].members@
            == group_of(s, id) by {
            let j = g.index_of(id);
            assert(g.groups@[j].id@ == id);
        }
        assert(g.buckets() =~= groups_of(s));
    }
    Ok(g)
}

} // verus!
