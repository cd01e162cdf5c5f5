//! Lexicographic order on text, by Unicode scalar value.

use vstd::prelude::*;

verus! {

/// The first `k` characters of `a` and of `b` are the same.
pub open spec fn agree_upto(a: Seq<char>, b: Seq<char>, k: int) -> bool {
    &&& 0 <= k <= a.len()
    &&& k <= b.len()
    &&& forall|i: int| 0 <= i < k ==> a[i] == b[i]
}

/// `a` and `b` agree on their first `k` characters, and at position `k`
/// either `a` has ended while `b` goes on, or `a` holds the smaller character.
pub open spec fn lex_lt_at(a: Seq<char>, b: Seq<char>, k: int) -> bool {
    &&& agree_upto(a, b, k)
    &&& k < b.len()
    &&& (k == a.len() || (a[k] as int) < (b[k] as int))
}

/// Strict lexicographic order: `a` comes before `b`.
pub open spec fn lex_lt(a: Seq<char>, b: Seq<char>) -> bool {
    exists|k: int| #[trigger] lex_lt_at(a, b, k)
}

/// `a` comes before `b` or is `b`.
pub open spec fn lex_le(a: Seq<char>, b: Seq<char>) -> bool {
    a == b || lex_lt(a, b)
}

/// No text comes before itself.
pub proof fn lemma_lex_irreflexive(a: Seq<char>)
    ensures
        !lex_lt(a, a),
{
}

/// Of two texts at most one comes before the other.
pub proof fn lemma_lex_asymmetric(a: Seq<char>, b: Seq<char>)
    requires
        lex_lt(a, b),
    ensures
        !lex_lt(b, a),
{
    let k1 = choose|k: int| #[trigger] lex_lt_at(a, b, k);
    if lex_lt(b, a) {
        let k2 = choose|k: int| #[trigger] lex_lt_at(b, a, k);
        if k1 < k2 {
            assert(a[k1] == b[k1]);
        } else if k2 < k1 {
            assert(a[k2] == b[k2]);
        }
    }
}

/// The order is transitive.
pub proof fn lemma_lex_transitive(a: Seq<char>, b: Seq<char>, c: Seq<char>)
    requires
        lex_lt(a, b),
        lex_lt(b, c),
    ensures
        lex_lt(a, c),
{
    let k1 = choose|k: int| #[trigger] lex_lt_at(a, b, k);
    let k2 = choose|k: int| #[trigger] lex_lt_at(b, c, k);
    let k = if k1 <= k2 { k1 } else { k2 };
    assert(agree_upto(a, c, k)) by {
        assert forall|i: int| 0 <= i < k implies a[i] == c[i] by {
            assert(a[i] == b[i]);
            assert(b[i] == c[i]);
        }
    }
    if k1 < k2 {
        assert(b[k1] == c[k1]);
    } else if k2 < k1 {
        assert(a[k2] == b[k2]);
    }
    assert(lex_lt_at(a, c, k));
}

/// Two texts that agree on their first `k` characters are equal or ordered.
proof fn lemma_lex_total_from(a: Seq<char>, b: Seq<char>, k: int)
    requires
        agree_upto(a, b, k),
    ensures
        a == b || lex_lt(a, b) || lex_lt(b, a),
    decreases a.len() - k,
{
    if k == a.len() && k == b.len() {
        assert(a =~= b);
    } else if k == a.len() {
        assert(lex_lt_at(a, b, k));
    } else if k == b.len() {
        assert(agree_upto(b, a, k));
        assert(lex_lt_at(b, a, k));
    } else if a[k] != b[k] {
        assert(agree_upto(b, a, k));
        if (a[k] as int) < (b[k] as int) {
            assert(lex_lt_at(a, b, k));
        } else {
            assert(lex_lt_at(b, a, k));
        }
    } else {
        lemma_lex_total_from(a, b, k + 1);
    }
}

/// Two different texts are ordered one way or the other.
pub proof fn lemma_lex_total(a: Seq<char>, b: Seq<char>)
    ensures
        a == b || lex_lt(a, b) || lex_lt(b, a),
{
    lemma_lex_total_from(a, b, 0);
}

/// The characters of `s`, in order.
pub fn chars_of(s: &str) -> (v: Vec<char>)
    ensures
        v@ == s@,
{
    let mut v: Vec<char> = Vec::new();
    for c in it: s.chars()
        invariant
            v@ == it.seq().take(it.index() as int),
            it.seq() == s@,
    {
        v.push(c);
    }
    v
}

/// Whether `a` comes before `b` in lexicographic order.
pub fn str_lt(a: &str, b: &str) -> (r: bool)
    ensures
        r == lex_lt(a@, b@),
{
    let x = chars_of(a);
    let y = chars_of(b);
    let mut k: usize = 0;
    while k < x.len() && k < y.len()
        invariant
            agree_upto(x@, y@, k as int),
            x@ == a@,
            y@ == b@,
        decreases x.len() - k,
    {
        if x[k] != y[k] {
            let before = x[k] < y[k];
            proof {
                assert(agree_upto(y@, x@, k as int));
                if before {
                    assert(lex_lt_at(x@, y@, k as int));
                } else {
                    assert(lex_lt_at(y@, x@, k as int));
                    lemma_lex_asymmetric(y@, x@);
                }
            }
            return before;
        }
        k += 1;
    }
    let shorter = k < y.len();
    proof {
        if shorter {
            assert(lex_lt_at(x@, y@, k as int));
        } else if k < x.len() {
            assert(agree_upto(y@, x@, k as int));
            assert(lex_lt_at(y@, x@, k as int));
            lemma_lex_asymmetric(y@, x@);
        } else {
            assert(x@ =~= y@);
            lemma_lex_irreflexive(x@);
        }
    }
    shorter
}

} // verus!
