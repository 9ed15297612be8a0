//! Contexts: the sequences of keys under which occurrences are recorded.
//!
//! The context table keeps its rows sorted, so contexts need a total order of
//! their own. They are ordered lexicographically, element by element in the
//! order of the key type, with a proper prefix before its extensions.

use crate::symbol::{compare, duplicate, lawful, lemma_strict_total_order, precedes, Rank};
use vstd::prelude::*;

verus! {

/// `a` and `b` agree on their first `n` elements, and at position `n` either
/// `a` has ended while `b` goes on, or `a` holds the smaller element.
pub open spec fn parts_at<K: Ord>(a: Seq<K>, b: Seq<K>, n: int) -> bool {
    &&& 0 <= n <= a.len()
    &&& n < b.len()
    &&& forall|i: int| 0 <= i < n ==> a[i] == b[i]
    &&& n < a.len() ==> precedes(a[n], b[n])
}

/// `a` comes strictly before `b` in lexicographic order.
pub open spec fn lex_before<K: Ord>(a: Seq<K>, b: Seq<K>) -> bool {
    exists|n: int| parts_at(a, b, n)
}

/// No context comes before itself.
pub proof fn lemma_lex_irreflexive<K: Ord + Clone>(a: Seq<K>)
    requires
        lawful::<K>(),
    ensures
        !lex_before(a, a),
{
    lemma_strict_total_order::<K>();
    if lex_before(a, a) {
        let n = choose|n: int| parts_at(a, a, n);
        assert(precedes(a[n], a[n]));
    }
}

/// The lexicographic order is transitive.
pub proof fn lemma_lex_transitive<K: Ord + Clone>(a: Seq<K>, b: Seq<K>, c: Seq<K>)
    requires
        lawful::<K>(),
        lex_before(a, b),
        lex_before(b, c),
    ensures
        lex_before(a, c),
{
    lemma_strict_total_order::<K>();
    let n = choose|n: int| parts_at(a, b, n);
    let m = choose|m: int| parts_at(b, c, m);
    if n < m {
        assert(parts_at(a, c, n));
    } else if n == m {
        if n < a.len() {
            assert(precedes(a[n], b[n]) && precedes(b[n], c[n]));
        }
        assert(parts_at(a, c, n));
    } else {
        assert(a[m] == b[m]);
        assert(parts_at(a, c, m));
    }
}

/// Compares two contexts lexicographically.
pub fn compare_contexts<K: Ord + Clone>(a: &[K], b: &[K]) -> (r: Rank)
    requires
        lawful::<K>(),
    ensures
        r == Rank::Before <==> lex_before(a@, b@),
        r == Rank::Same <==> a@ == b@,
        r == Rank::After <==> lex_before(b@, a@),
{
    let mut i: usize = 0;
    let mut verdict: Rank = Rank::Same;
    while i < a.len() && i < b.len()
        invariant_except_break
            verdict == Rank::Same,
        invariant
            lawful::<K>(),
            i <= a@.len(),
            i <= b@.len(),
            forall|j: int| 0 <= j < i ==> a@[j] == b@[j],
        ensures
            i <= a@.len(),
            i <= b@.len(),
            forall|j: int| 0 <= j < i ==> a@[j] == b@[j],
            verdict == Rank::Same ==> i == a@.len() || i == b@.len(),
            verdict == Rank::Before ==> i < a@.len() && i < b@.len() && precedes(a@[i as int], b@[i as int]),
            verdict == Rank::After ==> i < a@.len() && i < b@.len() && precedes(b@[i as int], a@[i as int]),
        decreases a@.len() - i,
    {
        match compare(&a[i], &b[i]) {
            Rank::Same => {
                i = i + 1;
            },
            other => {
                verdict = other;
                break;
            },
        }
    }
    if let Rank::Same = verdict {
        if i < b.len() {
            verdict = Rank::Before;
        } else if i < a.len() {
            verdict = Rank::After;
        }
    }
    proof {
        lemma_lex_irreflexive(a@);
        match verdict {
            Rank::Before => {
                assert(parts_at(a@, b@, i as int));
                if lex_before(b@, a@) {
                    lemma_lex_transitive(a@, b@, a@);
                }
            },
            Rank::After => {
                assert(parts_at(b@, a@, i as int));
                if lex_before(a@, b@) {
                    lemma_lex_transitive(a@, b@, a@);
                }
            },
            Rank::Same => {
                assert(a@ =~= b@);
            },
        }
    }
    verdict
}

/// A copy of a context.
pub fn copy_context<K: Ord + Clone>(a: &[K]) -> (r: Vec<K>)
    requires
        lawful::<K>(),
    ensures
        r@ == a@,
{
    let mut r: Vec<K> = Vec::new();
    let mut i: usize = 0;
    while i < a.len()
        invariant
            lawful::<K>(),
            i <= a@.len(),
            r@ == a@.take(i as int),
        decreases a@.len() - i,
    {
        r.push(duplicate(&a[i]));
        proof {
            assert(a@.take(i + 1) =~= a@.take(i as int).push(a@[i as int]));
        }
        i = i + 1;
    }
    proof {
        assert(a@.take(a@.len() as int) =~= a@);
    }
    r
}

/// Removes the first `count` elements of `v`.
pub fn drop_front<K>(v: &mut Vec<K>, count: usize)
    requires
        count <= old(v)@.len(),
    ensures
        final(v)@ == old(v)@.skip(count as int),
{
    let mut done: usize = 0;
    while done < count
        invariant
            done <= count <= old(v)@.len(),
            v@ == old(v)@.skip(done as int),
        decreases count - done,
    {
        v.remove(0);
        proof {
            assert(v@ =~= old(v)@.skip(done + 1));
        }
        done = done + 1;
    }
    proof {
        assert(old(v)@.skip(0) =~= old(v)@);
    }
}

} // verus!
