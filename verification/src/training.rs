//! What training records, as a function of the sequence.
//!
//! A sequence is learnt between two boundary markers. At every position after
//! the first marker, the chain records what stands there as the successor of
//! each context that ends right before it, from one element up to the order of
//! the chain or to the start of the sequence, whichever comes first. Recording
//! a context also records each of its shorter endings, so that a context of
//! length `k` gains one occurrence for every length from `k` up to the longest
//! that is recorded at the position.

use vstd::prelude::*;

verus! {

/// A training sequence framed by boundary markers.
pub open spec fn augment<T>(term: Seq<T>) -> Seq<Option<T>> {
    Seq::new(
        term.len() + 2,
        |i: int|
            if 1 <= i <= term.len() {
                Some(term[i - 1])
            } else {
                None
            },
    )
}

/// How often `symbol` occurs in `term`.
pub open spec fn times<T>(term: Seq<T>, symbol: T) -> nat
    decreases term.len(),
{
    if term.len() == 0 {
        0
    } else {
        times(term.drop_last(), symbol) + if term.last() == symbol {
            1nat
        } else {
            0nat
        }
    }
}

/// A symbol of `term` occurs in it.
pub proof fn lemma_times_of_member<T>(term: Seq<T>, i: int)
    requires
        0 <= i < term.len(),
    ensures
        times(term, term[i]) > 0,
    decreases term.len(),
{
    if i < term.len() - 1 {
        lemma_times_of_member(term.drop_last(), i);
    }
}

/// Context `c` is what stands right before position `idx` of `aug`.
pub open spec fn ends_at<T>(aug: Seq<Option<T>>, idx: int, c: Seq<Option<T>>) -> bool {
    &&& 1 <= c.len() <= idx <= aug.len()
    &&& aug.subrange(idx - c.len(), idx) == c
}

/// The longest context that a chain of order `order` records at position
/// `idx`: as long as the order allows and the sequence so far provides.
pub open spec fn reach(order: nat, idx: int) -> int {
    if idx < order {
        idx
    } else {
        order as int
    }
}

/// What position `idx` of `aug` adds to the count of `key` after context `c`,
/// when contexts up to length `longest` are recorded there. Each recorded
/// context also counts for all of its suffixes, so a context of length `k`
/// receives one occurrence from every recorded length from `k` to `longest`.
pub open spec fn gain<T>(
    aug: Seq<Option<T>>,
    longest: int,
    idx: int,
    c: Seq<Option<T>>,
    key: Option<T>,
) -> nat {
    if 1 <= idx < aug.len() && ends_at(aug, idx, c) && c.len() <= longest && aug[idx] == key {
        (longest - c.len() + 1) as nat
    } else {
        0
    }
}

/// What the positions of `aug` before `upto` add to the count of `key` after
/// context `c` in a chain of order `order`.
pub open spec fn tally<T>(
    aug: Seq<Option<T>>,
    order: nat,
    upto: int,
    c: Seq<Option<T>>,
    key: Option<T>,
) -> nat
    decreases upto,
{
    if upto <= 1 {
        0
    } else {
        tally(aug, order, upto - 1, c, key) + gain(aug, reach(order, upto - 1), upto - 1, c, key)
    }
}

/// Context `c` is recorded at some position of `aug` before `upto` by a chain
/// of order `order`.
pub open spec fn seen<T>(aug: Seq<Option<T>>, order: nat, upto: int, c: Seq<Option<T>>) -> bool {
    exists|idx: int| 1 <= idx < upto && idx < aug.len() && c.len() <= order && #[trigger] ends_at(aug, idx, c)
}

/// `c` is a non-empty suffix of `stage`.
pub open spec fn suffix_of<T>(c: Seq<Option<T>>, stage: Seq<Option<T>>) -> bool {
    &&& 1 <= c.len() <= stage.len()
    &&& stage.skip(stage.len() - c.len()) == c
}

/// The non-empty suffixes of the `len` elements before position `idx` are
/// the contexts of at most that length that end at `idx`.
pub proof fn lemma_suffix_window<T>(aug: Seq<Option<T>>, idx: int, len: int, c: Seq<Option<T>>)
    requires
        1 <= len <= idx <= aug.len(),
    ensures
        suffix_of(c, aug.subrange(idx - len, idx)) <==> ends_at(aug, idx, c) && c.len() <= len,
{
    let stage = aug.subrange(idx - len, idx);
    if 1 <= c.len() <= len {
        assert(stage.skip(stage.len() - c.len()) =~= aug.subrange(idx - c.len(), idx));
    }
}

/// The largest total that `positions` positions can have built up in a chain
/// of order `order`: every position adds at most `order` to the total of a
/// context.
#[verifier::opaque]
pub open spec fn cap(positions: int, order: nat) -> int {
    positions * order
}

/// How [`cap`] grows.
pub proof fn lemma_cap(i: int, j: int, m: nat)
    requires
        0 <= i <= j,
        m >= 1,
    ensures
        cap(i, m) + m == cap(i + 1, m),
        cap(i, m) <= cap(j, m),
        0 <= j <= cap(j, m),
{
    reveal(cap);
    assert(i * m + m == (i + 1) * m) by (nonlinear_arith);
    assert(i * m <= j * m) by (nonlinear_arith)
        requires
            i <= j,
    ;
    assert(j <= j * m) by (nonlinear_arith)
        requires
            m >= 1,
            j >= 0,
    ;
}

} // verus!
