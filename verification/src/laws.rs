//! What holds of training and generation in general.

use crate::chain::MarkovChain;
use crate::distribution::{
    chosen, count_of, landing, lemma_counts_fix_entries, lemma_landing_at, lemma_landing_brackets,
    lemma_mass_positive, lemma_mass_step, mass,
};
use crate::symbol::{lawful, lemma_lawful_option};
use crate::table::narrowed;
use crate::training::{augment, cap, ends_at, seen, tally, times};
use crate::walk::{answering, successor, walk, Model};
use vstd::prelude::*;

verus! {

/// Training is a function of what was learnt before and of the sequence:
/// two chains that have learnt the same and are taught the same sequence
/// have learnt the same afterwards.
pub proof fn law_training_is_deterministic<T: Ord + Clone, R>(
    a: MarkovChain<T, R>,
    a_after: MarkovChain<T, R>,
    b: MarkovChain<T, R>,
    b_after: MarkovChain<T, R>,
    term: Seq<T>,
)
    requires
        lawful::<T>(),
        a@ == b@,
        a.trained(term, &a_after),
        b.trained(term, &b_after),
    ensures
        a_after@ == b_after@,
{
    lemma_lawful_option::<T>();
    assert(a.stages()@ == b.stages()@);
    assert(a.alphabet()@ == b.alphabet()@);
    lemma_counts_fix_entries(a_after.alphabet()@, b_after.alphabet()@);
    let ca = a_after.stages()@;
    let cb = b_after.stages()@;
    assert forall|c: Seq<Option<T>>| ca.dom().contains(c) == cb.dom().contains(c) by {
        assert(a.stages()@.dom().contains(c) == b.stages()@.dom().contains(c));
    }
    assert(ca.dom() =~= cb.dom());
    assert forall|c: Seq<Option<T>>| ca.dom().contains(c) implies ca[c] == cb[c] by {
        assert(cb.dom().contains(c));
        let aug = augment(term);
        assert forall|key: Option<T>| count_of(ca[c], key) == count_of(cb[c], key) by {
            assert(a_after.stages().occurrences(c, key) == a.stages().occurrences(c, key) + tally(
                aug,
                a.order(),
                aug.len() as int,
                c,
                key,
            ));
            assert(b_after.stages().occurrences(c, key) == b.stages().occurrences(c, key) + tally(
                aug,
                b.order(),
                aug.len() as int,
                c,
                key,
            ));
            assert(a.stages().occurrences(c, key) == b.stages().occurrences(c, key));
        }
        lemma_counts_fix_entries(ca[c], cb[c]);
    }
    assert(ca =~= cb);
}

/// Generation is a function of what was learnt and of the numbers drawn: two
/// chains that have learnt the same put out the same sequence for the same
/// numbers.
pub proof fn law_generation_is_deterministic<T: Ord + Clone, R>(
    a: MarkovChain<T, R>,
    b: MarkovChain<T, R>,
    look: nat,
    draws: Seq<nat>,
    out_a: Seq<T>,
    out_b: Seq<T>,
)
    requires
        a@ == b@,
        a.generated(look, draws, out_a),
        b.generated(look, draws, out_b),
    ensures
        out_a == out_b,
{
}

/// After training, the table holds every context that ends at a position of
/// the framed sequence and is no longer than the order allows.
pub proof fn law_contexts_are_covered<T: Ord + Clone, R>(
    before: MarkovChain<T, R>,
    after: MarkovChain<T, R>,
    term: Seq<T>,
    idx: int,
    len: int,
)
    requires
        before.trained(term, &after),
        1 <= idx < augment(term).len(),
        1 <= len <= idx,
        len <= before.order(),
    ensures
        after.stages()@.dom().contains(augment(term).subrange(idx - len, idx)),
{
    let aug = augment(term);
    let c = aug.subrange(idx - len, idx);
    assert(ends_at(aug, idx, c));
    assert(seen(aug, before.order(), aug.len() as int, c));
}

/// Training adds no context but those that end at a position of the framed
/// sequence, and none that is longer than the order.
pub proof fn law_no_other_contexts<T: Ord + Clone, R>(
    before: MarkovChain<T, R>,
    after: MarkovChain<T, R>,
    term: Seq<T>,
    c: Seq<Option<T>>,
)
    requires
        before.trained(term, &after),
        after.stages()@.dom().contains(c),
        !before.stages()@.dom().contains(c),
    ensures
        1 <= c.len() <= before.order(),
        exists|idx: int|
            1 <= idx < augment(term).len() && idx >= c.len() && #[trigger] augment(term).subrange(
                idx - c.len(),
                idx,
            ) == c,
{
    let aug = augment(term);
    assert(seen(aug, before.order(), aug.len() as int, c));
    let idx = choose|idx: int|
        1 <= idx < aug.len() && idx < aug.len() && c.len() <= before.order() && #[trigger] ends_at(
            aug,
            idx,
            c,
        );
    assert(aug.subrange(idx - c.len(), idx) == c);
}

/// Training only adds: no context is lost and no count shrinks.
pub proof fn law_counts_only_grow<T: Ord + Clone, R>(
    before: MarkovChain<T, R>,
    after: MarkovChain<T, R>,
    term: Seq<T>,
    c: Seq<Option<T>>,
    key: Option<T>,
    symbol: T,
)
    requires
        before.trained(term, &after),
    ensures
        before.stages()@.dom().contains(c) ==> after.stages()@.dom().contains(c),
        before.stages().occurrences(c, key) <= after.stages().occurrences(c, key),
        count_of(before.alphabet()@, symbol) <= count_of(after.alphabet()@, symbol),
{
    assert(after.stages().occurrences(c, key) == before.stages().occurrences(c, key) + tally(
        augment(term),
        before.order(),
        augment(term).len() as int,
        c,
        key,
    ));
    assert(count_of(after.alphabet()@, symbol) == count_of(before.alphabet()@, symbol) + times(
        term,
        symbol,
    ));
}

/// After training, the total that is stored with a distribution is the sum
/// of its counts, in the context table and for the symbols by themselves.
pub proof fn law_totals_are_sums<T: Ord + Clone, R>(
    before: MarkovChain<T, R>,
    after: MarkovChain<T, R>,
    term: Seq<T>,
)
    requires
        before.trained(term, &after),
    ensures
        after.alphabet().total_spec() == mass(after.alphabet()@),
        forall|c: Seq<Option<T>>| #[trigger]
            after.stages()@.dom().contains(c) ==> after.stages().stored_total(c) == mass(
                after.stages()@[c],
            ),
{
}

/// The boundary marker is never put out: selecting it ends the walk and
/// leaves the output as it is, and anything else that is selected is a
/// symbol, which is appended.
pub proof fn law_boundary_only_ends<T>(model: Model<T>, look: nat, draws: Seq<nat>, r: nat)
    ensures
        ({
            let at = walk(model, look, draws);
            let next = walk(model, look, draws.push(r));
            if at.ended {
                next == at
            } else {
                match successor(model, at.window, r) {
                    None => next.ended && next.output == at.output,
                    Some(symbol) => !next.ended && next.output == at.output.push(symbol),
                }
            }
        }),
{
    assert(draws.push(r).drop_last() =~= draws);
}

/// Backing off leaves a suffix of the window, of at least one element.
pub proof fn law_backoff_keeps_suffix<T>(model: Model<T>, window: Seq<Option<T>>)
    requires
        window.len() >= 1,
    ensures
        1 <= answering(model, window).len() <= window.len(),
        answering(model, window) == window.skip(window.len() - answering(model, window).len()),
    decreases window.len(),
{
    let known = model.contexts.dom();
    if window.len() <= 1 || known.contains(window) {
        assert(window.skip(0) =~= window);
    } else {
        let rest = window.drop_first();
        law_backoff_keeps_suffix(model, rest);
        let kept = narrowed(known, rest);
        assert(rest.skip(rest.len() - kept.len()) =~= window.skip(window.len() - kept.len()));
    }
}

/// Backing off stops at the longest suffix of the window that is a context
/// of the table: no longer suffix is one.
pub proof fn law_backoff_finds_longest<T>(model: Model<T>, window: Seq<Option<T>>, longer: int)
    requires
        window.len() >= 1,
        answering(model, window).len() < longer <= window.len(),
    ensures
        !model.contexts.dom().contains(window.skip(window.len() - longer)),
    decreases window.len(),
{
    let known = model.contexts.dom();
    if window.len() <= 1 || known.contains(window) {
    } else {
        let rest = window.drop_first();
        if longer == window.len() {
            assert(window.skip(0) =~= window);
        } else {
            law_backoff_finds_longest(model, rest, longer);
            assert(rest.skip(rest.len() - longer) =~= window.skip(window.len() - longer));
        }
    }
}

/// A window of two elements that is no context, but whose last element is
/// one, is answered by the distribution of its last element, not by the
/// counts of the symbols by themselves.
pub proof fn law_backoff_uses_shorter_context<T>(
    model: Model<T>,
    first: Option<T>,
    last: Option<T>,
    r: nat,
)
    requires
        !model.contexts.dom().contains(seq![first, last]),
        model.contexts.dom().contains(seq![last]),
    ensures
        answering(model, seq![first, last]) == seq![last],
        successor(model, seq![first, last], r) == chosen(model.contexts[seq![last]], r),
{
    let window = seq![first, last];
    assert(window.drop_first() =~= seq![last]);
    reveal_with_fuel(narrowed, 3);
}

/// A window of which no suffix is a context is answered from the counts of
/// the symbols by themselves, and what is selected then is a symbol.
pub proof fn law_fallback_selects_symbol<T>(model: Model<T>, window: Seq<Option<T>>, r: nat)
    requires
        !model.contexts.dom().contains(answering(model, window)),
        model.letters.len() > 0,
    ensures
        successor(model, window, r) == Some(chosen(model.letters, r)),
{
}

/// A chain that has learnt nothing generates the empty sequence, whatever is
/// drawn.
pub proof fn law_untrained_generates_nothing<T: Ord + Clone, R>(
    chain: MarkovChain<T, R>,
    look: nat,
    draws: Seq<nat>,
)
    requires
        chain.wf(),
        chain.positions() == 0,
    ensures
        walk(chain@, look, draws).output == Seq::<T>::empty(),
        draws.len() > 0 ==> walk(chain@, look, draws).ended,
    decreases draws.len(),
{
    reveal(cap);
    let model = chain@;
    assert(cap(0, chain.order()) == 0);
    lemma_mass_positive(model.letters);
    assert forall|c: Seq<Option<T>>| !model.contexts.dom().contains(c) by {
        if model.contexts.dom().contains(c) {
            assert(chain.stages().weight(c) <= 0);
            lemma_mass_positive(model.contexts[c]);
        }
    }
    if draws.len() > 0 {
        law_untrained_generates_nothing(chain, look, draws.drop_last());
    }
}

/// Each key is selected by as many numbers as its count: the numbers that
/// select entry `i` are those from the sum of the counts before it up to,
/// and not including, that sum plus its own count.
pub proof fn law_share_is_count<K>(s: Seq<(K, usize)>, r: nat, i: int)
    requires
        r < mass(s),
        0 <= i < s.len(),
    ensures
        landing(s, r) == i <==> mass(s.take(i)) <= r < mass(s.take(i)) + s[i].1,
{
    lemma_mass_step(s, i);
    lemma_landing_brackets(s, r);
    if mass(s.take(i)) <= r < mass(s.take(i)) + s[i].1 {
        lemma_landing_at(s, r, i);
    }
}

} // verus!
