//! What generation computes, as a function of what was learnt and of the
//! numbers drawn.
//!
//! Generation keeps a window of the symbols produced last, starting from the
//! boundary marker alone. Each step narrows the window to the longest context
//! that the table knows, draws a number, and lets it select the successor
//! from that context's distribution. A window of which not even the last
//! element is known is answered from the counts of the symbols by
//! themselves. The walk ends when the boundary marker is selected.

use crate::distribution::{chosen, mass};
use crate::table::narrowed;
use vstd::prelude::*;

verus! {

/// What a chain has learnt: the entries of the distribution of every context,
/// and the entries of the counts of the symbols by themselves.
#[verifier::reject_recursive_types(T)]
pub struct Model<T> {
    pub order: nat,
    pub contexts: Map<Seq<Option<T>>, Seq<(Option<T>, usize)>>,
    pub letters: Seq<(T, usize)>,
}

/// Where a walk stands: the window, the symbols put out so far, and whether
/// the boundary marker has been selected.
pub struct Walk<T> {
    pub window: Seq<Option<T>>,
    pub output: Seq<T>,
    pub ended: bool,
}

/// The context that answers for `window`.
pub open spec fn answering<T>(model: Model<T>, window: Seq<Option<T>>) -> Seq<Option<T>> {
    narrowed(model.contexts.dom(), window)
}

/// The bound below which the number for the next step is drawn: the sum of
/// the counts of the distribution that answers for `window`. It is zero only
/// where nothing was learnt that could answer.
pub open spec fn pool<T>(model: Model<T>, window: Seq<Option<T>>) -> nat {
    let context = answering(model, window);
    if model.contexts.dom().contains(context) {
        mass(model.contexts[context])
    } else {
        mass(model.letters)
    }
}

/// What follows `window` when the number `r` is drawn: a symbol, or `None`
/// for the end of the sequence.
pub open spec fn successor<T>(model: Model<T>, window: Seq<Option<T>>, r: nat) -> Option<T> {
    let context = answering(model, window);
    if model.contexts.dom().contains(context) {
        chosen(model.contexts[context], r)
    } else if model.letters.len() > 0 {
        Some(chosen(model.letters, r))
    } else {
        None
    }
}

/// The window after `symbol` has followed `window`: the answering context
/// with the symbol appended, cut from the front to at most `look` elements.
pub open spec fn slide<T>(model: Model<T>, window: Seq<Option<T>>, symbol: T, look: nat) -> Seq<
    Option<T>,
> {
    let grown = answering(model, window).push(Some(symbol));
    if grown.len() > look {
        grown.skip(grown.len() - look)
    } else {
        grown
    }
}

/// One step of a walk with the number `r`.
pub open spec fn step<T>(model: Model<T>, look: nat, at: Walk<T>, r: nat) -> Walk<T> {
    if at.ended {
        at
    } else {
        match successor(model, at.window, r) {
            None => Walk { window: at.window, output: at.output, ended: true },
            Some(symbol) => Walk {
                window: slide(model, at.window, symbol, look),
                output: at.output.push(symbol),
                ended: false,
            },
        }
    }
}

/// Where the walk stands after the numbers `draws`, one for each step.
pub open spec fn walk<T>(model: Model<T>, look: nat, draws: Seq<nat>) -> Walk<T>
    decreases draws.len(),
{
    if draws.len() == 0 {
        Walk { window: seq![None::<T>], output: Seq::<T>::empty(), ended: false }
    } else {
        step(model, look, walk(model, look, draws.drop_last()), draws.last())
    }
}

/// Every number of `draws` is below the bound of its step, wherever that
/// bound is positive.
pub open spec fn fair<T>(model: Model<T>, look: nat, draws: Seq<nat>) -> bool {
    forall|i: int|
        0 <= i < draws.len() ==> {
            let bound = pool(model, #[trigger] walk(model, look, draws.take(i)).window);
            bound > 0 ==> draws[i] < bound
        }
}

/// One more number extends a fair sequence of draws if it is below the bound
/// of the step it is drawn for.
pub proof fn lemma_fair_push<T>(model: Model<T>, look: nat, draws: Seq<nat>, r: nat)
    requires
        fair(model, look, draws),
        pool(model, walk(model, look, draws).window) > 0 ==> r < pool(
            model,
            walk(model, look, draws).window,
        ),
    ensures
        fair(model, look, draws.push(r)),
        walk(model, look, draws.push(r)) == step(model, look, walk(model, look, draws), r),
{
    let more = draws.push(r);
    assert(more.drop_last() =~= draws);
    assert forall|i: int| 0 <= i < more.len() implies {
        let bound = pool(model, #[trigger] walk(model, look, more.take(i)).window);
        bound > 0 ==> more[i] < bound
    } by {
        if i < draws.len() {
            assert(more.take(i) =~= draws.take(i));
        } else {
            assert(more.take(i) =~= draws);
        }
    }
}

} // verus!
