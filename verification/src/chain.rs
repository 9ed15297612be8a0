//! The Markov chain: training and generation.
//!
//! A chain of order `m` learns, for every position of a training sequence, what
//! followed each of the up to `m` contexts that end there, and generates new
//! sequences by drawing successors of the window it has produced so far. A
//! sequence is framed by a boundary marker on both sides, written `None`;
//! symbols are written `Some(..)`.

use crate::context::drop_front;
use crate::distribution::{chosen, count_of, lemma_mass_positive, Distribution};
use crate::random::weighted_choice;
use crate::symbol::{duplicate, lawful, lemma_lawful_option};
use crate::table::ContextTable;
use crate::training::{
    augment, cap, ends_at, gain, lemma_cap, lemma_suffix_window, lemma_times_of_member, reach,
    seen, suffix_of, tally, times,
};
use crate::walk::{answering, fair, lemma_fair_push, slide, step, successor, walk, Model, Walk};
use rand::rngs::ThreadRng;
use rand::Rng;
use vstd::prelude::*;
use vstd::slice::slice_subrange;
use vstd::std_specs::iter::IteratorSpec;

verus! {

/// Collects what an iterator yields.
pub fn gather<T, I: Iterator<Item = T>>(term: I) -> (items: Vec<T>)
    requires
        term.obeys_prophetic_iter_laws(),
        term.decrease() is Some,
    ensures
        items@ == term.remaining(),
{
    let mut term = term;
    let mut items: Vec<T> = Vec::new();
    let ghost all = term.remaining();
    loop
        invariant
            term.obeys_prophetic_iter_laws(),
            term.decrease() is Some,
            items@ + term.remaining() == all,
        ensures
            items@ == all,
        decreases term.decrease()->0,
    {
        match term.next() {
            Some(item) => {
                items.push(item);
            },
            None => {
                break;
            },
        }
    }
    items
}

/// Why a chain could not be built or asked to generate.
#[derive(Clone, Copy, Debug, PartialEq, Eq, Structural)]
pub enum ChainError {
    /// The order of a chain must be positive.
    InvalidConfig,
    /// The longest context to consult must be between one element and the
    /// order of the chain.
    InvalidArgument,
}

/// A variable-order Markov chain over symbols of type `T`, drawing from a
/// random source of type `R`.
pub struct MarkovChain<T, R> {
    size: usize,
    rng: R,
    stages: ContextTable<Option<T>>,
    alphabet: Distribution<T>,
    positions: usize,
}

impl<T: Ord + Clone, R> View for MarkovChain<T, R> {
    type V = Model<T>;

    /// What the chain has learnt.
    open spec fn view(&self) -> Model<T> {
        Model { order: self.order(), contexts: self.stages()@, letters: self.alphabet()@ }
    }
}

impl<T: Ord + Clone, R> MarkovChain<T, R> {
    /// The longest context that is recorded or consulted.
    pub closed spec fn order(&self) -> nat {
        self.size as nat
    }

    /// The random source.
    pub closed spec fn source(&self) -> R {
        self.rng
    }

    /// The context table.
    pub closed spec fn stages(&self) -> ContextTable<Option<T>> {
        self.stages
    }

    /// The counts of the symbols by themselves, which generation falls back
    /// on when no context is known.
    pub closed spec fn alphabet(&self) -> Distribution<T> {
        self.alphabet
    }

    /// The number of positions learnt so far: one for every symbol and one
    /// for the end of every sequence.
    pub closed spec fn positions(&self) -> nat {
        self.positions as nat
    }

    /// Every symbol that followed a context was also counted by itself.
    pub open spec fn symbols_are_known(&self) -> bool {
        forall|c: Seq<Option<T>>, symbol: T| #[trigger]
            self.stages().occurrences(c, Some(symbol)) > 0 ==> count_of(
                self.alphabet()@,
                symbol,
            ) > 0
    }

    /// The chain is sound: the order is positive; every distribution keeps
    /// its keys ascending, its counts positive and a total that is the sum of
    /// its counts; contexts are between one element and the order long;
    /// every symbol that followed a context was counted by itself; and no
    /// total exceeds what the positions learnt so far can have added.
    pub open spec fn wf(&self) -> bool {
        &&& self.order() >= 1
        &&& self.stages().wf()
        &&& self.alphabet().wf()
        &&& self.symbols_are_known()
        &&& forall|c: Seq<Option<T>>| #[trigger]
            self.stages()@.dom().contains(c) ==> 1 <= c.len() <= self.order()
        &&& forall|c: Seq<Option<T>>| #[trigger]
            self.stages().weight(c) <= cap(self.positions() as int, self.order())
        &&& self.alphabet().total_spec() <= self.positions()
        &&& cap(self.positions() as int, self.order()) <= usize::MAX
    }

    /// What training on `term` makes of a chain: `after` is the chain `self`
    /// once it has learnt `term`. Every symbol of `term` is counted once by
    /// itself, and every position of the framed sequence adds to the counts
    /// of the contexts that end there what [`tally`] sums up.
    pub open spec fn trained(&self, term: Seq<T>, after: &Self) -> bool {
        let aug = augment(term);
        &&& after.wf()
        &&& after.order() == self.order()
        &&& after.source() == self.source()
        &&& after.positions() == self.positions() + term.len() + 1
        &&& after.alphabet().total_spec() == self.alphabet().total_spec() + term.len()
        &&& forall|s: T|
            #[trigger] count_of(after.alphabet()@, s) == count_of(self.alphabet()@, s) + times(
                term,
                s,
            )
        &&& forall|c: Seq<Option<T>>|
            #![trigger after.stages()@.dom().contains(c)]
            after.stages()@.dom().contains(c) <==> self.stages()@.dom().contains(c) || seen(
                aug,
                self.order(),
                aug.len() as int,
                c,
            )
        &&& forall|c: Seq<Option<T>>, key: Option<T>|
            #![trigger after.stages().occurrences(c, key)]
            after.stages().occurrences(c, key) == self.stages().occurrences(c, key) + tally(
                aug,
                self.order(),
                aug.len() as int,
                c,
                key,
            )
    }

    /// Whether the counts leave room for a sequence of `len` more symbols.
    pub open spec fn has_room(&self, len: nat) -> bool {
        cap((self.positions() + len + 1) as int, self.order()) <= usize::MAX
    }

    /// `output` is what a walk over the chain puts out for the numbers
    /// `draws`: every number is below the bound of its step, and the walk has
    /// ended, unless the output has reached the largest length there is.
    pub open spec fn generated(&self, look: nat, draws: Seq<nat>, output: Seq<T>) -> bool {
        let end = walk(self@, look, draws);
        &&& fair(self@, look, draws)
        &&& end.output == output
        &&& end.ended || output.len() == usize::MAX
    }

    /// Nothing but the random source differs between `self` and `other`.
    pub open spec fn same_learning(&self, other: &Self) -> bool {
        &&& self.order() == other.order()
        &&& self.stages() == other.stages()
        &&& self.alphabet() == other.alphabet()
        &&& self.positions() == other.positions()
    }

    /// A chain of order `size` that draws from `rng` and has learnt nothing.
    pub fn new_with_rng(size: usize, rng: R) -> (chain: Self)
        requires
            size > 0,
        ensures
            chain.wf(),
            chain.order() == size,
            chain.source() == rng,
            chain.stages()@ == Map::<Seq<Option<T>>, Seq<(Option<T>, usize)>>::empty(),
            chain.alphabet()@ == Seq::<(T, usize)>::empty(),
            chain.positions() == 0,
    {
        let chain = MarkovChain {
            size,
            rng,
            stages: ContextTable::new(),
            alphabet: Distribution::new(),
            positions: 0,
        };
        proof {
            assert forall|c: Seq<Option<T>>| #[trigger] chain.stages().weight(c) == 0 by {}
            reveal(cap);
            assert(cap(0, size as nat) == 0);
        }
        chain
    }

    /// A chain of order `size` that draws from `rng` and has learnt nothing,
    /// or `InvalidConfig` if `size` is zero.
    pub fn try_new_with_rng(size: usize, rng: R) -> (r: Result<Self, ChainError>)
        ensures
            r is Err <==> size == 0,
            r is Err ==> r->Err_0 == ChainError::InvalidConfig,
            r is Ok ==> {
                let chain = r->Ok_0;
                &&& chain.wf()
                &&& chain.order() == size
                &&& chain.source() == rng
                &&& chain.stages()@ == Map::<Seq<Option<T>>, Seq<(Option<T>, usize)>>::empty()
                &&& chain.alphabet()@ == Seq::<(T, usize)>::empty()
                &&& chain.positions() == 0
            },
    {
        if size == 0 {
            Err(ChainError::InvalidConfig)
        } else {
            Ok(MarkovChain::new_with_rng(size, rng))
        }
    }

    /// Replaces the random source and leaves what was learnt as it is.
    pub fn set_rng(&mut self, rng: R)
        ensures
            final(self).source() == rng,
            final(self).same_learning(old(self)),
    {
        self.rng = rng;
    }

    /// The order of the chain.
    pub fn max_order(&self) -> (m: usize)
        ensures
            m == self.order(),
    {
        self.size
    }

    /// Teaches the chain the sequence that `term` yields.
    pub fn train<I: Iterator<Item = T>>(&mut self, term: I)
        requires
            lawful::<T>(),
            old(self).wf(),
            term.obeys_prophetic_iter_laws(),
            term.decrease() is Some,
            old(self).has_room(term.remaining().len()),
        ensures
            old(self).trained(term.remaining(), final(self)),
    {
        let items: Vec<T> = gather(term);
        self.train_slice(items.as_slice());
    }

    /// Whether the counts leave room for a sequence of `len` more symbols.
    pub fn room_for(&self, len: usize) -> (b: bool)
        requires
            self.wf(),
        ensures
            b == self.has_room(len as nat),
    {
        proof {
            reveal(cap);
        }
        let ghost wanted = self.positions() + len + 1;
        let ghost m = self.order();
        let fits: bool = match self.positions.checked_add(len) {
            None => false,
            Some(sum) => match sum.checked_add(1) {
                None => false,
                Some(all) => all.checked_mul(self.size).is_some(),
            },
        };
        proof {
            if wanted > usize::MAX {
                assert(wanted * m > usize::MAX) by (nonlinear_arith)
                    requires
                        wanted > usize::MAX,
                        m >= 1,
                ;
            }
        }
        fits
    }

    /// Whether `context` was seen in training.
    pub fn has_context(&self, context: &[Option<T>]) -> (b: bool)
        requires
            lawful::<T>(),
            self.wf(),
        ensures
            b == self.stages()@.dom().contains(context@),
    {
        proof {
            lemma_lawful_option::<T>();
        }
        self.stages.contains(context)
    }

    /// How often `next` followed `context` in training, every recording
    /// counted.
    pub fn occurrences(&self, context: &[Option<T>], next: &Option<T>) -> (n: usize)
        requires
            lawful::<T>(),
            self.wf(),
        ensures
            n == self.stages().occurrences(context@, *next),
    {
        proof {
            lemma_lawful_option::<T>();
        }
        match self.stages.get(context) {
            Some(stats) => stats.count(next),
            None => 0,
        }
    }

    /// How many successors of `context` were recorded in all: the total that
    /// is stored with its distribution, or zero if the context was not seen.
    pub fn context_total(&self, context: &[Option<T>]) -> (n: usize)
        requires
            lawful::<T>(),
            self.wf(),
        ensures
            n == self.stages().weight(context@),
    {
        proof {
            lemma_lawful_option::<T>();
        }
        match self.stages.get(context) {
            Some(stats) => stats.total(),
            None => 0,
        }
    }

    /// How many symbols were seen in training.
    pub fn symbols_total(&self) -> (n: usize)
        ensures
            n == self.alphabet().total_spec(),
    {
        self.alphabet.total()
    }

    /// The number of positions learnt so far.
    pub fn positions_learnt(&self) -> (n: usize)
        ensures
            n == self.positions(),
    {
        self.positions
    }

    /// How often `symbol` occurred in training.
    pub fn symbol_count(&self, symbol: &T) -> (n: usize)
        requires
            lawful::<T>(),
            self.wf(),
        ensures
            n == count_of(self.alphabet()@, *symbol),
    {
        self.alphabet.count(symbol)
    }

    /// Teaches the chain the sequence `term`.
    pub fn train_slice(&mut self, term: &[T])
        requires
            lawful::<T>(),
            old(self).wf(),
            old(self).has_room(term@.len()),
        ensures
            old(self).trained(term@, final(self)),
    {
        let n: usize = term.len();
        let ghost base = old(self).positions as nat;
        let ghost m = old(self).size as nat;
        let ghost aug0 = augment(term@);
        proof {
            lemma_lawful_option::<T>();
            lemma_cap(base as int, base + n + 1, m);
        }
        // The symbols by themselves.
        let mut i: usize = 0;
        while i < n
            invariant
                lawful::<T>(),
                n == term@.len(),
                i <= n,
                base + n + 1 <= usize::MAX,
                old(self).alphabet.total_spec() <= base,
                self.size == old(self).size,
                self.rng == old(self).rng,
                self.stages == old(self).stages,
                self.positions == old(self).positions,
                self.alphabet.wf(),
                self.alphabet.total_spec() == old(self).alphabet.total_spec() + i,
                forall|s: T|
                    #[trigger] count_of(self.alphabet@, s) == count_of(old(self).alphabet@, s)
                        + times(term@.take(i as int), s),
            decreases n - i,
        {
            let ghost held = self.alphabet@;
            self.alphabet.record(duplicate(&term[i]));
            proof {
                assert(term@.take(i + 1).drop_last() =~= term@.take(i as int));
                assert forall|s: T|
                    #[trigger] count_of(self.alphabet@, s) == count_of(old(self).alphabet@, s)
                        + times(term@.take(i + 1), s) by {
                    assert(count_of(held, s) == count_of(old(self).alphabet@, s) + times(
                        term@.take(i as int),
                        s,
                    ));
                }
            }
            i = i + 1;
        }
        proof {
            assert(term@.take(n as int) =~= term@);
        }
        // The sequence between its boundary markers.
        let mut aug: Vec<Option<T>> = Vec::new();
        aug.push(None);
        let mut i: usize = 0;
        while i < n
            invariant
                lawful::<T>(),
                n == term@.len(),
                i <= n,
                aug@.len() == i + 1,
                aug@[0] == None::<T>,
                forall|j: int| 1 <= j <= i ==> aug@[j] == Some(term@[j - 1]),
            decreases n - i,
        {
            aug.push(Some(duplicate(&term[i])));
            i = i + 1;
        }
        aug.push(None);
        let last: usize = aug.len();
        let ghost held_alphabet = self.alphabet;
        proof {
            assert(aug@ =~= aug0);
            assert forall|c: Seq<Option<T>>, symbol: T| #[trigger]
                self.stages.occurrences(c, Some(symbol)) > 0 implies count_of(
                self.alphabet@,
                symbol,
            ) > 0 by {
                assert(old(self).stages().occurrences(c, Some(symbol)) > 0);
                assert(count_of(self.alphabet@, symbol) == count_of(old(self).alphabet@, symbol)
                    + times(term@, symbol));
            }
        }
        // Every position with the contexts that end there.
        let mut idx: usize = 1;
        while idx < aug.len()
            invariant
                lawful::<T>(),
                lawful::<Option<T>>(),
                aug@ == aug0,
                aug0 == augment(term@),
                aug@.len() == n + 2 <= usize::MAX,
                1 <= idx <= aug@.len(),
                m >= 1,
                m == old(self).size,
                base == old(self).positions,
                cap(base + n + 1, m) <= usize::MAX,
                self.size == old(self).size,
                self.rng == old(self).rng,
                self.positions == old(self).positions,
                self.alphabet == held_alphabet,
                forall|s: T|
                    #[trigger] count_of(held_alphabet@, s) == count_of(old(self).alphabet@, s)
                        + times(term@, s),
                n == term@.len(),
                self.symbols_are_known(),
                self.stages.wf(),
                forall|c: Seq<Option<T>>| #[trigger]
                    self.stages@.dom().contains(c) ==> 1 <= c.len() <= m,
                forall|c: Seq<Option<T>>| #[trigger]
                    self.stages.weight(c) <= cap(base + idx - 1, m),
                forall|c: Seq<Option<T>>|
                    #![trigger self.stages@.dom().contains(c)]
                    self.stages@.dom().contains(c) <==> old(self).stages@.dom().contains(c) || seen(
                        aug0,
                        m,
                        idx as int,
                        c,
                    ),
                forall|c: Seq<Option<T>>, key: Option<T>|
                    #![trigger self.stages.occurrences(c, key)]
                    self.stages.occurrences(c, key) == old(self).stages.occurrences(c, key) + tally(
                        aug0,
                        m,
                        idx as int,
                        c,
                        key,
                    ),
            decreases aug@.len() - idx,
        {
            let ghost outer = self.stages;
            let mut len: usize = 1;
            while len <= self.size && len <= idx
                invariant
                    lawful::<T>(),
                    lawful::<Option<T>>(),
                    aug@ == aug0,
                    aug0 == augment(term@),
                    aug@.len() == n + 2 <= usize::MAX,
                    1 <= idx < aug@.len(),
                    1 <= len <= reach(m, idx as int) + 1,
                    m >= 1,
                    m == old(self).size,
                    base == old(self).positions,
                    cap(base + n + 1, m) <= usize::MAX,
                    self.size == old(self).size,
                    self.rng == old(self).rng,
                    self.positions == old(self).positions,
                    self.alphabet == held_alphabet,
                    forall|s: T|
                        #[trigger] count_of(held_alphabet@, s) == count_of(old(self).alphabet@, s)
                            + times(term@, s),
                    n == term@.len(),
                    self.symbols_are_known(),
                    self.stages.wf(),
                    forall|c: Seq<Option<T>>| #[trigger]
                        self.stages@.dom().contains(c) ==> 1 <= c.len() <= m,
                    forall|c: Seq<Option<T>>| #[trigger]
                        self.stages.weight(c) <= cap(base + idx - 1, m) + (len - 1),
                    forall|c: Seq<Option<T>>|
                        #![trigger self.stages@.dom().contains(c)]
                        self.stages@.dom().contains(c) <==> outer@.dom().contains(c) || (ends_at(
                            aug0,
                            idx as int,
                            c,
                        ) && c.len() <= len - 1),
                    forall|c: Seq<Option<T>>, key: Option<T>|
                        #![trigger self.stages.occurrences(c, key)]
                        self.stages.occurrences(c, key) == outer.occurrences(c, key) + gain(
                            aug0,
                            len - 1,
                            idx as int,
                            c,
                            key,
                        ),
                decreases idx + 1 - len,
            {
                let ghost prior = self.stages;
                let ghost known_before = self.symbols_are_known();
                let stage = slice_subrange(aug.as_slice(), idx - len, idx);
                let next = duplicate(&aug[idx]);
                proof {
                    lemma_cap(base + idx - 1, base + idx, m);
                    lemma_cap(base + idx, base + n + 1, m);
                    assert forall|c: Seq<Option<T>>| #[trigger] prior.weight(c) < usize::MAX by {
                        assert(prior.weight(c) <= cap(base + idx - 1, m) + (len - 1));
                    }
                }
                self.record_occurance(stage, next);
                proof {
                    assert forall|c: Seq<Option<T>>, symbol: T| #[trigger]
                        self.stages.occurrences(c, Some(symbol)) > 0 implies count_of(
                        self.alphabet@,
                        symbol,
                    ) > 0 by {
                        if prior.occurrences(c, Some(symbol)) == 0 {
                            assert(aug0[idx as int] == Some(symbol));
                            assert(idx <= n);
                            lemma_times_of_member(term@, idx - 1);
                            assert(count_of(held_alphabet@, symbol) == count_of(
                                old(self).alphabet@,
                                symbol,
                            ) + times(term@, symbol));
                        } else {
                            assert(known_before);
                        }
                    }
                    assert forall|c: Seq<Option<T>>|
                        #![trigger self.stages@.dom().contains(c)]
                        (self.stages@.dom().contains(c) <==> outer@.dom().contains(c) || (ends_at(
                            aug0,
                            idx as int,
                            c,
                        ) && c.len() <= len)) && (self.stages@.dom().contains(c) ==> 1 <= c.len()
                            <= m) by {
                        lemma_suffix_window(aug0, idx as int, len as int, c);
                        assert(prior@.dom().contains(c) <==> outer@.dom().contains(c) || (ends_at(
                            aug0,
                            idx as int,
                            c,
                        ) && c.len() <= len - 1));
                        assert(prior@.dom().contains(c) ==> 1 <= c.len() <= m);
                    }
                    assert forall|c: Seq<Option<T>>, key: Option<T>|
                        #![trigger self.stages.occurrences(c, key)]
                        self.stages.occurrences(c, key) == outer.occurrences(c, key) + gain(
                            aug0,
                            len as int,
                            idx as int,
                            c,
                            key,
                        ) by {
                        lemma_suffix_window(aug0, idx as int, len as int, c);
                        assert(prior.occurrences(c, key) == outer.occurrences(c, key) + gain(
                            aug0,
                            len - 1,
                            idx as int,
                            c,
                            key,
                        ));
                    }
                    assert forall|c: Seq<Option<T>>| #[trigger]
                        self.stages.weight(c) <= cap(base + idx - 1, m) + len by {
                        assert(prior.weight(c) <= cap(base + idx - 1, m) + (len - 1));
                    }
                }
                len = len + 1;
            }
            proof {
                lemma_cap(base + idx - 1, base + idx, m);
                assert(len - 1 == reach(m, idx as int));
                assert forall|c: Seq<Option<T>>| #[trigger]
                    self.stages.weight(c) <= cap(base + (idx + 1) - 1, m) by {
                    assert(self.stages.weight(c) <= cap(base + idx - 1, m) + (len - 1));
                }
                assert forall|c: Seq<Option<T>>|
                    #![trigger self.stages@.dom().contains(c)]
                    self.stages@.dom().contains(c) <==> old(self).stages@.dom().contains(c) || seen(
                        aug0,
                        m,
                        idx + 1,
                        c,
                    ) by {
                    assert(outer@.dom().contains(c) <==> old(self).stages@.dom().contains(c)
                        || seen(aug0, m, idx as int, c));
                    if seen(aug0, m, idx as int, c) {
                        let at = choose|at: int|
                            1 <= at < idx && at < aug0.len() && c.len() <= m && #[trigger] ends_at(
                                aug0,
                                at,
                                c,
                            );
                        assert(ends_at(aug0, at, c));
                    }
                    if seen(aug0, m, idx + 1, c) {
                        let at = choose|at: int|
                            1 <= at < idx + 1 && at < aug0.len() && c.len() <= m
                                && #[trigger] ends_at(aug0, at, c);
                        if at < idx {
                            assert(ends_at(aug0, at, c));
                        }
                    }
                    if ends_at(aug0, idx as int, c) && c.len() <= len - 1 {
                        assert(seen(aug0, m, idx + 1, c));
                    }
                }
                assert forall|c: Seq<Option<T>>, key: Option<T>|
                    #![trigger self.stages.occurrences(c, key)]
                    self.stages.occurrences(c, key) == old(self).stages.occurrences(c, key) + tally(
                        aug0,
                        m,
                        idx + 1,
                        c,
                        key,
                    ) by {
                    assert(outer.occurrences(c, key) == old(self).stages.occurrences(c, key)
                        + tally(aug0, m, idx as int, c, key));
                }
            }
            idx = idx + 1;
        }
        let ghost filled = *self;
        self.positions = self.positions + n + 1;
        proof {
            assert forall|c: Seq<Option<T>>, symbol: T| #[trigger]
                self.stages().occurrences(c, Some(symbol)) > 0 implies count_of(
                self.alphabet()@,
                symbol,
            ) > 0 by {
                assert(filled.stages().occurrences(c, Some(symbol)) > 0);
            }
            assert forall|c: Seq<Option<T>>| #[trigger]
                self.stages().weight(c) <= cap(self.positions() as int, self.order()) by {
                assert(self.stages.weight(c) <= cap(base + idx - 1, m));
            }
            assert(self.wf());
        }
    }

    /// Records that `next` followed `stage`, and with it every shorter
    /// context that `stage` ends in.
    fn record_occurance(&mut self, stage: &[Option<T>], next: Option<T>)
        requires
            lawful::<T>(),
            old(self).stages().wf(),
            forall|c: Seq<Option<T>>| #[trigger] old(self).stages().weight(c) < usize::MAX,
        ensures
            final(self).stages().wf(),
            final(self).order() == old(self).order(),
            final(self).source() == old(self).source(),
            final(self).alphabet() == old(self).alphabet(),
            final(self).positions() == old(self).positions(),
            forall|c: Seq<Option<T>>|
                #![trigger final(self).stages()@.dom().contains(c)]
                final(self).stages()@.dom().contains(c) <==> old(self).stages()@.dom().contains(c)
                    || suffix_of(c, stage@),
            forall|c: Seq<Option<T>>, key: Option<T>|
                #![trigger final(self).stages().occurrences(c, key)]
                final(self).stages().occurrences(c, key) == old(self).stages().occurrences(c, key)
                    + if suffix_of(c, stage@) && key == next {
                    1nat
                } else {
                    0nat
                },
            forall|c: Seq<Option<T>>|
                #![trigger final(self).stages().weight(c)]
                final(self).stages().weight(c) == old(self).stages().weight(c) + if suffix_of(
                    c,
                    stage@,
                ) {
                    1nat
                } else {
                    0nat
                },
    {
        proof {
            lemma_lawful_option::<T>();
        }
        let n: usize = stage.len();
        let mut start: usize = 0;
        while start < n
            invariant
                lawful::<Option<T>>(),
                n == stage@.len(),
                start <= n,
                self.stages.wf(),
                self.size == old(self).size,
                self.rng == old(self).rng,
                self.alphabet == old(self).alphabet,
                self.positions == old(self).positions,
                forall|c: Seq<Option<T>>| #[trigger] old(self).stages.weight(c) < usize::MAX,
                forall|c: Seq<Option<T>>|
                    #![trigger self.stages@.dom().contains(c)]
                    self.stages@.dom().contains(c) <==> old(self).stages@.dom().contains(c) || (
                    suffix_of(c, stage@) && c.len() > n - start),
                forall|c: Seq<Option<T>>, key: Option<T>|
                    #![trigger self.stages.occurrences(c, key)]
                    self.stages.occurrences(c, key) == old(self).stages.occurrences(c, key) + if suffix_of(
                        c,
                        stage@,
                    ) && c.len() > n - start && key == next {
                        1nat
                    } else {
                        0nat
                    },
                forall|c: Seq<Option<T>>|
                    #![trigger self.stages.weight(c)]
                    self.stages.weight(c) == old(self).stages.weight(c) + if suffix_of(c, stage@)
                        && c.len() > n - start {
                        1nat
                    } else {
                        0nat
                    },
            decreases n - start,
        {
            let rest = slice_subrange(stage, start, n);
            let ghost prior = self.stages;
            proof {
                assert(rest@ =~= stage@.skip(start as int));
                assert(prior.weight(rest@) == old(self).stages.weight(rest@));
            }
            self.stages.record(rest, duplicate(&next));
            proof {
                assert forall|c: Seq<Option<T>>| (suffix_of(c, stage@) && c.len() > n - (start + 1))
                    == ((suffix_of(c, stage@) && c.len() > n - start) || c == rest@) by {
                    if c == rest@ {
                        assert(stage@.skip(stage@.len() - c.len()) =~= c);
                    }
                }
                assert forall|c: Seq<Option<T>>|
                    #![trigger self.stages@.dom().contains(c)]
                    self.stages@.dom().contains(c) <==> old(self).stages@.dom().contains(c) || (
                    suffix_of(c, stage@) && c.len() > n - (start + 1)) by {
                    assert(prior@.dom().contains(c) <==> old(self).stages@.dom().contains(c) || (
                    suffix_of(c, stage@) && c.len() > n - start));
                }
                assert forall|c: Seq<Option<T>>, key: Option<T>|
                    #![trigger self.stages.occurrences(c, key)]
                    self.stages.occurrences(c, key) == old(self).stages.occurrences(c, key) + if suffix_of(
                        c,
                        stage@,
                    ) && c.len() > n - (start + 1) && key == next {
                        1nat
                    } else {
                        0nat
                    } by {
                    assert(prior.occurrences(c, key) == old(self).stages.occurrences(c, key) + if suffix_of(
                        c,
                        stage@,
                    ) && c.len() > n - start && key == next {
                        1nat
                    } else {
                        0nat
                    });
                }
                assert forall|c: Seq<Option<T>>|
                    #![trigger self.stages.weight(c)]
                    self.stages.weight(c) == old(self).stages.weight(c) + if suffix_of(c, stage@)
                        && c.len() > n - (start + 1) {
                        1nat
                    } else {
                        0nat
                    } by {
                    assert(prior.weight(c) == old(self).stages.weight(c) + if suffix_of(c, stage@)
                        && c.len() > n - start {
                        1nat
                    } else {
                        0nat
                    });
                }
            }
            start = start + 1;
        }
    }
}

impl<T: Ord + Clone, R: Rng> MarkovChain<T, R> {
    /// Generates a sequence, consulting contexts as long as the order of the
    /// chain.
    pub fn generate(&mut self) -> (result: Vec<T>)
        requires
            lawful::<T>(),
            old(self).wf(),
        ensures
            final(self).same_learning(old(self)),
            exists|draws: Seq<nat>| old(self).generated(old(self).order(), draws, result@),
            forall|i: int|
                0 <= i < result@.len() ==> count_of(old(self).alphabet()@, #[trigger] result@[i])
                    > 0,
    {
        let curr_size: usize = self.size;
        self.generate_max_look(curr_size)
    }

    /// Generates a sequence as [`MarkovChain::generate_max_look`] does, or
    /// fails with `InvalidArgument` and leaves the chain as it is if
    /// `max_lookbehind` is zero or exceeds the order.
    pub fn try_generate_max_look(&mut self, max_lookbehind: usize) -> (r: Result<
        Vec<T>,
        ChainError,
    >)
        requires
            lawful::<T>(),
            old(self).wf(),
        ensures
            final(self).same_learning(old(self)),
            r is Ok <==> 1 <= max_lookbehind <= old(self).order(),
            match r {
                Ok(result) => {
                    &&& exists|draws: Seq<nat>|
                        old(self).generated(max_lookbehind as nat, draws, result@)
                    &&& forall|i: int|
                        0 <= i < result@.len() ==> count_of(
                            old(self).alphabet()@,
                            #[trigger] result@[i],
                        ) > 0
                },
                Err(e) => e == ChainError::InvalidArgument && final(self).source() == old(
                    self,
                ).source(),
            },
    {
        if max_lookbehind >= 1 && max_lookbehind <= self.size {
            let result = self.generate_max_look(max_lookbehind);
            let ghost out = result@;
            let r: Result<Vec<T>, ChainError> = Ok(result);
            proof {
                let draws = choose|draws: Seq<nat>|
                    old(self).generated(max_lookbehind as nat, draws, out);
                assert(r->Ok_0@ == out);
                assert(old(self).generated(max_lookbehind as nat, draws, r->Ok_0@));
            }
            r
        } else {
            Err(ChainError::InvalidArgument)
        }
    }

    /// Generates a sequence, consulting contexts of at most `max_lookbehind`
    /// elements. The numbers that decide the walk are drawn from the random
    /// source. A chain that has learnt nothing generates the empty sequence.
    pub fn generate_max_look(&mut self, max_lookbehind: usize) -> (result: Vec<T>)
        requires
            lawful::<T>(),
            old(self).wf(),
            1 <= max_lookbehind <= old(self).order(),
        ensures
            final(self).same_learning(old(self)),
            exists|draws: Seq<nat>| old(self).generated(max_lookbehind as nat, draws, result@),
            forall|i: int|
                0 <= i < result@.len() ==> count_of(old(self).alphabet()@, #[trigger] result@[i])
                    > 0,
    {
        let mut result: Vec<T> = Vec::new();
        let mut window: Vec<Option<T>> = Vec::new();
        window.push(None);
        let mut ended: bool = false;
        let ghost model = self@;
        let ghost look = max_lookbehind as nat;
        let ghost mut draws: Seq<nat> = Seq::empty();
        proof {
            lemma_lawful_option::<T>();
            assert(window@ =~= seq![None::<T>]);
        }
        while !ended && result.len() < usize::MAX
            invariant
                lawful::<T>(),
                lawful::<Option<T>>(),
                self.same_learning(old(self)),
                self.stages.wf(),
                self.alphabet.wf(),
                self.symbols_are_known(),
                forall|i: int|
                    0 <= i < result@.len() ==> count_of(self.alphabet@, #[trigger] result@[i]) > 0,
                model == self@,
                look == max_lookbehind,
                1 <= window@.len() <= max_lookbehind,
                fair(model, look, draws),
                walk(model, look, draws) == (Walk { window: window@, output: result@, ended }),
            decreases usize::MAX - result.len() + if ended { 0int } else { 1int },
        {
            let ghost at = walk(model, look, draws);
            let ghost mut r: nat = 0;
            let (start, found) = self.stages.longest_known(window.as_slice());
            let next: Option<T> = match found {
                Some(stats) => {
                    proof {
                        lemma_mass_positive(stats@);
                    }
                    let key = weighted_choice(&mut self.rng, stats);
                    proof {
                        r = choose|r: nat| r < stats.total_spec() && key == chosen(stats@, r);
                        assert(self.stages.occurrences(window@.skip(start as int), key) > 0);
                    }
                    key
                },
                None => {
                    proof {
                        lemma_mass_positive(self.alphabet@);
                    }
                    if self.alphabet.total() > 0 {
                        let key = weighted_choice(&mut self.rng, &self.alphabet);
                        proof {
                            r = choose|r: nat|
                                r < self.alphabet.total_spec() && key == chosen(self.alphabet@, r);
                        }
                        Some(key)
                    } else {
                        None
                    }
                },
            };
            proof {
                assert(answering(model, window@) == window@.skip(start as int));
                assert(successor(model, window@, r) == next);
                lemma_fair_push(model, look, draws, r);
                draws = draws.push(r);
                assert(walk(model, look, draws) == step(model, look, at, r));
            }
            match next {
                None => {
                    ended = true;
                },
                Some(symbol) => {
                    drop_front(&mut window, start);
                    window.push(Some(duplicate(&symbol)));
                    let ghost grown = window@;
                    while window.len() > max_lookbehind
                        invariant
                            grown.len() <= max_lookbehind + 1,
                            window@.len() <= grown.len(),
                            window@ == grown.skip(grown.len() - window@.len()),
                            grown.len() > max_lookbehind ==> window@.len() >= max_lookbehind,
                            grown.len() <= max_lookbehind ==> window@.len() == grown.len(),
                        decreases window@.len(),
                    {
                        window.remove(0);
                        proof {
                            assert(window@ =~= grown.skip(grown.len() - window@.len()));
                        }
                    }
                    proof {
                        assert(grown.skip(0) =~= grown);
                        assert(window@ == slide(model, at.window, symbol, look));
                    }
                    result.push(symbol);
                },
            }
        }
        proof {
            assert(old(self).generated(look, draws, result@));
        }
        result
    }
}

impl<T: Ord + Clone> MarkovChain<T, ThreadRng> {
    /// A chain of order `size` that draws from the generator of the current
    /// thread and has learnt nothing.
    pub fn new(size: usize) -> (chain: Self)
        requires
            size > 0,
        ensures
            chain.wf(),
            chain.order() == size,
            chain.stages()@ == Map::<Seq<Option<T>>, Seq<(Option<T>, usize)>>::empty(),
            chain.alphabet()@ == Seq::<(T, usize)>::empty(),
            chain.positions() == 0,
    {
        MarkovChain::new_with_rng(size, rand::thread_rng())
    }

    /// A chain as [`MarkovChain::new`] builds it, or `InvalidConfig` if
    /// `size` is zero.
    pub fn try_new(size: usize) -> (r: Result<Self, ChainError>)
        ensures
            r is Err <==> size == 0,
            r is Err ==> r->Err_0 == ChainError::InvalidConfig,
            r is Ok ==> {
                let chain = r->Ok_0;
                &&& chain.wf()
                &&& chain.order() == size
                &&& chain.stages()@ == Map::<Seq<Option<T>>, Seq<(Option<T>, usize)>>::empty()
                &&& chain.alphabet()@ == Seq::<(T, usize)>::empty()
                &&& chain.positions() == 0
            },
    {
        if size == 0 {
            Err(ChainError::InvalidConfig)
        } else {
            Ok(MarkovChain::new(size))
        }
    }
}

} // verus!
