//! The context table: for every context seen in training, the distribution of
//! what followed it.
//!
//! The table is modelled as a map from contexts to the entries of their
//! distributions. Its rows are kept in lexicographic order of their contexts,
//! so a context is found by bisection.

use crate::context::{
    compare_contexts, copy_context, lemma_lex_irreflexive, lemma_lex_transitive, lex_before,
};
use crate::distribution::{ascending, count_of, lemma_count_absent, mass, positive, Distribution};
use crate::symbol::{lawful, Rank};
use vstd::prelude::*;
use vstd::slice::slice_subrange;

verus! {

/// One context with the distribution of its successors.
struct Row<K> {
    context: Vec<K>,
    stats: Distribution<K>,
}

/// Row `i` of `rows` is the one for context `c`.
spec fn row_for<K: Ord + Clone>(rows: Seq<Row<K>>, i: int, c: Seq<K>) -> bool {
    0 <= i < rows.len() && rows[i].context@ == c
}

/// The row of `rows` that holds context `c`, if there is one.
spec fn slot<K: Ord + Clone>(rows: Seq<Row<K>>, c: Seq<K>) -> int {
    choose|i: int| row_for(rows, i, c)
}

/// The contexts of `rows` ascend strictly.
spec fn sorted<K: Ord + Clone>(rows: Seq<Row<K>>) -> bool {
    forall|i: int, j: int|
        0 <= i < j < rows.len() ==> lex_before(
            (#[trigger] rows[i]).context@,
            (#[trigger] rows[j]).context@,
        )
}

/// In sorted rows a context stands in one row only.
proof fn lemma_one_row<K: Ord + Clone>(rows: Seq<Row<K>>, i: int, j: int)
    requires
        lawful::<K>(),
        sorted(rows),
        0 <= i < rows.len(),
        0 <= j < rows.len(),
        rows[i].context@ == rows[j].context@,
    ensures
        i == j,
{
    lemma_lex_irreflexive(rows[i].context@);
}

/// In sorted rows, row `i` is the slot of its own context.
proof fn lemma_slot<K: Ord + Clone>(rows: Seq<Row<K>>, i: int)
    requires
        lawful::<K>(),
        sorted(rows),
        0 <= i < rows.len(),
    ensures
        slot(rows, rows[i].context@) == i,
{
    assert(row_for(rows, i, rows[i].context@));
    lemma_one_row(rows, i, slot(rows, rows[i].context@));
}

/// What a distribution in the table must satisfy: ascending keys, positive
/// counts, at least one entry, and a stored total that is the sum of the
/// counts.
pub open spec fn sound<K: Ord>(entries: Seq<(K, usize)>, total: nat) -> bool {
    &&& ascending(entries)
    &&& positive(entries)
    &&& entries.len() > 0
    &&& total == mass(entries)
}

/// What is left of `window` when elements are dropped from its front until
/// it is one of the contexts `known` or a single element remains.
pub open spec fn narrowed<K>(known: Set<Seq<K>>, window: Seq<K>) -> Seq<K>
    decreases window.len(),
{
    if window.len() <= 1 || known.contains(window) {
        window
    } else {
        narrowed(known, window.drop_first())
    }
}

/// The distributions of the contexts seen so far.
pub struct ContextTable<K> {
    rows: Vec<Row<K>>,
}

impl<K: Ord + Clone> View for ContextTable<K> {
    type V = Map<Seq<K>, Seq<(K, usize)>>;

    /// The entries of each context's distribution.
    closed spec fn view(&self) -> Map<Seq<K>, Seq<(K, usize)>> {
        Map::new(
            |c: Seq<K>| exists|i: int| row_for(self.rows@, i, c),
            |c: Seq<K>| self.rows@[slot(self.rows@, c)].stats@,
        )
    }
}

impl<K: Ord + Clone> ContextTable<K> {
    /// The total that is stored with the distribution of context `c`.
    pub closed spec fn stored_total(&self, c: Seq<K>) -> nat {
        self.rows@[slot(self.rows@, c)].stats.total_spec()
    }

    /// The rows are in order.
    pub closed spec fn in_order(&self) -> bool {
        sorted(self.rows@)
    }

    /// The rows are in order and every distribution is sound.
    pub open spec fn wf(&self) -> bool {
        &&& self.in_order()
        &&& forall|c: Seq<K>| #[trigger]
            self@.dom().contains(c) ==> sound(self@[c], self.stored_total(c))
    }

    /// How often `key` followed context `c`.
    pub open spec fn occurrences(&self, c: Seq<K>, key: K) -> nat {
        if self@.dom().contains(c) {
            count_of(self@[c], key)
        } else {
            0
        }
    }

    /// How many successors of context `c` were recorded in all.
    pub open spec fn weight(&self, c: Seq<K>) -> nat {
        if self@.dom().contains(c) {
            self.stored_total(c)
        } else {
            0
        }
    }

    /// What the model says of row `i`.
    proof fn lemma_row(&self, i: int)
        requires
            lawful::<K>(),
            self.in_order(),
            0 <= i < self.rows@.len(),
        ensures
            self@.dom().contains(self.rows@[i].context@),
            self@[self.rows@[i].context@] == self.rows@[i].stats@,
            self.stored_total(self.rows@[i].context@) == self.rows@[i].stats.total_spec(),
    {
        lemma_slot(self.rows@, i);
        assert(row_for(self.rows@, i, self.rows@[i].context@));
    }

    /// A context of the model stands in some row.
    proof fn lemma_row_of(&self, c: Seq<K>) -> (i: int)
        requires
            self@.dom().contains(c),
        ensures
            row_for(self.rows@, i, c),
            i == slot(self.rows@, c),
    {
        slot(self.rows@, c)
    }

    /// The empty table.
    pub fn new() -> (t: Self)
        ensures
            t@ == Map::<Seq<K>, Seq<(K, usize)>>::empty(),
            t.wf(),
    {
        let t = ContextTable { rows: Vec::new() };
        proof {
            assert(t@ =~= Map::<Seq<K>, Seq<(K, usize)>>::empty());
        }
        t
    }

    /// Bisects for `context`: the row that holds it, or else the row before
    /// which it belongs.
    fn locate(&self, context: &[K]) -> (r: (usize, bool))
        requires
            lawful::<K>(),
            self.in_order(),
        ensures
            r.0 <= self.rows@.len(),
            r.1 ==> row_for(self.rows@, r.0 as int, context@),
            !r.1 ==> forall|i: int|
                0 <= i < r.0 ==> lex_before((#[trigger] self.rows@[i]).context@, context@),
            !r.1 ==> forall|i: int|
                r.0 <= i < self.rows@.len() ==> lex_before(
                    context@,
                    (#[trigger] self.rows@[i]).context@,
                ),
            r.1 <==> self@.dom().contains(context@),
    {
        let mut low: usize = 0;
        let mut high: usize = self.rows.len();
        while low < high
            invariant
                lawful::<K>(),
                sorted(self.rows@),
                low <= high <= self.rows@.len(),
                forall|i: int|
                    0 <= i < low ==> lex_before((#[trigger] self.rows@[i]).context@, context@),
                forall|i: int|
                    high <= i < self.rows@.len() ==> lex_before(
                        context@,
                        (#[trigger] self.rows@[i]).context@,
                    ),
            decreases high - low,
        {
            let mid: usize = low + (high - low) / 2;
            match compare_contexts(self.rows[mid].context.as_slice(), context) {
                Rank::Before => {
                    proof {
                        assert forall|i: int| 0 <= i < mid + 1 implies lex_before(
                            (#[trigger] self.rows@[i]).context@,
                            context@,
                        ) by {
                            if i < mid {
                                lemma_lex_transitive(
                                    self.rows@[i].context@,
                                    self.rows@[mid as int].context@,
                                    context@,
                                );
                            }
                        }
                    }
                    low = mid + 1;
                },
                Rank::Same => {
                    proof {
                        assert(row_for(self.rows@, mid as int, context@));
                    }
                    return (mid, true);
                },
                Rank::After => {
                    proof {
                        assert forall|i: int| mid <= i < self.rows@.len() implies lex_before(
                            context@,
                            (#[trigger] self.rows@[i]).context@,
                        ) by {
                            if mid < i {
                                lemma_lex_transitive(
                                    context@,
                                    self.rows@[mid as int].context@,
                                    self.rows@[i].context@,
                                );
                            }
                        }
                    }
                    high = mid;
                },
            }
        }
        proof {
            lemma_lex_irreflexive(context@);
            assert forall|i: int| !row_for(self.rows@, i, context@) by {
                if 0 <= i < self.rows@.len() {
                    if i < low {
                        assert(lex_before(self.rows@[i].context@, context@));
                    } else {
                        assert(lex_before(context@, self.rows@[i].context@));
                    }
                }
            }
        }
        (low, false)
    }

    /// The distribution of what followed `context`, if the context was seen.
    pub fn get(&self, context: &[K]) -> (r: Option<&Distribution<K>>)
        requires
            lawful::<K>(),
            self.wf(),
        ensures
            r is Some <==> self@.dom().contains(context@),
            r is Some ==> r->0@ == self@[context@] && r->0.total_spec() == self.stored_total(
                context@,
            ) && r->0.wf() && r->0@.len() > 0,
    {
        let (p, found) = self.locate(context);
        if found {
            proof {
                self.lemma_row(p as int);
            }
            Some(&self.rows[p].stats)
        } else {
            None
        }
    }

    /// Consults the table for `window`, backing off to shorter contexts:
    /// elements are dropped from the front of the window until what is left is
    /// a context of the table or a single element. Returns how many elements
    /// were dropped, and the distribution of what is left if it is known.
    pub fn longest_known(&self, window: &[K]) -> (r: (usize, Option<&Distribution<K>>))
        requires
            lawful::<K>(),
            self.wf(),
            window@.len() >= 1,
        ensures
            r.0 < window@.len(),
            window@.skip(r.0 as int) == narrowed(self@.dom(), window@),
            r.1 is Some <==> self@.dom().contains(narrowed(self@.dom(), window@)),
            r.1 is Some ==> r.1->0@ == self@[narrowed(self@.dom(), window@)] && r.1->0.wf()
                && r.1->0@.len() > 0,
    {
        let n: usize = window.len();
        let mut start: usize = 0;
        proof {
            assert(window@.skip(0) =~= window@);
        }
        loop
            invariant
                lawful::<K>(),
                self.wf(),
                n == window@.len(),
                start < n,
                narrowed(self@.dom(), window@) == narrowed(self@.dom(), window@.skip(start as int)),
            decreases n - start,
        {
            let rest = slice_subrange(window, start, n);
            proof {
                assert(rest@ =~= window@.skip(start as int));
            }
            let found = self.get(rest);
            if found.is_some() || start + 1 == n {
                return (start, found);
            }
            proof {
                assert(rest@.drop_first() =~= window@.skip(start + 1));
            }
            start = start + 1;
        }
    }

    /// Whether `context` was seen.
    pub fn contains(&self, context: &[K]) -> (b: bool)
        requires
            lawful::<K>(),
            self.wf(),
        ensures
            b == self@.dom().contains(context@),
    {
        let (_, found) = self.locate(context);
        found
    }

    /// Records that `next` followed `context` once more.
    pub fn record(&mut self, context: &[K], next: K)
        requires
            lawful::<K>(),
            old(self).wf(),
            old(self).weight(context@) < usize::MAX,
        ensures
            final(self).wf(),
            final(self)@.dom() == old(self)@.dom().insert(context@),
            forall|c: Seq<K>, key: K|
                #![trigger final(self).occurrences(c, key)]
                final(self).occurrences(c, key) == old(self).occurrences(c, key) + if c == context@
                    && key == next {
                    1nat
                } else {
                    0nat
                },
            forall|c: Seq<K>|
                #![trigger final(self).weight(c)]
                final(self).weight(c) == old(self).weight(c) + if c == context@ {
                    1nat
                } else {
                    0nat
                },
            forall|c: Seq<K>|
                c != context@ && old(self)@.dom().contains(c) ==> #[trigger] final(self)@[c] == old(
                    self,
                )@[c],
    {
        let (p, found) = self.locate(context);
        let ghost before = *self;
        if found {
            proof {
                before.lemma_row(p as int);
            }
            let row = &mut self.rows[p];
            row.stats.record(next);
            proof {
                let was = before.rows@;
                let now = self.rows@;
                assert(now.len() == was.len());
                assert forall|i: int| 0 <= i < now.len() implies #[trigger] now[i].context@
                    == was[i].context@ by {}
                assert forall|i: int| 0 <= i < now.len() && i != p implies #[trigger] now[i]
                    == was[i] by {}
                assert(sorted(now));
                assert forall|i: int, c: Seq<K>| row_for(now, i, c) == row_for(was, i, c) by {}
                assert(self@.dom() =~= before@.dom());
                assert(before@.dom().insert(context@) =~= before@.dom());
                assert forall|c: Seq<K>| #[trigger] self@.dom().contains(c) implies ({
                    &&& slot(now, c) == slot(was, c)
                    &&& c != context@ ==> self@[c] == before@[c] && self.stored_total(c)
                        == before.stored_total(c)
                    &&& sound(self@[c], self.stored_total(c))
                }) by {
                    let i = self.lemma_row_of(c);
                    let j = before.lemma_row_of(c);
                    lemma_one_row(was, i, j);
                    if c == context@ {
                        lemma_one_row(was, i, p as int);
                    } else {
                        assert(i != p);
                        assert(before@.dom().contains(c));
                    }
                }
                self.lemma_row(p as int);
            }
        } else {
            let mut stats: Distribution<K> = Distribution::new();
            stats.record(next);
            let row = Row { context: copy_context(context), stats };
            self.rows.insert(p, row);
            proof {
                let was = before.rows@;
                let now = self.rows@;
                assert(now == was.insert(p as int, row));
                assert forall|i: int, j: int| 0 <= i < j < now.len() implies lex_before(
                    (#[trigger] now[i]).context@,
                    (#[trigger] now[j]).context@,
                ) by {
                    if j < p {
                        assert(now[i] == was[i] && now[j] == was[j]);
                    } else if j == p {
                        assert(now[i] == was[i]);
                    } else if i < p {
                        assert(now[i] == was[i] && now[j] == was[j - 1]);
                        lemma_lex_transitive(was[i].context@, context@, was[j - 1].context@);
                    } else if i == p {
                        assert(now[j] == was[j - 1]);
                    } else {
                        assert(now[i] == was[i - 1] && now[j] == was[j - 1]);
                    }
                }
                assert(sorted(now));
                assert forall|i: int, c: Seq<K>| row_for(was, i, c) implies row_for(
                    now,
                    if i < p { i } else { i + 1 },
                    c,
                ) by {}
                assert forall|i: int, c: Seq<K>| row_for(now, i, c) && i != p implies row_for(
                    was,
                    if i < p { i } else { i - 1 },
                    c,
                ) by {}
                assert(row_for(now, p as int, context@));
                assert(self@.dom() =~= before@.dom().insert(context@)) by {
                    assert forall|c: Seq<K>| self@.dom().contains(c) == before@.dom().insert(
                        context@,
                    ).contains(c) by {
                        if self@.dom().contains(c) {
                            let i = self.lemma_row_of(c);
                            if i != p {
                                assert(row_for(was, if i < p { i } else { i - 1 }, c));
                            }
                        }
                        if before@.dom().contains(c) {
                            let i = before.lemma_row_of(c);
                            assert(row_for(now, if i < p { i } else { i + 1 }, c));
                        }
                    }
                }
                lemma_count_absent(Seq::<(K, usize)>::empty(), next);
                assert forall|c: Seq<K>| #[trigger] self@.dom().contains(c) implies ({
                    &&& c != context@ ==> before@.dom().contains(c) && self@[c] == before@[c]
                        && self.stored_total(c) == before.stored_total(c)
                    &&& c == context@ ==> self@[c] == stats@ && self.stored_total(c)
                        == stats.total_spec()
                    &&& sound(self@[c], self.stored_total(c))
                }) by {
                    let i = self.lemma_row_of(c);
                    if i == p {
                        assert(stats@.len() > 0) by {
                            if stats@.len() == 0 {
                                lemma_count_absent(stats@, next);
                            }
                        }
                    } else {
                        let j = if i < p { i } else { i - 1 };
                        assert(row_for(was, j, c));
                        lemma_lex_irreflexive(context@);
                        assert(c != context@);
                        lemma_one_row(was, j, slot(was, c));
                        assert(before@.dom().contains(c));
                    }
                }
                assert forall|key: K| #[trigger] count_of(stats@, key) == if key == next {
                    1nat
                } else {
                    0nat
                } by {
                    lemma_count_absent(Seq::<(K, usize)>::empty(), key);
                }
            }
        }
        proof {
            assert forall|c: Seq<K>| c != context@ && before@.dom().contains(c) implies #[trigger] self@[c]
                == before@[c] by {
                assert(self@.dom().contains(c));
            }
        }
    }
}

} // verus!
