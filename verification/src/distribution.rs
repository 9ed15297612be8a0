//! Occurrence counts over an ordered set of keys, and weighted choice.
//!
//! A [`Distribution`] is modelled by the sequence of its entries, each a key
//! with the number of times it was recorded, in strictly ascending key order.
//! The order matters: a weighted choice walks the entries from the smallest
//! key upwards, so the same number always selects the same key.

use crate::symbol::{compare, duplicate, lawful, lemma_strict_total_order, precedes, Rank};
use vstd::prelude::*;

verus! {

/// The sum of the counts of `s`.
pub open spec fn mass<K>(s: Seq<(K, usize)>) -> nat
    decreases s.len(),
{
    if s.len() == 0 {
        0
    } else {
        mass(s.drop_last()) + s.last().1 as nat
    }
}

/// How often `key` was recorded in `s`.
pub open spec fn count_of<K>(s: Seq<(K, usize)>, key: K) -> nat
    decreases s.len(),
{
    if s.len() == 0 {
        0
    } else {
        count_of(s.drop_last(), key) + if s.last().0 == key {
            s.last().1 as nat
        } else {
            0
        }
    }
}

/// The keys of `s` ascend strictly.
pub open spec fn ascending<K: Ord>(s: Seq<(K, usize)>) -> bool {
    forall|i: int, j: int| 0 <= i < j < s.len() ==> precedes(#[trigger] s[i].0, #[trigger] s[j].0)
}

/// Every entry of `s` has been recorded at least once.
pub open spec fn positive<K>(s: Seq<(K, usize)>) -> bool {
    forall|i: int| 0 <= i < s.len() ==> (#[trigger] s[i]).1 > 0
}

/// The index of the entry that the number `r` selects: the first one at which
/// the running sum of the counts exceeds `r`, and the last entry if the sum
/// never does.
pub open spec fn landing<K>(s: Seq<(K, usize)>, r: nat) -> int
    decreases s.len(),
{
    if s.len() <= 1 {
        0
    } else if r < mass(s.drop_last()) {
        landing(s.drop_last(), r)
    } else {
        s.len() - 1
    }
}

/// The key that the number `r` selects from `s`.
pub open spec fn chosen<K>(s: Seq<(K, usize)>, r: nat) -> K
    recommends
        s.len() > 0,
{
    s[landing(s, r)].0
}

/// The sum of the counts of two sequences laid end to end is the sum of
/// their sums.
pub proof fn lemma_mass_concat<K>(a: Seq<(K, usize)>, b: Seq<(K, usize)>)
    ensures
        mass(a + b) == mass(a) + mass(b),
    decreases b.len(),
{
    if b.len() == 0 {
        assert(a + b =~= a);
    } else {
        assert((a + b).drop_last() =~= a + b.drop_last());
        lemma_mass_concat(a, b.drop_last());
    }
}

/// The count of a key in two sequences laid end to end is the sum of its
/// counts in each.
pub proof fn lemma_count_concat<K>(a: Seq<(K, usize)>, b: Seq<(K, usize)>, key: K)
    ensures
        count_of(a + b, key) == count_of(a, key) + count_of(b, key),
    decreases b.len(),
{
    if b.len() == 0 {
        assert(a + b =~= a);
    } else {
        assert((a + b).drop_last() =~= a + b.drop_last());
        lemma_count_concat(a, b.drop_last(), key);
    }
}

/// The sum of the counts of a single entry is its count.
proof fn lemma_mass_single<K>(e: (K, usize))
    ensures
        mass(seq![e]) == e.1,
{
    assert(seq![e].drop_last() =~= Seq::<(K, usize)>::empty());
    assert(mass(seq![e].drop_last()) == 0);
}

/// A single entry counts for its own key, and for no other.
proof fn lemma_count_single<K>(e: (K, usize), key: K)
    ensures
        count_of(seq![e], key) == if e.0 == key { e.1 as nat } else { 0 },
{
    assert(seq![e].drop_last() =~= Seq::<(K, usize)>::empty());
    assert(count_of(seq![e].drop_last(), key) == 0);
}

/// The running sum grows with the prefix.
pub proof fn lemma_mass_prefix<K>(s: Seq<(K, usize)>, i: int, j: int)
    requires
        0 <= i <= j <= s.len(),
    ensures
        mass(s.take(i)) <= mass(s.take(j)) <= mass(s),
{
    assert(s.take(j) =~= s.take(i) + s.subrange(i, j));
    lemma_mass_concat(s.take(i), s.subrange(i, j));
    assert(s =~= s.take(j) + s.skip(j));
    lemma_mass_concat(s.take(j), s.skip(j));
}

/// One more entry adds its count to the running sum.
pub proof fn lemma_mass_step<K>(s: Seq<(K, usize)>, i: int)
    requires
        0 <= i < s.len(),
    ensures
        mass(s.take(i + 1)) == mass(s.take(i)) + s[i].1,
{
    assert(s.take(i + 1).drop_last() =~= s.take(i));
}

/// No single count exceeds the sum.
pub proof fn lemma_mass_bounds_entry<K>(s: Seq<(K, usize)>, i: int)
    requires
        0 <= i < s.len(),
    ensures
        s[i].1 <= mass(s),
{
    lemma_mass_step(s, i);
    lemma_mass_prefix(s, i, i + 1);
}

/// Entries with positive counts sum to more than zero, unless there are none.
pub proof fn lemma_mass_positive<K>(s: Seq<(K, usize)>)
    requires
        positive(s),
    ensures
        mass(s) > 0 <==> s.len() > 0,
{
    if s.len() > 0 {
        lemma_mass_bounds_entry(s, 0);
    }
}

/// A key that no entry carries has count zero.
pub proof fn lemma_count_absent<K>(s: Seq<(K, usize)>, key: K)
    requires
        forall|i: int| 0 <= i < s.len() ==> (#[trigger] s[i]).0 != key,
    ensures
        count_of(s, key) == 0,
    decreases s.len(),
{
    if s.len() > 0 {
        assert(s.last() == s[s.len() - 1]);
        assert forall|i: int| 0 <= i < s.drop_last().len() implies (#[trigger] s.drop_last()[i]).0
            != key by {
            assert(s.drop_last()[i] == s[i]);
        }
        lemma_count_absent(s.drop_last(), key);
    }
}

/// In ascending entries the count of a key is the count of the one entry that
/// carries it.
pub proof fn lemma_count_at<K: Ord + Clone>(s: Seq<(K, usize)>, i: int)
    requires
        lawful::<K>(),
        ascending(s),
        0 <= i < s.len(),
    ensures
        count_of(s, s[i].0) == s[i].1,
{
    lemma_strict_total_order::<K>();
    let key = s[i].0;
    assert(s =~= s.take(i) + seq![s[i]] + s.skip(i + 1));
    lemma_count_concat(s.take(i) + seq![s[i]], s.skip(i + 1), key);
    lemma_count_concat(s.take(i), seq![s[i]], key);
    lemma_count_single(s[i], key);
    assert forall|j: int| 0 <= j < s.take(i).len() implies (#[trigger] s.take(i)[j]).0 != key by {
        assert(precedes(s[j].0, s[i].0));
    }
    lemma_count_absent(s.take(i), key);
    assert forall|j: int| 0 <= j < s.skip(i + 1).len() implies (#[trigger] s.skip(i + 1)[j]).0
        != key by {
        assert(precedes(s[i].0, s[i + 1 + j].0));
    }
    lemma_count_absent(s.skip(i + 1), key);
}

/// A key with a count stands in some entry.
pub proof fn lemma_count_witness<K>(s: Seq<(K, usize)>, key: K) -> (i: int)
    requires
        count_of(s, key) > 0,
    ensures
        0 <= i < s.len(),
        s[i].0 == key,
        s[i].1 > 0,
    decreases s.len(),
{
    if s.last().0 == key && s.last().1 > 0 {
        s.len() - 1
    } else {
        let i = lemma_count_witness(s.drop_last(), key);
        assert(s.drop_last()[i] == s[i]);
        i
    }
}

/// The entry that `r` selects is the one whose share of the running sum
/// holds `r`.
pub proof fn lemma_landing_at<K>(s: Seq<(K, usize)>, r: nat, i: int)
    requires
        0 <= i < s.len(),
        mass(s.take(i)) <= r,
        i == s.len() - 1 || r < mass(s.take(i + 1)),
    ensures
        landing(s, r) == i,
    decreases s.len(),
{
    if s.len() > 1 {
        let front = s.drop_last();
        assert(front =~= s.take(s.len() - 1));
        if i < s.len() - 1 {
            lemma_mass_prefix(front, i + 1, front.len() as int);
            assert(front.take(i + 1) =~= s.take(i + 1));
            assert(front.take(i) =~= s.take(i));
            lemma_landing_at(front, r, i);
        }
    }
}

/// A number below the sum selects the entry whose share holds it.
pub proof fn lemma_landing_brackets<K>(s: Seq<(K, usize)>, r: nat)
    requires
        r < mass(s),
    ensures
        0 <= landing(s, r) < s.len(),
        mass(s.take(landing(s, r))) <= r < mass(s.take(landing(s, r) + 1)),
    decreases s.len(),
{
    if s.len() == 1 {
        assert(s.take(1) =~= s);
        assert(s.take(0) =~= Seq::<(K, usize)>::empty());
    } else if s.len() > 1 {
        let front = s.drop_last();
        assert(front =~= s.take(s.len() - 1));
        if r < mass(front) {
            lemma_landing_brackets(front, r);
            let i = landing(front, r);
            assert(front.take(i + 1) =~= s.take(i + 1));
            assert(front.take(i) =~= s.take(i));
        } else {
            assert(s.take(s.len() as int) =~= s);
        }
    }
}

/// Counts of occurrences, kept by key in ascending order.
pub struct Distribution<K> {
    total: usize,
    entries: Vec<(K, usize)>,
}

impl<K: Ord + Clone> View for Distribution<K> {
    type V = Seq<(K, usize)>;

    /// The entries, smallest key first.
    closed spec fn view(&self) -> Seq<(K, usize)> {
        self.entries@
    }
}

impl<K: Ord + Clone> Distribution<K> {
    /// The stored total.
    pub closed spec fn total_spec(&self) -> nat {
        self.total as nat
    }

    /// The keys ascend, every count is positive, and the stored total is the
    /// sum of the counts.
    pub open spec fn wf(&self) -> bool {
        &&& ascending(self@)
        &&& positive(self@)
        &&& self.total_spec() == mass(self@)
    }

    /// The empty distribution.
    pub fn new() -> (d: Self)
        ensures
            d@ == Seq::<(K, usize)>::empty(),
            d.total_spec() == 0,
            d.wf(),
    {
        Distribution { total: 0, entries: Vec::new() }
    }

    /// The number of occurrences recorded, over all keys.
    pub fn total(&self) -> (t: usize)
        ensures
            t == self.total_spec(),
    {
        self.total
    }

    /// The number of distinct keys.
    pub fn len(&self) -> (n: usize)
        ensures
            n == self@.len(),
    {
        self.entries.len()
    }

    /// The position of the first entry whose key does not come before `key`.
    fn locate(&self, key: &K) -> (p: usize)
        requires
            lawful::<K>(),
            ascending(self@),
        ensures
            p <= self@.len(),
            forall|i: int| 0 <= i < p ==> precedes(#[trigger] self@[i].0, *key),
            forall|i: int| p <= i < self@.len() ==> !precedes(#[trigger] self@[i].0, *key),
    {
        proof {
            lemma_strict_total_order::<K>();
        }
        let mut low: usize = 0;
        let mut high: usize = self.entries.len();
        while low < high
            invariant
                lawful::<K>(),
                ascending(self@),
                low <= high <= self@.len(),
                forall|i: int| 0 <= i < low ==> precedes(#[trigger] self@[i].0, *key),
                forall|i: int| high <= i < self@.len() ==> !precedes(#[trigger] self@[i].0, *key),
            decreases high - low,
        {
            let mid: usize = low + (high - low) / 2;
            match compare(&self.entries[mid].0, key) {
                Rank::Before => {
                    proof {
                        lemma_strict_total_order::<K>();
                        assert forall|i: int| 0 <= i < mid + 1 implies precedes(
                            #[trigger] self@[i].0,
                            *key,
                        ) by {
                            if i < mid {
                                assert(precedes(self@[i].0, self@[mid as int].0));
                            }
                        }
                    }
                    low = mid + 1;
                },
                _ => {
                    proof {
                        lemma_strict_total_order::<K>();
                        assert forall|i: int| mid <= i < self@.len() implies !precedes(
                            #[trigger] self@[i].0,
                            *key,
                        ) by {
                            if mid < i {
                                assert(precedes(self@[mid as int].0, self@[i].0));
                            }
                        }
                    }
                    high = mid;
                },
            }
        }
        low
    }

    /// How often `key` was recorded.
    pub fn count(&self, key: &K) -> (n: usize)
        requires
            lawful::<K>(),
            self.wf(),
        ensures
            n == count_of(self@, *key),
    {
        let p: usize = self.locate(key);
        if p < self.entries.len() {
            if let Rank::Same = compare(&self.entries[p].0, key) {
                proof {
                    lemma_count_at(self@, p as int);
                }
                return self.entries[p].1;
            }
        }
        proof {
            lemma_strict_total_order::<K>();
            assert forall|i: int| 0 <= i < self@.len() implies (#[trigger] self@[i]).0 != *key by {
                if i > p {
                    assert(precedes(self@[p as int].0, self@[i].0));
                }
            }
            lemma_count_absent(self@, *key);
        }
        0
    }

    /// Whether `key` was recorded at all.
    pub fn contains_key(&self, key: &K) -> (b: bool)
        requires
            lawful::<K>(),
            self.wf(),
        ensures
            b == (count_of(self@, *key) > 0),
    {
        self.count(key) > 0
    }

    /// Records one more occurrence of `key`.
    pub fn record(&mut self, key: K)
        requires
            lawful::<K>(),
            old(self).wf(),
            old(self).total_spec() < usize::MAX,
        ensures
            final(self).wf(),
            final(self).total_spec() == old(self).total_spec() + 1,
            count_of(final(self)@, key) == count_of(old(self)@, key) + 1,
            forall|other: K| other != key ==> count_of(final(self)@, other) == count_of(old(self)@, other),
    {
        let p: usize = self.locate(&key);
        let ghost before = self@;
        let mut found: bool = false;
        if p < self.entries.len() {
            if let Rank::Same = compare(&self.entries[p].0, &key) {
                found = true;
            }
        }
        if found {
            let held: usize = self.entries[p].1;
            proof {
                lemma_mass_bounds_entry(before, p as int);
            }
            self.entries.set(p, (key, held + 1));
            proof {
                let after = self@;
                let left = before.take(p as int);
                let right = before.skip(p + 1);
                assert(before =~= left + seq![before[p as int]] + right);
                assert(after =~= left + seq![after[p as int]] + right);
                lemma_mass_concat(left + seq![before[p as int]], right);
                lemma_mass_concat(left, seq![before[p as int]]);
                lemma_mass_single(before[p as int]);
                lemma_mass_concat(left + seq![after[p as int]], right);
                lemma_mass_concat(left, seq![after[p as int]]);
                lemma_mass_single(after[p as int]);
                assert forall|other: K| true implies #[trigger] count_of(after, other) == count_of(
                    before,
                    other,
                ) + if other == key { 1nat } else { 0nat } by {
                    lemma_count_concat(left + seq![before[p as int]], right, other);
                    lemma_count_concat(left, seq![before[p as int]], other);
                    lemma_count_single(before[p as int], other);
                    lemma_count_concat(left + seq![after[p as int]], right, other);
                    lemma_count_concat(left, seq![after[p as int]], other);
                    lemma_count_single(after[p as int], other);
                }
                assert forall|i: int, j: int| 0 <= i < j < after.len() implies precedes(
                    #[trigger] after[i].0,
                    #[trigger] after[j].0,
                ) by {
                    assert(after[i].0 == before[i].0);
                    assert(after[j].0 == before[j].0);
                }
                assert forall|i: int| 0 <= i < after.len() implies (#[trigger] after[i]).1 > 0 by {
                    if i != p {
                        assert(after[i] == before[i]);
                    }
                }
            }
        } else {
            self.entries.insert(p, (key, 1));
            proof {
                lemma_strict_total_order::<K>();
                let after = self@;
                let left = before.take(p as int);
                let right = before.skip(p as int);
                let fresh = (key, 1usize);
                assert(before =~= left + right);
                assert(after =~= left + seq![fresh] + right);
                lemma_mass_concat(left, right);
                lemma_mass_concat(left + seq![fresh], right);
                lemma_mass_concat(left, seq![fresh]);
                lemma_mass_single(fresh);
                assert forall|other: K| true implies #[trigger] count_of(after, other) == count_of(
                    before,
                    other,
                ) + if other == key { 1nat } else { 0nat } by {
                    lemma_count_concat(left, right, other);
                    lemma_count_concat(left + seq![fresh], right, other);
                    lemma_count_concat(left, seq![fresh], other);
                    lemma_count_single(fresh, other);
                }
                assert forall|i: int, j: int| 0 <= i < j < after.len() implies precedes(
                    #[trigger] after[i].0,
                    #[trigger] after[j].0,
                ) by {
                    if j < p {
                        assert(after[i] == before[i] && after[j] == before[j]);
                    } else if j == p {
                        assert(after[i] == before[i]);
                    } else if i < p {
                        assert(after[i] == before[i] && after[j] == before[j - 1]);
                    } else if i == p {
                        assert(after[j] == before[j - 1]);
                        assert(!precedes(before[j - 1].0, key));
                        if p < before.len() {
                            assert(!precedes(before[p as int].0, key));
                            assert(before[p as int].0 != key);
                            if j - 1 > p {
                                assert(precedes(before[p as int].0, before[j - 1].0));
                            }
                        }
                    } else {
                        assert(after[i] == before[i - 1] && after[j] == before[j - 1]);
                    }
                }
                assert forall|i: int| 0 <= i < after.len() implies (#[trigger] after[i]).1 > 0 by {
                    if i < p {
                        assert(after[i] == before[i]);
                    } else if i > p {
                        assert(after[i] == before[i - 1]);
                    }
                }
            }
        }
        self.total = self.total + 1;
    }

    /// The key that the number `r` selects: entries are visited from the
    /// smallest key upwards, and the first one at which the running sum of the
    /// counts exceeds `r` is taken. A number that the sum never exceeds
    /// selects the last key.
    pub fn pick(&self, r: usize) -> (key: K)
        requires
            lawful::<K>(),
            self.wf(),
            self@.len() > 0,
        ensures
            key == chosen(self@, r as nat),
            count_of(self@, key) > 0,
            r < self.total_spec() ==> mass(self@.take(landing(self@, r as nat))) <= r < mass(
                self@.take(landing(self@, r as nat) + 1),
            ),
    {
        let n: usize = self.entries.len();
        let mut i: usize = 0;
        let mut below: usize = 0;
        while i + 1 < n
            invariant
                self.wf(),
                n == self@.len(),
                i < n,
                below == mass(self@.take(i as int)),
                below <= r,
            ensures
                i < n,
                mass(self@.take(i as int)) <= r,
                i == n - 1 || r < mass(self@.take(i + 1)),
            decreases n - i,
        {
            let share: usize = self.entries[i].1;
            proof {
                lemma_mass_step(self@, i as int);
                lemma_mass_prefix(self@, i + 1, n as int);
            }
            if r < below + share {
                break;
            }
            below = below + share;
            i = i + 1;
        }
        proof {
            lemma_landing_at(self@, r as nat, i as int);
            lemma_count_at(self@, i as int);
            if r < self.total_spec() {
                lemma_landing_brackets(self@, r as nat);
            }
        }
        duplicate(&self.entries[i].0)
    }
}

/// Two well-formed sequences of entries that give every key the same count
/// are the same sequence.
pub proof fn lemma_counts_fix_entries<K: Ord + Clone>(a: Seq<(K, usize)>, b: Seq<(K, usize)>)
    requires
        lawful::<K>(),
        ascending(a),
        positive(a),
        ascending(b),
        positive(b),
        forall|key: K| count_of(a, key) == count_of(b, key),
    ensures
        a == b,
    decreases a.len(),
{
    lemma_strict_total_order::<K>();
    if a.len() == 0 {
        if b.len() > 0 {
            lemma_count_at(b, 0);
            lemma_count_absent(a, b[0].0);
        }
        assert(a =~= b);
    } else if b.len() == 0 {
        lemma_count_at(a, 0);
        lemma_count_absent(b, a[0].0);
    } else {
        // The largest keys agree, and so do their counts.
        let la = a.len() - 1;
        let lb = b.len() - 1;
        lemma_count_at(a, la);
        lemma_count_at(b, lb);
        assert(count_of(b, a[la].0) > 0);
        let ib = lemma_count_witness(b, a[la].0);
        assert(count_of(a, b[lb].0) > 0);
        let ia = lemma_count_witness(a, b[lb].0);
        if ib < lb {
            assert(precedes(b[ib].0, b[lb].0));
        }
        if ia < la {
            assert(precedes(a[ia].0, a[la].0));
        }
        assert(a[la].0 == b[lb].0);
        assert(a[la] == b[lb]);
        let fa = a.drop_last();
        let fb = b.drop_last();
        assert forall|key: K| count_of(fa, key) == count_of(fb, key) by {
            assert(count_of(a, key) == count_of(b, key));
        }
        assert(ascending(fa)) by {
            assert forall|i: int, j: int| 0 <= i < j < fa.len() implies precedes(
                #[trigger] fa[i].0,
                #[trigger] fa[j].0,
            ) by {
                assert(fa[i] == a[i] && fa[j] == a[j]);
            }
        }
        assert(ascending(fb)) by {
            assert forall|i: int, j: int| 0 <= i < j < fb.len() implies precedes(
                #[trigger] fb[i].0,
                #[trigger] fb[j].0,
            ) by {
                assert(fb[i] == b[i] && fb[j] == b[j]);
            }
        }
        assert(positive(fa)) by {
            assert forall|i: int| 0 <= i < fa.len() implies (#[trigger] fa[i]).1 > 0 by {
                assert(fa[i] == a[i]);
            }
        }
        assert(positive(fb)) by {
            assert forall|i: int| 0 <= i < fb.len() implies (#[trigger] fb[i]).1 > 0 by {
                assert(fb[i] == b[i]);
            }
        }
        lemma_counts_fix_entries(fa, fb);
        assert(a =~= fa.push(a[la]));
        assert(b =~= fb.push(b[lb]));
    }
}

} // verus!
