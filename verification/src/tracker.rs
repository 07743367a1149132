use vstd::prelude::*;
use vstd::seq_lib::lemma_fold_left_permutation;
use crate::catalog::{first_index, lemma_first_index, CategoryCatalog};
use crate::error::LoCoHDError;

verus! {

/// Machine counts read as natural numbers.
pub open spec fn as_nats(counts: Seq<usize>) -> Seq<nat> {
    Seq::new(counts.len(), |i: int| counts[i] as nat)
}

/// A histogram with nothing counted, over `n` categories.
pub open spec fn zeros(n: nat) -> Seq<nat> {
    Seq::new(n, |i: int| 0nat)
}

/// Number of observations that a histogram holds.
pub open spec fn sum(counts: Seq<nat>) -> nat
    decreases counts.len(),
{
    if counts.len() == 0 {
        0
    } else {
        sum(counts.drop_last()) + counts.last()
    }
}

/// The histogram after one more observation of category `k`.
pub open spec fn bump(counts: Seq<nat>, k: int) -> Seq<nat> {
    counts.update(k, counts[k] + 1)
}

/// The histogram of the labels over the catalog's names: position `c` counts
/// the labels whose category is `c`. A label that the names do not hold is
/// counted nowhere.
pub open spec fn histogram(names: Seq<Seq<char>>, labels: Seq<Seq<char>>) -> Seq<nat>
    decreases labels.len(),
{
    if labels.len() == 0 {
        zeros(names.len())
    } else {
        let before = histogram(names, labels.drop_last());
        match first_index(names, labels.last()) {
            Some(k) => bump(before, k),
            None => before,
        }
    }
}

/// An empty histogram holds no observation.
pub proof fn lemma_sum_zeros(n: nat)
    ensures
        sum(zeros(n)) == 0,
    decreases n,
{
    if n > 0 {
        assert(zeros(n).drop_last() =~= zeros((n - 1) as nat));
        lemma_sum_zeros((n - 1) as nat);
    }
}

/// One more observation raises the sum by one.
pub proof fn lemma_sum_bump(counts: Seq<nat>, k: int)
    requires
        0 <= k < counts.len(),
    ensures
        sum(bump(counts, k)) == sum(counts) + 1,
    decreases counts.len(),
{
    let raised = bump(counts, k);
    if k == counts.len() - 1 {
        assert(raised.drop_last() =~= counts.drop_last());
    } else {
        lemma_sum_bump(counts.drop_last(), k);
        assert(raised.drop_last() =~= bump(counts.drop_last(), k));
    }
}

/// No category counts more than the whole histogram.
pub proof fn lemma_count_within_sum(counts: Seq<nat>, k: int)
    requires
        0 <= k < counts.len(),
    ensures
        counts[k] <= sum(counts),
    decreases counts.len(),
{
    if k < counts.len() - 1 {
        lemma_count_within_sum(counts.drop_last(), k);
    }
}

/// A histogram has one position for each name and holds one observation
/// for each label that the names hold.
pub proof fn lemma_histogram_shape(names: Seq<Seq<char>>, labels: Seq<Seq<char>>)
    ensures
        histogram(names, labels).len() == names.len(),
        sum(histogram(names, labels)) <= labels.len(),
        (forall|i: int| 0 <= i < labels.len() ==> first_index(names, #[trigger] labels[i]) is Some)
            ==> sum(histogram(names, labels)) == labels.len(),
    decreases labels.len(),
{
    if labels.len() == 0 {
        lemma_sum_zeros(names.len());
    } else {
        let init = labels.drop_last();
        lemma_histogram_shape(names, init);
        lemma_first_index(names, labels.last());
        assert(forall|i: int| 0 <= i < init.len() ==> init[i] == labels[i]);
        match first_index(names, labels.last()) {
            Some(k) => {
                lemma_sum_bump(histogram(names, init), k);
            },
            None => {
                assert(first_index(names, labels[labels.len() - 1]) is None);
            },
        }
    }
}

/// Counts one label into a histogram over the names.
spec fn count_label(names: Seq<Seq<char>>) -> spec_fn(Seq<nat>, Seq<char>) -> Seq<nat> {
    |h: Seq<nat>, label: Seq<char>|
        match first_index(names, label) {
            Some(k) => if 0 <= k < h.len() {
                bump(h, k)
            } else {
                h
            },
            None => h,
        }
}

proof fn lemma_histogram_is_fold(names: Seq<Seq<char>>, labels: Seq<Seq<char>>)
    ensures
        histogram(names, labels) == labels.fold_left(zeros(names.len()), count_label(names)),
    decreases labels.len(),
{
    if labels.len() > 0 {
        lemma_histogram_is_fold(names, labels.drop_last());
        lemma_histogram_shape(names, labels.drop_last());
        lemma_first_index(names, labels.last());
    }
}

/// A histogram depends on which labels were observed and how often, not on
/// the order in which they came.
pub proof fn lemma_histogram_ignores_order(
    names: Seq<Seq<char>>,
    labels: Seq<Seq<char>>,
    reordered: Seq<Seq<char>>,
)
    requires
        labels.to_multiset() == reordered.to_multiset(),
    ensures
        histogram(names, labels) == histogram(names, reordered),
{
    let f = count_label(names);
    assert forall|x: Seq<char>, y: Seq<char>, v: Seq<nat>| #[trigger]
        f(f(v, x), y) == f(f(v, y), x) by {
        assert(f(f(v, x), y) =~= f(f(v, y), x));
    }
    lemma_histogram_is_fold(names, labels);
    lemma_histogram_is_fold(names, reordered);
    lemma_fold_left_permutation(labels, reordered, f, zeros(names.len()));
}

/// Adds one observation of category `k` to a histogram and to its total.
fn raise(counts: &mut Vec<usize>, total: &mut usize, k: usize)
    requires
        k < old(counts).len(),
        sum(as_nats(old(counts)@)) == *old(total),
        *old(total) < usize::MAX,
    ensures
        as_nats(final(counts)@) == bump(as_nats(old(counts)@), k as int),
        sum(as_nats(final(counts)@)) == *final(total),
        *final(total) == *old(total) + 1,
{
    proof {
        lemma_count_within_sum(as_nats(counts@), k as int);
        lemma_sum_bump(as_nats(counts@), k as int);
    }
    let raised: usize = counts[k] + 1;
    counts.set(k, raised);
    *total = *total + 1;
    assert(as_nats(counts@) =~= bump(as_nats(old(counts)@), k as int));
}

/// A vector of `n` zero counts.
fn zero_counts(n: usize) -> (counts: Vec<usize>)
    ensures
        as_nats(counts@) == zeros(n as nat),
{
    let mut counts: Vec<usize> = Vec::new();
    let mut i: usize = 0;
    while i < n
        invariant
            i <= n,
            counts.len() == i,
            forall|j: int| 0 <= j < i ==> counts[j] == 0,
        decreases n - i,
    {
        counts.push(0);
        i += 1;
    }
    assert(as_nats(counts@) =~= zeros(n as nat));
    counts
}

/// Two running histograms over one catalog, one for each environment.
pub struct PairedDistributionTracker<'a> {
    catalog: &'a CategoryCatalog,
    counts_a: Vec<usize>,
    counts_b: Vec<usize>,
    total_a: usize,
    total_b: usize,
}

impl<'a> PairedDistributionTracker<'a> {
    /// The names over which both sides are counted.
    pub closed spec fn names(&self) -> Seq<Seq<char>> {
        self.catalog.names()
    }

    /// The histogram of the first side.
    pub closed spec fn counts_a(&self) -> Seq<nat> {
        as_nats(self.counts_a@)
    }

    /// The histogram of the second side.
    pub closed spec fn counts_b(&self) -> Seq<nat> {
        as_nats(self.counts_b@)
    }

    /// The running total of the first side.
    pub closed spec fn total_a(&self) -> nat {
        self.total_a as nat
    }

    /// The running total of the second side.
    pub closed spec fn total_b(&self) -> nat {
        self.total_b as nat
    }

    /// Each side has one count for each name, and each running total is the
    /// sum of its side's counts.
    pub open spec fn wf(&self) -> bool {
        &&& self.counts_a().len() == self.names().len()
        &&& self.counts_b().len() == self.names().len()
        &&& self.total_a() == sum(self.counts_a())
        &&& self.total_b() == sum(self.counts_b())
    }

    /// A tracker over the catalog with nothing observed on either side.
    pub fn new(catalog: &'a CategoryCatalog) -> (tracker: Self)
        ensures
            tracker.wf(),
            tracker.names() == catalog.names(),
            tracker.counts_a() == zeros(catalog.names().len()),
            tracker.counts_b() == zeros(catalog.names().len()),
            tracker.total_a() == 0,
            tracker.total_b() == 0,
    {
        let n: usize = catalog.len();
        proof {
            lemma_sum_zeros(n as nat);
        }
        PairedDistributionTracker {
            catalog,
            counts_a: zero_counts(n),
            counts_b: zero_counts(n),
            total_a: 0,
            total_b: 0,
        }
    }

    /// Counts one observation of `label` on the first side. A label that the
    /// catalog does not hold is refused and changes nothing.
    pub fn add_to_a(&mut self, label: &str) -> (r: Result<(), LoCoHDError>)
        requires
            old(self).wf(),
            old(self).total_a() < usize::MAX,
        ensures
            final(self).wf(),
            final(self).names() == old(self).names(),
            final(self).counts_b() == old(self).counts_b(),
            final(self).total_b() == old(self).total_b(),
            match first_index(old(self).names(), label@) {
                Some(k) => {
                    &&& r == Ok::<(), LoCoHDError>(())
                    &&& final(self).counts_a() == bump(old(self).counts_a(), k)
                    &&& final(self).total_a() == old(self).total_a() + 1
                },
                None => {
                    &&& r == Err::<(), LoCoHDError>(LoCoHDError::InvalidCategory)
                    &&& final(self).counts_a() == old(self).counts_a()
                    &&& final(self).total_a() == old(self).total_a()
                },
            },
    {
        proof {
            lemma_first_index(self.names(), label@);
        }
        match self.catalog.lookup(label) {
            Some(k) => {
                raise(&mut self.counts_a, &mut self.total_a, k);
                Ok(())
            },
            None => Err(LoCoHDError::InvalidCategory),
        }
    }

    /// Counts one observation of `label` on the second side. A label that
    /// the catalog does not hold is refused and changes nothing.
    pub fn add_to_b(&mut self, label: &str) -> (r: Result<(), LoCoHDError>)
        requires
            old(self).wf(),
            old(self).total_b() < usize::MAX,
        ensures
            final(self).wf(),
            final(self).names() == old(self).names(),
            final(self).counts_a() == old(self).counts_a(),
            final(self).total_a() == old(self).total_a(),
            match first_index(old(self).names(), label@) {
                Some(k) => {
                    &&& r == Ok::<(), LoCoHDError>(())
                    &&& final(self).counts_b() == bump(old(self).counts_b(), k)
                    &&& final(self).total_b() == old(self).total_b() + 1
                },
                None => {
                    &&& r == Err::<(), LoCoHDError>(LoCoHDError::InvalidCategory)
                    &&& final(self).counts_b() == old(self).counts_b()
                    &&& final(self).total_b() == old(self).total_b()
                },
            },
    {
        proof {
            lemma_first_index(self.names(), label@);
        }
        match self.catalog.lookup(label) {
            Some(k) => {
                raise(&mut self.counts_b, &mut self.total_b, k);
                Ok(())
            },
            None => Err(LoCoHDError::InvalidCategory),
        }
    }

    /// The two histograms as they stand, from which the distance between
    /// the two distributions is computed: category `i` has probability
    /// `counts[i] / sum(counts)` on its side. Refused while a side is empty.
    pub fn distributions(&self) -> (r: Result<(Vec<usize>, Vec<usize>), LoCoHDError>)
        requires
            self.wf(),
        ensures
            match r {
                Ok((a, b)) => sum(self.counts_a()) > 0 && sum(self.counts_b()) > 0 && as_nats(a@)
                    == self.counts_a() && as_nats(b@) == self.counts_b(),
                Err(e) => e == LoCoHDError::UninitializedDistribution && (sum(self.counts_a()) == 0
                    || sum(self.counts_b()) == 0),
            },
    {
        if self.total_a == 0 || self.total_b == 0 {
            return Err(LoCoHDError::UninitializedDistribution);
        }
        let counts_a = self.counts_a.clone();
        let counts_b = self.counts_b.clone();
        assert(counts_a@ =~= self.counts_a@);
        assert(counts_b@ =~= self.counts_b@);
        Ok((counts_a, counts_b))
    }
}

} // verus!
