use vstd::prelude::*;
use crate::catalog::CategoryCatalog;
use crate::error::LoCoHDError;
use crate::laws::{lemma_sweep_is_step_function, step_function_of};
use crate::range::{check_range, UpperBound};
use crate::sweep::{
    at_end, crosses, environment, next_rank, outcome, piece, prepend, profile, refusal, sweep,
    sweep_from, well_formed, Step, StepView,
};
use crate::tracker::{histogram, zeros, PairedDistributionTracker};
use crate::validity::{lemma_sweep_succeeds_iff_valid, valid};

verus! {

/// Compares the environments of two anchors over a fixed catalog of
/// categories.
pub struct LoCoHD {
    catalog: CategoryCatalog,
}

impl LoCoHD {
    /// The category names, in catalog order.
    pub closed spec fn names(&self) -> Seq<Seq<char>> {
        self.catalog.names()
    }

    /// A comparator over the given categories.
    pub fn new(categories: Vec<String>) -> (comparator: Self)
        ensures
            comparator.names() == categories.deep_view(),
    {
        LoCoHD { catalog: CategoryCatalog::new(categories) }
    }

    /// The categories as they were given.
    pub fn categories(&self) -> (categories: &Vec<String>)
        ensures
            categories.deep_view() == self.names(),
    {
        self.catalog.categories()
    }

    /// Replaces the categories.
    pub fn set_categories(&mut self, categories: Vec<String>)
        ensures
            final(self).names() == categories.deep_view(),
    {
        self.catalog = CategoryCatalog::new(categories);
    }

    /// Sweeps the two environments by growing radius and returns the pieces
    /// on which both compositions are constant, nearest first, the last one
    /// unbounded.
    ///
    /// Each environment lists its neighbours with the anchor first, at rank
    /// zero, and succeeds exactly on valid environments. Refused with
    /// `InputMismatch` where labels and ranks differ in length or an
    /// environment does not start at rank zero, with `InvalidCategory` at the
    /// first neighbour whose label the catalog does not hold, and with
    /// `InvalidRange` at the first neighbour that lies nearer than the one
    /// crossed before it.
    pub fn from_anchors(
        &self,
        labels_a: Vec<String>,
        dists_a: Vec<i64>,
        labels_b: Vec<String>,
        dists_b: Vec<i64>,
    ) -> (r: Result<Vec<Step>, LoCoHDError>)
        ensures
            outcome(r) == sweep(
                self.names(),
                environment(labels_a, dists_a),
                environment(labels_b, dists_b),
            ),
            r is Ok <==> valid(
                self.names(),
                environment(labels_a, dists_a),
                environment(labels_b, dists_b),
            ),
            r is Ok ==> step_function_of(
                self.names(),
                environment(labels_a, dists_a),
                environment(labels_b, dists_b),
                profile(r->Ok_0@),
            ),
    {
        let ghost names = self.names();
        let ghost a = environment(labels_a, dists_a);
        let ghost b = environment(labels_b, dists_b);
        let ghost expected = sweep(names, a, b);
        proof {
            lemma_sweep_succeeds_iff_valid(names, a, b);
            if expected is Ok {
                lemma_sweep_is_step_function(names, a, b);
            }
        }
        if labels_a.len() != dists_a.len() || labels_b.len() != dists_b.len() {
            return Err(LoCoHDError::InputMismatch);
        }
        if dists_a.len() == 0 || dists_b.len() == 0 {
            return Err(LoCoHDError::InputMismatch);
        }
        if dists_a[0] != 0 || dists_b[0] != 0 {
            return Err(LoCoHDError::InputMismatch);
        }
        assert(well_formed(a, b));
        let last_a: usize = dists_a.len() - 1;
        let last_b: usize = dists_b.len() - 1;

        let mut tracker = PairedDistributionTracker::new(&self.catalog);
        proof {
            assert(a.labels.take(1).drop_last() =~= a.labels.take(0));
            assert(b.labels.take(1).drop_last() =~= b.labels.take(0));
            assert(a.labels.take(1).last() == labels_a[0]@);
            assert(b.labels.take(1).last() == labels_b[0]@);
            assert(histogram(names, a.labels.take(0)) == zeros(names.len()));
            assert(histogram(names, b.labels.take(0)) == zeros(names.len()));
        }
        tracker.add_to_a(labels_a[0].as_str())?;
        tracker.add_to_b(labels_b[0].as_str())?;
        let mut ia: usize = 0;
        let mut ib: usize = 0;
        let mut prev: i64 = 0;
        let mut steps: Vec<Step> = Vec::new();
        assert(profile(steps@) + sweep_from(names, a, 0, b, 0, 0)->Ok_0 =~= sweep_from(
            names,
            a,
            0,
            b,
            0,
            0,
        )->Ok_0);

        while ia < last_a || ib < last_b
            invariant
                names == self.names(),
                a == environment(labels_a, dists_a),
                b == environment(labels_b, dists_b),
                expected == sweep(names, a, b),
                expected is Ok <==> valid(names, a, b),
                expected is Ok ==> step_function_of(names, a, b, expected->Ok_0),
                well_formed(a, b),
                last_a == dists_a.len() - 1,
                last_b == dists_b.len() - 1,
                ia <= last_a,
                ib <= last_b,
                0 <= prev,
                tracker.wf(),
                tracker.names() == names,
                tracker.counts_a() == histogram(names, a.labels.take(ia + 1)),
                tracker.counts_b() == histogram(names, b.labels.take(ib + 1)),
                tracker.total_a() == ia + 1,
                tracker.total_b() == ib + 1,
                sweep(names, a, b) == prepend(
                    profile(steps@),
                    sweep_from(names, a, ia as int, b, ib as int, prev),
                ),
            decreases (last_a - ia) + (last_b - ib),
        {
            let ghost here = sweep_from(names, a, ia as int, b, ib as int, prev);
            let ghost done = profile(steps@);
            let (counts_a, counts_b) = tracker.distributions()?;
            let merging: bool = ia < last_a && ib < last_b;
            let cross_a: bool = ia < last_a && (ib >= last_b || dists_a[ia + 1] <= dists_b[ib + 1]);
            let cross_b: bool = ib < last_b && (ia >= last_a || dists_b[ib + 1] <= dists_a[ia + 1]);
            let next: i64 = if cross_a {
                dists_a[ia + 1]
            } else {
                dists_b[ib + 1]
            };
            assert(cross_a == crosses(a, ia as int, b, ib as int));
            assert(cross_b == crosses(b, ib as int, a, ia as int));
            assert(next == next_rank(a, ia as int, b, ib as int));
            assert(merging == (!at_end(a, ia as int) && !at_end(b, ib as int)));
            proof {
                if cross_a {
                    assert(a.labels.take(ia + 2).drop_last() =~= a.labels.take(ia + 1));
                    assert(a.labels[ia + 1] == labels_a[ia + 1]@);
                }
                if cross_b {
                    assert(b.labels.take(ib + 2).drop_last() =~= b.labels.take(ib + 1));
                    assert(b.labels[ib + 1] == labels_b[ib + 1]@);
                }
            }
            if !merging {
                check_range(prev, UpperBound::At(next))?;
            }
            if cross_a {
                tracker.add_to_a(labels_a[ia + 1].as_str())?;
            }
            if cross_b {
                tracker.add_to_b(labels_b[ib + 1].as_str())?;
            }
            if merging {
                check_range(prev, UpperBound::At(next))?;
            }
            assert(refusal(names, a, ia as int, b, ib as int, prev) is None);
            let step = Step { lo: prev, hi: UpperBound::At(next), counts_a, counts_b };
            assert(step@ == piece(names, a, ia as int, b, ib as int, prev, UpperBound::At(next)));
            steps.push(step);
            if cross_a {
                ia += 1;
            }
            if cross_b {
                ib += 1;
            }
            prev = next;
            proof {
                let there = sweep_from(names, a, ia as int, b, ib as int, prev);
                assert(profile(steps@) =~= done.push(step@));
                match there {
                    Ok(rest) => {
                        assert(here == Ok::<Seq<StepView>, LoCoHDError>(seq![step@] + rest));
                        assert(done + (seq![step@] + rest) =~= done.push(step@) + rest);
                    },
                    Err(e) => {},
                }
            }
        }
        let ghost done = profile(steps@);
        let (counts_a, counts_b) = tracker.distributions()?;
        let step = Step { lo: prev, hi: UpperBound::Unbounded, counts_a, counts_b };
        steps.push(step);
        proof {
            assert(step@ == piece(names, a, ia as int, b, ib as int, prev, UpperBound::Unbounded));
            assert(profile(steps@) =~= done + seq![step@]);
        }
        Ok(steps)
    }
}

} // verus!
