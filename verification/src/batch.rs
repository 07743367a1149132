use vstd::prelude::*;
use rayon::iter::{IndexedParallelIterator, IntoParallelRefIterator, ParallelIterator};
use crate::comparator::LoCoHD;
use crate::error::LoCoHDError;
use crate::laws::{
    composition_within, covers, lemma_sweep_is_step_function, step_function_of,
};
use crate::rearrangement::{
    anchored, lemma_sorting_keeps_compositions, lemma_sorting_keeps_neighbours,
    lemma_sorting_keeps_validity,
};
use crate::sorting::{sort_together, sorted_by_distance};
use crate::sweep::{environment, outcome, profile, sweep, Environment, Step, StepView};
use crate::validity::{all_known, lemma_sweep_succeeds_iff_valid};

verus! {

/// The sweep of two environments whose neighbours stand in any order: each
/// is ordered by distance first.
pub open spec fn row_sweep(names: Seq<Seq<char>>, a: Environment, b: Environment) -> Result<
    Seq<StepView>,
    LoCoHDError,
> {
    if a.labels.len() != a.dists.len() || b.labels.len() != b.dists.len() {
        Err(LoCoHDError::InputMismatch)
    } else {
        sweep(names, sorted_by_distance(a), sorted_by_distance(b))
    }
}

/// Two environments, in any order, that a sweep accepts once they are
/// ordered: each pairs its labels with its ranks, has no neighbour at a
/// negative rank and one at rank zero, and the catalog holds all its labels.
pub open spec fn row_valid(names: Seq<Seq<char>>, a: Environment, b: Environment) -> bool {
    &&& a.labels.len() == a.dists.len()
    &&& b.labels.len() == b.dists.len()
    &&& anchored(a)
    &&& anchored(b)
    &&& all_known(names, a)
    &&& all_known(names, b)
}

/// A sweep of unordered environments succeeds on the valid pairs and on no
/// others.
pub proof fn lemma_row_sweep_succeeds_iff_valid(
    names: Seq<Seq<char>>,
    a: Environment,
    b: Environment,
)
    requires
        a.dists.len() <= usize::MAX,
        b.dists.len() <= usize::MAX,
    ensures
        row_sweep(names, a, b) is Ok <==> row_valid(names, a, b),
{
    if a.labels.len() == a.dists.len() && b.labels.len() == b.dists.len() {
        lemma_sorting_keeps_neighbours(a);
        lemma_sorting_keeps_neighbours(b);
        lemma_sorting_keeps_validity(names, a);
        lemma_sorting_keeps_validity(names, b);
        lemma_sweep_succeeds_iff_valid(names, sorted_by_distance(a), sorted_by_distance(b));
    }
}

/// Where a sweep of unordered environments succeeds, its pieces are the
/// step function of the compositions of the environments as they were
/// given: at every radius, each side's histogram counts the neighbours
/// within it.
pub proof fn lemma_row_sweep_is_step_function(
    names: Seq<Seq<char>>,
    a: Environment,
    b: Environment,
)
    requires
        a.dists.len() <= usize::MAX,
        b.dists.len() <= usize::MAX,
        row_sweep(names, a, b) is Ok,
    ensures
        step_function_of(names, a, b, row_sweep(names, a, b)->Ok_0),
{
    let sorted_a = sorted_by_distance(a);
    let sorted_b = sorted_by_distance(b);
    let steps = row_sweep(names, a, b)->Ok_0;
    lemma_sorting_keeps_neighbours(a);
    lemma_sorting_keeps_neighbours(b);
    lemma_sweep_is_step_function(names, sorted_a, sorted_b);
    assert forall|k: int, r: int| 0 <= k < steps.len() && #[trigger] covers(steps[k], r) implies {
        &&& steps[k].counts_a == composition_within(names, a, r)
        &&& steps[k].counts_b == composition_within(names, b, r)
    } by {
        lemma_sorting_keeps_compositions(names, a, r);
        lemma_sorting_keeps_compositions(names, b, r);
    }
}

/// The sweep of row `i` of one matrix against row `i` of the other.
pub open spec fn matrix_row_sweep(
    names: Seq<Seq<char>>,
    labels_a: Vec<String>,
    labels_b: Vec<String>,
    dmx_a: Vec<Vec<i64>>,
    dmx_b: Vec<Vec<i64>>,
    i: int,
) -> Result<Seq<StepView>, LoCoHDError> {
    row_sweep(names, environment(labels_a, dmx_a[i]), environment(labels_b, dmx_b[i]))
}

/// Row `i` of one matrix and row `i` of the other are valid environments.
pub open spec fn matrix_row_valid(
    names: Seq<Seq<char>>,
    labels_a: Vec<String>,
    labels_b: Vec<String>,
    dmx_a: Vec<Vec<i64>>,
    dmx_b: Vec<Vec<i64>>,
    i: int,
) -> bool {
    row_valid(names, environment(labels_a, dmx_a[i]), environment(labels_b, dmx_b[i]))
}

impl LoCoHD {
    /// Orders each environment by distance and sweeps the two. Succeeds
    /// exactly on valid environments, whatever their order.
    pub fn from_row(
        &self,
        labels_a: &Vec<String>,
        row_a: &Vec<i64>,
        labels_b: &Vec<String>,
        row_b: &Vec<i64>,
    ) -> (r: Result<Vec<Step>, LoCoHDError>)
        ensures
            outcome(r) == row_sweep(
                self.names(),
                environment(*labels_a, *row_a),
                environment(*labels_b, *row_b),
            ),
            r is Ok <==> row_valid(
                self.names(),
                environment(*labels_a, *row_a),
                environment(*labels_b, *row_b),
            ),
            r is Ok ==> step_function_of(
                self.names(),
                environment(*labels_a, *row_a),
                environment(*labels_b, *row_b),
                profile(r->Ok_0@),
            ),
    {
        proof {
            let a = environment(*labels_a, *row_a);
            let b = environment(*labels_b, *row_b);
            assert(a.dists.len() == row_a.len());
            assert(b.dists.len() == row_b.len());
            lemma_row_sweep_succeeds_iff_valid(self.names(), a, b);
            if row_sweep(self.names(), a, b) is Ok {
                lemma_row_sweep_is_step_function(self.names(), a, b);
            }
        }
        if labels_a.len() != row_a.len() || labels_b.len() != row_b.len() {
            return Err(LoCoHDError::InputMismatch);
        }
        let (dists_a, sorted_a) = sort_together(row_a, labels_a);
        let (dists_b, sorted_b) = sort_together(row_b, labels_b);
        self.from_anchors(sorted_a, dists_a, sorted_b, dists_b)
    }

    /// Hands the rows to rayon: `par_iter`, `zip`, `map` and `collect` of
    /// its parallel iterators. Trusted: the vector that comes back holds, at
    /// each position, what `from_row` returns for the two rows at that
    /// position.
    #[verifier::external_body]
    fn rows_in_parallel(
        &self,
        labels_a: &Vec<String>,
        labels_b: &Vec<String>,
        dmx_a: &Vec<Vec<i64>>,
        dmx_b: &Vec<Vec<i64>>,
    ) -> (out: Vec<Result<Vec<Step>, LoCoHDError>>)
        requires
            dmx_a.len() == dmx_b.len(),
        ensures
            out.len() == dmx_a.len(),
            forall|i: int|
                0 <= i < out.len() ==> outcome(#[trigger] out[i]) == matrix_row_sweep(
                    self.names(),
                    *labels_a,
                    *labels_b,
                    *dmx_a,
                    *dmx_b,
                    i,
                ),
    {
        dmx_a.par_iter().zip(dmx_b.par_iter()).map(
            |(row_a, row_b)| self.from_row(labels_a, row_a, labels_b, row_b),
        ).collect()
    }

    /// Compares two structures anchor by anchor: row `i` of each matrix
    /// holds the distance ranks from anchor `i` to every labelled point of
    /// its structure, in the order of the labels. The rows are independent
    /// and are swept in parallel.
    ///
    /// Succeeds exactly where the matrices have the same number of rows and
    /// every pair of rows is valid. Refused with `DimensionMismatch` where
    /// the matrices differ in their number of rows; otherwise with the
    /// refusal of the first row that is refused, if any is.
    pub fn from_dmxs(
        &self,
        labels_a: Vec<String>,
        labels_b: Vec<String>,
        dmx_a: Vec<Vec<i64>>,
        dmx_b: Vec<Vec<i64>>,
    ) -> (r: Result<Vec<Vec<Step>>, LoCoHDError>)
        ensures
            r is Ok <==> dmx_a.len() == dmx_b.len() && forall|i: int|
                0 <= i < dmx_a.len() ==> #[trigger] matrix_row_valid(
                    self.names(),
                    labels_a,
                    labels_b,
                    dmx_a,
                    dmx_b,
                    i,
                ),
            dmx_a.len() != dmx_b.len() ==> r == Err::<Vec<Vec<Step>>, LoCoHDError>(
                LoCoHDError::DimensionMismatch,
            ),
            dmx_a.len() == dmx_b.len() ==> match r {
                Ok(rows) => rows.len() == dmx_a.len() && forall|i: int|
                    0 <= i < rows.len() ==> matrix_row_sweep(
                        self.names(),
                        labels_a,
                        labels_b,
                        dmx_a,
                        dmx_b,
                        i,
                    ) == Ok::<Seq<StepView>, LoCoHDError>(profile((#[trigger] rows[i])@)),
                Err(e) => exists|i: int|
                    0 <= i < dmx_a.len() && #[trigger] matrix_row_sweep(
                        self.names(),
                        labels_a,
                        labels_b,
                        dmx_a,
                        dmx_b,
                        i,
                    ) == Err::<Seq<StepView>, LoCoHDError>(e) && forall|j: int|
                        0 <= j < i ==> (#[trigger] matrix_row_sweep(
                            self.names(),
                            labels_a,
                            labels_b,
                            dmx_a,
                            dmx_b,
                            j,
                        )) is Ok,
            },
    {
        if dmx_a.len() != dmx_b.len() {
            return Err(LoCoHDError::DimensionMismatch);
        }
        proof {
            assert forall|i: int| 0 <= i < dmx_a.len() implies (matrix_row_sweep(
                self.names(),
                labels_a,
                labels_b,
                dmx_a,
                dmx_b,
                i,
            ) is Ok <==> #[trigger] matrix_row_valid(
                self.names(),
                labels_a,
                labels_b,
                dmx_a,
                dmx_b,
                i,
            )) by {
                assert(dmx_a[i]@.len() == dmx_a[i].len());
                assert(dmx_b[i]@.len() == dmx_b[i].len());
                lemma_row_sweep_succeeds_iff_valid(
                    self.names(),
                    environment(labels_a, dmx_a[i]),
                    environment(labels_b, dmx_b[i]),
                );
            }
        }
        let out = self.rows_in_parallel(&labels_a, &labels_b, &dmx_a, &dmx_b);
        let ghost results = out@;
        let mut rows: Vec<Vec<Step>> = Vec::with_capacity(out.len());
        for item in it: out
            invariant
                it.seq() == results,
                results.len() == dmx_a.len(),
                dmx_a.len() == dmx_b.len(),
                forall|i: int|
                    0 <= i < dmx_a.len() ==> (matrix_row_sweep(
                        self.names(),
                        labels_a,
                        labels_b,
                        dmx_a,
                        dmx_b,
                        i,
                    ) is Ok <==> #[trigger] matrix_row_valid(
                        self.names(),
                        labels_a,
                        labels_b,
                        dmx_a,
                        dmx_b,
                        i,
                    )),
                forall|i: int|
                    #![trigger results[i]]
                    #![trigger matrix_row_sweep(self.names(), labels_a, labels_b, dmx_a, dmx_b, i)]
                    0 <= i < results.len() ==> outcome(results[i]) == matrix_row_sweep(
                        self.names(),
                        labels_a,
                        labels_b,
                        dmx_a,
                        dmx_b,
                        i,
                    ),
                rows.len() == it.index(),
                forall|i: int|
                    #![trigger rows[i]]
                    #![trigger results[i]]
                    0 <= i < rows.len() ==> results[i] == Ok::<Vec<Step>, LoCoHDError>(rows[i]),
        {
            assert(item == results[it.index()]);
            match item {
                Ok(steps) => {
                    rows.push(steps);
                },
                Err(e) => {
                    assert(matrix_row_sweep(
                        self.names(),
                        labels_a,
                        labels_b,
                        dmx_a,
                        dmx_b,
                        it.index(),
                    ) == Err::<Seq<StepView>, LoCoHDError>(e));
                    assert(!matrix_row_valid(
                        self.names(),
                        labels_a,
                        labels_b,
                        dmx_a,
                        dmx_b,
                        it.index(),
                    ));
                    return Err(e);
                },
            }
        }
        Ok(rows)
    }
}

} // verus!
