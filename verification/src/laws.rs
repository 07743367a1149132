use vstd::prelude::*;
use crate::catalog::first_index;
use crate::error::LoCoHDError;
use crate::range::{valid_range, UpperBound};
use crate::sweep::{
    advance, at_end, next_rank, piece, refusal, remaining, sweep, sweep_from, Environment,
    StepView,
};
use crate::tracker::{histogram, lemma_histogram_shape, sum};

verus! {

/// The histograms of the two sides agree on every piece.
pub open spec fn balanced(steps: Seq<StepView>) -> bool {
    forall|k: int| 0 <= k < steps.len() ==> (#[trigger] steps[k]).counts_a == steps[k].counts_b
}

/// A piece with its two sides exchanged.
pub open spec fn mirrored(step: StepView) -> StepView {
    StepView { lo: step.lo, hi: step.hi, counts_a: step.counts_b, counts_b: step.counts_a }
}

/// The result of a sweep with the two sides exchanged on every piece.
pub open spec fn mirror(r: Result<Seq<StepView>, LoCoHDError>) -> Result<
    Seq<StepView>,
    LoCoHDError,
> {
    match r {
        Ok(steps) => Ok(Seq::new(steps.len(), |k: int| mirrored(steps[k]))),
        Err(e) => Err(e),
    }
}

proof fn lemma_balanced_from(names: Seq<Seq<char>>, e: Environment, i: int, prev: i64)
    ensures
        sweep_from(names, e, i, e, i, prev) is Ok ==> balanced(
            sweep_from(names, e, i, e, i, prev)->Ok_0,
        ),
    decreases remaining(e, i),
{
    if !at_end(e, i) && refusal(names, e, i, e, i, prev) is None {
        let next = next_rank(e, i, e, i);
        lemma_balanced_from(names, e, i + 1, next);
    }
}

/// An environment swept against itself has the same histogram on both
/// sides of every piece, so the two distributions never differ.
pub proof fn lemma_identical_environments_balance(names: Seq<Seq<char>>, e: Environment)
    ensures
        sweep(names, e, e) is Ok ==> balanced(sweep(names, e, e)->Ok_0),
{
    lemma_balanced_from(names, e, 0, 0);
}

proof fn lemma_symmetric_from(
    names: Seq<Seq<char>>,
    a: Environment,
    ia: int,
    b: Environment,
    ib: int,
    prev: i64,
)
    ensures
        sweep_from(names, b, ib, a, ia, prev) == mirror(sweep_from(names, a, ia, b, ib, prev)),
    decreases remaining(a, ia) + remaining(b, ib),
{
    let forth = sweep_from(names, a, ia, b, ib, prev);
    let back = sweep_from(names, b, ib, a, ia, prev);
    if at_end(a, ia) && at_end(b, ib) {
        assert(back->Ok_0 =~= mirror(forth)->Ok_0);
    } else {
        assert(next_rank(b, ib, a, ia) == next_rank(a, ia, b, ib));
        assert(refusal(names, b, ib, a, ia, prev) == refusal(names, a, ia, b, ib, prev));
        if refusal(names, a, ia, b, ib, prev) is None {
            let next = next_rank(a, ia, b, ib);
            let ja = advance(a, ia, b, ib);
            let jb = advance(b, ib, a, ia);
            lemma_symmetric_from(names, a, ja, b, jb, next);
            if sweep_from(names, a, ja, b, jb, next) is Ok {
                assert(back->Ok_0 =~= mirror(forth)->Ok_0);
            }
        }
    }
}

/// Exchanging the two environments exchanges the two sides of every piece
/// and changes nothing else: the same pieces, or the same refusal.
pub proof fn lemma_sweep_symmetric(names: Seq<Seq<char>>, a: Environment, b: Environment)
    ensures
        sweep(names, b, a) == mirror(sweep(names, a, b)),
{
    lemma_symmetric_from(names, a, 0, b, 0, 0);
}

/// Radius `r` lies on the piece.
pub open spec fn covers(step: StepView, r: int) -> bool {
    step.lo <= r && match step.hi {
        UpperBound::At(h) => r < h,
        UpperBound::Unbounded => true,
    }
}

/// The pieces follow one another without a gap from `start` on: each is a
/// valid range, each ends where the next one starts, and only the last one
/// is unbounded.
pub open spec fn contiguous(steps: Seq<StepView>, start: i64) -> bool {
    &&& steps.len() > 0
    &&& steps[0].lo == start
    &&& steps.last().hi == UpperBound::Unbounded
    &&& forall|k: int| 0 <= k < steps.len() ==> valid_range((#[trigger] steps[k]).lo, steps[k].hi)
    &&& forall|k: int|
        0 <= k < steps.len() - 1 ==> (#[trigger] steps[k]).hi == UpperBound::At(steps[k + 1].lo)
}

/// Radius `r` lies on one of the pieces.
pub open spec fn covered(steps: Seq<StepView>, r: int) -> bool {
    exists|k: int| 0 <= k < steps.len() && covers(steps[k], r)
}

/// Every radius from `start` on lies on exactly one piece.
pub open spec fn partitions(steps: Seq<StepView>, start: i64) -> bool {
    &&& forall|r: int| start <= r ==> #[trigger] covered(steps, r)
    &&& forall|j: int, k: int, r: int|
        0 <= j < steps.len() && 0 <= k < steps.len() && covers(steps[j], r) && covers(steps[k], r)
            ==> j == k
}

/// Both sides of every piece have one count for each name and hold at
/// least one observation, so that both distributions are defined on it.
pub open spec fn populated(names: Seq<Seq<char>>, steps: Seq<StepView>) -> bool {
    forall|k: int|
        0 <= k < steps.len() ==> {
            &&& (#[trigger] steps[k]).counts_a.len() == names.len()
            &&& steps[k].counts_b.len() == names.len()
            &&& sum(steps[k].counts_a) > 0
            &&& sum(steps[k].counts_b) > 0
        }
}

/// The catalog holds the label of every neighbour up to the cursor.
pub open spec fn known_up_to(names: Seq<Seq<char>>, e: Environment, i: int) -> bool {
    forall|j: int| 0 <= j <= i ==> first_index(names, #[trigger] e.labels[j]) is Some
}

proof fn lemma_known_prefix(names: Seq<Seq<char>>, e: Environment, i: int)
    requires
        0 <= i < e.labels.len(),
        known_up_to(names, e, i),
    ensures
        histogram(names, e.labels.take(i + 1)).len() == names.len(),
        sum(histogram(names, e.labels.take(i + 1))) == i + 1,
{
    let seen = e.labels.take(i + 1);
    assert forall|j: int| 0 <= j < seen.len() implies first_index(names, #[trigger] seen[j])
        is Some by {
        assert(seen[j] == e.labels[j]);
    }
    lemma_histogram_shape(names, seen);
}

proof fn lemma_regular_from(
    names: Seq<Seq<char>>,
    a: Environment,
    ia: int,
    b: Environment,
    ib: int,
    prev: i64,
)
    requires
        a.labels.len() == a.dists.len(),
        b.labels.len() == b.dists.len(),
        0 <= ia < a.dists.len(),
        0 <= ib < b.dists.len(),
        known_up_to(names, a, ia),
        known_up_to(names, b, ib),
        0 <= prev,
        sweep_from(names, a, ia, b, ib, prev) is Ok,
    ensures
        contiguous(sweep_from(names, a, ia, b, ib, prev)->Ok_0, prev),
        partitions(sweep_from(names, a, ia, b, ib, prev)->Ok_0, prev),
        populated(names, sweep_from(names, a, ia, b, ib, prev)->Ok_0),
    decreases remaining(a, ia) + remaining(b, ib),
{
    let steps = sweep_from(names, a, ia, b, ib, prev)->Ok_0;
    lemma_known_prefix(names, a, ia);
    lemma_known_prefix(names, b, ib);
    if at_end(a, ia) && at_end(b, ib) {
        assert forall|r: int| prev <= r implies #[trigger] covered(steps, r) by {
            assert(covers(steps[0], r));
        }
    } else {
        let next = next_rank(a, ia, b, ib);
        let ja = advance(a, ia, b, ib);
        let jb = advance(b, ib, a, ia);
        let rest = sweep_from(names, a, ja, b, jb, next)->Ok_0;
        let first = piece(names, a, ia, b, ib, prev, UpperBound::At(next));
        assert(refusal(names, a, ia, b, ib, prev) is None);
        assert(steps == seq![first] + rest);
        lemma_regular_from(names, a, ja, b, jb, next);
        assert(steps[0] == first);
        assert forall|k: int| 1 <= k < steps.len() implies #[trigger] steps[k] == rest[k - 1] by {}
        assert(steps.last() == rest.last());
        assert forall|k: int| 0 <= k < steps.len() - 1 implies (#[trigger] steps[k]).hi
            == UpperBound::At(steps[k + 1].lo) by {
            if k > 0 {
                assert(rest[k - 1].hi == UpperBound::At(rest[k].lo));
            }
        }
        assert forall|k: int| 1 <= k < steps.len() implies next <= (#[trigger] steps[k]).lo by {
            lemma_starts_later(rest, next, k - 1);
        }
        assert forall|r: int| prev <= r implies #[trigger] covered(steps, r) by {
            if r < next {
                assert(covers(steps[0], r));
            } else {
                assert(covered(rest, r));
                let k = choose|k: int| 0 <= k < rest.len() && covers(rest[k], r);
                assert(covers(steps[k + 1], r));
            }
        }
        assert forall|j: int, k: int, r: int|
            0 <= j < steps.len() && 0 <= k < steps.len() && covers(steps[j], r) && covers(
                steps[k],
                r,
            ) implies j == k by {
            if j > 0 && k > 0 {
                assert(covers(rest[j - 1], r) && covers(rest[k - 1], r));
            }
        }
    }
}

proof fn lemma_starts_later(steps: Seq<StepView>, start: i64, k: int)
    requires
        contiguous(steps, start),
        0 <= k < steps.len(),
    ensures
        start <= steps[k].lo,
    decreases k,
{
    if k > 0 {
        lemma_starts_later(steps, start, k - 1);
        assert(steps[k - 1].hi == UpperBound::At(steps[k].lo));
        assert(valid_range(steps[k - 1].lo, steps[k - 1].hi));
    }
}

/// Whatever the environments, the pieces of a sweep that succeeds start at
/// zero and follow one another without a gap, so that every radius from
/// zero on lies on exactly one of them; each piece is a range that can be
/// weighed, and both distributions are defined on it.
pub proof fn lemma_sweep_regular(names: Seq<Seq<char>>, a: Environment, b: Environment)
    requires
        sweep(names, a, b) is Ok,
    ensures
        contiguous(sweep(names, a, b)->Ok_0, 0),
        partitions(sweep(names, a, b)->Ok_0, 0),
        populated(names, sweep(names, a, b)->Ok_0),
{
    lemma_regular_from(names, a, 0, b, 0, 0);
}

/// The ranks never fall from one neighbour to the next.
pub open spec fn ascending(dists: Seq<i64>) -> bool {
    forall|i: int, j: int| 0 <= i <= j < dists.len() ==> dists[i] <= dists[j]
}

/// The labels of the neighbours within radius `r`, in the order of the
/// environment, whatever that order is.
pub open spec fn labels_within(e: Environment, r: int) -> Seq<Seq<char>>
    decreases e.labels.len(),
{
    if e.labels.len() == 0 || e.dists.len() != e.labels.len() {
        Seq::empty()
    } else {
        let nearer = labels_within(
            Environment { labels: e.labels.drop_last(), dists: e.dists.drop_last() },
            r,
        );
        if e.dists.last() <= r {
            nearer.push(e.labels.last())
        } else {
            nearer
        }
    }
}

/// The histogram of the neighbours within radius `r`.
pub open spec fn composition_within(names: Seq<Seq<char>>, e: Environment, r: int) -> Seq<nat> {
    histogram(names, labels_within(e, r))
}

proof fn lemma_within_is_prefix(e: Environment, r: int, n: int)
    requires
        e.labels.len() == e.dists.len(),
        0 <= n <= e.dists.len(),
        forall|i: int| 0 <= i < n ==> e.dists[i] <= r,
        forall|i: int| n <= i < e.dists.len() ==> e.dists[i] > r,
    ensures
        labels_within(e, r) == e.labels.take(n),
    decreases e.labels.len(),
{
    if e.labels.len() == 0 {
        assert(e.labels.take(n) =~= Seq::<Seq<char>>::empty());
    } else {
        let init = Environment { labels: e.labels.drop_last(), dists: e.dists.drop_last() };
        if e.dists.last() <= r {
            assert(n == e.dists.len());
            lemma_within_is_prefix(init, r, n - 1);
            assert(init.labels.take(n - 1).push(e.labels.last()) =~= e.labels.take(n));
        } else {
            assert(n < e.dists.len());
            lemma_within_is_prefix(init, r, n);
            assert(init.labels.take(n) =~= e.labels.take(n));
        }
    }
}

proof fn lemma_compositions_from(
    names: Seq<Seq<char>>,
    a: Environment,
    ia: int,
    b: Environment,
    ib: int,
    prev: i64,
)
    requires
        a.labels.len() == a.dists.len(),
        b.labels.len() == b.dists.len(),
        ascending(a.dists),
        ascending(b.dists),
        0 <= ia < a.dists.len(),
        0 <= ib < b.dists.len(),
        a.dists[ia] <= prev,
        b.dists[ib] <= prev,
        sweep_from(names, a, ia, b, ib, prev) is Ok,
    ensures
        forall|k: int, r: int|
            #![trigger covers(sweep_from(names, a, ia, b, ib, prev)->Ok_0[k], r)]
            0 <= k < sweep_from(names, a, ia, b, ib, prev)->Ok_0.len() && covers(
                sweep_from(names, a, ia, b, ib, prev)->Ok_0[k],
                r,
            ) ==> {
                &&& sweep_from(names, a, ia, b, ib, prev)->Ok_0[k].counts_a == composition_within(
                    names,
                    a,
                    r,
                )
                &&& sweep_from(names, a, ia, b, ib, prev)->Ok_0[k].counts_b == composition_within(
                    names,
                    b,
                    r,
                )
            },
    decreases remaining(a, ia) + remaining(b, ib),
{
    let steps = sweep_from(names, a, ia, b, ib, prev)->Ok_0;
    if at_end(a, ia) && at_end(b, ib) {
        assert forall|k: int, r: int| 0 <= k < steps.len() && covers(steps[k], r) implies steps[k].counts_a
            == composition_within(names, a, r) && steps[k].counts_b == composition_within(
            names,
            b,
            r,
        ) by {
            lemma_within_is_prefix(a, r, ia + 1);
            lemma_within_is_prefix(b, r, ib + 1);
        }
    } else {
        let next = next_rank(a, ia, b, ib);
        let ja = advance(a, ia, b, ib);
        let jb = advance(b, ib, a, ia);
        let rest = sweep_from(names, a, ja, b, jb, next)->Ok_0;
        let first = piece(names, a, ia, b, ib, prev, UpperBound::At(next));
        assert(refusal(names, a, ia, b, ib, prev) is None);
        assert(steps == seq![first] + rest);
        lemma_compositions_from(names, a, ja, b, jb, next);
        assert forall|k: int, r: int| 0 <= k < steps.len() && covers(steps[k], r) implies steps[k].counts_a
            == composition_within(names, a, r) && steps[k].counts_b == composition_within(
            names,
            b,
            r,
        ) by {
            if k == 0 {
                lemma_within_is_prefix(a, r, ia + 1);
                lemma_within_is_prefix(b, r, ib + 1);
            } else {
                assert(steps[k] == rest[k - 1]);
                assert(covers(rest[k - 1], r));
            }
        }
    }
}

/// Where both environments are ordered by distance, the sweep is the step
/// function of the two compositions: on every piece, and at every radius
/// of that piece, each side's histogram counts exactly the neighbours that
/// lie within that radius. Summing over the pieces therefore gives what
/// summing over all boundary points one by one gives.
pub proof fn lemma_sweep_counts_neighbours_within(
    names: Seq<Seq<char>>,
    a: Environment,
    b: Environment,
)
    requires
        ascending(a.dists),
        ascending(b.dists),
        sweep(names, a, b) is Ok,
    ensures
        forall|k: int, r: int|
            #![trigger covers(sweep(names, a, b)->Ok_0[k], r)]
            0 <= k < sweep(names, a, b)->Ok_0.len() && covers(sweep(names, a, b)->Ok_0[k], r) ==> {
                &&& sweep(names, a, b)->Ok_0[k].counts_a == composition_within(names, a, r)
                &&& sweep(names, a, b)->Ok_0[k].counts_b == composition_within(names, b, r)
            },
{
    lemma_compositions_from(names, a, 0, b, 0, 0);
}

/// The pieces are the step function of the two compositions: they tile the
/// radius axis from zero on, both distributions are defined on each, and at
/// every radius each side's histogram counts the neighbours within it.
pub open spec fn step_function_of(
    names: Seq<Seq<char>>,
    a: Environment,
    b: Environment,
    steps: Seq<StepView>,
) -> bool {
    &&& contiguous(steps, 0)
    &&& partitions(steps, 0)
    &&& populated(names, steps)
    &&& forall|k: int, r: int|
        #![trigger covers(steps[k], r)]
        0 <= k < steps.len() && covers(steps[k], r) ==> {
            &&& steps[k].counts_a == composition_within(names, a, r)
            &&& steps[k].counts_b == composition_within(names, b, r)
        }
}

/// A sweep of two environments that are ordered by distance, where it
/// succeeds, gives the step function of their compositions.
pub proof fn lemma_sweep_is_step_function(names: Seq<Seq<char>>, a: Environment, b: Environment)
    requires
        ascending(a.dists),
        ascending(b.dists),
        sweep(names, a, b) is Ok,
    ensures
        step_function_of(names, a, b, sweep(names, a, b)->Ok_0),
{
    lemma_sweep_regular(names, a, b);
    lemma_sweep_counts_neighbours_within(names, a, b);
}

} // verus!
