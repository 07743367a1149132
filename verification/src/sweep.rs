use vstd::prelude::*;
use crate::catalog::first_index;
use crate::error::LoCoHDError;
use crate::range::{valid_range, UpperBound};
use crate::tracker::{as_nats, histogram};

verus! {

/// One piece of the radius axis, `lo <= r < hi`, with the histogram that
/// each environment has on it.
#[derive(Debug, PartialEq, Eq)]
pub struct Step {
    pub lo: i64,
    pub hi: UpperBound,
    pub counts_a: Vec<usize>,
    pub counts_b: Vec<usize>,
}

/// What a `Step` stands for.
pub struct StepView {
    pub lo: i64,
    pub hi: UpperBound,
    pub counts_a: Seq<nat>,
    pub counts_b: Seq<nat>,
}

impl View for Step {
    type V = StepView;

    open spec fn view(&self) -> StepView {
        StepView {
            lo: self.lo,
            hi: self.hi,
            counts_a: as_nats(self.counts_a@),
            counts_b: as_nats(self.counts_b@),
        }
    }
}

impl Clone for Step {
    fn clone(&self) -> (copy: Self)
        ensures
            copy@ == self@,
    {
        let counts_a = self.counts_a.clone();
        let counts_b = self.counts_b.clone();
        assert(counts_a@ =~= self.counts_a@);
        assert(counts_b@ =~= self.counts_b@);
        Step { lo: self.lo, hi: self.hi, counts_a, counts_b }
    }
}

/// What a list of steps stands for.
pub open spec fn profile(steps: Seq<Step>) -> Seq<StepView> {
    Seq::new(steps.len(), |i: int| steps[i]@)
}

/// What the result of a sweep stands for.
pub open spec fn outcome(r: Result<Vec<Step>, LoCoHDError>) -> Result<Seq<StepView>, LoCoHDError> {
    match r {
        Ok(steps) => Ok(profile(steps@)),
        Err(e) => Err(e),
    }
}

/// The neighbours of one anchor: a label and a distance rank for each, the
/// anchor itself first.
pub struct Environment {
    pub labels: Seq<Seq<char>>,
    pub dists: Seq<i64>,
}

/// The environment that a vector of labels and a vector of ranks stand for.
pub open spec fn environment(labels: Vec<String>, dists: Vec<i64>) -> Environment {
    Environment { labels: labels.deep_view(), dists: dists@ }
}

/// The cursor stands on the last neighbour.
pub open spec fn at_end(e: Environment, i: int) -> bool {
    i + 1 >= e.dists.len()
}

/// Neighbours that lie beyond the cursor.
pub open spec fn remaining(e: Environment, i: int) -> nat {
    if at_end(e, i) {
        0
    } else {
        (e.dists.len() - 1 - i) as nat
    }
}

/// The next neighbour of `e` is crossed now: it exists, and the other
/// environment has no nearer one.
pub open spec fn crosses(e: Environment, i: int, other: Environment, j: int) -> bool {
    !at_end(e, i) && (at_end(other, j) || e.dists[i + 1] <= other.dists[j + 1])
}

/// The rank at which the current piece ends: the nearer of the two next
/// neighbours.
pub open spec fn next_rank(a: Environment, ia: int, b: Environment, ib: int) -> i64 {
    if crosses(a, ia, b, ib) {
        a.dists[ia + 1]
    } else {
        b.dists[ib + 1]
    }
}

/// A neighbour that is crossed now has a label outside the names.
pub open spec fn crosses_unknown(
    names: Seq<Seq<char>>,
    a: Environment,
    ia: int,
    b: Environment,
    ib: int,
) -> bool {
    ||| crosses(a, ia, b, ib) && first_index(names, a.labels[ia + 1]) is None
    ||| crosses(b, ib, a, ia) && first_index(names, b.labels[ib + 1]) is None
}

/// Why the piece that starts at `prev` cannot be closed, if it cannot.
/// While both environments have neighbours left, the label is looked up
/// before the range is weighed; once one of them is exhausted, after.
pub open spec fn refusal(
    names: Seq<Seq<char>>,
    a: Environment,
    ia: int,
    b: Environment,
    ib: int,
    prev: i64,
) -> Option<LoCoHDError> {
    let unknown = crosses_unknown(names, a, ia, b, ib);
    let merging = !at_end(a, ia) && !at_end(b, ib);
    let malformed = !valid_range(prev, UpperBound::At(next_rank(a, ia, b, ib)));
    if merging && unknown {
        Some(LoCoHDError::InvalidCategory)
    } else if malformed {
        Some(LoCoHDError::InvalidRange)
    } else if unknown {
        Some(LoCoHDError::InvalidCategory)
    } else {
        None
    }
}

/// The piece that starts at `prev`, with the histograms of the neighbours
/// up to the two cursors.
pub open spec fn piece(
    names: Seq<Seq<char>>,
    a: Environment,
    ia: int,
    b: Environment,
    ib: int,
    prev: i64,
    hi: UpperBound,
) -> StepView {
    StepView {
        lo: prev,
        hi,
        counts_a: histogram(names, a.labels.take(ia + 1)),
        counts_b: histogram(names, b.labels.take(ib + 1)),
    }
}

/// The cursor after the current piece.
pub open spec fn advance(e: Environment, i: int, other: Environment, j: int) -> int {
    if crosses(e, i, other, j) {
        i + 1
    } else {
        i
    }
}

/// The pieces from `prev` on, with the cursors at `ia` and `ib`.
pub open spec fn sweep_from(
    names: Seq<Seq<char>>,
    a: Environment,
    ia: int,
    b: Environment,
    ib: int,
    prev: i64,
) -> Result<Seq<StepView>, LoCoHDError>
    decreases remaining(a, ia) + remaining(b, ib),
{
    if at_end(a, ia) && at_end(b, ib) {
        Ok(seq![piece(names, a, ia, b, ib, prev, UpperBound::Unbounded)])
    } else {
        match refusal(names, a, ia, b, ib, prev) {
            Some(e) => Err(e),
            None => {
                let next = next_rank(a, ia, b, ib);
                match sweep_from(names, a, advance(a, ia, b, ib), b, advance(b, ib, a, ia), next) {
                    Ok(rest) => Ok(
                        seq![piece(names, a, ia, b, ib, prev, UpperBound::At(next))] + rest,
                    ),
                    Err(e) => Err(e),
                }
            },
        }
    }
}

/// Both environments pair each label with a distance and start with the
/// anchor, at distance zero.
pub open spec fn well_formed(a: Environment, b: Environment) -> bool {
    &&& a.labels.len() == a.dists.len()
    &&& b.labels.len() == b.dists.len()
    &&& a.dists.len() > 0
    &&& b.dists.len() > 0
    &&& a.dists[0] == 0
    &&& b.dists[0] == 0
}

/// The step function of the two compositions over the radius, or the first
/// reason for which the sweep stops.
pub open spec fn sweep(names: Seq<Seq<char>>, a: Environment, b: Environment) -> Result<
    Seq<StepView>,
    LoCoHDError,
> {
    if !well_formed(a, b) {
        Err(LoCoHDError::InputMismatch)
    } else if first_index(names, a.labels[0]) is None || first_index(names, b.labels[0]) is None {
        Err(LoCoHDError::InvalidCategory)
    } else {
        sweep_from(names, a, 0, b, 0, 0)
    }
}

/// The pieces found so far, followed by those still to come.
pub open spec fn prepend(done: Seq<StepView>, rest: Result<Seq<StepView>, LoCoHDError>) -> Result<
    Seq<StepView>,
    LoCoHDError,
> {
    match rest {
        Ok(more) => Ok(done + more),
        Err(e) => Err(e),
    }
}

} // verus!
