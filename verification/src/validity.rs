use vstd::prelude::*;
use crate::catalog::first_index;
use crate::error::LoCoHDError;
use crate::laws::ascending;
use crate::sweep::{
    advance, at_end, crosses, next_rank, refusal, remaining, sweep, sweep_from, well_formed,
    Environment, StepView,
};

verus! {

/// The catalog holds the label of every neighbour.
pub open spec fn all_known(names: Seq<Seq<char>>, e: Environment) -> bool {
    forall|i: int| 0 <= i < e.labels.len() ==> first_index(names, #[trigger] e.labels[i]) is Some
}

/// Two environments that a sweep accepts: each pairs its labels with its
/// ranks and starts with its anchor at rank zero, its ranks never fall, and
/// the catalog holds all its labels.
pub open spec fn valid(names: Seq<Seq<char>>, a: Environment, b: Environment) -> bool {
    &&& well_formed(a, b)
    &&& ascending(a.dists)
    &&& ascending(b.dists)
    &&& all_known(names, a)
    &&& all_known(names, b)
}

spec fn known_from(names: Seq<Seq<char>>, e: Environment, i: int) -> bool {
    forall|j: int| i <= j < e.labels.len() ==> first_index(names, #[trigger] e.labels[j]) is Some
}

spec fn rising_from(dists: Seq<i64>, i: int) -> bool {
    forall|j: int| i <= j < dists.len() - 1 ==> #[trigger] dists[j] <= dists[j + 1]
}

proof fn lemma_rising_ascends(dists: Seq<i64>, i: int, j: int)
    requires
        rising_from(dists, 0),
        0 <= i <= j < dists.len(),
    ensures
        dists[i] <= dists[j],
    decreases j - i,
{
    if i < j {
        lemma_rising_ascends(dists, i, j - 1);
        assert(dists[j - 1] <= dists[j - 1 + 1]);
    }
}

proof fn lemma_rising_iff_ascending(dists: Seq<i64>)
    ensures
        rising_from(dists, 0) <==> ascending(dists),
{
    if rising_from(dists, 0) {
        assert forall|i: int, j: int| 0 <= i <= j < dists.len() implies dists[i] <= dists[j] by {
            lemma_rising_ascends(dists, i, j);
        }
    }
}

proof fn lemma_success_shows_validity(
    names: Seq<Seq<char>>,
    a: Environment,
    ia: int,
    b: Environment,
    ib: int,
    prev: i64,
)
    requires
        a.labels.len() == a.dists.len(),
        b.labels.len() == b.dists.len(),
        0 <= ia < a.dists.len(),
        0 <= ib < b.dists.len(),
        a.dists[ia] <= prev,
        b.dists[ib] <= prev,
        sweep_from(names, a, ia, b, ib, prev) is Ok,
    ensures
        known_from(names, a, ia + 1),
        known_from(names, b, ib + 1),
        rising_from(a.dists, ia),
        rising_from(b.dists, ib),
    decreases remaining(a, ia) + remaining(b, ib),
{
    if !(at_end(a, ia) && at_end(b, ib)) {
        assert(refusal(names, a, ia, b, ib, prev) is None);
        let next = next_rank(a, ia, b, ib);
        lemma_success_shows_validity(
            names,
            a,
            advance(a, ia, b, ib),
            b,
            advance(b, ib, a, ia),
            next,
        );
    }
}

proof fn lemma_ascent_leaves_labels(
    names: Seq<Seq<char>>,
    a: Environment,
    ia: int,
    b: Environment,
    ib: int,
    prev: i64,
)
    requires
        a.labels.len() == a.dists.len(),
        b.labels.len() == b.dists.len(),
        0 <= ia < a.dists.len(),
        0 <= ib < b.dists.len(),
        0 <= prev,
        rising_from(a.dists, ia),
        rising_from(b.dists, ib),
        !at_end(a, ia) ==> prev <= a.dists[ia + 1],
        !at_end(b, ib) ==> prev <= b.dists[ib + 1],
    ensures
        known_from(names, a, ia + 1) && known_from(names, b, ib + 1) ==> sweep_from(
            names,
            a,
            ia,
            b,
            ib,
            prev,
        ) is Ok,
        !(known_from(names, a, ia + 1) && known_from(names, b, ib + 1)) ==> sweep_from(
            names,
            a,
            ia,
            b,
            ib,
            prev,
        ) == Err::<Seq<StepView>, LoCoHDError>(LoCoHDError::InvalidCategory),
    decreases remaining(a, ia) + remaining(b, ib),
{
    if !(at_end(a, ia) && at_end(b, ib)) {
        let next = next_rank(a, ia, b, ib);
        if refusal(names, a, ia, b, ib, prev) is None {
            let ja = advance(a, ia, b, ib);
            let jb = advance(b, ib, a, ia);
            if crosses(a, ia, b, ib) && !at_end(a, ja) {
                assert(a.dists[ia + 1] <= a.dists[ia + 1 + 1]);
            }
            if crosses(b, ib, a, ia) && !at_end(b, jb) {
                assert(b.dists[ib + 1] <= b.dists[ib + 1 + 1]);
            }
            lemma_ascent_leaves_labels(names, a, ja, b, jb, next);
        }
    }
}

proof fn lemma_labels_leave_ranges(
    names: Seq<Seq<char>>,
    a: Environment,
    ia: int,
    b: Environment,
    ib: int,
    prev: i64,
)
    requires
        a.labels.len() == a.dists.len(),
        b.labels.len() == b.dists.len(),
        0 <= ia < a.dists.len(),
        0 <= ib < b.dists.len(),
        known_from(names, a, ia + 1),
        known_from(names, b, ib + 1),
    ensures
        sweep_from(names, a, ia, b, ib, prev) is Ok || sweep_from(names, a, ia, b, ib, prev)
            == Err::<Seq<StepView>, LoCoHDError>(LoCoHDError::InvalidRange),
    decreases remaining(a, ia) + remaining(b, ib),
{
    if !(at_end(a, ia) && at_end(b, ib)) {
        if refusal(names, a, ia, b, ib, prev) is None {
            lemma_labels_leave_ranges(
                names,
                a,
                advance(a, ia, b, ib),
                b,
                advance(b, ib, a, ia),
                next_rank(a, ia, b, ib),
            );
        }
    }
}

proof fn lemma_two_refusals(
    names: Seq<Seq<char>>,
    a: Environment,
    ia: int,
    b: Environment,
    ib: int,
    prev: i64,
)
    ensures
        match sweep_from(names, a, ia, b, ib, prev) {
            Ok(_) => true,
            Err(e) => e == LoCoHDError::InvalidCategory || e == LoCoHDError::InvalidRange,
        },
    decreases remaining(a, ia) + remaining(b, ib),
{
    if !(at_end(a, ia) && at_end(b, ib)) {
        if refusal(names, a, ia, b, ib, prev) is None {
            lemma_two_refusals(
                names,
                a,
                advance(a, ia, b, ib),
                b,
                advance(b, ib, a, ia),
                next_rank(a, ia, b, ib),
            );
        }
    }
}

proof fn lemma_known_split(names: Seq<Seq<char>>, e: Environment)
    requires
        e.labels.len() > 0,
    ensures
        all_known(names, e) <==> first_index(names, e.labels[0]) is Some && known_from(names, e, 1),
{
    if first_index(names, e.labels[0]) is Some && known_from(names, e, 1) {
        assert forall|i: int| 0 <= i < e.labels.len() implies first_index(
            names,
            #[trigger] e.labels[i],
        ) is Some by {
            if i > 0 {
                assert(1 <= i);
            }
        }
    }
}

/// A sweep succeeds on the valid pairs of environments and on no others.
pub proof fn lemma_sweep_succeeds_iff_valid(names: Seq<Seq<char>>, a: Environment, b: Environment)
    ensures
        sweep(names, a, b) is Ok <==> valid(names, a, b),
{
    lemma_rising_iff_ascending(a.dists);
    lemma_rising_iff_ascending(b.dists);
    if well_formed(a, b) {
        lemma_known_split(names, a);
        lemma_known_split(names, b);
        if sweep(names, a, b) is Ok {
            lemma_success_shows_validity(names, a, 0, b, 0, 0);
        }
        if valid(names, a, b) {
            if !at_end(a, 0) {
                assert(a.dists[0] <= a.dists[1]);
            }
            if !at_end(b, 0) {
                assert(b.dists[0] <= b.dists[1]);
            }
            lemma_ascent_leaves_labels(names, a, 0, b, 0, 0);
        }
    }
}

/// Which refusal a sweep gives. It is `InputMismatch` exactly where an
/// environment does not pair its labels with its ranks or does not start at
/// rank zero. Of environments that do, a label outside the catalog is
/// answered with `InvalidCategory` where no rank falls, and a falling rank
/// with `InvalidRange` where the catalog holds every label; where both
/// faults occur, the one met first decides. No other refusal is given.
pub proof fn lemma_sweep_refusals(names: Seq<Seq<char>>, a: Environment, b: Environment)
    ensures
        sweep(names, a, b) == Err::<Seq<StepView>, LoCoHDError>(
            LoCoHDError::InputMismatch,
        ) <==> !well_formed(a, b),
        well_formed(a, b) && ascending(a.dists) && ascending(b.dists) && !(all_known(names, a)
            && all_known(names, b)) ==> sweep(names, a, b) == Err::<
            Seq<StepView>,
            LoCoHDError,
        >(LoCoHDError::InvalidCategory),
        well_formed(a, b) && all_known(names, a) && all_known(names, b) && !(ascending(a.dists)
            && ascending(b.dists)) ==> sweep(names, a, b) == Err::<
            Seq<StepView>,
            LoCoHDError,
        >(LoCoHDError::InvalidRange),
        match sweep(names, a, b) {
            Ok(_) => true,
            Err(e) => e == LoCoHDError::InputMismatch || e == LoCoHDError::InvalidCategory || e
                == LoCoHDError::InvalidRange,
        },
{
    lemma_two_refusals(names, a, 0, b, 0, 0);
    lemma_sweep_succeeds_iff_valid(names, a, b);
    lemma_rising_iff_ascending(a.dists);
    lemma_rising_iff_ascending(b.dists);
    if well_formed(a, b) {
        lemma_known_split(names, a);
        lemma_known_split(names, b);
        if ascending(a.dists) && ascending(b.dists) {
            if !at_end(a, 0) {
                assert(a.dists[0] <= a.dists[1]);
            }
            if !at_end(b, 0) {
                assert(b.dists[0] <= b.dists[1]);
            }
            lemma_ascent_leaves_labels(names, a, 0, b, 0, 0);
        }
        if all_known(names, a) && all_known(names, b) {
            lemma_labels_leave_ranges(names, a, 0, b, 0, 0);
        }
    }
}

} // verus!
