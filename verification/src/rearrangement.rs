use vstd::prelude::*;
use vstd::seq_lib::{commutative_foldl, lemma_fold_left_permutation};
use crate::catalog::{first_index, lemma_first_index};
use crate::laws::{ascending, composition_within, labels_within};
use crate::sorting::{arranged, keyed, lemma_stable_order, sorted_by_distance, stable_order};
use crate::sweep::Environment;
use crate::tracker::{bump, lemma_histogram_shape, zeros};
use crate::validity::all_known;

verus! {

/// The environment holds a neighbour with this label at this rank.
pub open spec fn holds(e: Environment, rank: i64, label: Seq<char>) -> bool {
    exists|j: int| 0 <= j < e.dists.len() && e.dists[j] == rank && e.labels[j] == label
}

/// No neighbour lies at a negative rank, and one lies at rank zero.
pub open spec fn anchored(e: Environment) -> bool {
    &&& exists|j: int| 0 <= j < e.dists.len() && e.dists[j] == 0
    &&& forall|j: int| 0 <= j < e.dists.len() ==> 0 <= e.dists[j]
}

/// Ordering by distance neither adds nor drops a neighbour: the ordered
/// environment has as many neighbours as the given one, its ranks never
/// fall, each of its neighbours is one of the given environment, and each
/// neighbour of the given environment is one of its own.
pub proof fn lemma_sorting_keeps_neighbours(e: Environment)
    requires
        e.labels.len() == e.dists.len(),
        e.dists.len() <= usize::MAX,
    ensures
        sorted_by_distance(e).labels.len() == e.dists.len(),
        sorted_by_distance(e).dists.len() == e.dists.len(),
        ascending(sorted_by_distance(e).dists),
        forall|i: int|
            0 <= i < e.dists.len() ==> holds(
                e,
                #[trigger] sorted_by_distance(e).dists[i],
                sorted_by_distance(e).labels[i],
            ),
        forall|j: int|
            0 <= j < e.dists.len() ==> holds(
                sorted_by_distance(e),
                #[trigger] e.dists[j],
                e.labels[j],
            ),
{
    broadcast use vstd::seq_lib::group_to_multiset_ensures;

    let order = stable_order(e.dists);
    let pairs = keyed(e.dists);
    let s = sorted_by_distance(e);
    lemma_stable_order(e.dists);
    assert forall|i: int, j: int| 0 <= i <= j < s.dists.len() implies s.dists[i] <= s.dists[j] by {
        if i < j {
            assert(order[i].0 <= order[j].0);
        }
    }
    assert forall|i: int| 0 <= i < e.dists.len() implies holds(
        e,
        #[trigger] s.dists[i],
        s.labels[i],
    ) by {
        let j = order[i].1 as int;
        assert(e.dists[j] == s.dists[i] && e.labels[j] == s.labels[i]);
    }
    assert forall|j: int| 0 <= j < e.dists.len() implies holds(s, #[trigger] e.dists[j], e.labels[j]) by {
        assert(pairs[j] == (e.dists[j], j as usize));
        assert(pairs.contains(pairs[j]));
        assert(order.to_multiset().count(pairs[j]) > 0);
        assert(order.contains(pairs[j]));
        let i = choose|i: int| 0 <= i < order.len() && order[i] == pairs[j];
        assert(s.dists[i] == e.dists[j] && s.labels[i] == e.labels[j]);
    }
}

/// The ordered environment starts at rank zero exactly where the given
/// one is anchored, and the catalog holds all its labels exactly where it
/// holds all labels of the given one.
pub proof fn lemma_sorting_keeps_validity(names: Seq<Seq<char>>, e: Environment)
    requires
        e.labels.len() == e.dists.len(),
        e.dists.len() <= usize::MAX,
    ensures
        sorted_by_distance(e).dists.len() > 0 && sorted_by_distance(e).dists[0] == 0 <==> anchored(
            e,
        ),
        all_known(names, sorted_by_distance(e)) <==> all_known(names, e),
{
    let s = sorted_by_distance(e);
    lemma_sorting_keeps_neighbours(e);
    if s.dists.len() > 0 && s.dists[0] == 0 {
        assert(holds(e, s.dists[0], s.labels[0]));
        assert forall|j: int| 0 <= j < e.dists.len() implies 0 <= e.dists[j] by {
            assert(holds(s, e.dists[j], e.labels[j]));
            let i = choose|i: int|
                0 <= i < s.dists.len() && s.dists[i] == e.dists[j] && s.labels[i] == e.labels[j];
            assert(s.dists[0] <= s.dists[i]);
        }
    }
    if anchored(e) {
        let j = choose|j: int| 0 <= j < e.dists.len() && e.dists[j] == 0;
        assert(holds(s, e.dists[j], e.labels[j]));
        let i = choose|i: int|
            0 <= i < s.dists.len() && s.dists[i] == e.dists[j] && s.labels[i] == e.labels[j];
        assert(s.dists[0] <= s.dists[i]);
        assert(holds(e, s.dists[0], s.labels[0]));
    }
    if all_known(names, e) {
        assert forall|i: int| 0 <= i < s.labels.len() implies first_index(
            names,
            #[trigger] s.labels[i],
        ) is Some by {
            assert(holds(e, s.dists[i], s.labels[i]));
            let j = choose|j: int|
                0 <= j < e.dists.len() && e.dists[j] == s.dists[i] && e.labels[j] == s.labels[i];
            assert(first_index(names, e.labels[j]) is Some);
        }
    }
    if all_known(names, s) {
        assert forall|j: int| 0 <= j < e.labels.len() implies first_index(
            names,
            #[trigger] e.labels[j],
        ) is Some by {
            assert(holds(s, e.dists[j], e.labels[j]));
            let i = choose|i: int|
                0 <= i < s.dists.len() && s.dists[i] == e.dists[j] && s.labels[i] == e.labels[j];
            assert(first_index(names, s.labels[i]) is Some);
        }
    }
}

/// Counts the neighbour that an entry of an order names, if it lies
/// within radius `r` and the names hold its label.
spec fn count_entry(names: Seq<Seq<char>>, labels: Seq<Seq<char>>, r: int) -> spec_fn(
    Seq<nat>,
    (i64, usize),
) -> Seq<nat> {
    |h: Seq<nat>, x: (i64, usize)|
        if x.0 <= r {
            match first_index(names, labels[x.1 as int]) {
                Some(k) => if 0 <= k < h.len() {
                    bump(h, k)
                } else {
                    h
                },
                None => h,
            }
        } else {
            h
        }
}

proof fn lemma_count_entry_commutes(names: Seq<Seq<char>>, labels: Seq<Seq<char>>, r: int)
    ensures
        commutative_foldl(count_entry(names, labels, r)),
{
    let f = count_entry(names, labels, r);
    assert forall|x: (i64, usize), y: (i64, usize), v: Seq<nat>| #[trigger]
        f(f(v, x), y) == f(f(v, y), x) by {
        assert(f(f(v, x), y) =~= f(f(v, y), x));
    }
}

proof fn lemma_composition_is_fold(
    names: Seq<Seq<char>>,
    labels: Seq<Seq<char>>,
    order: Seq<(i64, usize)>,
    r: int,
)
    ensures
        composition_within(names, arranged(labels, order), r) == order.fold_left(
            zeros(names.len()),
            count_entry(names, labels, r),
        ),
    decreases order.len(),
{
    let e = arranged(labels, order);
    let f = count_entry(names, labels, r);
    if order.len() > 0 {
        let init = order.drop_last();
        let nearer = arranged(labels, init);
        lemma_composition_is_fold(names, labels, init, r);
        assert(e.labels.drop_last() =~= nearer.labels);
        assert(e.dists.drop_last() =~= nearer.dists);
        assert(Environment { labels: e.labels.drop_last(), dists: e.dists.drop_last() } == nearer);
        let inside = labels_within(nearer, r);
        lemma_histogram_shape(names, inside);
        if e.dists.last() <= r {
            let label = e.labels.last();
            assert(inside.push(label).drop_last() =~= inside);
            lemma_first_index(names, label);
        }
    }
}

/// The composition within a radius does not depend on the order in which
/// an environment lists its neighbours: ordering them by distance leaves
/// it as it was.
pub proof fn lemma_sorting_keeps_compositions(names: Seq<Seq<char>>, e: Environment, r: int)
    requires
        e.labels.len() == e.dists.len(),
        e.dists.len() <= usize::MAX,
    ensures
        composition_within(names, sorted_by_distance(e), r) == composition_within(names, e, r),
{
    let order = stable_order(e.dists);
    let pairs = keyed(e.dists);
    lemma_stable_order(e.dists);
    lemma_composition_is_fold(names, e.labels, order, r);
    lemma_composition_is_fold(names, e.labels, pairs, r);
    assert(arranged(e.labels, pairs).labels =~= e.labels);
    assert(arranged(e.labels, pairs).dists =~= e.dists);
    lemma_count_entry_commutes(names, e.labels, r);
    lemma_fold_left_permutation(order, pairs, count_entry(names, e.labels, r), zeros(names.len()));
}

} // verus!
