use vstd::prelude::*;
use vstd::relations::{sorted_by, total_ordering};
use vstd::seq_lib::lemma_sorted_unique;
use crate::sweep::{environment, Environment};

verus! {

/// Each rank with the position at which the environment holds it.
pub open spec fn keyed(dists: Seq<i64>) -> Seq<(i64, usize)> {
    Seq::new(dists.len(), |i: int| (dists[i], i as usize))
}

/// Nearer first and, at equal rank, the earlier position first.
pub open spec fn nearer_or_earlier() -> spec_fn((i64, usize), (i64, usize)) -> bool {
    |x: (i64, usize), y: (i64, usize)| x.0 < y.0 || (x.0 == y.0 && x.1 <= y.1)
}

/// The ranks in ascending order, each with the position it came from;
/// equal ranks keep the order of their positions.
pub open spec fn stable_order(dists: Seq<i64>) -> Seq<(i64, usize)> {
    keyed(dists).sort_by(nearer_or_earlier())
}

/// The neighbours in the given order: entry `i` of the order names the
/// rank of the `i`-th neighbour and the position of its label.
pub open spec fn arranged(labels: Seq<Seq<char>>, order: Seq<(i64, usize)>) -> Environment {
    Environment {
        labels: Seq::new(order.len(), |i: int| labels[order[i].1 as int]),
        dists: Seq::new(order.len(), |i: int| order[i].0),
    }
}

/// The environment with its neighbours ordered by distance, neighbours at
/// the same distance in the order in which they stood.
pub open spec fn sorted_by_distance(e: Environment) -> Environment {
    arranged(e.labels, stable_order(e.dists))
}

proof fn lemma_total_ordering()
    ensures
        total_ordering(nearer_or_earlier()),
{
    let leq = nearer_or_earlier();
    assert forall|x: (i64, usize), y: (i64, usize)| #[trigger] leq(x, y) && #[trigger] leq(
        y,
        x,
    ) implies x == y by {
        assert(x.0 == y.0 && x.1 == y.1);
    }
}

/// The stable order lists every position once: entry `i` holds a position
/// of the environment with the rank found there, and the entries ascend
/// strictly, by rank and then by position.
pub proof fn lemma_stable_order(dists: Seq<i64>)
    requires
        dists.len() <= usize::MAX,
    ensures
        stable_order(dists).len() == dists.len(),
        stable_order(dists).to_multiset() == keyed(dists).to_multiset(),
        forall|i: int|
            0 <= i < dists.len() ==> (#[trigger] stable_order(dists)[i]).1 < dists.len()
                && stable_order(dists)[i].0 == dists[stable_order(dists)[i].1 as int],
        forall|i: int, j: int|
            0 <= i < j < dists.len() ==> {
                let x = #[trigger] stable_order(dists)[i];
                let y = #[trigger] stable_order(dists)[j];
                x.0 < y.0 || (x.0 == y.0 && x.1 < y.1)
            },
{
    broadcast use vstd::seq_lib::group_to_multiset_ensures;

    let pairs = keyed(dists);
    let order = stable_order(dists);
    lemma_total_ordering();
    pairs.lemma_sort_by_ensures(nearer_or_earlier());
    assert(order.len() == order.to_multiset().len());
    assert(pairs.len() == pairs.to_multiset().len());
    assert forall|i: int| 0 <= i < order.len() implies (#[trigger] order[i]).1 < dists.len()
        && order[i].0 == dists[order[i].1 as int] by {
        assert(order.contains(order[i]));
        assert(pairs.to_multiset().count(order[i]) > 0);
        assert(pairs.contains(order[i]));
        let j = choose|j: int| 0 <= j < pairs.len() && pairs[j] == order[i];
        assert(pairs[j] == (dists[j], j as usize));
    }
    assert forall|i: int, j: int| 0 <= i < j < order.len() implies {
        let x = #[trigger] order[i];
        let y = #[trigger] order[j];
        x.0 < y.0 || (x.0 == y.0 && x.1 < y.1)
    } by {
        assert(nearer_or_earlier()(order[i], order[j]));
        if order[i] == order[j] {
            assert(pairs.no_duplicates());
            pairs.lemma_multiset_has_no_duplicates();
            order.lemma_multiset_has_no_duplicates_conv();
            assert(false);
        }
    }
}

/// Sorts with `slice::sort` of std. Trusted: afterwards the vector holds
/// the pairs it held before, each as often as before, in ascending order
/// of the tuples, which is by first component and then by second.
#[verifier::external_body]
fn sort_pairs(pairs: &mut Vec<(i64, usize)>)
    ensures
        final(pairs)@.to_multiset() == old(pairs)@.to_multiset(),
        sorted_by(final(pairs)@, nearer_or_earlier()),
{
    pairs.sort();
}

/// Orders the neighbours by distance, each label moving with its rank;
/// neighbours at the same distance keep their order.
pub fn sort_together(dists: &Vec<i64>, labels: &Vec<String>) -> (sorted: (Vec<i64>, Vec<String>))
    requires
        dists.len() == labels.len(),
    ensures
        environment(sorted.1, sorted.0) == sorted_by_distance(environment(*labels, *dists)),
{
    let n: usize = dists.len();
    let mut pairs: Vec<(i64, usize)> = Vec::with_capacity(n);
    let mut i: usize = 0;
    while i < n
        invariant
            i <= n,
            n == dists.len(),
            pairs@ == keyed(dists@).take(i as int),
        decreases n - i,
    {
        pairs.push((dists[i], i));
        assert(pairs@ =~= keyed(dists@).take(i + 1));
        i += 1;
    }
    assert(pairs@ =~= keyed(dists@));
    sort_pairs(&mut pairs);
    let ghost order = stable_order(dists@);
    proof {
        lemma_total_ordering();
        keyed(dists@).lemma_sort_by_ensures(nearer_or_earlier());
        lemma_sorted_unique(pairs@, order, nearer_or_earlier());
        lemma_stable_order(dists@);
        assert(pairs@ == order);
    }
    let mut sorted_dists: Vec<i64> = Vec::with_capacity(n);
    let mut sorted_labels: Vec<String> = Vec::with_capacity(n);
    let mut k: usize = 0;
    while k < n
        invariant
            k <= n,
            n == dists.len(),
            n == labels.len(),
            pairs@ == order,
            order.len() == n,
            forall|i: int| 0 <= i < n ==> (#[trigger] order[i]).1 < n,
            sorted_dists.len() == k,
            sorted_labels.len() == k,
            forall|i: int| 0 <= i < k ==> sorted_dists[i] == order[i].0,
            forall|i: int| 0 <= i < k ==> sorted_labels[i]@ == labels[order[i].1 as int]@,
        decreases n - k,
    {
        let pair: (i64, usize) = pairs[k];
        assert(pair == order[k as int]);
        sorted_dists.push(pair.0);
        sorted_labels.push(labels[pair.1].clone());
        k += 1;
    }
    proof {
        let e = environment(*labels, *dists);
        let s = environment(sorted_labels, sorted_dists);
        assert(s.dists =~= sorted_by_distance(e).dists);
        assert(s.labels =~= sorted_by_distance(e).labels);
    }
    (sorted_dists, sorted_labels)
}

} // verus!
