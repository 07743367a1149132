use vstd::prelude::*;
use crate::batch::{lemma_row_sweep_succeeds_iff_valid, row_sweep};
use crate::catalog::first_index;
use crate::comparator::LoCoHD;
use crate::error::LoCoHDError;
use crate::rearrangement::{anchored, holds};
use crate::sweep::{environment, outcome, profile, Environment, Step, StepView};
use crate::validity::all_known;

verus! {

/// A point of a structure: the category it is counted under, and the tag
/// of the group it belongs to.
#[derive(Debug, PartialEq, Eq)]
pub struct PrimitiveAtom {
    pub primitive_type: String,
    pub tag: String,
}

impl Clone for PrimitiveAtom {
    fn clone(&self) -> (copy: Self)
        ensures
            copy.primitive_type@ == self.primitive_type@,
            copy.tag@ == self.tag@,
    {
        PrimitiveAtom { primitive_type: self.primitive_type.clone(), tag: self.tag.clone() }
    }
}

/// What decides the environment of one anchor: the points of its
/// structure, which of them is the anchor, the distance rank from the
/// anchor to each point, and which points count as neighbours.
pub struct Selection {
    pub atoms: Seq<PrimitiveAtom>,
    pub anchor: int,
    pub row: Seq<i64>,
    pub only_hetero_contacts: bool,
    pub threshold_distance: i64,
}

/// The anchor is a point of the structure, and the row holds one rank for
/// each point.
pub open spec fn covers_structure(s: Selection) -> bool {
    0 <= s.anchor < s.atoms.len() && s.row.len() == s.atoms.len()
}

/// Point `j` belongs to the environment of the anchor: it is the anchor
/// itself, or it lies within the threshold and, where only contacts between
/// groups count, carries another tag than the anchor.
pub open spec fn keeps(s: Selection, j: int) -> bool {
    j == s.anchor || (!(s.only_hetero_contacts && s.atoms[j].tag@ == s.atoms[s.anchor].tag@)
        && s.row[j] <= s.threshold_distance)
}

/// The rank at which point `j` enters the environment: zero for the anchor
/// itself, whatever the row says of it.
pub open spec fn rank_of_point(s: Selection, j: int) -> i64 {
    if j == s.anchor {
        0
    } else {
        s.row[j]
    }
}

/// The environment of the anchor among the first `n` points, in the order
/// of the points.
pub open spec fn neighbourhood(s: Selection, n: int) -> Environment
    decreases n,
{
    if n <= 0 {
        Environment { labels: Seq::empty(), dists: Seq::empty() }
    } else {
        let nearer = neighbourhood(s, n - 1);
        if keeps(s, n - 1) {
            Environment {
                labels: nearer.labels.push(s.atoms[n - 1].primitive_type@),
                dists: nearer.dists.push(rank_of_point(s, n - 1)),
            }
        } else {
            nearer
        }
    }
}

/// Every point that is kept lies at a rank that is not negative and has a
/// type that the catalog holds.
pub open spec fn admissible(names: Seq<Seq<char>>, s: Selection) -> bool {
    forall|j: int|
        0 <= j < s.atoms.len() && #[trigger] keeps(s, j) ==> 0 <= rank_of_point(s, j)
            && first_index(names, s.atoms[j].primitive_type@) is Some
}

/// The sweep for one pair of anchors.
pub open spec fn pair_sweep(names: Seq<Seq<char>>, a: Selection, b: Selection) -> Result<
    Seq<StepView>,
    LoCoHDError,
> {
    if !covers_structure(a) || !covers_structure(b) {
        Err(LoCoHDError::InputMismatch)
    } else {
        row_sweep(
            names,
            neighbourhood(a, a.atoms.len() as int),
            neighbourhood(b, b.atoms.len() as int),
        )
    }
}

/// A pair of anchors whose sweep succeeds.
pub open spec fn pair_valid(names: Seq<Seq<char>>, a: Selection, b: Selection) -> bool {
    &&& covers_structure(a)
    &&& covers_structure(b)
    &&& admissible(names, a)
    &&& admissible(names, b)
}

/// Some point among the first `n` is kept with this rank and this type.
spec fn kept_as(s: Selection, n: int, rank: i64, label: Seq<char>) -> bool {
    exists|j: int|
        0 <= j < n && keeps(s, j) && rank_of_point(s, j) == rank && s.atoms[j].primitive_type@
            == label
}

proof fn lemma_neighbourhood_entries(s: Selection, n: int)
    requires
        0 <= n <= s.atoms.len(),
    ensures
        neighbourhood(s, n).labels.len() == neighbourhood(s, n).dists.len(),
        neighbourhood(s, n).dists.len() <= n,
        forall|j: int|
            0 <= j < n && #[trigger] keeps(s, j) ==> holds(
                neighbourhood(s, n),
                rank_of_point(s, j),
                s.atoms[j].primitive_type@,
            ),
        forall|i: int|
            0 <= i < neighbourhood(s, n).dists.len() ==> kept_as(
                s,
                n,
                #[trigger] neighbourhood(s, n).dists[i],
                neighbourhood(s, n).labels[i],
            ),
    decreases n,
{
    if n > 0 {
        let e = neighbourhood(s, n);
        let nearer = neighbourhood(s, n - 1);
        lemma_neighbourhood_entries(s, n - 1);
        assert forall|j: int| 0 <= j < n && #[trigger] keeps(s, j) implies holds(
            e,
            rank_of_point(s, j),
            s.atoms[j].primitive_type@,
        ) by {
            if j < n - 1 {
                assert(holds(nearer, rank_of_point(s, j), s.atoms[j].primitive_type@));
                let i = choose|i: int|
                    0 <= i < nearer.dists.len() && nearer.dists[i] == rank_of_point(s, j)
                        && nearer.labels[i] == s.atoms[j].primitive_type@;
                assert(e.dists[i] == nearer.dists[i] && e.labels[i] == nearer.labels[i]);
            } else {
                let i = e.dists.len() - 1;
                assert(e.dists[i] == rank_of_point(s, j) && e.labels[i]
                    == s.atoms[j].primitive_type@);
            }
        }
        assert forall|i: int| 0 <= i < e.dists.len() implies kept_as(
            s,
            n,
            #[trigger] e.dists[i],
            e.labels[i],
        ) by {
            if i < nearer.dists.len() {
                assert(kept_as(s, n - 1, nearer.dists[i], nearer.labels[i]));
                let j = choose|j: int|
                    0 <= j < n - 1 && keeps(s, j) && rank_of_point(s, j) == nearer.dists[i]
                        && s.atoms[j].primitive_type@ == nearer.labels[i];
                assert(keeps(s, j) && rank_of_point(s, j) == e.dists[i]);
            } else {
                assert(keeps(s, n - 1) && rank_of_point(s, n - 1) == e.dists[i]);
            }
        }
    }
}

/// The environment that is collected for an anchor is valid exactly where
/// the selection is admissible.
pub proof fn lemma_neighbourhood_valid_iff_admissible(names: Seq<Seq<char>>, s: Selection)
    requires
        covers_structure(s),
    ensures
        neighbourhood(s, s.atoms.len() as int).labels.len() == neighbourhood(
            s,
            s.atoms.len() as int,
        ).dists.len(),
        neighbourhood(s, s.atoms.len() as int).dists.len() <= s.atoms.len(),
        anchored(neighbourhood(s, s.atoms.len() as int)) && all_known(
            names,
            neighbourhood(s, s.atoms.len() as int),
        ) <==> admissible(names, s),
{
    let n = s.atoms.len() as int;
    let e = neighbourhood(s, n);
    lemma_neighbourhood_entries(s, n);
    assert(keeps(s, s.anchor));
    assert(holds(e, 0, s.atoms[s.anchor].primitive_type@));
    if anchored(e) && all_known(names, e) {
        assert forall|j: int| 0 <= j < s.atoms.len() && #[trigger] keeps(s, j) implies 0
            <= rank_of_point(s, j) && first_index(names, s.atoms[j].primitive_type@) is Some by {
            assert(holds(e, rank_of_point(s, j), s.atoms[j].primitive_type@));
            let i = choose|i: int|
                0 <= i < e.dists.len() && e.dists[i] == rank_of_point(s, j) && e.labels[i]
                    == s.atoms[j].primitive_type@;
            assert(first_index(names, e.labels[i]) is Some);
        }
    }
    if admissible(names, s) {
        assert forall|i: int| 0 <= i < e.dists.len() implies 0 <= e.dists[i] by {
            assert(kept_as(s, n, e.dists[i], e.labels[i]));
        }
        assert forall|i: int| 0 <= i < e.labels.len() implies first_index(
            names,
            #[trigger] e.labels[i],
        ) is Some by {
            assert(kept_as(s, n, e.dists[i], e.labels[i]));
        }
    }
}

/// The sweep for a pair of anchors succeeds on the valid pairs and on no
/// others.
pub proof fn lemma_pair_sweep_succeeds_iff_valid(names: Seq<Seq<char>>, a: Selection, b: Selection)
    requires
        a.atoms.len() <= usize::MAX,
        b.atoms.len() <= usize::MAX,
    ensures
        pair_sweep(names, a, b) is Ok <==> pair_valid(names, a, b),
{
    if covers_structure(a) && covers_structure(b) {
        lemma_neighbourhood_valid_iff_admissible(names, a);
        lemma_neighbourhood_valid_iff_admissible(names, b);
        lemma_row_sweep_succeeds_iff_valid(
            names,
            neighbourhood(a, a.atoms.len() as int),
            neighbourhood(b, b.atoms.len() as int),
        );
    }
}

/// A batch of anchor pairs over two structures, with the table of
/// distance ranks of each structure.
pub struct PairBatch {
    pub prim_a: Seq<PrimitiveAtom>,
    pub prim_b: Seq<PrimitiveAtom>,
    pub anchor_pairs: Seq<(usize, usize)>,
    pub only_hetero_contacts: bool,
    pub threshold_distance: i64,
    pub dists_a: Seq<Vec<i64>>,
    pub dists_b: Seq<Vec<i64>>,
}

impl PairBatch {
    /// Each table holds one row for each pair.
    pub open spec fn shaped(self) -> bool {
        self.dists_a.len() == self.anchor_pairs.len() && self.dists_b.len()
            == self.anchor_pairs.len()
    }

    /// The selection for the first anchor of the `k`-th pair.
    pub open spec fn first(self, k: int) -> Selection {
        Selection {
            atoms: self.prim_a,
            anchor: self.anchor_pairs[k].0 as int,
            row: self.dists_a[k]@,
            only_hetero_contacts: self.only_hetero_contacts,
            threshold_distance: self.threshold_distance,
        }
    }

    /// The selection for the second anchor of the `k`-th pair.
    pub open spec fn second(self, k: int) -> Selection {
        Selection {
            atoms: self.prim_b,
            anchor: self.anchor_pairs[k].1 as int,
            row: self.dists_b[k]@,
            only_hetero_contacts: self.only_hetero_contacts,
            threshold_distance: self.threshold_distance,
        }
    }
}

/// Collects the environment of the anchor from the points of its
/// structure.
fn environment_of(
    atoms: &Vec<PrimitiveAtom>,
    anchor: usize,
    row: &Vec<i64>,
    only_hetero_contacts: bool,
    threshold_distance: i64,
) -> (env: (Vec<String>, Vec<i64>))
    requires
        anchor < atoms.len(),
        row.len() == atoms.len(),
    ensures
        environment(env.0, env.1) == neighbourhood(
            (Selection {
                atoms: atoms@,
                anchor: anchor as int,
                row: row@,
                only_hetero_contacts,
                threshold_distance,
            }),
            atoms.len() as int,
        ),
{
    let ghost s = Selection {
        atoms: atoms@,
        anchor: anchor as int,
        row: row@,
        only_hetero_contacts,
        threshold_distance,
    };
    let mut labels: Vec<String> = Vec::new();
    let mut dists: Vec<i64> = Vec::new();
    let mut j: usize = 0;
    while j < atoms.len()
        invariant
            j <= atoms.len(),
            anchor < atoms.len(),
            row.len() == atoms.len(),
            s.atoms == atoms@,
            s.anchor == anchor,
            s.row == row@,
            s.only_hetero_contacts == only_hetero_contacts,
            s.threshold_distance == threshold_distance,
            environment(labels, dists).labels =~= neighbourhood(s, j as int).labels,
            environment(labels, dists).dists =~= neighbourhood(s, j as int).dists,
        decreases atoms.len() - j,
    {
        let ghost before = environment(labels, dists);
        if j == anchor {
            labels.push(atoms[j].primitive_type.clone());
            dists.push(0);
        } else if !(only_hetero_contacts && atoms[j].tag == atoms[anchor].tag) && row[j]
            <= threshold_distance {
            labels.push(atoms[j].primitive_type.clone());
            dists.push(row[j]);
        }
        proof {
            let after = environment(labels, dists);
            if keeps(s, j as int) {
                assert(after.labels =~= before.labels.push(atoms[j as int].primitive_type@));
            } else {
                assert(after.labels =~= before.labels);
            }
        }
        j += 1;
    }
    (labels, dists)
}

impl LoCoHD {
    /// Compares two structures of tagged points at the given pairs of
    /// anchors. Row `k` of each table holds the distance ranks from the
    /// `k`-th anchor of its structure to every point of that structure.
    ///
    /// Succeeds exactly where each table holds one row for each pair and
    /// every pair is valid. Refused with `DimensionMismatch` where a table
    /// does not hold one row for each pair; otherwise with the refusal of the
    /// first pair that is refused, if any is: `InputMismatch` where an anchor
    /// is no point of its structure or a row does not hold one rank for each
    /// point.
    pub fn from_primitives(
        &self,
        prim_a: Vec<PrimitiveAtom>,
        prim_b: Vec<PrimitiveAtom>,
        anchor_pairs: Vec<(usize, usize)>,
        only_hetero_contacts: bool,
        threshold_distance: i64,
        dists_a: Vec<Vec<i64>>,
        dists_b: Vec<Vec<i64>>,
    ) -> (r: Result<Vec<Vec<Step>>, LoCoHDError>)
        ensures
            ({
                let names = self.names();
                let batch = PairBatch {
                    prim_a: prim_a@,
                    prim_b: prim_b@,
                    anchor_pairs: anchor_pairs@,
                    only_hetero_contacts,
                    threshold_distance,
                    dists_a: dists_a@,
                    dists_b: dists_b@,
                };
                &&& r is Ok <==> batch.shaped() && forall|k: int|
                    0 <= k < anchor_pairs.len() ==> pair_valid(
                        names,
                        #[trigger] batch.first(k),
                        batch.second(k),
                    )
                &&& !batch.shaped() ==> r == Err::<Vec<Vec<Step>>, LoCoHDError>(
                    LoCoHDError::DimensionMismatch,
                )
                &&& batch.shaped() ==> match r {
                    Ok(rows) => rows.len() == anchor_pairs.len() && forall|k: int|
                        0 <= k < rows.len() ==> pair_sweep(names, batch.first(k), batch.second(k))
                            == Ok::<Seq<StepView>, LoCoHDError>(profile((#[trigger] rows[k])@)),
                    Err(e) => exists|k: int|
                        0 <= k < anchor_pairs.len() && pair_sweep(
                            names,
                            #[trigger] batch.first(k),
                            batch.second(k),
                        ) == Err::<Seq<StepView>, LoCoHDError>(e) && forall|j: int|
                            0 <= j < k ==> pair_sweep(
                                names,
                                #[trigger] batch.first(j),
                                batch.second(j),
                            ) is Ok,
                }
            }),
    {
        let ghost names = self.names();
        let ghost batch = PairBatch {
            prim_a: prim_a@,
            prim_b: prim_b@,
            anchor_pairs: anchor_pairs@,
            only_hetero_contacts,
            threshold_distance,
            dists_a: dists_a@,
            dists_b: dists_b@,
        };
        if dists_a.len() != anchor_pairs.len() || dists_b.len() != anchor_pairs.len() {
            return Err(LoCoHDError::DimensionMismatch);
        }
        let mut rows: Vec<Vec<Step>> = Vec::with_capacity(anchor_pairs.len());
        let mut k: usize = 0;
        while k < anchor_pairs.len()
            invariant
                k <= anchor_pairs.len(),
                names == self.names(),
                batch.prim_a == prim_a@,
                batch.prim_b == prim_b@,
                batch.anchor_pairs == anchor_pairs@,
                batch.only_hetero_contacts == only_hetero_contacts,
                batch.threshold_distance == threshold_distance,
                batch.dists_a == dists_a@,
                batch.dists_b == dists_b@,
                batch.shaped(),
                rows.len() == k,
                forall|j: int|
                    #![trigger rows[j]]
                    #![trigger batch.first(j)]
                    0 <= j < k ==> {
                        &&& pair_valid(names, batch.first(j), batch.second(j))
                        &&& pair_sweep(names, batch.first(j), batch.second(j)) == Ok::<
                            Seq<StepView>,
                            LoCoHDError,
                        >(profile(rows[j]@))
                    },
            decreases anchor_pairs.len() - k,
        {
            let ghost a = batch.first(k as int);
            let ghost b = batch.second(k as int);
            proof {
                assert(a.atoms.len() == prim_a.len());
                assert(b.atoms.len() == prim_b.len());
                lemma_pair_sweep_succeeds_iff_valid(names, a, b);
            }
            let pair: (usize, usize) = anchor_pairs[k];
            let row_a = &dists_a[k];
            let row_b = &dists_b[k];
            let swept = if pair.0 >= prim_a.len() || pair.1 >= prim_b.len() || row_a.len()
                != prim_a.len() || row_b.len() != prim_b.len() {
                Err(LoCoHDError::InputMismatch)
            } else {
                let (labels_a, ranks_a) = environment_of(
                    &prim_a,
                    pair.0,
                    row_a,
                    only_hetero_contacts,
                    threshold_distance,
                );
                let (labels_b, ranks_b) = environment_of(
                    &prim_b,
                    pair.1,
                    row_b,
                    only_hetero_contacts,
                    threshold_distance,
                );
                self.from_row(&labels_a, &ranks_a, &labels_b, &ranks_b)
            };
            assert(outcome(swept) == pair_sweep(names, a, b));
            match swept {
                Ok(steps) => {
                    rows.push(steps);
                },
                Err(e) => {
                    assert(!pair_valid(names, a, b));
                    return Err(e);
                },
            }
            k += 1;
        }
        Ok(rows)
    }
}

} // verus!
