use locohd::comparator::LoCoHD;
use locohd::error::LoCoHDError;
use locohd::range::UpperBound;
use locohd::sweep::Step;

fn names(list: &[&str]) -> Vec<String> {
    list.iter().map(|s| s.to_string()).collect()
}

fn step(lo: i64, hi: Option<i64>, counts_a: &[usize], counts_b: &[usize]) -> Step {
    Step {
        lo,
        hi: match hi {
            Some(h) => UpperBound::At(h),
            None => UpperBound::Unbounded,
        },
        counts_a: counts_a.to_vec(),
        counts_b: counts_b.to_vec(),
    }
}

fn hellinger(a: &[usize], b: &[usize]) -> f64 {
    let total_a: usize = a.iter().sum();
    let total_b: usize = b.iter().sum();
    let mut acc = 0.0f64;
    for i in 0..a.len() {
        let p = a[i] as f64 / total_a as f64;
        let q = b[i] as f64 / total_b as f64;
        acc += (p.sqrt() - q.sqrt()).powi(2);
    }
    (0.5 * acc).sqrt()
}

fn width(s: &Step) -> f64 {
    match s.hi {
        UpperBound::At(h) => (h - s.lo) as f64,
        UpperBound::Unbounded => 0.0,
    }
}

fn histogram_within(catalog: &[&str], labels: &[&str], dists: &[i64], r: i64) -> Vec<usize> {
    let mut counts = vec![0usize; catalog.len()];
    for (label, d) in labels.iter().zip(dists) {
        if *d <= r {
            let k = catalog.iter().position(|c| c == label).unwrap();
            counts[k] += 1;
        }
    }
    counts
}

#[test]
fn golden_trace_of_two_short_environments() {
    let comparator = LoCoHD::new(names(&["A", "B"]));
    let steps = comparator
        .from_anchors(names(&["A", "B"]), vec![0, 2], names(&["A", "B"]), vec![0, 1])
        .unwrap();
    assert_eq!(
        steps,
        vec![
            step(0, Some(1), &[1, 0], &[1, 0]),
            step(1, Some(2), &[1, 0], &[1, 1]),
            step(2, None, &[1, 1], &[1, 1]),
        ]
    );
    let h: Vec<f64> = steps.iter().map(|s| hellinger(&s.counts_a, &s.counts_b)).collect();
    assert_eq!(h[0], 0.0);
    assert!((h[1] - (1.0 - 0.5f64.sqrt()).sqrt()).abs() < 1e-12);
    assert_eq!(h[2], 0.0);
    let total: f64 = steps.iter().map(|s| width(s) * hellinger(&s.counts_a, &s.counts_b)).sum();
    assert!((total - 0.541_196_100_146_197).abs() < 1e-12);
}

#[test]
fn tie_advances_both_sides_at_once() {
    let comparator = LoCoHD::new(names(&["A", "B"]));
    let steps = comparator
        .from_anchors(names(&["A", "B", "A"]), vec![0, 1, 3], names(&["B", "A", "B"]), vec![0, 1, 2])
        .unwrap();
    assert_eq!(
        steps,
        vec![
            step(0, Some(1), &[1, 0], &[0, 1]),
            step(1, Some(2), &[1, 1], &[1, 1]),
            step(2, Some(3), &[1, 1], &[1, 2]),
            step(3, None, &[2, 1], &[1, 2]),
        ]
    );
}

#[test]
fn anchors_alone_give_one_unbounded_piece() {
    let comparator = LoCoHD::new(names(&["A", "B"]));
    let steps = comparator.from_anchors(names(&["A"]), vec![0], names(&["B"]), vec![0]).unwrap();
    assert_eq!(steps, vec![step(0, None, &[1, 0], &[0, 1])]);
    assert_eq!(hellinger(&steps[0].counts_a, &steps[0].counts_b), 1.0);
}

#[test]
fn tied_farthest_neighbours_end_without_more_pieces() {
    let comparator = LoCoHD::new(names(&["A", "B"]));
    let steps = comparator
        .from_anchors(names(&["A", "B"]), vec![0, 4], names(&["A", "A"]), vec![0, 4])
        .unwrap();
    assert_eq!(steps, vec![step(0, Some(4), &[1, 0], &[1, 0]), step(4, None, &[1, 1], &[2, 0])]);
}

#[test]
fn equal_ranks_on_one_side_give_an_empty_piece() {
    let comparator = LoCoHD::new(names(&["A", "B"]));
    let steps = comparator
        .from_anchors(names(&["A", "B", "B"]), vec![0, 1, 1], names(&["A", "B"]), vec![0, 1])
        .unwrap();
    assert_eq!(
        steps,
        vec![
            step(0, Some(1), &[1, 0], &[1, 0]),
            step(1, Some(1), &[1, 1], &[1, 1]),
            step(1, None, &[1, 2], &[1, 1]),
        ]
    );
}

#[test]
fn longer_side_is_finished_one_neighbour_at_a_time() {
    let comparator = LoCoHD::new(names(&["A", "B", "C"]));
    let steps = comparator
        .from_anchors(names(&["C"]), vec![0], names(&["A", "B", "C", "C"]), vec![0, 3, 5, 8])
        .unwrap();
    assert_eq!(
        steps,
        vec![
            step(0, Some(3), &[0, 0, 1], &[1, 0, 0]),
            step(3, Some(5), &[0, 0, 1], &[1, 1, 0]),
            step(5, Some(8), &[0, 0, 1], &[1, 1, 1]),
            step(8, None, &[0, 0, 1], &[1, 1, 2]),
        ]
    );
}

#[test]
fn first_distance_must_be_zero() {
    let comparator = LoCoHD::new(names(&["A", "B"]));
    let r = comparator.from_anchors(names(&["A"]), vec![1], names(&["A"]), vec![0]);
    assert_eq!(r, Err(LoCoHDError::InputMismatch));
    let r = comparator.from_anchors(names(&["A"]), vec![0], names(&["A"]), vec![-1]);
    assert_eq!(r, Err(LoCoHDError::InputMismatch));
}

#[test]
fn labels_and_distances_must_pair_up() {
    let comparator = LoCoHD::new(names(&["A", "B"]));
    let r = comparator.from_anchors(names(&["A", "B"]), vec![0], names(&["A"]), vec![0]);
    assert_eq!(r, Err(LoCoHDError::InputMismatch));
    let r = comparator.from_anchors(names(&["A"]), vec![0], names(&["A"]), vec![0, 1]);
    assert_eq!(r, Err(LoCoHDError::InputMismatch));
}

#[test]
fn empty_environment_is_a_mismatch() {
    let comparator = LoCoHD::new(names(&["A"]));
    let r = comparator.from_anchors(names(&[]), vec![], names(&["A"]), vec![0]);
    assert_eq!(r, Err(LoCoHDError::InputMismatch));
    let r = comparator.from_anchors(names(&["A"]), vec![0], names(&[]), vec![]);
    assert_eq!(r, Err(LoCoHDError::InputMismatch));
}

#[test]
fn unknown_label_is_an_invalid_category() {
    let comparator = LoCoHD::new(names(&["A", "B"]));
    let r = comparator.from_anchors(names(&["X"]), vec![0], names(&["A"]), vec![0]);
    assert_eq!(r, Err(LoCoHDError::InvalidCategory));
    let r = comparator.from_anchors(names(&["A"]), vec![0], names(&["A", "B", "X"]), vec![0, 1, 2]);
    assert_eq!(r, Err(LoCoHDError::InvalidCategory));
    let r = comparator
        .from_anchors(names(&["A", "X"]), vec![0, 1], names(&["A", "B"]), vec![0, 1]);
    assert_eq!(r, Err(LoCoHDError::InvalidCategory));
}

#[test]
fn falling_or_negative_rank_is_an_invalid_range() {
    let comparator = LoCoHD::new(names(&["A"]));
    let r = comparator.from_anchors(names(&["A", "A", "A"]), vec![0, 5, 3], names(&["A"]), vec![0]);
    assert_eq!(r, Err(LoCoHDError::InvalidRange));
    let r = comparator.from_anchors(names(&["A", "A"]), vec![0, -1], names(&["A"]), vec![0]);
    assert_eq!(r, Err(LoCoHDError::InvalidRange));
    let r = comparator
        .from_anchors(names(&["A", "A"]), vec![0, 2], names(&["A", "A", "A"]), vec![0, 4, 1]);
    assert_eq!(r, Err(LoCoHDError::InvalidRange));
}

#[test]
fn label_is_looked_up_first_while_both_sides_have_neighbours_left() {
    let comparator = LoCoHD::new(names(&["A"]));
    let r = comparator
        .from_anchors(names(&["A", "X"]), vec![0, -1], names(&["A", "A"]), vec![0, 5]);
    assert_eq!(r, Err(LoCoHDError::InvalidCategory));
}

#[test]
fn range_is_weighed_first_once_a_side_is_exhausted() {
    let comparator = LoCoHD::new(names(&["A"]));
    let r = comparator.from_anchors(names(&["A", "X"]), vec![0, -1], names(&["A"]), vec![0]);
    assert_eq!(r, Err(LoCoHDError::InvalidRange));
}

#[test]
fn identical_environments_never_differ() {
    let comparator = LoCoHD::new(names(&["A", "B", "C"]));
    let labels = names(&["B", "A", "C", "C", "A"]);
    let dists = vec![0, 1, 1, 4, 9];
    let steps = comparator.from_anchors(labels.clone(), dists.clone(), labels, dists).unwrap();
    assert_eq!(steps.len(), 5);
    for s in &steps {
        assert_eq!(s.counts_a, s.counts_b);
        assert_eq!(hellinger(&s.counts_a, &s.counts_b), 0.0);
    }
}

#[test]
fn exchanging_the_environments_exchanges_the_sides() {
    let comparator = LoCoHD::new(names(&["A", "B", "C"]));
    let labels_a = names(&["A", "B", "C", "A"]);
    let dists_a = vec![0, 2, 2, 7];
    let labels_b = names(&["C", "C", "B"]);
    let dists_b = vec![0, 2, 5];
    let forth = comparator
        .from_anchors(labels_a.clone(), dists_a.clone(), labels_b.clone(), dists_b.clone())
        .unwrap();
    let back = comparator.from_anchors(labels_b, dists_b, labels_a, dists_a).unwrap();
    assert_eq!(forth.len(), back.len());
    for (f, b) in forth.iter().zip(&back) {
        assert_eq!(f.lo, b.lo);
        assert_eq!(f.hi, b.hi);
        assert_eq!(f.counts_a, b.counts_b);
        assert_eq!(f.counts_b, b.counts_a);
        assert_eq!(hellinger(&f.counts_a, &f.counts_b), hellinger(&b.counts_a, &b.counts_b));
    }
    let r = comparator.from_anchors(names(&["A", "X"]), vec![0, 1], names(&["A"]), vec![0]);
    let s = comparator.from_anchors(names(&["A"]), vec![0], names(&["A", "X"]), vec![0, 1]);
    assert_eq!(r, Err(LoCoHDError::InvalidCategory));
    assert_eq!(s, Err(LoCoHDError::InvalidCategory));
}

#[test]
fn pieces_tile_the_axis_and_hold_both_distributions() {
    let comparator = LoCoHD::new(names(&["A", "B"]));
    let steps = comparator
        .from_anchors(
            names(&["A", "B", "B", "A"]),
            vec![0, 3, 3, 6],
            names(&["B", "A", "A"]),
            vec![0, 1, 6],
        )
        .unwrap();
    assert_eq!(steps[0].lo, 0);
    assert_eq!(steps[steps.len() - 1].hi, UpperBound::Unbounded);
    for k in 0..steps.len() - 1 {
        assert_eq!(steps[k].hi, UpperBound::At(steps[k + 1].lo));
        assert!(steps[k].lo <= steps[k + 1].lo);
    }
    for s in &steps {
        assert_eq!(s.counts_a.len(), 2);
        assert_eq!(s.counts_b.len(), 2);
        assert!(s.counts_a.iter().sum::<usize>() >= 1);
        assert!(s.counts_b.iter().sum::<usize>() >= 1);
        let h = hellinger(&s.counts_a, &s.counts_b);
        assert!(h.is_finite() && (0.0..=1.0).contains(&h));
    }
}

#[test]
fn single_pass_agrees_with_counting_at_every_boundary() {
    let catalog = ["A", "B", "C"];
    let labels_a = ["A", "C", "B", "B", "A"];
    let dists_a = [0i64, 2, 2, 5, 9];
    let labels_b = ["B", "A", "C", "C"];
    let dists_b = [0i64, 2, 3, 9];
    let comparator = LoCoHD::new(names(&catalog));
    let steps = comparator
        .from_anchors(names(&labels_a), dists_a.to_vec(), names(&labels_b), dists_b.to_vec())
        .unwrap();
    for s in &steps {
        let last = match s.hi {
            UpperBound::At(h) => h - 1,
            UpperBound::Unbounded => s.lo + 100,
        };
        for r in [s.lo, last] {
            if s.lo <= r && r <= last {
                assert_eq!(s.counts_a, histogram_within(&catalog, &labels_a, &dists_a, r));
                assert_eq!(s.counts_b, histogram_within(&catalog, &labels_b, &dists_b, r));
            }
        }
    }
    let mut boundaries: Vec<i64> = dists_a.iter().chain(dists_b.iter()).copied().collect();
    boundaries.sort();
    boundaries.dedup();
    let mut brute = 0.0f64;
    for w in boundaries.windows(2) {
        let a = histogram_within(&catalog, &labels_a, &dists_a, w[0]);
        let b = histogram_within(&catalog, &labels_b, &dists_b, w[0]);
        brute += (w[1] - w[0]) as f64 * hellinger(&a, &b);
    }
    let single: f64 = steps.iter().map(|s| width(s) * hellinger(&s.counts_a, &s.counts_b)).sum();
    assert!((single - brute).abs() < 1e-12);
    assert!(single.is_finite() && single >= 0.0);
}

#[test]
fn categories_can_be_read_and_replaced() {
    let mut comparator = LoCoHD::new(names(&["A", "B"]));
    assert_eq!(comparator.categories(), &names(&["A", "B"]));
    let r = comparator.from_anchors(names(&["C"]), vec![0], names(&["C"]), vec![0]);
    assert_eq!(r, Err(LoCoHDError::InvalidCategory));
    comparator.set_categories(names(&["C"]));
    assert_eq!(comparator.categories(), &names(&["C"]));
    let steps = comparator.from_anchors(names(&["C"]), vec![0], names(&["C"]), vec![0]).unwrap();
    assert_eq!(steps, vec![step(0, None, &[1], &[1])]);
}

#[test]
fn step_clone_is_equal() {
    let s = step(3, Some(8), &[1, 2], &[0, 4]);
    assert_eq!(s.clone(), s);
}
