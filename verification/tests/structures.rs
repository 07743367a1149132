use locohd::comparator::LoCoHD;
use locohd::error::LoCoHDError;
use locohd::primitives::PrimitiveAtom;
use locohd::range::UpperBound;
use locohd::sorting::sort_together;
use locohd::sweep::Step;

fn words(list: &[&str]) -> Vec<String> {
    list.iter().map(|s| s.to_string()).collect()
}

fn piece(lo: i64, hi: Option<i64>, counts_a: &[usize], counts_b: &[usize]) -> Step {
    Step {
        lo,
        hi: match hi {
            Some(h) => UpperBound::At(h),
            None => UpperBound::Unbounded,
        },
        counts_a: counts_a.to_vec(),
        counts_b: counts_b.to_vec(),
    }
}

fn atom(primitive_type: &str, tag: &str) -> PrimitiveAtom {
    PrimitiveAtom { primitive_type: primitive_type.to_string(), tag: tag.to_string() }
}

#[test]
fn sorting_moves_each_label_with_its_rank() {
    let (dists, labels) = sort_together(&vec![3, 0, 2, 1], &words(&["w", "x", "y", "z"]));
    assert_eq!(dists, vec![0, 1, 2, 3]);
    assert_eq!(labels, words(&["x", "z", "y", "w"]));
}

#[test]
fn sorting_keeps_the_order_of_equal_ranks() {
    let (dists, labels) =
        sort_together(&vec![3, 1, 2, 1, 3, 1], &words(&["a", "b", "c", "d", "e", "f"]));
    assert_eq!(dists, vec![1, 1, 1, 2, 3, 3]);
    assert_eq!(labels, words(&["b", "d", "f", "c", "a", "e"]));
}

#[test]
fn sorting_nothing_gives_nothing() {
    let (dists, labels) = sort_together(&Vec::new(), &Vec::new());
    assert_eq!(dists, Vec::<i64>::new());
    assert_eq!(labels, Vec::<String>::new());
}

#[test]
fn row_is_sorted_before_it_is_swept() {
    let comparator = LoCoHD::new(words(&["A", "B"]));
    let steps = comparator
        .from_row(&words(&["B", "A"]), &vec![2, 0], &words(&["B", "A"]), &vec![1, 0])
        .unwrap();
    assert_eq!(
        steps,
        vec![
            piece(0, Some(1), &[1, 0], &[1, 0]),
            piece(1, Some(2), &[1, 0], &[1, 1]),
            piece(2, None, &[1, 1], &[1, 1]),
        ]
    );
}

#[test]
fn row_with_too_few_labels_is_a_mismatch() {
    let comparator = LoCoHD::new(words(&["A", "B"]));
    let r = comparator.from_row(&words(&["A"]), &vec![0, 1], &words(&["A"]), &vec![0]);
    assert_eq!(r, Err(LoCoHDError::InputMismatch));
    let r = comparator.from_row(&words(&["A"]), &vec![0], &words(&["A", "B"]), &vec![0]);
    assert_eq!(r, Err(LoCoHDError::InputMismatch));
}

#[test]
fn matrices_are_compared_row_by_row_in_order() {
    let comparator = LoCoHD::new(words(&["A", "B"]));
    let labels_a = words(&["A", "B", "A"]);
    let labels_b = words(&["B", "B", "A"]);
    let dmx_a = vec![vec![0, 2, 5], vec![2, 0, 3], vec![5, 3, 0]];
    let dmx_b = vec![vec![0, 1, 5], vec![1, 0, 4], vec![5, 4, 0]];
    let rows = comparator
        .from_dmxs(labels_a.clone(), labels_b.clone(), dmx_a.clone(), dmx_b.clone())
        .unwrap();
    assert_eq!(rows.len(), 3);
    assert_eq!(
        rows[0],
        vec![
            piece(0, Some(1), &[1, 0], &[0, 1]),
            piece(1, Some(2), &[1, 0], &[0, 2]),
            piece(2, Some(5), &[1, 1], &[0, 2]),
            piece(5, None, &[2, 1], &[1, 2]),
        ]
    );
    assert_eq!(
        rows[1],
        vec![
            piece(0, Some(1), &[0, 1], &[0, 1]),
            piece(1, Some(2), &[0, 1], &[0, 2]),
            piece(2, Some(3), &[1, 1], &[0, 2]),
            piece(3, Some(4), &[2, 1], &[0, 2]),
            piece(4, None, &[2, 1], &[1, 2]),
        ]
    );
    for i in 0..3 {
        let alone =
            comparator.from_row(&labels_a, &dmx_a[i], &labels_b, &dmx_b[i]).unwrap();
        assert_eq!(rows[i], alone);
    }
}

#[test]
fn many_rows_come_back_in_the_order_they_went_in() {
    let comparator = LoCoHD::new(words(&["A"]));
    let labels = words(&["A", "A"]);
    let n: i64 = 200;
    let dmx_a: Vec<Vec<i64>> = (0..n).map(|i| vec![0, i + 1]).collect();
    let dmx_b: Vec<Vec<i64>> = (0..n).map(|i| vec![0, 2 * i + 1]).collect();
    let rows = comparator.from_dmxs(labels.clone(), labels, dmx_a, dmx_b).unwrap();
    assert_eq!(rows.len(), 200);
    for (i, row) in rows.iter().enumerate() {
        let i = i as i64;
        assert_eq!(row[0], piece(0, Some(i + 1), &[1], &[1]));
        assert_eq!(row[row.len() - 1].lo, 2 * i + 1);
    }
}

#[test]
fn matrices_with_different_row_counts_are_refused() {
    let comparator = LoCoHD::new(words(&["A"]));
    let r = comparator.from_dmxs(words(&["A"]), words(&["A"]), vec![vec![0], vec![0]], vec![vec![0]]);
    assert_eq!(r, Err(LoCoHDError::DimensionMismatch));
    let r = comparator.from_dmxs(words(&["A"]), words(&["A"]), vec![], vec![vec![0]]);
    assert_eq!(r, Err(LoCoHDError::DimensionMismatch));
}

#[test]
fn empty_matrices_give_no_rows() {
    let comparator = LoCoHD::new(words(&["A"]));
    let r = comparator.from_dmxs(words(&["A"]), words(&["A"]), vec![], vec![]);
    assert_eq!(r, Ok(vec![]));
}

#[test]
fn first_refused_row_decides_the_refusal() {
    let comparator = LoCoHD::new(words(&["A", "B"]));
    let labels_a = words(&["A", "X"]);
    let labels_b = words(&["A", "B"]);
    let dmx_a = vec![vec![0, 1], vec![1, 0], vec![0, 1]];
    let dmx_b = vec![vec![0, 1], vec![0, 1], vec![1, 2]];
    let r = comparator.from_dmxs(labels_a.clone(), labels_b.clone(), dmx_a, dmx_b);
    assert_eq!(r, Err(LoCoHDError::InvalidCategory));
    let dmx_a = vec![vec![0], vec![0, 1]];
    let dmx_b = vec![vec![0, 1], vec![0, 1]];
    let r = comparator.from_dmxs(labels_a, labels_b, dmx_a, dmx_b);
    assert_eq!(r, Err(LoCoHDError::InputMismatch));
    let labels = words(&["A", "B"]);
    let r = comparator.from_dmxs(
        labels.clone(),
        labels,
        vec![vec![0, 1], vec![3, 1]],
        vec![vec![0, 1], vec![0, 1]],
    );
    assert_eq!(r, Err(LoCoHDError::InputMismatch));
}

#[test]
fn environment_keeps_points_within_the_threshold() {
    let comparator = LoCoHD::new(words(&["A", "B"]));
    let prim_a = vec![atom("A", "t1"), atom("B", "t1"), atom("A", "t2"), atom("B", "t2")];
    let prim_b = vec![atom("B", "u1")];
    let rows = comparator
        .from_primitives(
            prim_a,
            prim_b,
            vec![(0, 0)],
            false,
            5,
            vec![vec![9, 1, 2, 7]],
            vec![vec![0]],
        )
        .unwrap();
    assert_eq!(
        rows,
        vec![vec![
            piece(0, Some(1), &[1, 0], &[0, 1]),
            piece(1, Some(2), &[1, 1], &[0, 1]),
            piece(2, None, &[2, 1], &[0, 1]),
        ]]
    );
}

#[test]
fn environment_skips_points_of_the_anchors_own_group() {
    let comparator = LoCoHD::new(words(&["A", "B"]));
    let prim_a = vec![atom("A", "t1"), atom("B", "t1"), atom("A", "t2"), atom("B", "t2")];
    let prim_b = vec![atom("B", "u1"), atom("A", "u1")];
    let rows = comparator
        .from_primitives(
            prim_a,
            prim_b,
            vec![(0, 0), (3, 1)],
            true,
            5,
            vec![vec![0, 1, 2, 7], vec![7, 4, 3, 0]],
            vec![vec![0, 1], vec![1, 0]],
        )
        .unwrap();
    assert_eq!(
        rows,
        vec![
            vec![piece(0, Some(2), &[1, 0], &[0, 1]), piece(2, None, &[2, 0], &[0, 1])],
            vec![piece(0, Some(4), &[0, 1], &[1, 0]), piece(4, None, &[0, 2], &[1, 0])],
        ]
    );
}

#[test]
fn anchor_outside_its_structure_is_a_mismatch() {
    let comparator = LoCoHD::new(words(&["A"]));
    let r = comparator.from_primitives(
        vec![atom("A", "t")],
        vec![atom("A", "t")],
        vec![(0, 0), (1, 0)],
        false,
        10,
        vec![vec![0], vec![0]],
        vec![vec![0], vec![0]],
    );
    assert_eq!(r, Err(LoCoHDError::InputMismatch));
}

#[test]
fn row_of_ranks_must_cover_the_structure() {
    let comparator = LoCoHD::new(words(&["A"]));
    let r = comparator.from_primitives(
        vec![atom("A", "t"), atom("A", "u")],
        vec![atom("A", "t")],
        vec![(0, 0)],
        false,
        10,
        vec![vec![0]],
        vec![vec![0]],
    );
    assert_eq!(r, Err(LoCoHDError::InputMismatch));
}

#[test]
fn table_of_ranks_must_hold_a_row_for_each_pair() {
    let comparator = LoCoHD::new(words(&["A"]));
    let r = comparator.from_primitives(
        vec![atom("A", "t")],
        vec![atom("A", "t")],
        vec![(0, 0)],
        false,
        10,
        vec![],
        vec![vec![0]],
    );
    assert_eq!(r, Err(LoCoHDError::DimensionMismatch));
    let r = comparator.from_primitives(
        vec![atom("A", "t")],
        vec![atom("A", "t")],
        vec![(0, 0)],
        false,
        10,
        vec![vec![0]],
        vec![vec![0], vec![0]],
    );
    assert_eq!(r, Err(LoCoHDError::DimensionMismatch));
}

#[test]
fn no_anchor_pairs_give_no_rows() {
    let comparator = LoCoHD::new(words(&["A"]));
    let r = comparator.from_primitives(vec![], vec![], vec![], true, 0, vec![], vec![]);
    assert_eq!(r, Ok(vec![]));
}

#[test]
fn unknown_type_of_a_kept_point_is_an_invalid_category() {
    let comparator = LoCoHD::new(words(&["A"]));
    let r = comparator.from_primitives(
        vec![atom("A", "t"), atom("Q", "u")],
        vec![atom("A", "t")],
        vec![(0, 0)],
        false,
        10,
        vec![vec![0, 3]],
        vec![vec![0]],
    );
    assert_eq!(r, Err(LoCoHDError::InvalidCategory));
    let r = comparator.from_primitives(
        vec![atom("A", "t"), atom("Q", "u")],
        vec![atom("A", "t")],
        vec![(0, 0)],
        false,
        2,
        vec![vec![0, 3]],
        vec![vec![0]],
    );
    assert_eq!(r, Ok(vec![vec![piece(0, None, &[1], &[1])]]));
}

#[test]
fn atom_clone_is_equal() {
    let a = atom("Ca", "chain-1");
    assert_eq!(a.clone(), a);
}

#[test]
fn kept_point_at_a_negative_rank_is_a_mismatch() {
    let comparator = LoCoHD::new(words(&["A"]));
    let r = comparator.from_primitives(
        vec![atom("A", "t"), atom("A", "u")],
        vec![atom("A", "t")],
        vec![(0, 0)],
        false,
        10,
        vec![vec![0, -3]],
        vec![vec![0]],
    );
    assert_eq!(r, Err(LoCoHDError::InputMismatch));
    let r = comparator.from_primitives(
        vec![atom("A", "t"), atom("A", "t")],
        vec![atom("A", "t")],
        vec![(0, 0)],
        true,
        10,
        vec![vec![0, -3]],
        vec![vec![0]],
    );
    assert_eq!(r, Ok(vec![vec![piece(0, None, &[1], &[1])]]));
}

#[test]
fn row_without_a_point_at_rank_zero_is_a_mismatch() {
    let comparator = LoCoHD::new(words(&["A"]));
    let r = comparator.from_row(&words(&["A", "A"]), &vec![2, 1], &words(&["A"]), &vec![0]);
    assert_eq!(r, Err(LoCoHDError::InputMismatch));
    let r = comparator.from_row(&words(&["A", "A"]), &vec![2, 0], &words(&["A"]), &vec![0]);
    assert!(r.is_ok());
}
