use locohd::catalog::CategoryCatalog;
use locohd::error::LoCoHDError;
use locohd::range::{check_range, UpperBound};
use locohd::tracker::PairedDistributionTracker;

fn texts(list: &[&str]) -> Vec<String> {
    list.iter().map(|s| s.to_string()).collect()
}

#[test]
fn catalog_finds_each_name_at_its_position() {
    let catalog = CategoryCatalog::new(texts(&["Ca", "N", "O"]));
    assert_eq!(catalog.len(), 3);
    assert_eq!(catalog.lookup("Ca"), Some(0));
    assert_eq!(catalog.lookup("N"), Some(1));
    assert_eq!(catalog.lookup("O"), Some(2));
    assert_eq!(catalog.lookup("S"), None);
    assert_eq!(catalog.lookup(""), None);
    assert_eq!(catalog.categories(), &texts(&["Ca", "N", "O"]));
}

#[test]
fn catalog_knows_a_repeated_name_by_its_first_position() {
    let catalog = CategoryCatalog::new(texts(&["A", "B", "A", "B"]));
    assert_eq!(catalog.len(), 4);
    assert_eq!(catalog.lookup("A"), Some(0));
    assert_eq!(catalog.lookup("B"), Some(1));
}

#[test]
fn empty_catalog_holds_nothing() {
    let catalog = CategoryCatalog::new(Vec::new());
    assert_eq!(catalog.len(), 0);
    assert_eq!(catalog.lookup("A"), None);
}

#[test]
fn tracker_starts_uninitialized() {
    let catalog = CategoryCatalog::new(texts(&["A", "B"]));
    let mut tracker = PairedDistributionTracker::new(&catalog);
    assert_eq!(tracker.distributions(), Err(LoCoHDError::UninitializedDistribution));
    assert_eq!(tracker.add_to_a("A"), Ok(()));
    assert_eq!(tracker.distributions(), Err(LoCoHDError::UninitializedDistribution));
    assert_eq!(tracker.add_to_b("B"), Ok(()));
    assert_eq!(tracker.distributions(), Ok((vec![1, 0], vec![0, 1])));
}

#[test]
fn tracker_counts_each_side_by_category() {
    let catalog = CategoryCatalog::new(texts(&["A", "B", "C"]));
    let mut tracker = PairedDistributionTracker::new(&catalog);
    for label in ["A", "C", "C", "A", "C"] {
        assert_eq!(tracker.add_to_a(label), Ok(()));
    }
    for label in ["B", "B"] {
        assert_eq!(tracker.add_to_b(label), Ok(()));
    }
    assert_eq!(tracker.distributions(), Ok((vec![2, 0, 3], vec![0, 2, 0])));
}

#[test]
fn tracker_refuses_an_unknown_label_and_keeps_its_counts() {
    let catalog = CategoryCatalog::new(texts(&["A", "B"]));
    let mut tracker = PairedDistributionTracker::new(&catalog);
    assert_eq!(tracker.add_to_a("A"), Ok(()));
    assert_eq!(tracker.add_to_b("A"), Ok(()));
    assert_eq!(tracker.add_to_a("Z"), Err(LoCoHDError::InvalidCategory));
    assert_eq!(tracker.add_to_b("Z"), Err(LoCoHDError::InvalidCategory));
    assert_eq!(tracker.distributions(), Ok((vec![1, 0], vec![1, 0])));
}

#[test]
fn tracker_order_of_observations_does_not_matter() {
    let catalog = CategoryCatalog::new(texts(&["A", "B"]));
    let mut one = PairedDistributionTracker::new(&catalog);
    let mut other = PairedDistributionTracker::new(&catalog);
    for label in ["A", "B", "B"] {
        one.add_to_a(label).unwrap();
        one.add_to_b(label).unwrap();
    }
    for label in ["B", "A", "B"] {
        other.add_to_a(label).unwrap();
        other.add_to_b(label).unwrap();
    }
    assert_eq!(one.distributions(), other.distributions());
}

#[test]
fn ranges_that_can_be_weighed() {
    assert_eq!(check_range(0, UpperBound::At(0)), Ok(()));
    assert_eq!(check_range(0, UpperBound::At(7)), Ok(()));
    assert_eq!(check_range(3, UpperBound::At(3)), Ok(()));
    assert_eq!(check_range(3, UpperBound::Unbounded), Ok(()));
    assert_eq!(check_range(i64::MAX, UpperBound::Unbounded), Ok(()));
}

#[test]
fn ranges_that_cannot_be_weighed() {
    assert_eq!(check_range(4, UpperBound::At(3)), Err(LoCoHDError::InvalidRange));
    assert_eq!(check_range(-1, UpperBound::At(3)), Err(LoCoHDError::InvalidRange));
    assert_eq!(check_range(-2, UpperBound::At(-1)), Err(LoCoHDError::InvalidRange));
    assert_eq!(check_range(0, UpperBound::At(-1)), Err(LoCoHDError::InvalidRange));
    assert_eq!(check_range(-1, UpperBound::Unbounded), Err(LoCoHDError::InvalidRange));
}
