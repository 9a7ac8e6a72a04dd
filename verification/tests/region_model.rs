use lifetime_analyzer::diagnostic::AnalysisError;
use lifetime_analyzer::region::{Extent, RegionTree};

#[test]
fn nested_regions_contain_each_other() {
    let mut tree = RegionTree::new();
    let root = tree.open_region(None).unwrap();
    let a = tree.open_region(Some(root)).unwrap();
    let b = tree.open_region(Some(a)).unwrap();
    assert_eq!((root, a, b), (0, 1, 2));
    assert!(tree.contains(root, b));
    assert!(tree.contains(a, b));
    assert!(tree.contains(b, b));
    assert!(!tree.contains(b, a));
    assert_eq!(tree.compare_extent(root, b), Extent::AContainsB);
    assert_eq!(tree.compare_extent(b, a), Extent::BContainsA);
}

#[test]
fn closing_a_region_with_open_children_is_refused() {
    let mut tree = RegionTree::new();
    let root = tree.open_region(None).unwrap();
    let a = tree.open_region(Some(root)).unwrap();
    assert_eq!(
        tree.close_region(root),
        Err(AnalysisError::RegionContractViolation { region: root })
    );
    assert_eq!(tree.close_region(a), Ok(()));
    assert_eq!(tree.close_region(root), Ok(()));
    assert_eq!(
        tree.close_region(root),
        Err(AnalysisError::RegionContractViolation { region: root })
    );
}
