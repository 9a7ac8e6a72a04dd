use lifetime_analyzer::binding::{BindingState, BindingTable, DeclaredType};
use lifetime_analyzer::borrow::BorrowTracker;
use lifetime_analyzer::diagnostic::AnalysisError;
use lifetime_analyzer::region::RegionTree;

struct Parts {
    regions: RegionTree,
    bindings: BindingTable,
    borrows: BorrowTracker,
    root: usize,
}

fn parts() -> Parts {
    let mut regions = RegionTree::new();
    let root = regions.open_region(None).unwrap();
    Parts { regions, bindings: BindingTable::new(), borrows: BorrowTracker::new(), root }
}

#[test]
fn two_shared_borrows_released_then_move_succeeds() {
    let mut p = parts();
    let data = p.bindings.declare(&p.regions, 1, p.root, DeclaredType::Owned).unwrap();
    let first = p.borrows.borrow_shared(&mut p.bindings, &p.regions, data, p.root).unwrap();
    let second = p.borrows.borrow_shared(&mut p.bindings, &p.regions, data, p.root).unwrap();
    assert_eq!((first, second), (0, 1));
    assert_eq!(p.bindings.get(data).unwrap().shared, 2);
    assert_eq!(p.bindings.move_out(data), Err(AnalysisError::CannotMoveBorrowed { binding: data }));
    assert!(p.borrows.release(&mut p.bindings, first));
    assert_eq!(p.bindings.move_out(data), Err(AnalysisError::CannotMoveBorrowed { binding: data }));
    assert!(p.borrows.release(&mut p.bindings, second));
    assert_eq!(p.bindings.get(data).unwrap().shared, 0);
    assert_eq!(p.bindings.move_out(data), Ok(()));
    assert_eq!(p.bindings.get(data).unwrap().state, BindingState::Moved);
}

#[test]
fn shared_borrow_during_an_exclusive_borrow_conflicts() {
    let mut p = parts();
    let x = p.bindings.declare(&p.regions, 7, p.root, DeclaredType::Owned).unwrap();
    let held = p.borrows.borrow_exclusive(&mut p.bindings, &p.regions, x, p.root).unwrap();
    assert_eq!(
        p.borrows.borrow_shared(&mut p.bindings, &p.regions, x, p.root),
        Err(AnalysisError::ConflictingBorrow { binding: x, region: p.root })
    );
    assert_eq!(p.borrows.len(), 1);
    assert!(p.borrows.release(&mut p.bindings, held));
    assert_eq!(p.borrows.borrow_shared(&mut p.bindings, &p.regions, x, p.root), Ok(1));
}

#[test]
fn exclusive_borrow_conflicts_with_any_borrow() {
    let mut p = parts();
    let x = p.bindings.declare(&p.regions, 7, p.root, DeclaredType::Owned).unwrap();
    let y = p.bindings.declare(&p.regions, 8, p.root, DeclaredType::Owned).unwrap();
    let shared = p.borrows.borrow_shared(&mut p.bindings, &p.regions, x, p.root).unwrap();
    assert_eq!(
        p.borrows.borrow_exclusive(&mut p.bindings, &p.regions, x, p.root),
        Err(AnalysisError::ConflictingBorrow { binding: x, region: p.root })
    );
    // another binding is not touched by the borrows of the first
    let other = p.borrows.borrow_exclusive(&mut p.bindings, &p.regions, y, p.root).unwrap();
    assert_eq!(
        p.borrows.borrow_exclusive(&mut p.bindings, &p.regions, y, p.root),
        Err(AnalysisError::ConflictingBorrow { binding: y, region: p.root })
    );
    assert!(p.borrows.release(&mut p.bindings, shared));
    assert!(p.borrows.borrow_exclusive(&mut p.bindings, &p.regions, x, p.root).is_ok());
    assert!(p.borrows.is_active(other));
    assert_eq!(p.bindings.get(y).unwrap().exclusive, 1);
    assert_eq!(p.bindings.get(x).unwrap().exclusive, 1);
    assert_eq!(p.bindings.get(x).unwrap().shared, 0);
}

#[test]
fn release_takes_out_one_entry_once() {
    let mut p = parts();
    let x = p.bindings.declare(&p.regions, 7, p.root, DeclaredType::Owned).unwrap();
    let a = p.borrows.borrow_shared(&mut p.bindings, &p.regions, x, p.root).unwrap();
    let _b = p.borrows.borrow_shared(&mut p.bindings, &p.regions, x, p.root).unwrap();
    assert!(p.borrows.release(&mut p.bindings, a));
    assert_eq!(p.bindings.get(x).unwrap().shared, 1);
    assert!(!p.borrows.release(&mut p.bindings, a));
    assert!(!p.borrows.release(&mut p.bindings, 17));
    assert_eq!(p.bindings.get(x).unwrap().shared, 1);
    assert!(!p.borrows.is_active(a));
    assert_eq!(p.borrows.get(a).unwrap().binding, x);
}

#[test]
fn moved_binding_cannot_be_borrowed() {
    let mut p = parts();
    let x = p.bindings.declare(&p.regions, 7, p.root, DeclaredType::Owned).unwrap();
    assert_eq!(p.bindings.move_out(x), Ok(()));
    assert_eq!(
        p.borrows.borrow_shared(&mut p.bindings, &p.regions, x, p.root),
        Err(AnalysisError::UseAfterMove { binding: x })
    );
    assert_eq!(p.bindings.read(x), Err(AnalysisError::UseAfterMove { binding: x }));
    assert_eq!(p.bindings.move_out(x), Err(AnalysisError::UseAfterMove { binding: x }));
}

#[test]
fn borrow_into_a_closed_region_is_refused() {
    let mut p = parts();
    let x = p.bindings.declare(&p.regions, 7, p.root, DeclaredType::Owned).unwrap();
    let inner = p.regions.open_region(Some(p.root)).unwrap();
    p.regions.close_region(inner).unwrap();
    assert_eq!(
        p.borrows.borrow_shared(&mut p.bindings, &p.regions, x, inner),
        Err(AnalysisError::RegionContractViolation { region: inner })
    );
    assert_eq!(
        p.bindings.declare(&p.regions, 9, inner, DeclaredType::Owned),
        Err(AnalysisError::RegionContractViolation { region: inner })
    );
}

#[test]
fn closing_a_region_ends_its_borrows() {
    let mut p = parts();
    let x = p.bindings.declare(&p.regions, 7, p.root, DeclaredType::Owned).unwrap();
    let inner = p.regions.open_region(Some(p.root)).unwrap();
    let kept = p.borrows.borrow_shared(&mut p.bindings, &p.regions, x, p.root).unwrap();
    let a = p.borrows.borrow_shared(&mut p.bindings, &p.regions, x, inner).unwrap();
    let b = p.borrows.borrow_shared(&mut p.bindings, &p.regions, x, inner).unwrap();
    p.borrows.expire_region(&mut p.bindings, inner);
    assert!(p.borrows.is_active(kept));
    assert!(!p.borrows.is_active(a));
    assert!(!p.borrows.is_active(b));
    assert_eq!(p.bindings.get(x).unwrap().shared, 1);
}

#[test]
fn partial_move_leaves_the_other_fields_readable() {
    let mut p = parts();
    let data = p.bindings.declare(&p.regions, 3, p.root, DeclaredType::Owned).unwrap();
    assert_eq!(p.bindings.read(data), Ok(()));
    assert_eq!(p.bindings.partial_move(data, 0), Ok(()));
    assert_eq!(p.bindings.get(data).unwrap().state, BindingState::PartiallyMoved);
    assert_eq!(p.bindings.read_field(data, 1), Ok(()));
    assert_eq!(
        p.bindings.read_field(data, 0),
        Err(AnalysisError::UseOfPartiallyMoved { binding: data, field: 0 })
    );
    assert_eq!(p.bindings.read(data), Err(AnalysisError::UseOfPartiallyMoved { binding: data, field: 0 }));
    assert_eq!(
        p.bindings.partial_move(data, 0),
        Err(AnalysisError::UseOfPartiallyMoved { binding: data, field: 0 })
    );
    assert_eq!(p.bindings.partial_move(data, 1), Ok(()));
    assert_eq!(
        p.bindings.move_out(data),
        Err(AnalysisError::UseOfPartiallyMoved { binding: data, field: 0 })
    );
}

#[test]
fn borrowed_binding_gives_up_no_field() {
    let mut p = parts();
    let data = p.bindings.declare(&p.regions, 3, p.root, DeclaredType::Owned).unwrap();
    let held = p.borrows.borrow_shared(&mut p.bindings, &p.regions, data, p.root).unwrap();
    assert_eq!(p.bindings.partial_move(data, 1), Err(AnalysisError::CannotMoveBorrowed { binding: data }));
    assert!(p.borrows.release(&mut p.bindings, held));
    assert_eq!(p.bindings.partial_move(data, 1), Ok(()));
    assert_eq!(
        p.borrows.borrow_shared(&mut p.bindings, &p.regions, data, p.root),
        Err(AnalysisError::UseOfPartiallyMoved { binding: data, field: 1 })
    );
}
