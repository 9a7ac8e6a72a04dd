use lifetime_analyzer::binding::{BindingState, DeclaredType};
use lifetime_analyzer::checker::Checker;
use lifetime_analyzer::diagnostic::AnalysisError;
use lifetime_analyzer::lifetime::{Lifetime, Mutability};
use lifetime_analyzer::signature::{SignatureType, StructDef};

fn with_root() -> (Checker, usize) {
    let mut checker = Checker::new();
    let root = checker.open_region(None).unwrap();
    (checker, root)
}

#[test]
fn scenario_two_shared_borrows_released_before_move() {
    let (mut checker, root) = with_root();
    let data = checker.declare(1, root, DeclaredType::Owned).unwrap();
    let first = checker.borrow_shared(data, root).unwrap();
    let second = checker.borrow_shared(data, root).unwrap();
    assert!(checker.release(first));
    assert!(checker.release(second));
    assert_eq!(checker.move_out(data), Ok(()));
    assert_eq!(checker.bindings().get(data).unwrap().state, BindingState::Moved);
}

#[test]
fn scenario_shared_borrow_while_exclusive_borrow_is_outstanding() {
    let (mut checker, root) = with_root();
    let x = checker.declare(1, root, DeclaredType::Owned).unwrap();
    checker.borrow_exclusive(x, root).unwrap();
    assert_eq!(
        checker.borrow_shared(x, root),
        Err(AnalysisError::ConflictingBorrow { binding: x, region: root })
    );
}

#[test]
fn scenario_second_exclusive_borrow_conflicts() {
    let (mut checker, root) = with_root();
    let x = checker.declare(1, root, DeclaredType::Owned).unwrap();
    checker.borrow_exclusive(x, root).unwrap();
    assert_eq!(
        checker.borrow_exclusive(x, root),
        Err(AnalysisError::ConflictingBorrow { binding: x, region: root })
    );
}

#[test]
fn scenario_struct_destructured_field_moved_other_field_read() {
    // struct S<'a, 'b> { a: &'a T, b: &'b T }
    let definition = StructDef {
        lifetimes: 2,
        fields: vec![
            SignatureType::Reference { lifetime: Some(0), mutability: Mutability::Shared },
            SignatureType::Reference { lifetime: Some(1), mutability: Mutability::Shared },
        ],
    };
    assert_eq!(definition.check(), Ok(()));
    let (mut checker, root) = with_root();
    let data = checker.declare(5, root, DeclaredType::Owned).unwrap();
    assert_eq!(checker.partial_move(data, 0), Ok(()));
    assert_eq!(checker.read_field(data, 1), Ok(()));
    assert_eq!(
        checker.read(data),
        Err(AnalysisError::UseOfPartiallyMoved { binding: data, field: 0 })
    );
}

#[test]
fn whole_read_names_the_field_moved_first() {
    let (mut checker, root) = with_root();
    let other = checker.declare(4, root, DeclaredType::Owned).unwrap();
    let data = checker.declare(5, root, DeclaredType::Owned).unwrap();
    assert_eq!(checker.partial_move(other, 9), Ok(()));
    assert_eq!(checker.partial_move(data, 3), Ok(()));
    assert_eq!(checker.partial_move(data, 1), Ok(()));
    assert_eq!(
        checker.read(data),
        Err(AnalysisError::UseOfPartiallyMoved { binding: data, field: 3 })
    );
    assert_eq!(
        checker.read(other),
        Err(AnalysisError::UseOfPartiallyMoved { binding: other, field: 9 })
    );
    assert_eq!(checker.read_field(data, 9), Ok(()));
}

#[test]
fn randomized_borrows_keep_the_rule_of_exclusivity() {
    let (mut checker, root) = with_root();
    let bindings: Vec<usize> =
        (0..3).map(|n| checker.declare(n, root, DeclaredType::Owned).unwrap()).collect();
    // the model: for each binding the kinds of its outstanding borrows, by borrow
    let mut model: Vec<(usize, Mutability, bool)> = Vec::new();
    let mut seed: u64 = 0x2545_f491_4f6c_dd1d;
    for _ in 0..2000 {
        seed ^= seed << 13;
        seed ^= seed >> 7;
        seed ^= seed << 17;
        let binding = bindings[(seed % 3) as usize];
        let choice = (seed >> 8) % 3;
        let shared = model.iter().filter(|r| r.0 == binding && r.2 && r.1 == Mutability::Shared).count();
        let exclusive =
            model.iter().filter(|r| r.0 == binding && r.2 && r.1 == Mutability::Exclusive).count();
        assert!(exclusive == 0 || (exclusive == 1 && shared == 0));
        if choice == 0 {
            let result = checker.borrow_shared(binding, root);
            if exclusive > 0 {
                assert_eq!(result, Err(AnalysisError::ConflictingBorrow { binding, region: root }));
            } else {
                assert_eq!(result, Ok(model.len()));
                model.push((binding, Mutability::Shared, true));
            }
        } else if choice == 1 {
            let result = checker.borrow_exclusive(binding, root);
            if exclusive + shared > 0 {
                assert_eq!(result, Err(AnalysisError::ConflictingBorrow { binding, region: root }));
            } else {
                assert_eq!(result, Ok(model.len()));
                model.push((binding, Mutability::Exclusive, true));
            }
        } else if !model.is_empty() {
            let id = ((seed >> 16) % model.len() as u64) as usize;
            assert_eq!(checker.release(id), model[id].2);
            model[id].2 = false;
        }
        let slot = checker.bindings().get(binding).unwrap();
        let shared = model.iter().filter(|r| r.0 == binding && r.2 && r.1 == Mutability::Shared).count();
        let exclusive =
            model.iter().filter(|r| r.0 == binding && r.2 && r.1 == Mutability::Exclusive).count();
        assert_eq!((slot.shared, slot.exclusive), (shared, exclusive));
    }
}

#[test]
fn closing_a_region_drops_its_bindings_and_ends_its_borrows() {
    let (mut checker, root) = with_root();
    let outer = checker.declare(1, root, DeclaredType::Owned).unwrap();
    let inner_region = checker.open_region(Some(root)).unwrap();
    let inner = checker.declare(2, inner_region, DeclaredType::Owned).unwrap();
    let a = checker.borrow_shared(outer, inner_region).unwrap();
    let b = checker.borrow_exclusive(inner, inner_region).unwrap();
    assert_eq!(checker.close_region(inner_region), Ok(()));
    assert!(!checker.borrows().is_active(a));
    assert!(!checker.borrows().is_active(b));
    assert_eq!(checker.bindings().get(outer).unwrap().shared, 0);
    assert_eq!(
        checker.read(inner),
        Err(AnalysisError::RegionContractViolation { region: inner_region })
    );
    assert_eq!(
        checker.borrow_shared(inner, root),
        Err(AnalysisError::RegionContractViolation { region: inner_region })
    );
    assert_eq!(
        checker.move_out(inner),
        Err(AnalysisError::RegionContractViolation { region: inner_region })
    );
    assert_eq!(checker.read(outer), Ok(()));
    assert_eq!(checker.borrow_exclusive(outer, root), Ok(2));
}

#[test]
fn value_must_outlast_the_region_of_every_borrow() {
    let (mut checker, root) = with_root();
    let inner_region = checker.open_region(Some(root)).unwrap();
    let x = checker.declare(1, inner_region, DeclaredType::Owned).unwrap();
    let held = checker.borrow_shared(x, root).unwrap();
    assert_eq!(
        checker.close_region(inner_region),
        Err(AnalysisError::DanglingAfterDrop { binding: x, region: root })
    );
    // nothing has changed: the region is open and the borrow outstanding
    assert!(checker.regions().is_open(inner_region));
    assert!(checker.borrows().is_active(held));
    assert!(checker.release(held));
    assert_eq!(checker.close_region(inner_region), Ok(()));
}

#[test]
fn region_with_an_open_region_inside_is_not_closed() {
    let (mut checker, root) = with_root();
    let inner = checker.open_region(Some(root)).unwrap();
    assert_eq!(
        checker.close_region(root),
        Err(AnalysisError::RegionContractViolation { region: root })
    );
    assert_eq!(checker.close_region(inner), Ok(()));
    assert_eq!(
        checker.open_region(Some(inner)),
        Err(AnalysisError::RegionContractViolation { region: inner })
    );
    assert_eq!(
        checker.declare(1, inner, DeclaredType::Owned),
        Err(AnalysisError::RegionContractViolation { region: inner })
    );
    assert_eq!(checker.close_region(root), Ok(()));
}

#[test]
fn reference_binding_keeps_its_declared_type() {
    let (mut checker, root) = with_root();
    let ty = DeclaredType::Reference { lifetime: Lifetime::Concrete(root), mutability: Mutability::Exclusive };
    let r = checker.declare(11, root, ty).unwrap();
    let slot = checker.bindings().get(r).unwrap();
    assert_eq!(slot.name, 11);
    assert_eq!(slot.region, root);
    assert_eq!(slot.ty, ty);
    assert_eq!(Lifetime::Concrete(root).region(), Some(root));
    assert_eq!(Lifetime::Param(3).region(), None);
    assert_eq!(checker.bindings().len(), 1);
    assert_eq!(checker.bindings().get(5), None);
}
