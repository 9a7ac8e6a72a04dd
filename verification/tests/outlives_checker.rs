use lifetime_analyzer::binding::DeclaredType;
use lifetime_analyzer::callsite::assign_call_site;
use lifetime_analyzer::diagnostic::AnalysisError;
use lifetime_analyzer::lifetime::{Lifetime, Mutability};
use lifetime_analyzer::outlives::OutlivesGraph;
use lifetime_analyzer::region::RegionTree;
use lifetime_analyzer::signature::{Signature, SignatureType};
use lifetime_analyzer::universal::check_universal_bound;

fn shared(lifetime: Option<usize>) -> SignatureType {
    SignatureType::Reference { lifetime, mutability: Mutability::Shared }
}

fn concrete(region: usize) -> DeclaredType {
    DeclaredType::Reference { lifetime: Lifetime::Concrete(region), mutability: Mutability::Shared }
}

/// A root with two nested regions inside, and a second region beside the first.
fn nested() -> RegionTree {
    let mut tree = RegionTree::new();
    let root = tree.open_region(None).unwrap();
    let outer = tree.open_region(Some(root)).unwrap();
    let _inner = tree.open_region(Some(outer)).unwrap();
    let _beside = tree.open_region(Some(root)).unwrap();
    tree
}

#[test]
fn declared_constraints_are_followed_transitively() {
    let mut graph = OutlivesGraph::new();
    graph.declare_constraint(2, 1);
    graph.declare_constraint(1, 0);
    graph.declare_constraint(5, 4);
    assert!(graph.outlives(2, 1));
    assert!(graph.outlives(2, 0));
    assert!(graph.outlives(1, 0));
    assert!(graph.outlives(3, 3));
    assert!(!graph.outlives(0, 2));
    assert!(!graph.outlives(2, 4));
    assert!(!graph.outlives(5, 0));
}

#[test]
fn constraints_in_a_cycle_end() {
    let mut graph = OutlivesGraph::new();
    graph.declare_constraint(0, 1);
    graph.declare_constraint(1, 0);
    graph.declare_constraint(1, 2);
    assert!(graph.outlives(0, 2));
    assert!(graph.outlives(1, 0));
    assert!(!graph.outlives(2, 0));
}

#[test]
fn concrete_lifetimes_go_by_their_regions() {
    let tree = nested();
    let mut graph = OutlivesGraph::new();
    graph.declare_constraint(1, 0);
    assert!(graph.check_outlives(&tree, Lifetime::Concrete(0), Lifetime::Concrete(2)));
    assert!(graph.check_outlives(&tree, Lifetime::Concrete(1), Lifetime::Concrete(1)));
    assert!(!graph.check_outlives(&tree, Lifetime::Concrete(2), Lifetime::Concrete(1)));
    assert!(!graph.check_outlives(&tree, Lifetime::Concrete(3), Lifetime::Concrete(2)));
    assert!(graph.check_outlives(&tree, Lifetime::Param(1), Lifetime::Param(0)));
    assert!(!graph.check_outlives(&tree, Lifetime::Param(0), Lifetime::Param(1)));
    assert!(!graph.check_outlives(&tree, Lifetime::Param(1), Lifetime::Concrete(0)));
    assert!(!graph.check_outlives(&tree, Lifetime::Concrete(0), Lifetime::Param(0)));
}

#[test]
fn shared_lifetime_meets_the_innermost_argument() {
    // fn shortest_length<'a>(x: &'a T, y: &'a T, z: &'a T) -> &'a T
    let sig = Signature {
        params: vec![shared(Some(0)), shared(Some(0)), shared(Some(0))],
        receiver: false,
        output: shared(Some(0)),
        lifetimes: 1,
        constraints: vec![],
        universal: vec![],
    };
    let tree = nested();
    let resolved = assign_call_site(&tree, &sig, &vec![Some(1), Some(2), Some(0)]).unwrap();
    assert_eq!(resolved.substitution, vec![Some(2)]);
    assert_eq!(resolved.params, vec![concrete(2), concrete(2), concrete(2)]);
    assert_eq!(resolved.output, concrete(2));
}

#[test]
fn declared_constraint_holds_of_nested_regions() {
    // fn f<'a, 'b: 'a>(x: &'a T, y: &'b T) -> &'a T
    let sig = Signature {
        params: vec![shared(Some(0)), shared(Some(1))],
        receiver: false,
        output: shared(Some(0)),
        lifetimes: 2,
        constraints: vec![(1, 0)],
        universal: vec![],
    };
    let tree = nested();
    let resolved = assign_call_site(&tree, &sig, &vec![Some(2), Some(1)]).unwrap();
    assert_eq!(resolved.substitution, vec![Some(2), Some(1)]);
    assert_eq!(resolved.output, concrete(2));
    assert_eq!(
        assign_call_site(&tree, &sig, &vec![Some(1), Some(2)]),
        Err(AnalysisError::OutlivesViolation { longer: 1, shorter: 0, longer_region: 2, shorter_region: 1 })
    );
    assert_eq!(
        assign_call_site(&tree, &sig, &vec![Some(2), Some(3)]),
        Err(AnalysisError::OutlivesViolation { longer: 1, shorter: 0, longer_region: 3, shorter_region: 2 })
    );
}

#[test]
fn arguments_of_regions_apart_cannot_share_a_lifetime() {
    let sig = Signature {
        params: vec![shared(Some(0)), shared(Some(0))],
        receiver: false,
        output: SignatureType::Owned,
        lifetimes: 1,
        constraints: vec![],
        universal: vec![],
    };
    let tree = nested();
    assert_eq!(
        assign_call_site(&tree, &sig, &vec![Some(2), Some(3)]),
        Err(AnalysisError::OutlivesViolation { longer: 0, shorter: 0, longer_region: 3, shorter_region: 2 })
    );
}

#[test]
fn argument_of_a_closed_region_is_refused() {
    let sig = Signature {
        params: vec![shared(Some(0))],
        receiver: false,
        output: SignatureType::Owned,
        lifetimes: 1,
        constraints: vec![],
        universal: vec![],
    };
    let mut tree = nested();
    tree.close_region(2).unwrap();
    assert_eq!(
        assign_call_site(&tree, &sig, &vec![Some(2)]),
        Err(AnalysisError::RegionContractViolation { region: 2 })
    );
    assert_eq!(
        assign_call_site(&tree, &sig, &vec![Some(9)]),
        Err(AnalysisError::RegionContractViolation { region: 9 })
    );
}

#[test]
fn signature_with_an_omitted_lifetime_is_not_resolved() {
    let sig = Signature {
        params: vec![shared(None)],
        receiver: false,
        output: SignatureType::Owned,
        lifetimes: 0,
        constraints: vec![],
        universal: vec![],
    };
    let tree = nested();
    assert_eq!(assign_call_site(&tree, &sig, &vec![Some(0)]), Err(AnalysisError::AmbiguousElision));
}

#[test]
fn parameter_without_an_argument_stays_unbound() {
    let sig = Signature {
        params: vec![SignatureType::Owned, shared(Some(0))],
        receiver: false,
        output: shared(Some(1)),
        lifetimes: 2,
        constraints: vec![(1, 0)],
        universal: vec![],
    };
    let tree = nested();
    let resolved = assign_call_site(&tree, &sig, &vec![None, Some(1)]).unwrap();
    assert_eq!(resolved.substitution, vec![Some(1), None]);
    assert_eq!(resolved.params, vec![DeclaredType::Owned, concrete(1)]);
    assert_eq!(
        resolved.output,
        DeclaredType::Reference { lifetime: Lifetime::Param(1), mutability: Mutability::Shared }
    );
}

/// for<'a, 'g> Fn(&'a str, &'g str) -> &'a str
fn two_lifetime_bound() -> Signature {
    Signature {
        params: vec![shared(Some(0)), shared(Some(1))],
        receiver: false,
        output: shared(Some(0)),
        lifetimes: 2,
        constraints: vec![],
        universal: vec![0, 1],
    }
}

#[test]
fn callable_that_returns_its_first_argument_meets_the_bound() {
    let callable = Signature {
        params: vec![shared(Some(0)), shared(Some(1))],
        receiver: false,
        output: shared(Some(0)),
        lifetimes: 2,
        constraints: vec![],
        universal: vec![],
    };
    assert_eq!(check_universal_bound(&nested(), &two_lifetime_bound(), &callable, &vec![]), Ok(()));
}

#[test]
fn callable_that_returns_a_captured_reference_fails_the_bound() {
    // the output carries a lifetime of the surroundings, whatever the arguments are
    let callable = Signature {
        params: vec![shared(Some(0)), shared(Some(1))],
        receiver: false,
        output: shared(Some(2)),
        lifetimes: 3,
        constraints: vec![],
        universal: vec![],
    };
    assert_eq!(
        check_universal_bound(&nested(), &two_lifetime_bound(), &callable, &vec![]),
        Err(AnalysisError::UnboundNotSatisfied { lifetime: Some(2) })
    );
}

#[test]
fn callable_that_returns_the_other_argument_fails_the_bound() {
    let callable = Signature {
        params: vec![shared(Some(0)), shared(Some(1))],
        receiver: false,
        output: shared(Some(1)),
        lifetimes: 2,
        constraints: vec![],
        universal: vec![],
    };
    assert_eq!(
        check_universal_bound(&nested(), &two_lifetime_bound(), &callable, &vec![]),
        Err(AnalysisError::UnboundNotSatisfied { lifetime: Some(1) })
    );
}

#[test]
fn callable_that_ties_its_arguments_together_fails_the_bound() {
    let same = Signature {
        params: vec![shared(Some(0)), shared(Some(0))],
        receiver: false,
        output: shared(Some(0)),
        lifetimes: 1,
        constraints: vec![],
        universal: vec![],
    };
    assert_eq!(
        check_universal_bound(&nested(), &two_lifetime_bound(), &same, &vec![]),
        Err(AnalysisError::UnboundNotSatisfied { lifetime: Some(0) })
    );
    let constrained = Signature {
        params: vec![shared(Some(0)), shared(Some(1))],
        receiver: false,
        output: shared(Some(0)),
        lifetimes: 2,
        constraints: vec![(1, 0)],
        universal: vec![],
    };
    assert_eq!(
        check_universal_bound(&nested(), &two_lifetime_bound(), &constrained, &vec![]),
        Err(AnalysisError::UnboundNotSatisfied { lifetime: Some(1) })
    );
}

#[test]
fn elided_bound_quantifies_over_its_lifetime() {
    // F: Fn(&str) -> &str, met by |s| s and not by a captured reference
    let bound = Signature {
        params: vec![shared(None)],
        receiver: false,
        output: shared(None),
        lifetimes: 0,
        constraints: vec![],
        universal: vec![],
    };
    let identity = bound.clone();
    assert_eq!(check_universal_bound(&nested(), &bound, &identity, &vec![]), Ok(()));
    let captured = Signature {
        params: vec![shared(None)],
        receiver: false,
        output: shared(Some(0)),
        lifetimes: 1,
        constraints: vec![],
        universal: vec![],
    };
    assert_eq!(
        check_universal_bound(&nested(), &bound, &captured, &vec![]),
        Err(AnalysisError::UnboundNotSatisfied { lifetime: Some(0) })
    );
}

#[test]
fn callable_that_returns_a_reference_of_the_scope_fails_the_bound() {
    // the third parameter stands for a reference that the callable has captured
    let callable = Signature {
        params: vec![shared(Some(0)), shared(Some(1)), shared(Some(2))],
        receiver: false,
        output: shared(Some(2)),
        lifetimes: 3,
        constraints: vec![],
        universal: vec![],
    };
    for region in 0..4 {
        assert_eq!(
            check_universal_bound(&nested(), &two_lifetime_bound(), &callable, &vec![Some(region)]),
            Err(AnalysisError::UnboundNotSatisfied { lifetime: Some(2) })
        );
    }
    assert_eq!(
        check_universal_bound(&nested(), &two_lifetime_bound(), &callable, &vec![None]),
        Err(AnalysisError::UnboundNotSatisfied { lifetime: Some(2) })
    );
}

#[test]
fn callable_that_only_reads_what_it_captured_meets_the_bound() {
    let callable = Signature {
        params: vec![shared(Some(0)), shared(Some(1)), shared(Some(2))],
        receiver: false,
        output: shared(Some(0)),
        lifetimes: 3,
        constraints: vec![],
        universal: vec![],
    };
    assert_eq!(
        check_universal_bound(&nested(), &two_lifetime_bound(), &callable, &vec![Some(2)]),
        Ok(())
    );
    // the captured reference must not be asked to outlive an argument
    let demanding = Signature { constraints: vec![(2, 0)], ..callable.clone() };
    assert_eq!(
        check_universal_bound(&nested(), &two_lifetime_bound(), &demanding, &vec![Some(0)]),
        Err(AnalysisError::UnboundNotSatisfied { lifetime: Some(2) })
    );
    // nor an argument to outlive it
    let tied = Signature { constraints: vec![(0, 2)], ..callable };
    assert_eq!(
        check_universal_bound(&nested(), &two_lifetime_bound(), &tied, &vec![Some(2)]),
        Err(AnalysisError::UnboundNotSatisfied { lifetime: Some(0) })
    );
}

#[test]
fn captured_reference_must_belong_to_the_scope() {
    let callable = Signature {
        params: vec![shared(Some(0)), shared(Some(1)), shared(Some(2))],
        receiver: false,
        output: shared(Some(0)),
        lifetimes: 3,
        constraints: vec![],
        universal: vec![],
    };
    // region 4 would be the synthetic region of the first lifetime of the bound
    assert_eq!(
        check_universal_bound(&nested(), &two_lifetime_bound(), &callable, &vec![Some(4)]),
        Err(AnalysisError::RegionContractViolation { region: 4 })
    );
    let mut closed = nested();
    closed.close_region(2).unwrap();
    assert_eq!(
        check_universal_bound(&closed, &two_lifetime_bound(), &callable, &vec![Some(2)]),
        Err(AnalysisError::RegionContractViolation { region: 2 })
    );
    assert_eq!(
        check_universal_bound(&nested(), &two_lifetime_bound(), &callable, &vec![]),
        Err(AnalysisError::UnboundNotSatisfied { lifetime: None })
    );
}

#[test]
fn lifetime_that_the_bound_does_not_quantify_over_is_not_tried() {
    // F: Fn(&'x str) -> &'x str for one lifetime 'x of the surroundings
    let bound = Signature {
        params: vec![shared(Some(0))],
        receiver: false,
        output: shared(Some(0)),
        lifetimes: 1,
        constraints: vec![],
        universal: vec![],
    };
    let captured = Signature {
        params: vec![shared(Some(0)), shared(Some(1))],
        receiver: false,
        output: shared(Some(1)),
        lifetimes: 2,
        constraints: vec![],
        universal: vec![],
    };
    assert_eq!(check_universal_bound(&nested(), &bound, &captured, &vec![Some(1)]), Ok(()));
}

#[test]
fn callable_of_another_shape_fails_the_bound() {
    let one = Signature {
        params: vec![shared(Some(0))],
        receiver: false,
        output: shared(Some(0)),
        lifetimes: 1,
        constraints: vec![],
        universal: vec![],
    };
    assert_eq!(
        check_universal_bound(&nested(), &two_lifetime_bound(), &one, &vec![]),
        Err(AnalysisError::UnboundNotSatisfied { lifetime: None })
    );
    let owned_output = Signature {
        params: vec![shared(Some(0)), shared(Some(1))],
        receiver: false,
        output: SignatureType::Owned,
        lifetimes: 2,
        constraints: vec![],
        universal: vec![],
    };
    assert_eq!(
        check_universal_bound(&nested(), &two_lifetime_bound(), &owned_output, &vec![]),
        Err(AnalysisError::UnboundNotSatisfied { lifetime: None })
    );
}

#[test]
fn ambiguous_callable_is_reported_as_such() {
    let callable = Signature {
        params: vec![shared(None), shared(None)],
        receiver: false,
        output: shared(None),
        lifetimes: 0,
        constraints: vec![],
        universal: vec![],
    };
    assert_eq!(
        check_universal_bound(&nested(), &two_lifetime_bound(), &callable, &vec![]),
        Err(AnalysisError::AmbiguousElision)
    );
}
