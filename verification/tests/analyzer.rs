use lifetime_analyzer::analyzer::{analyze, analyze_call_site, analyze_fragment, BoundCheck, CallSite, Fragment, Outcome};
use lifetime_analyzer::binding::DeclaredType;
use lifetime_analyzer::diagnostic::{report, AnalysisError, Diagnostic, ErrorKind};
use lifetime_analyzer::lifetime::{Lifetime, Mutability};
use lifetime_analyzer::program::Instr;
use lifetime_analyzer::signature::{Signature, SignatureType, StructDef};

fn shared(lifetime: Option<usize>) -> SignatureType {
    SignatureType::Reference { lifetime, mutability: Mutability::Shared }
}

fn signature(params: Vec<SignatureType>, receiver: bool, output: SignatureType, lifetimes: usize) -> Signature {
    Signature { params, receiver, output, lifetimes, constraints: vec![], universal: vec![] }
}

fn diagnostic(kind: ErrorKind) -> Diagnostic {
    Diagnostic {
        kind,
        bindings: vec![],
        fields: vec![],
        lifetimes: vec![],
        regions: vec![],
        position: None,
        fatal: false,
    }
}

#[test]
fn scenario_two_inputs_one_omitted_output() {
    let fragment = Fragment::Signature(signature(vec![shared(None), shared(None)], false, shared(None), 0));
    assert_eq!(analyze_fragment(&fragment), Err(vec![diagnostic(ErrorKind::AmbiguousElision)]));
}

#[test]
fn scenario_receiver_and_one_more_input() {
    let fragment = Fragment::Signature(signature(vec![shared(None), shared(None)], true, shared(None), 0));
    let expected = signature(vec![shared(Some(0)), shared(Some(1))], true, shared(Some(0)), 2);
    assert_eq!(analyze_fragment(&fragment), Ok(Outcome::Annotated(expected)));
}

#[test]
fn scenario_callable_returns_a_captured_reference() {
    let bound = Signature {
        params: vec![shared(Some(0)), shared(Some(1))],
        receiver: false,
        output: shared(Some(0)),
        lifetimes: 2,
        constraints: vec![],
        universal: vec![0, 1],
    };
    // the callable takes the two arguments and returns the reference it has captured
    let callable = signature(vec![shared(None), shared(None), shared(Some(0))], false, shared(Some(0)), 1);
    let fragment = Fragment::Bound(BoundCheck {
        bound: bound.clone(),
        callable,
        scopes: vec![None, Some(0)],
        captured: vec![Some(0)],
    });
    let mut expected = diagnostic(ErrorKind::UnboundNotSatisfied);
    expected.lifetimes = vec![0];
    assert_eq!(analyze_fragment(&fragment), Err(vec![expected]));
    let first = signature(vec![shared(Some(0)), shared(None)], false, shared(Some(0)), 1);
    let accepted = Fragment::Bound(BoundCheck { bound, callable: first, scopes: vec![None], captured: vec![] });
    assert_eq!(analyze_fragment(&accepted), Ok(Outcome::Accepted));
}

#[test]
fn bound_in_unknown_scopes_is_refused() {
    let bound = signature(vec![shared(None)], false, shared(None), 0);
    let fragment = Fragment::Bound(BoundCheck {
        bound: bound.clone(),
        callable: bound,
        scopes: vec![Some(0)],
        captured: vec![],
    });
    let mut expected = diagnostic(ErrorKind::RegionContractViolation);
    expected.regions = vec![0];
    expected.fatal = true;
    assert_eq!(analyze_fragment(&fragment), Err(vec![expected]));
}

#[test]
fn block_failure_carries_its_step() {
    let fragment = Fragment::Block(vec![
        Instr::Declare { name: 1, ty: DeclaredType::Owned },
        Instr::Borrow { binding: 0, kind: Mutability::Exclusive, region: 0 },
        Instr::Borrow { binding: 0, kind: Mutability::Shared, region: 0 },
        Instr::Use { reference: 0 },
    ]);
    let mut expected = diagnostic(ErrorKind::ConflictingBorrow);
    expected.bindings = vec![0];
    expected.regions = vec![0];
    expected.position = Some(2);
    assert_eq!(analyze_fragment(&fragment), Err(vec![expected]));
}

#[test]
fn misuse_of_the_region_model_is_fatal() {
    let fragment = Fragment::Block(vec![Instr::Close]);
    let mut expected = diagnostic(ErrorKind::RegionContractViolation);
    expected.regions = vec![0];
    expected.position = Some(0);
    expected.fatal = true;
    assert_eq!(analyze_fragment(&fragment), Err(vec![expected]));
}

#[test]
fn call_site_is_annotated_and_resolved() {
    // fn pick(x: &T, flag: bool) -> &T, called with an argument of the inner region
    let site = CallSite {
        signature: signature(vec![shared(None), SignatureType::Owned], false, shared(None), 0),
        scopes: vec![None, Some(0)],
        args: vec![Some(1), None],
    };
    let resolved = analyze_call_site(&site).unwrap();
    assert_eq!(resolved.substitution, vec![Some(1)]);
    assert_eq!(
        resolved.output,
        DeclaredType::Reference { lifetime: Lifetime::Concrete(1), mutability: Mutability::Shared }
    );
    assert_eq!(analyze_fragment(&Fragment::CallSite(site)), Ok(Outcome::Resolved(resolved)));
}

#[test]
fn call_site_with_a_violated_constraint() {
    let site = CallSite {
        signature: Signature {
            params: vec![shared(Some(0)), shared(Some(1))],
            receiver: false,
            output: shared(Some(0)),
            lifetimes: 2,
            constraints: vec![(1, 0)],
            universal: vec![],
        },
        scopes: vec![None, Some(0)],
        args: vec![Some(0), Some(1)],
    };
    assert_eq!(
        analyze_call_site(&site),
        Err(AnalysisError::OutlivesViolation { longer: 1, shorter: 0, longer_region: 1, shorter_region: 0 })
    );
    let mut expected = diagnostic(ErrorKind::OutlivesViolation);
    expected.lifetimes = vec![1, 0];
    expected.regions = vec![1, 0];
    assert_eq!(analyze_fragment(&Fragment::CallSite(site)), Err(vec![expected]));
}

#[test]
fn call_site_in_unknown_scopes_is_refused() {
    let site = CallSite {
        signature: signature(vec![shared(None)], false, SignatureType::Owned, 0),
        scopes: vec![None, Some(1)],
        args: vec![Some(0)],
    };
    assert_eq!(analyze_call_site(&site), Err(AnalysisError::RegionContractViolation { region: 1 }));
}

#[test]
fn one_failing_fragment_leaves_the_others() {
    let good_block = Fragment::Block(vec![
        Instr::Declare { name: 1, ty: DeclaredType::Owned },
        Instr::Read { binding: 0 },
    ]);
    let bad_block = Fragment::Block(vec![
        Instr::Declare { name: 1, ty: DeclaredType::Owned },
        Instr::Move { binding: 0 },
        Instr::Read { binding: 0 },
    ]);
    let good_struct = Fragment::Struct(StructDef { lifetimes: 1, fields: vec![shared(Some(0))] });
    let bad_struct = Fragment::Struct(StructDef { lifetimes: 0, fields: vec![shared(None)] });
    let fragments = vec![bad_struct.clone(), good_block.clone(), bad_block.clone(), good_struct.clone()];
    let results = analyze(&fragments);
    assert_eq!(results.len(), 4);
    assert_eq!(results[0], Err(vec![diagnostic(ErrorKind::AmbiguousElision)]));
    assert!(matches!(results[1], Ok(Outcome::Block(_))));
    let mut moved = diagnostic(ErrorKind::UseAfterMove);
    moved.bindings = vec![0];
    moved.position = Some(2);
    assert_eq!(results[2], Err(vec![moved]));
    assert_eq!(results[3], Ok(Outcome::Accepted));
    for (fragment, result) in fragments.iter().zip(results.iter()) {
        assert_eq!(&analyze_fragment(fragment), result);
    }
    assert_eq!(analyze(&vec![]), vec![]);
}

#[test]
fn every_kind_of_failure_has_its_diagnostic() {
    let cases = vec![
        (AnalysisError::UseAfterMove { binding: 3 }, ErrorKind::UseAfterMove, vec![3], vec![], vec![], vec![]),
        (
            AnalysisError::UseOfPartiallyMoved { binding: 3, field: 1 },
            ErrorKind::UseOfPartiallyMoved,
            vec![3],
            vec![1],
            vec![],
            vec![],
        ),
        (
            AnalysisError::ConflictingBorrow { binding: 2, region: 5 },
            ErrorKind::ConflictingBorrow,
            vec![2],
            vec![],
            vec![],
            vec![5],
        ),
        (
            AnalysisError::CannotMoveBorrowed { binding: 2 },
            ErrorKind::CannotMoveBorrowed,
            vec![2],
            vec![],
            vec![],
            vec![],
        ),
        (
            AnalysisError::DanglingAfterDrop { binding: 4, region: 0 },
            ErrorKind::DanglingAfterDrop,
            vec![4],
            vec![],
            vec![],
            vec![0],
        ),
        (AnalysisError::AmbiguousElision, ErrorKind::AmbiguousElision, vec![], vec![], vec![], vec![]),
        (
            AnalysisError::OutlivesViolation { longer: 1, shorter: 0, longer_region: 7, shorter_region: 6 },
            ErrorKind::OutlivesViolation,
            vec![],
            vec![],
            vec![1, 0],
            vec![7, 6],
        ),
        (
            AnalysisError::UnboundNotSatisfied { lifetime: Some(2) },
            ErrorKind::UnboundNotSatisfied,
            vec![],
            vec![],
            vec![2],
            vec![],
        ),
        (
            AnalysisError::UnboundNotSatisfied { lifetime: None },
            ErrorKind::UnboundNotSatisfied,
            vec![],
            vec![],
            vec![],
            vec![],
        ),
        (
            AnalysisError::RegionContractViolation { region: 9 },
            ErrorKind::RegionContractViolation,
            vec![],
            vec![],
            vec![],
            vec![9],
        ),
    ];
    for (error, kind, bindings, fields, lifetimes, regions) in cases {
        let d = report(error, Some(4));
        assert_eq!(error.kind(), kind);
        assert_eq!(d.kind, kind);
        assert_eq!(d.bindings, bindings);
        assert_eq!(d.fields, fields);
        assert_eq!(d.lifetimes, lifetimes);
        assert_eq!(d.regions, regions);
        assert_eq!(d.position, Some(4));
        assert_eq!(d.fatal, kind == ErrorKind::RegionContractViolation);
        assert_eq!(kind.is_fatal(), kind == ErrorKind::RegionContractViolation);
        assert_eq!(kind.is_user_facing(), kind != ErrorKind::RegionContractViolation);
    }
}
