use lifetime_analyzer::diagnostic::AnalysisError;
use lifetime_analyzer::elision::elide;
use lifetime_analyzer::lifetime::Mutability;
use lifetime_analyzer::signature::{Signature, SignatureType, StructDef};

fn shared(lifetime: Option<usize>) -> SignatureType {
    SignatureType::Reference { lifetime, mutability: Mutability::Shared }
}

fn exclusive(lifetime: Option<usize>) -> SignatureType {
    SignatureType::Reference { lifetime, mutability: Mutability::Exclusive }
}

fn signature(params: Vec<SignatureType>, receiver: bool, output: SignatureType, lifetimes: usize) -> Signature {
    Signature { params, receiver, output, lifetimes, constraints: vec![], universal: vec![] }
}

#[test]
fn two_inputs_and_an_omitted_output_are_ambiguous() {
    let sig = signature(vec![shared(None), shared(None)], false, shared(None), 0);
    assert_eq!(elide(&sig), Err(AnalysisError::AmbiguousElision));
}

#[test]
fn no_input_and_an_omitted_output_are_ambiguous() {
    let sig = signature(vec![SignatureType::Owned], false, shared(None), 0);
    assert_eq!(elide(&sig), Err(AnalysisError::AmbiguousElision));
    let none = signature(vec![], false, shared(None), 0);
    assert_eq!(elide(&none), Err(AnalysisError::AmbiguousElision));
}

#[test]
fn output_takes_the_lifetime_of_the_receiver() {
    let sig = signature(vec![shared(None), shared(None)], true, shared(None), 0);
    let annotated = elide(&sig).unwrap();
    assert_eq!(annotated.params, vec![shared(Some(0)), shared(Some(1))]);
    assert_eq!(annotated.output, shared(Some(0)));
    assert_eq!(annotated.lifetimes, 2);
    assert!(annotated.receiver);
}

#[test]
fn output_takes_the_named_lifetime_of_an_exclusive_receiver() {
    // fn update_b(&mut self, b: &'a T) -> &T, inside impl<'a>
    let sig = signature(vec![exclusive(None), shared(Some(0))], true, shared(None), 1);
    let annotated = elide(&sig).unwrap();
    assert_eq!(annotated.params, vec![exclusive(Some(1)), shared(Some(0))]);
    assert_eq!(annotated.output, shared(Some(1)));
    assert_eq!(annotated.lifetimes, 2);
}

#[test]
fn receiver_by_value_does_not_decide() {
    let sig = signature(vec![SignatureType::Owned, shared(None), shared(None)], true, shared(None), 0);
    assert_eq!(elide(&sig), Err(AnalysisError::AmbiguousElision));
}

#[test]
fn sole_input_lifetime_goes_to_the_output() {
    // fn do_something1(x: String, y: &String) -> &String
    let sig = signature(vec![SignatureType::Owned, shared(None)], false, shared(None), 0);
    let annotated = elide(&sig).unwrap();
    assert_eq!(annotated.params, vec![SignatureType::Owned, shared(Some(0))]);
    assert_eq!(annotated.output, shared(Some(0)));
    assert_eq!(annotated.lifetimes, 1);
}

#[test]
fn sole_named_input_lifetime_goes_to_the_output() {
    let sig = signature(vec![exclusive(Some(2)), SignatureType::Owned], false, exclusive(None), 3);
    let annotated = elide(&sig).unwrap();
    assert_eq!(annotated.params, vec![exclusive(Some(2)), SignatureType::Owned]);
    assert_eq!(annotated.output, exclusive(Some(2)));
    assert_eq!(annotated.lifetimes, 3);
}

#[test]
fn omitted_inputs_receive_distinct_new_parameters() {
    let sig = signature(
        vec![shared(None), shared(Some(0)), SignatureType::Owned, exclusive(None), shared(None)],
        false,
        SignatureType::Owned,
        2,
    );
    let annotated = elide(&sig).unwrap();
    assert_eq!(
        annotated.params,
        vec![shared(Some(2)), shared(Some(0)), SignatureType::Owned, exclusive(Some(3)), shared(Some(4))]
    );
    assert_eq!(annotated.output, SignatureType::Owned);
    assert_eq!(annotated.lifetimes, 5);
}

#[test]
fn explicit_output_needs_no_rule() {
    let sig = signature(vec![shared(None), shared(None)], false, shared(Some(0)), 1);
    let annotated = elide(&sig).unwrap();
    assert_eq!(annotated.params, vec![shared(Some(1)), shared(Some(2))]);
    assert_eq!(annotated.output, shared(Some(0)));
}

#[test]
fn elision_of_an_explicit_signature_changes_nothing() {
    let sig = Signature {
        params: vec![shared(Some(0)), shared(Some(1)), shared(Some(1))],
        receiver: false,
        output: shared(Some(0)),
        lifetimes: 2,
        constraints: vec![(1, 0)],
        universal: vec![1],
    };
    assert_eq!(elide(&sig), Ok(sig.clone()));
}

#[test]
fn elision_twice_is_elision_once() {
    let sig = Signature {
        params: vec![shared(None), exclusive(None), SignatureType::Owned],
        receiver: true,
        output: exclusive(None),
        lifetimes: 1,
        constraints: vec![(0, 0)],
        universal: vec![],
    };
    let once = elide(&sig).unwrap();
    assert_ne!(once, sig);
    assert_eq!(elide(&once), Ok(once.clone()));
}

#[test]
fn struct_with_tagged_fields_is_accepted() {
    let def = StructDef { lifetimes: 2, fields: vec![shared(Some(0)), shared(Some(1)), SignatureType::Owned] };
    assert_eq!(def.check(), Ok(()));
    let plain = StructDef { lifetimes: 0, fields: vec![SignatureType::Owned, SignatureType::Owned] };
    assert_eq!(plain.check(), Ok(()));
}

#[test]
fn struct_with_an_untagged_reference_is_refused() {
    let def = StructDef { lifetimes: 1, fields: vec![shared(Some(0)), shared(None)] };
    assert_eq!(def.check(), Err(AnalysisError::AmbiguousElision));
}

#[test]
fn struct_field_with_an_undeclared_lifetime_is_refused() {
    let def = StructDef { lifetimes: 1, fields: vec![shared(Some(1))] };
    assert_eq!(def.check(), Err(AnalysisError::AmbiguousElision));
}
