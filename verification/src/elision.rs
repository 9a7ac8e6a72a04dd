//! The elision engine: writes out the lifetimes that a signature omits.

use vstd::prelude::*;
use crate::diagnostic::AnalysisError;
use crate::signature::{Signature, SignatureType, SignatureView};
use crate::util::copy_of;

verus! {

/// The number of parameters among the first `upto` that are references
/// without a written lifetime.
pub open spec fn omitted_before(params: Seq<SignatureType>, upto: int) -> nat
    decreases upto,
{
    if upto <= 0 || upto > params.len() {
        0
    } else if params[upto - 1].is_omitted() {
        omitted_before(params, upto - 1) + 1
    } else {
        omitted_before(params, upto - 1)
    }
}

/// The number of parameters among the first `upto` that are references:
/// the input lifetime positions.
pub open spec fn references_before(params: Seq<SignatureType>, upto: int) -> nat
    decreases upto,
{
    if upto <= 0 || upto > params.len() {
        0
    } else if params[upto - 1].is_reference() {
        references_before(params, upto - 1) + 1
    } else {
        references_before(params, upto - 1)
    }
}

/// The lifetime of the first reference at or after `from`.
pub open spec fn first_lifetime_from(params: Seq<SignatureType>, from: int) -> Option<usize>
    decreases params.len() - from,
{
    if from < 0 || from >= params.len() {
        None
    } else if params[from].is_reference() {
        params[from].spec_lifetime()
    } else {
        first_lifetime_from(params, from + 1)
    }
}

/// The parameter at `i` after elision: an omitted lifetime becomes a new
/// parameter, numbered after the declared ones in the order of the
/// positions.
pub open spec fn elided_param(params: Seq<SignatureType>, lifetimes: usize, i: int) -> SignatureType {
    params[i].annotated((lifetimes + omitted_before(params, i)) as usize)
}

/// The parameters after elision.
pub open spec fn elided_params(params: Seq<SignatureType>, lifetimes: usize) -> Seq<SignatureType> {
    Seq::new(params.len(), |i: int| elided_param(params, lifetimes, i))
}

/// The lifetime that an omitted output position receives: that of the
/// only input position, else that of a receiver taken by reference, else
/// none.
pub open spec fn output_lifetime(sig: SignatureView) -> Option<usize> {
    let inputs = elided_params(sig.params, sig.lifetimes);
    if references_before(sig.params, sig.params.len() as int) == 1 {
        first_lifetime_from(inputs, 0)
    } else if sig.receiver && sig.params.len() > 0 && sig.params[0].is_reference() {
        inputs[0].spec_lifetime()
    } else {
        None
    }
}

/// The number of lifetime parameters after elision: the declared ones
/// and one for each omitted input position.
pub open spec fn lifetimes_after(sig: SignatureView) -> int {
    sig.lifetimes + omitted_before(sig.params, sig.params.len() as int)
}

/// The signature with every omitted lifetime written out, or the reason
/// why it cannot be annotated: the new parameters cannot be numbered, or
/// nothing determines the lifetime that the output omits.
pub open spec fn spec_elide(sig: SignatureView) -> Result<SignatureView, AnalysisError> {
    let annotated = SignatureView {
        params: elided_params(sig.params, sig.lifetimes),
        lifetimes: lifetimes_after(sig) as usize,
        ..sig
    };
    if lifetimes_after(sig) > usize::MAX {
        Err(AnalysisError::AmbiguousElision)
    } else if !sig.output.is_omitted() {
        Ok(annotated)
    } else {
        match output_lifetime(sig) {
            Some(l) => Ok(SignatureView { output: sig.output.annotated(l), ..annotated }),
            None => Err(AnalysisError::AmbiguousElision),
        }
    }
}

/// Writes out the omitted lifetimes of a signature. The signature is
/// refused where its output omits a lifetime that neither a sole input
/// position nor a receiver determines, and where it omits more lifetimes
/// than can be numbered after the declared ones.
pub fn elide(sig: &Signature) -> (r: Result<Signature, AnalysisError>)
    ensures
        r matches Ok(t) ==> spec_elide(sig@) == Ok::<SignatureView, AnalysisError>(t@),
        r matches Err(e) ==> spec_elide(sig@) == Err::<SignatureView, AnalysisError>(e),
{
    let n: usize = sig.params.len();
    let ghost inputs = elided_params(sig.params@, sig.lifetimes);
    let mut params: Vec<SignatureType> = Vec::new();
    let mut fresh: usize = 0;
    let mut references: usize = 0;
    let mut first: Option<usize> = None;
    let mut i: usize = 0;
    while i < n
        invariant
            n == sig.params@.len(),
            inputs == elided_params(sig.params@, sig.lifetimes),
            i <= n,
            params@.len() == i,
            forall|j: int| 0 <= j < i ==> params@[j] == inputs[j],
            fresh == omitted_before(sig.params@, i as int),
            references == references_before(sig.params@, i as int),
            fresh <= i,
            references <= i,
            references == 0 ==> first is None,
            first_lifetime_from(inputs, 0) == if references > 0 {
                first
            } else {
                first_lifetime_from(inputs, i as int)
            },
        decreases n - i,
    {
        let param = sig.params[i];
        match param {
            SignatureType::Owned => {
                params.push(param);
            },
            SignatureType::Reference { lifetime, mutability } => {
                let written: usize = match lifetime {
                    Some(l) => l,
                    None => match sig.lifetimes.checked_add(fresh) {
                        Some(next) => next,
                        None => {
                            proof {
                                lemma_omitted_increases(sig.params@, i + 1, n as int);
                            }
                            return Err(AnalysisError::AmbiguousElision);
                        },
                    },
                };
                params.push(SignatureType::Reference { lifetime: Some(written), mutability });
                if references == 0 {
                    first = Some(written);
                }
                references = references + 1;
                if lifetime.is_none() {
                    fresh = fresh + 1;
                }
            },
        }
        i = i + 1;
    }
    assert(params@ =~= inputs);
    let lifetimes: usize = match sig.lifetimes.checked_add(fresh) {
        Some(all) => all,
        None => {
            return Err(AnalysisError::AmbiguousElision);
        },
    };
    let output = match sig.output {
        SignatureType::Reference { lifetime: None, mutability } => {
            let chosen = if references == 1 {
                first
            } else if sig.receiver && n > 0 {
                match params[0] {
                    SignatureType::Reference { lifetime, .. } => lifetime,
                    SignatureType::Owned => None,
                }
            } else {
                None
            };
            match chosen {
                Some(l) => SignatureType::Reference { lifetime: Some(l), mutability },
                None => {
                    return Err(AnalysisError::AmbiguousElision);
                },
            }
        },
        other => other,
    };
    Ok(
        Signature {
            params,
            receiver: sig.receiver,
            output,
            lifetimes,
            constraints: copy_of(&sig.constraints),
            universal: copy_of(&sig.universal),
        },
    )
}

/// Elision changes nothing in a signature that omits no lifetime.
pub proof fn lemma_elision_keeps_explicit(sig: SignatureView)
    requires
        sig.is_explicit(),
    ensures
        spec_elide(sig) == Ok::<SignatureView, AnalysisError>(sig),
{
    lemma_none_omitted(sig.params, sig.params.len() as int);
    assert forall|i: int| 0 <= i < sig.params.len() implies elided_param(
        sig.params,
        sig.lifetimes,
        i,
    ) == sig.params[i] by {
        assert(!sig.params[i].is_omitted());
    }
    assert(elided_params(sig.params, sig.lifetimes) =~= sig.params);
}

/// Elision is idempotent: what it returns omits no lifetime, and a second
/// run returns the same signature.
pub proof fn lemma_elision_idempotent(sig: SignatureView)
    ensures
        spec_elide(sig) matches Ok(t) ==> t.is_explicit() && spec_elide(t) == Ok::<
            SignatureView,
            AnalysisError,
        >(t),
{
    if let Ok(t) = spec_elide(sig) {
        assert forall|i: int| 0 <= i < t.params.len() implies !(#[trigger] t.params[i]).is_omitted() by {
            assert(t.params[i] == elided_param(sig.params, sig.lifetimes, i));
        }
        lemma_elision_keeps_explicit(t);
    }
}

/// Elision of a signature that names declared lifetimes only gives one
/// that is annotated throughout: the new parameters are declared with it.
pub proof fn lemma_elision_annotates(sig: SignatureView)
    requires
        spec_elide(sig) is Ok,
        sig.constraints_declared_before(sig.constraints.len() as int),
        sig.output.spec_lifetime() matches Some(l) ==> l < sig.lifetimes,
        forall|i: int|
            0 <= i < sig.params.len() ==> ((#[trigger] sig.params[i]).spec_lifetime() matches Some(
                l,
            ) ==> l < sig.lifetimes),
    ensures
        spec_elide(sig)->Ok_0.is_annotated(),
{
    let t = spec_elide(sig)->Ok_0;
    let n = sig.params.len() as int;
    lemma_omitted_increases(sig.params, 0, n);
    assert forall|i: int| 0 <= i < t.params.len() implies crate::signature::field_is_tagged(
        #[trigger] t.params[i],
        t.lifetimes,
    ) by {
        assert(t.params[i] == elided_param(sig.params, sig.lifetimes, i));
        if sig.params[i].is_omitted() {
            lemma_omitted_increases(sig.params, i + 1, n);
        } else {
            assert(sig.params[i].spec_lifetime() matches Some(l) ==> l < sig.lifetimes);
        }
    }
    if sig.output.is_omitted() {
        let inputs = elided_params(sig.params, sig.lifetimes);
        if references_before(sig.params, n) == 1 {
            lemma_first_lifetime_is_of_a_parameter(inputs, 0);
            let l = first_lifetime_from(inputs, 0);
            if l is Some {
                let i = choose|i: int|
                    0 <= i < inputs.len() && (#[trigger] inputs[i]).spec_lifetime() == l;
                assert(t.params[i] == inputs[i]);
                assert(crate::signature::field_is_tagged(t.params[i], t.lifetimes));
            }
        } else {
            assert(t.params[0] == inputs[0]);
            assert(crate::signature::field_is_tagged(t.params[0], t.lifetimes));
        }
    }
    assert forall|k: int| 0 <= k < t.constraints.len() implies (#[trigger] t.constraints[k]).0
        < t.lifetimes && t.constraints[k].1 < t.lifetimes by {
        assert(sig.constraints[k].0 < sig.lifetimes);
    }
}

proof fn lemma_first_lifetime_is_of_a_parameter(params: Seq<SignatureType>, from: int)
    requires
        0 <= from,
    ensures
        first_lifetime_from(params, from) is Some ==> exists|i: int|
            0 <= i < params.len() && (#[trigger] params[i]).spec_lifetime() == first_lifetime_from(
                params,
                from,
            ),
    decreases params.len() - from,
{
    if from < params.len() && !params[from].is_reference() {
        lemma_first_lifetime_is_of_a_parameter(params, from + 1);
    }
}

/// The parameters that elision adds are new and distinct: each is numbered
/// after the declared ones, and later positions receive greater numbers.
pub proof fn lemma_fresh_parameters_distinct(sig: SignatureView, i: int, j: int)
    requires
        lifetimes_after(sig) <= usize::MAX,
        0 <= i < j < sig.params.len(),
        sig.params[i].is_omitted(),
        sig.params[j].is_omitted(),
    ensures
        sig.lifetimes <= elided_param(sig.params, sig.lifetimes, i).spec_lifetime()->0
            < elided_param(sig.params, sig.lifetimes, j).spec_lifetime()->0,
{
    lemma_omitted_increases(sig.params, i + 1, j);
    lemma_omitted_increases(sig.params, j, sig.params.len() as int);
}

proof fn lemma_none_omitted(params: Seq<SignatureType>, upto: int)
    requires
        0 <= upto <= params.len(),
        forall|i: int| 0 <= i < params.len() ==> !(#[trigger] params[i]).is_omitted(),
    ensures
        omitted_before(params, upto) == 0,
    decreases upto,
{
    if upto > 0 {
        lemma_none_omitted(params, upto - 1);
    }
}

proof fn lemma_omitted_increases(params: Seq<SignatureType>, from: int, upto: int)
    requires
        0 <= from <= upto <= params.len(),
    ensures
        omitted_before(params, from) <= omitted_before(params, upto),
    decreases upto,
{
    if from < upto {
        lemma_omitted_increases(params, from, upto - 1);
    }
}

} // verus!
