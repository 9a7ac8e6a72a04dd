//! Signatures of functions and closures, and struct definitions, as the
//! checks on lifetimes see them.

use vstd::prelude::*;
use crate::diagnostic::AnalysisError;
use crate::lifetime::Mutability;

verus! {

/// The type of a parameter, of a result or of a field.
#[derive(Clone, Copy, Debug, PartialEq, Eq, Structural)]
pub enum SignatureType {
    Owned,
    /// A reference; `lifetime` is `None` where the lifetime is omitted.
    Reference { lifetime: Option<usize>, mutability: Mutability },
}

impl SignatureType {
    /// The type is a reference.
    pub open spec fn is_reference(self) -> bool {
        self is Reference
    }

    /// The type is a reference without a written lifetime.
    pub open spec fn is_omitted(self) -> bool {
        self matches SignatureType::Reference { lifetime, .. } && lifetime is None
    }

    /// The lifetime parameter of a reference that names one.
    pub open spec fn spec_lifetime(self) -> Option<usize> {
        match self {
            SignatureType::Owned => None,
            SignatureType::Reference { lifetime, .. } => lifetime,
        }
    }

    /// The type with `lifetime` written where it was omitted.
    pub open spec fn annotated(self, lifetime: usize) -> SignatureType {
        match self {
            SignatureType::Reference { lifetime: None, mutability } => SignatureType::Reference {
                lifetime: Some(lifetime),
                mutability,
            },
            other => other,
        }
    }

    /// The lifetime parameter of a reference that names one.
    #[verifier::when_used_as_spec(spec_lifetime)]
    pub fn lifetime(self) -> (r: Option<usize>)
        ensures
            r == self.spec_lifetime(),
    {
        match self {
            SignatureType::Owned => None,
            SignatureType::Reference { lifetime, .. } => lifetime,
        }
    }
}

/// The signature of a function, a method or a closure.
///
/// Its lifetime parameters are numbered from zero; `lifetimes` is the
/// number of those that are declared.
#[derive(Clone, Debug, PartialEq, Eq)]
pub struct Signature {
    pub params: Vec<SignatureType>,
    /// Whether the first parameter is the receiver of a method.
    pub receiver: bool,
    pub output: SignatureType,
    pub lifetimes: usize,
    /// The declared constraints: `(longer, shorter)` stands for
    /// `longer: shorter`.
    pub constraints: Vec<(usize, usize)>,
    /// The lifetime parameters that are bound anew at each invocation.
    pub universal: Vec<usize>,
}

/// A signature as contracts see it.
pub struct SignatureView {
    pub params: Seq<SignatureType>,
    pub receiver: bool,
    pub output: SignatureType,
    pub lifetimes: usize,
    pub constraints: Seq<(usize, usize)>,
    pub universal: Seq<usize>,
}

impl View for Signature {
    type V = SignatureView;

    open spec fn view(&self) -> SignatureView {
        SignatureView {
            params: self.params@,
            receiver: self.receiver,
            output: self.output,
            lifetimes: self.lifetimes,
            constraints: self.constraints@,
            universal: self.universal@,
        }
    }
}

impl SignatureView {
    /// No lifetime of the signature is omitted.
    pub open spec fn is_explicit(self) -> bool {
        &&& !self.output.is_omitted()
        &&& forall|i: int| 0 <= i < self.params.len() ==> !(#[trigger] self.params[i]).is_omitted()
    }

    /// The first `upto` parameters name declared lifetimes only.
    pub open spec fn params_annotated_before(self, upto: int) -> bool {
        forall|i: int| 0 <= i < upto ==> field_is_tagged(#[trigger] self.params[i], self.lifetimes)
    }

    /// The first `upto` constraints name declared lifetimes only.
    pub open spec fn constraints_declared_before(self, upto: int) -> bool {
        forall|k: int|
            0 <= k < upto ==> (#[trigger] self.constraints[k]).0 < self.lifetimes
                && self.constraints[k].1 < self.lifetimes
    }

    /// Every reference of the signature names a declared lifetime, and so
    /// does every constraint.
    pub open spec fn is_annotated(self) -> bool {
        &&& field_is_tagged(self.output, self.lifetimes)
        &&& self.params_annotated_before(self.params.len() as int)
        &&& self.constraints_declared_before(self.constraints.len() as int)
    }
}

impl Signature {
    /// Whether every reference and every constraint of the signature
    /// names a declared lifetime.
    pub fn is_annotated(&self) -> (r: bool)
        ensures
            r == self@.is_annotated(),
    {
        if !tagged(self.output, self.lifetimes) {
            return false;
        }
        let n: usize = self.params.len();
        let mut i: usize = 0;
        while i < n
            invariant
                n == self@.params.len(),
                i <= n,
                self@.params_annotated_before(i as int),
            decreases n - i,
        {
            if !tagged(self.params[i], self.lifetimes) {
                return false;
            }
            i = i + 1;
        }
        let m: usize = self.constraints.len();
        let mut k: usize = 0;
        while k < m
            invariant
                m == self@.constraints.len(),
                k <= m,
                self@.constraints_declared_before(k as int),
            decreases m - k,
        {
            let c = self.constraints[k];
            if c.0 >= self.lifetimes || c.1 >= self.lifetimes {
                return false;
            }
            k = k + 1;
        }
        true
    }
}

/// Whether a reference type names one of `lifetimes` declared parameters;
/// an owned type names none and passes.
pub fn tagged(t: SignatureType, lifetimes: usize) -> (r: bool)
    ensures
        r == field_is_tagged(t, lifetimes),
{
    match t {
        SignatureType::Owned => true,
        SignatureType::Reference { lifetime, .. } => match lifetime {
            Some(l) => l < lifetimes,
            None => false,
        },
    }
}

/// A struct definition: its declared lifetime parameters, numbered from
/// zero, and the types of its fields.
#[derive(Clone, Debug, PartialEq, Eq)]
pub struct StructDef {
    pub lifetimes: usize,
    pub fields: Vec<SignatureType>,
}

/// The field may stand in a struct with `lifetimes` parameters: a
/// reference must name one of them.
pub open spec fn field_is_tagged(field: SignatureType, lifetimes: usize) -> bool {
    field matches SignatureType::Reference { lifetime, .. } ==> (lifetime matches Some(l) && l
        < lifetimes)
}

/// Every field before `upto` is tagged.
pub open spec fn fields_tagged_before(fields: Seq<SignatureType>, lifetimes: usize, upto: int) -> bool {
    forall|i: int| 0 <= i < upto ==> field_is_tagged(#[trigger] fields[i], lifetimes)
}

impl StructDef {
    /// Checks the definition: a reference field without a lifetime, or
    /// with one that the struct does not declare, needs an explicit
    /// annotation and is refused.
    pub fn check(&self) -> (r: Result<(), AnalysisError>)
        ensures
            r is Ok <==> fields_tagged_before(self.fields@, self.lifetimes, self.fields@.len() as int),
            r matches Err(e) ==> e == AnalysisError::AmbiguousElision,
    {
        let n: usize = self.fields.len();
        let mut i: usize = 0;
        while i < n
            invariant
                n == self.fields@.len(),
                i <= n,
                fields_tagged_before(self.fields@, self.lifetimes, i as int),
            decreases n - i,
        {
            if !tagged(self.fields[i], self.lifetimes) {
                return Err(AnalysisError::AmbiguousElision);
            }
            i = i + 1;
        }
        Ok(())
    }
}

} // verus!
