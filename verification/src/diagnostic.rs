//! The error taxonomy of the analyzer and the reporter that turns a failed
//! check into a structured diagnostic.

use vstd::prelude::*;

verus! {

/// The stable kinds of failure that the analyzer reports.
#[derive(Clone, Copy, Debug, PartialEq, Eq, Structural)]
pub enum ErrorKind {
    UseAfterMove,
    UseOfPartiallyMoved,
    ConflictingBorrow,
    CannotMoveBorrowed,
    DanglingAfterDrop,
    AmbiguousElision,
    OutlivesViolation,
    UnboundNotSatisfied,
    RegionContractViolation,
}

impl ErrorKind {
    /// Every kind but `RegionContractViolation` describes a fault of the
    /// analyzed program and is shown to its author.
    pub open spec fn user_facing(self) -> bool {
        self != ErrorKind::RegionContractViolation
    }

    /// Whether the kind is shown to the author of the analyzed program.
    pub fn is_user_facing(self) -> (r: bool)
        ensures
            r == self.user_facing(),
    {
        match self {
            ErrorKind::RegionContractViolation => false,
            _ => true,
        }
    }

    /// A fatal kind reveals a fault of the caller, not of the analyzed program.
    pub fn is_fatal(self) -> (r: bool)
        ensures
            r == !self.user_facing(),
    {
        !self.is_user_facing()
    }
}

/// A failed check, with the identifiers it is about.
///
/// Bindings, fields, lifetime parameters and regions are named by the
/// integers under which their tables know them.
#[derive(Clone, Copy, Debug, PartialEq, Eq, Structural)]
pub enum AnalysisError {
    /// A binding was used after its value had been moved out.
    UseAfterMove { binding: usize },
    /// A binding was used as a whole, or one of its fields again, after
    /// `field` had been moved out of it.
    UseOfPartiallyMoved { binding: usize, field: usize },
    /// A borrow tied to `region` would break the exclusivity of `binding`.
    ConflictingBorrow { binding: usize, region: usize },
    /// A move out of `binding` was attempted while borrows are outstanding.
    CannotMoveBorrowed { binding: usize },
    /// `binding` is dropped while a borrow of it is outstanding that
    /// belongs to `region`, which is still open.
    DanglingAfterDrop { binding: usize, region: usize },
    /// The elision rules do not determine the omitted output lifetime.
    AmbiguousElision,
    /// The constraint `longer: shorter` does not hold of the regions that
    /// the two lifetime parameters were resolved to.
    OutlivesViolation { longer: usize, shorter: usize, longer_region: usize, shorter_region: usize },
    /// A callable does not meet a bound for every choice of lifetimes:
    /// `lifetime` is the parameter of the callable that stands in the way,
    /// or `None` where the two signatures differ in shape.
    UnboundNotSatisfied { lifetime: Option<usize> },
    /// The region model was misused: `region` is unknown, closed, or has
    /// open regions inside it.
    RegionContractViolation { region: usize },
}

/// A failed check and the step of the fragment at which it failed.
#[derive(Clone, Copy, Debug, PartialEq, Eq, Structural)]
pub struct Failure {
    pub error: AnalysisError,
    pub position: usize,
}

impl AnalysisError {
    /// The kind of the failure.
    pub open spec fn spec_kind(self) -> ErrorKind {
        match self {
            AnalysisError::UseAfterMove { .. } => ErrorKind::UseAfterMove,
            AnalysisError::UseOfPartiallyMoved { .. } => ErrorKind::UseOfPartiallyMoved,
            AnalysisError::ConflictingBorrow { .. } => ErrorKind::ConflictingBorrow,
            AnalysisError::CannotMoveBorrowed { .. } => ErrorKind::CannotMoveBorrowed,
            AnalysisError::DanglingAfterDrop { .. } => ErrorKind::DanglingAfterDrop,
            AnalysisError::AmbiguousElision => ErrorKind::AmbiguousElision,
            AnalysisError::OutlivesViolation { .. } => ErrorKind::OutlivesViolation,
            AnalysisError::UnboundNotSatisfied { .. } => ErrorKind::UnboundNotSatisfied,
            AnalysisError::RegionContractViolation { .. } => ErrorKind::RegionContractViolation,
        }
    }

    /// The kind of the failure.
    #[verifier::when_used_as_spec(spec_kind)]
    pub fn kind(self) -> (k: ErrorKind)
        ensures
            k == self.spec_kind(),
    {
        match self {
            AnalysisError::UseAfterMove { .. } => ErrorKind::UseAfterMove,
            AnalysisError::UseOfPartiallyMoved { .. } => ErrorKind::UseOfPartiallyMoved,
            AnalysisError::ConflictingBorrow { .. } => ErrorKind::ConflictingBorrow,
            AnalysisError::CannotMoveBorrowed { .. } => ErrorKind::CannotMoveBorrowed,
            AnalysisError::DanglingAfterDrop { .. } => ErrorKind::DanglingAfterDrop,
            AnalysisError::AmbiguousElision => ErrorKind::AmbiguousElision,
            AnalysisError::OutlivesViolation { .. } => ErrorKind::OutlivesViolation,
            AnalysisError::UnboundNotSatisfied { .. } => ErrorKind::UnboundNotSatisfied,
            AnalysisError::RegionContractViolation { .. } => ErrorKind::RegionContractViolation,
        }
    }
}

impl AnalysisError {
    /// The bindings that the failure is about.
    pub open spec fn bindings(self) -> Seq<usize> {
        match self {
            AnalysisError::UseAfterMove { binding } => seq![binding],
            AnalysisError::UseOfPartiallyMoved { binding, .. } => seq![binding],
            AnalysisError::ConflictingBorrow { binding, .. } => seq![binding],
            AnalysisError::CannotMoveBorrowed { binding } => seq![binding],
            AnalysisError::DanglingAfterDrop { binding, .. } => seq![binding],
            _ => Seq::empty(),
        }
    }

    /// The fields that the failure is about.
    pub open spec fn fields(self) -> Seq<usize> {
        match self {
            AnalysisError::UseOfPartiallyMoved { field, .. } => seq![field],
            _ => Seq::empty(),
        }
    }

    /// The lifetime parameters that the failure is about.
    pub open spec fn lifetimes(self) -> Seq<usize> {
        match self {
            AnalysisError::OutlivesViolation { longer, shorter, .. } => seq![longer, shorter],
            AnalysisError::UnboundNotSatisfied { lifetime: Some(l) } => seq![l],
            _ => Seq::empty(),
        }
    }

    /// The regions involved in the failure.
    pub open spec fn regions(self) -> Seq<usize> {
        match self {
            AnalysisError::ConflictingBorrow { region, .. } => seq![region],
            AnalysisError::DanglingAfterDrop { region, .. } => seq![region],
            AnalysisError::OutlivesViolation { longer_region, shorter_region, .. } => seq![
                longer_region,
                shorter_region,
            ],
            AnalysisError::RegionContractViolation { region } => seq![region],
            _ => Seq::empty(),
        }
    }
}

/// A failure as it is handed to the caller: the kind, the identifiers it
/// is about, and where in the fragment it arose.
#[derive(Clone, Debug, PartialEq, Eq)]
pub struct Diagnostic {
    pub kind: ErrorKind,
    pub bindings: Vec<usize>,
    pub fields: Vec<usize>,
    pub lifetimes: Vec<usize>,
    pub regions: Vec<usize>,
    /// The step of the fragment at which the check failed, for a fragment
    /// that has steps.
    pub position: Option<usize>,
    /// Whether the failure is a fault of the caller and should stop it.
    pub fatal: bool,
}

impl Diagnostic {
    /// The diagnostic tells of `error` at `position`.
    pub open spec fn describes(&self, error: AnalysisError, position: Option<usize>) -> bool {
        &&& self.kind == error.spec_kind()
        &&& self.bindings@ == error.bindings()
        &&& self.fields@ == error.fields()
        &&& self.lifetimes@ == error.lifetimes()
        &&& self.regions@ == error.regions()
        &&& self.position == position
        &&& self.fatal == !error.spec_kind().user_facing()
    }
}

/// Turns a failed check into a diagnostic.
pub fn report(error: AnalysisError, position: Option<usize>) -> (d: Diagnostic)
    ensures
        d.describes(error, position),
{
    let kind = error.kind();
    let mut bindings: Vec<usize> = Vec::new();
    let mut fields: Vec<usize> = Vec::new();
    let mut lifetimes: Vec<usize> = Vec::new();
    let mut regions: Vec<usize> = Vec::new();
    match error {
        AnalysisError::UseAfterMove { binding } => {
            bindings.push(binding);
        },
        AnalysisError::UseOfPartiallyMoved { binding, field } => {
            bindings.push(binding);
            fields.push(field);
        },
        AnalysisError::ConflictingBorrow { binding, region } => {
            bindings.push(binding);
            regions.push(region);
        },
        AnalysisError::CannotMoveBorrowed { binding } => {
            bindings.push(binding);
        },
        AnalysisError::DanglingAfterDrop { binding, region } => {
            bindings.push(binding);
            regions.push(region);
        },
        AnalysisError::AmbiguousElision => {},
        AnalysisError::OutlivesViolation { longer, shorter, longer_region, shorter_region } => {
            lifetimes.push(longer);
            lifetimes.push(shorter);
            regions.push(longer_region);
            regions.push(shorter_region);
        },
        AnalysisError::UnboundNotSatisfied { lifetime } => {
            match lifetime {
                Some(l) => {
                    lifetimes.push(l);
                },
                None => {},
            }
        },
        AnalysisError::RegionContractViolation { region } => {
            regions.push(region);
        },
    }
    proof {
        assert(bindings@ =~= error.bindings());
        assert(fields@ =~= error.fields());
        assert(lifetimes@ =~= error.lifetimes());
        assert(regions@ =~= error.regions());
    }
    Diagnostic { kind, bindings, fields, lifetimes, regions, position, fatal: kind.is_fatal() }
}

/// The list of diagnostics of a fragment that failed at `error`: not
/// empty, since the first failure ends the analysis of the fragment.
pub fn report_all(error: AnalysisError, position: Option<usize>) -> (list: Vec<Diagnostic>)
    ensures
        list@.len() == 1,
        list@[0].describes(error, position),
{
    let mut list: Vec<Diagnostic> = Vec::new();
    list.push(report(error, position));
    list
}

} // verus!
