//! The analyzer: fragments go in, in the order of their declaration, and
//! each comes back resolved or with the diagnostics of its failure. A
//! fragment that fails ends its own analysis only.

use vstd::prelude::*;
use crate::block::{analyze_block, spec_analyze_block, BlockReport, BlockReportView};
use crate::callsite::{assign_call_site, spec_assign_call_site, ResolvedSignature, ResolvedView};
use crate::diagnostic::{report_all, AnalysisError, Diagnostic};
use crate::elision::{elide, spec_elide};
use crate::program::Instr;
use crate::region::{is_open_in, opened, Region, RegionTree};
use crate::signature::{fields_tagged_before, Signature, SignatureView, StructDef};
use crate::universal::{check_universal_bound, spec_check_universal_bound};

verus! {

/// A call of a function: its signature, the regions around the call, and
/// the region of each argument.
#[derive(Clone, Debug, PartialEq, Eq)]
pub struct CallSite {
    pub signature: Signature,
    /// The regions in the order of their opening: for each, the region
    /// around it, or `None` for a root.
    pub scopes: Vec<Option<usize>>,
    /// For each parameter in turn the region of the argument, or `None`
    /// for an argument that carries no lifetime.
    pub args: Vec<Option<usize>>,
}

/// A callable handed to a parameter with a bound.
#[derive(Clone, Debug, PartialEq, Eq)]
pub struct BoundCheck {
    pub bound: Signature,
    /// The signature of the callable: the parameters of the bound, then a
    /// reference for each that the callable has captured.
    pub callable: Signature,
    /// The regions around the callable, as for a call.
    pub scopes: Vec<Option<usize>>,
    /// The regions of the captured references.
    pub captured: Vec<Option<usize>>,
}

/// One unit of analysis.
#[derive(Clone, Debug, PartialEq, Eq)]
pub enum Fragment {
    /// The signature of a function: its omitted lifetimes are written out.
    Signature(Signature),
    /// The definition of a struct: its reference fields must be tagged.
    Struct(StructDef),
    /// A call: the signature is annotated and resolved against the
    /// regions of the arguments.
    CallSite(CallSite),
    /// A block, as the list of its steps.
    Block(Vec<Instr>),
    /// A callable under a universally quantified bound.
    Bound(BoundCheck),
}

/// What the analysis of a fragment finds.
#[derive(Clone, Debug, PartialEq, Eq)]
pub enum Outcome {
    Annotated(Signature),
    Accepted,
    Resolved(ResolvedSignature),
    Block(BlockReport),
}

/// An outcome as contracts see it.
pub enum OutcomeView {
    Annotated(SignatureView),
    Accepted,
    Resolved(ResolvedView),
    Block(BlockReportView),
}

impl View for Outcome {
    type V = OutcomeView;

    open spec fn view(&self) -> OutcomeView {
        match self {
            Outcome::Annotated(sig) => OutcomeView::Annotated(sig@),
            Outcome::Accepted => OutcomeView::Accepted,
            Outcome::Resolved(resolved) => OutcomeView::Resolved(resolved@),
            Outcome::Block(report) => OutcomeView::Block(report@),
        }
    }
}

/// What is expected of the analysis of a fragment: an outcome, or a
/// failure and the step at which it arose.
pub type Verdict = Result<OutcomeView, (AnalysisError, Option<usize>)>;

/// The result tells what was expected: the outcome, or a list of exactly
/// one diagnostic that tells of the failure.
pub open spec fn tells(r: Result<Outcome, Vec<Diagnostic>>, expected: Verdict) -> bool {
    match expected {
        Ok(outcome) => r matches Ok(got) && got@ == outcome,
        Err((error, position)) => r matches Err(list) && list@.len() == 1 && list@[0].describes(
            error,
            position,
        ),
    }
}

/// The regions that `scopes` describes after the first `upto` were
/// opened, all of them open; or the failure to open one inside a region
/// that was not opened before it.
pub open spec fn forest_of(scopes: Seq<Option<usize>>, upto: int) -> Result<
    Seq<Region>,
    AnalysisError,
>
    decreases upto,
{
    if upto <= 0 {
        Ok(Seq::empty())
    } else {
        match forest_of(scopes, upto - 1) {
            Err(e) => Err(e),
            Ok(regions) => match scopes[upto - 1] {
                Some(p) => if is_open_in(regions, p) {
                    Ok(regions.push(opened(regions, Some(p))))
                } else {
                    Err(AnalysisError::RegionContractViolation { region: p })
                },
                None => Ok(regions.push(opened(regions, None))),
            },
        }
    }
}

/// A signature is annotated by elision.
pub open spec fn verdict_on_signature(sig: SignatureView) -> Verdict {
    match spec_elide(sig) {
        Ok(annotated) => Ok(OutcomeView::Annotated(annotated)),
        Err(e) => Err((e, None)),
    }
}

/// A struct is accepted if every reference field is tagged.
pub open spec fn verdict_on_struct(def: StructDef) -> Verdict {
    if fields_tagged_before(def.fields@, def.lifetimes, def.fields@.len() as int) {
        Ok(OutcomeView::Accepted)
    } else {
        Err((AnalysisError::AmbiguousElision, None))
    }
}

/// A call is annotated, its regions are opened, and its signature is
/// resolved against the regions of the arguments.
pub open spec fn verdict_on_call_site(site: CallSite) -> Verdict {
    match spec_elide(site.signature@) {
        Err(e) => Err((e, None)),
        Ok(annotated) => match forest_of(site.scopes@, site.scopes@.len() as int) {
            Err(e) => Err((e, None)),
            Ok(regions) => match spec_assign_call_site(regions, annotated, site.args@) {
                Err(e) => Err((e, None)),
                Ok(resolved) => Ok(OutcomeView::Resolved(resolved)),
            },
        },
    }
}

/// A block is run step by step; a failure tells the step it arose at.
pub open spec fn verdict_on_block(program: Seq<Instr>) -> Verdict {
    match spec_analyze_block(program) {
        Ok(report) => Ok(OutcomeView::Block(report)),
        Err(failure) => Err((failure.error, Some(failure.position))),
    }
}

/// A callable is tried against its bound beside the regions around it.
pub open spec fn verdict_on_bound(check: BoundCheck) -> Verdict {
    match forest_of(check.scopes@, check.scopes@.len() as int) {
        Err(e) => Err((e, None)),
        Ok(regions) => match spec_check_universal_bound(
            regions,
            check.bound@,
            check.callable@,
            check.captured@,
        ) {
            Ok(_) => Ok(OutcomeView::Accepted),
            Err(e) => Err((e, None)),
        },
    }
}

/// What the analysis of a fragment is to find.
pub open spec fn verdict(fragment: Fragment) -> Verdict {
    match fragment {
        Fragment::Signature(sig) => verdict_on_signature(sig@),
        Fragment::Struct(def) => verdict_on_struct(def),
        Fragment::CallSite(site) => verdict_on_call_site(site),
        Fragment::Block(program) => verdict_on_block(program@),
        Fragment::Bound(check) => verdict_on_bound(check),
    }
}

/// Opens the regions that `scopes` describes.
fn build_forest(scopes: &Vec<Option<usize>>) -> (r: Result<RegionTree, AnalysisError>)
    ensures
        r matches Ok(tree) ==> tree.wf() && forest_of(scopes@, scopes@.len() as int) == Ok::<
            Seq<Region>,
            AnalysisError,
        >(tree@),
        r matches Err(e) ==> forest_of(scopes@, scopes@.len() as int) == Err::<
            Seq<Region>,
            AnalysisError,
        >(e),
{
    let n: usize = scopes.len();
    let mut tree = RegionTree::new();
    let mut i: usize = 0;
    while i < n
        invariant
            n == scopes@.len(),
            i <= n,
            tree.wf(),
            forest_of(scopes@, i as int) == Ok::<Seq<Region>, AnalysisError>(tree@),
        decreases n - i,
    {
        match tree.open_region(scopes[i]) {
            Err(e) => {
                proof {
                    lemma_forest_failure_stays(scopes@, i + 1, n as int);
                }
                return Err(e);
            },
            Ok(_) => {},
        }
        i = i + 1;
    }
    Ok(tree)
}

/// A region that cannot be opened is the failure of the whole forest.
proof fn lemma_forest_failure_stays(scopes: Seq<Option<usize>>, at: int, upto: int)
    requires
        0 <= at <= upto,
        forest_of(scopes, at) is Err,
    ensures
        forest_of(scopes, upto) == forest_of(scopes, at),
    decreases upto - at,
{
    if at < upto {
        lemma_forest_failure_stays(scopes, at, upto - 1);
    }
}

/// Resolves a call: annotates the signature, opens the regions around the
/// call, and binds the lifetime parameters to the regions of the
/// arguments.
pub fn analyze_call_site(site: &CallSite) -> (r: Result<ResolvedSignature, AnalysisError>)
    ensures
        r matches Ok(resolved) ==> verdict_on_call_site(*site) == Ok::<
            OutcomeView,
            (AnalysisError, Option<usize>),
        >(OutcomeView::Resolved(resolved@)),
        r matches Err(e) ==> verdict_on_call_site(*site) == Err::<
            OutcomeView,
            (AnalysisError, Option<usize>),
        >((e, None)),
{
    let annotated = match elide(&site.signature) {
        Ok(annotated) => annotated,
        Err(e) => {
            return Err(e);
        },
    };
    let regions = match build_forest(&site.scopes) {
        Ok(regions) => regions,
        Err(e) => {
            return Err(e);
        },
    };
    assign_call_site(&regions, &annotated, &site.args)
}

/// Tries a callable against a bound: opens the regions around it and
/// checks the bound at synthetic lifetimes.
pub fn analyze_bound(check: &BoundCheck) -> (r: Result<(), AnalysisError>)
    ensures
        r matches Ok(_) ==> verdict_on_bound(*check) == Ok::<
            OutcomeView,
            (AnalysisError, Option<usize>),
        >(OutcomeView::Accepted),
        r matches Err(e) ==> verdict_on_bound(*check) == Err::<
            OutcomeView,
            (AnalysisError, Option<usize>),
        >((e, None)),
{
    let regions = match build_forest(&check.scopes) {
        Ok(regions) => regions,
        Err(e) => {
            return Err(e);
        },
    };
    check_universal_bound(&regions, &check.bound, &check.callable, &check.captured)
}

/// Analyzes one fragment. A fragment that fails comes back with the
/// diagnostic of its first failure.
pub fn analyze_fragment(fragment: &Fragment) -> (r: Result<Outcome, Vec<Diagnostic>>)
    ensures
        tells(r, verdict(*fragment)),
{
    match fragment {
        Fragment::Signature(sig) => match elide(sig) {
            Ok(annotated) => Ok(Outcome::Annotated(annotated)),
            Err(e) => Err(report_all(e, None)),
        },
        Fragment::Struct(def) => match def.check() {
            Ok(_) => Ok(Outcome::Accepted),
            Err(e) => Err(report_all(e, None)),
        },
        Fragment::CallSite(site) => match analyze_call_site(site) {
            Ok(resolved) => Ok(Outcome::Resolved(resolved)),
            Err(e) => Err(report_all(e, None)),
        },
        Fragment::Block(program) => match analyze_block(program) {
            Ok(report) => Ok(Outcome::Block(report)),
            Err(failure) => Err(report_all(failure.error, Some(failure.position))),
        },
        Fragment::Bound(check) => match analyze_bound(check) {
            Ok(_) => Ok(Outcome::Accepted),
            Err(e) => Err(report_all(e, None)),
        },
    }
}

/// Analyzes the fragments in turn. Each has regions, bindings and borrows
/// of its own, so the failure of one leaves the others as they are: there
/// is a result for every fragment, and it is what the fragment alone
/// gives.
pub fn analyze(fragments: &Vec<Fragment>) -> (results: Vec<Result<Outcome, Vec<Diagnostic>>>)
    ensures
        results@.len() == fragments@.len(),
        forall|i: int|
            0 <= i < fragments@.len() ==> tells(#[trigger] results@[i], verdict(fragments@[i])),
{
    let n: usize = fragments.len();
    let mut results: Vec<Result<Outcome, Vec<Diagnostic>>> = Vec::new();
    let mut i: usize = 0;
    while i < n
        invariant
            n == fragments@.len(),
            i <= n,
            results@.len() == i,
            forall|j: int| 0 <= j < i ==> tells(#[trigger] results@[j], verdict(fragments@[j])),
        decreases n - i,
    {
        results.push(analyze_fragment(&fragments[i]));
        i = i + 1;
    }
    results
}

} // verus!
