//! The universal-bound checker: whether a callable meets a bound for every
//! choice of the lifetimes that the bound quantifies over.
//!
//! The bound is tried at synthetic lifetimes: beside the regions of the
//! enclosing scope, each lifetime parameter of the bound receives a region
//! of its own, which neither contains nor lies in any other region. The
//! signature of the callable is then resolved as at any call site, with
//! the synthetic regions as the regions of its arguments.

use vstd::prelude::*;
use crate::binding::DeclaredType;
use crate::callsite::{
    assign_call_site,
    binds,
    carries,
    lemma_unify_binds_innermost,
    spec_assign_call_site,
    ResolvedView,
};
use crate::diagnostic::AnalysisError;
use crate::elision::{elide, spec_elide};
use crate::lifetime::Lifetime;
use crate::region::{
    is_ancestor,
    is_open_in,
    lemma_ancestor_not_later,
    lemma_ancestor_same_parents,
    opened,
    spec_compare_extent,
    Extent,
    Region,
    RegionTree,
};
use crate::signature::{field_is_tagged, Signature, SignatureType, SignatureView};
use crate::util::holds;

verus! {

/// The regions of `scope` with `count` synthetic regions beside them:
/// open roots, opened after all of `scope`.
pub open spec fn with_synthetic(scope: Seq<Region>, count: nat) -> Seq<Region>
    decreases count,
{
    if count == 0 {
        scope
    } else {
        let before = with_synthetic(scope, (count - 1) as nat);
        before.push(opened(before, None))
    }
}

/// The lifetime parameter `l` of `bound` is bound anew at each invocation:
/// it is marked so, or elision has added it.
pub open spec fn is_universal(bound: SignatureView, l: usize) -> bool {
    bound.universal.contains(l) || l >= bound.lifetimes
}

/// The region that the argument at `i` carries when the bound is tried.
/// In the positions of the bound it is the synthetic region of the
/// lifetime of the parameter, where the bound quantifies over it; the
/// positions after those are the references that the callable has
/// captured, with the regions they have in the enclosing scope.
pub open spec fn trial_arg(
    base: nat,
    bound: SignatureView,
    annotated: SignatureView,
    captured: Seq<Option<usize>>,
    i: int,
) -> Option<usize> {
    if i < annotated.params.len() {
        match annotated.params[i] {
            SignatureType::Reference { lifetime: Some(l), .. } => if is_universal(bound, l) {
                Some((base + l) as usize)
            } else {
                None
            },
            _ => None,
        }
    } else {
        captured[i - annotated.params.len()]
    }
}

/// The regions of all arguments when the bound is tried.
pub open spec fn trial_args(
    base: nat,
    bound: SignatureView,
    annotated: SignatureView,
    captured: Seq<Option<usize>>,
) -> Seq<Option<usize>> {
    Seq::new(
        annotated.params.len() + captured.len(),
        |i: int| trial_arg(base, bound, annotated, captured, i),
    )
}

/// The first `upto` parameters of the two signatures agree in being owned
/// or a reference.
pub open spec fn params_agree_before(b: SignatureView, c: SignatureView, upto: int) -> bool {
    forall|i: int|
        0 <= i < upto ==> (#[trigger] b.params[i]).is_reference() == c.params[i].is_reference()
}

/// The callable has the parameters of the bound, which agree on where a
/// reference stands, and after them one for each captured reference.
pub open spec fn shapes_agree(b: SignatureView, c: SignatureView, captured: nat) -> bool {
    &&& c.params.len() == b.params.len() + captured
    &&& b.output.is_reference() == c.output.is_reference()
    &&& params_agree_before(b, c, b.params.len() as int)
}

/// The first region at or after `from` that a captured reference is said
/// to have, but that is not an open region of the scope.
pub open spec fn first_stray(scope: Seq<Region>, captured: Seq<Option<usize>>, from: int) -> Option<
    usize,
>
    decreases captured.len() - from,
{
    if from < 0 || from >= captured.len() {
        None
    } else if captured[from] matches Some(r) && !is_open_in(scope, r) {
        captured[from]
    } else {
        first_stray(scope, captured, from + 1)
    }
}

/// What the callable returns lives as long as the bound asks: where the
/// output of the bound carries a lifetime that it quantifies over, the
/// output of the callable is bound to a region that contains the synthetic
/// region of that lifetime.
pub open spec fn output_satisfied(
    scope: Seq<Region>,
    bound: SignatureView,
    annotated: SignatureView,
    resolved: ResolvedView,
) -> bool {
    match annotated.output {
        SignatureType::Reference { lifetime: Some(l), .. } => is_universal(bound, l) ==> (
        resolved.output matches DeclaredType::Reference { lifetime: Lifetime::Concrete(r), .. }
            && is_ancestor(
            with_synthetic(scope, annotated.lifetimes as nat),
            r as int,
            scope.len() + l,
        )),
        _ => true,
    }
}

/// A failure of the resolution at synthetic lifetimes, as a failure of
/// the bound: a constraint that does not hold there names the parameter
/// of the callable that cannot be chosen freely.
pub open spec fn as_unbound(e: AnalysisError) -> AnalysisError {
    match e {
        AnalysisError::OutlivesViolation { longer, .. } => AnalysisError::UnboundNotSatisfied {
            lifetime: Some(longer),
        },
        other => other,
    }
}

/// Whether `callable` meets `bound` for every choice of the lifetimes
/// that the bound quantifies over, and why not.
pub open spec fn spec_check_universal_bound(
    scope: Seq<Region>,
    bound: SignatureView,
    callable: SignatureView,
    captured: Seq<Option<usize>>,
) -> Result<(), AnalysisError> {
    match spec_elide(bound) {
        Err(e) => Err(e),
        Ok(b) => match spec_elide(callable) {
            Err(e) => Err(e),
            Ok(c) => if !b.is_annotated() {
                Err(AnalysisError::AmbiguousElision)
            } else if !shapes_agree(b, c, captured.len()) {
                Err(AnalysisError::UnboundNotSatisfied { lifetime: None })
            } else if first_stray(scope, captured, 0) is Some {
                Err(
                    AnalysisError::RegionContractViolation {
                        region: first_stray(scope, captured, 0)->0,
                    },
                )
            } else {
                match spec_assign_call_site(
                    with_synthetic(scope, b.lifetimes as nat),
                    c,
                    trial_args(scope.len(), bound, b, captured),
                ) {
                    Err(e) => Err(as_unbound(e)),
                    Ok(resolved) => if output_satisfied(scope, bound, b, resolved) {
                        Ok(())
                    } else {
                        Err(
                            AnalysisError::UnboundNotSatisfied {
                                lifetime: c.output.spec_lifetime(),
                            },
                        )
                    },
                }
            },
        },
    }
}

/// The regions of `scope` with `count` synthetic regions beside them.
fn make_forest(scope: &RegionTree, count: usize) -> (tree: RegionTree)
    requires
        scope.wf(),
    ensures
        tree.wf(),
        tree@ == with_synthetic(scope@, count as nat),
{
    let mut tree = scope.snapshot();
    let mut k: usize = 0;
    while k < count
        invariant
            k <= count,
            tree.wf(),
            tree@ == with_synthetic(scope@, k as nat),
        decreases count - k,
    {
        let added = tree.open_region(None);
        k = k + 1;
    }
    tree
}

/// Whether the callable has the shape that the bound asks for.
fn same_shape(b: &Signature, c: &Signature, captured: usize) -> (r: bool)
    ensures
        r == shapes_agree(b@, c@, captured as nat),
{
    let n: usize = b.params.len();
    if c.params.len() < n || c.params.len() - n != captured {
        return false;
    }
    if is_ref(b.output) != is_ref(c.output) {
        return false;
    }
    let mut i: usize = 0;
    while i < n
        invariant
            n == b@.params.len(),
            n <= c@.params.len(),
            i <= n,
            params_agree_before(b@, c@, i as int),
        decreases n - i,
    {
        if is_ref(b.params[i]) != is_ref(c.params[i]) {
            return false;
        }
        i = i + 1;
    }
    true
}

fn is_ref(t: SignatureType) -> (r: bool)
    ensures
        r == t.is_reference(),
{
    match t {
        SignatureType::Owned => false,
        SignatureType::Reference { .. } => true,
    }
}

/// Whether the bound quantifies over its lifetime parameter `l`.
fn quantifies(bound: &Signature, l: usize) -> (r: bool)
    ensures
        r == is_universal(bound@, l),
{
    l >= bound.lifetimes || holds(&bound.universal, l)
}

/// The first region of a captured reference that is not open in `scope`.
fn find_stray(scope: &RegionTree, captured: &Vec<Option<usize>>) -> (r: Option<usize>)
    ensures
        r == first_stray(scope@, captured@, 0),
{
    let n: usize = captured.len();
    let mut j: usize = 0;
    while j < n
        invariant
            n == captured@.len(),
            j <= n,
            first_stray(scope@, captured@, 0) == first_stray(scope@, captured@, j as int),
        decreases n - j,
    {
        match captured[j] {
            Some(r) => {
                if !scope.is_open(r) {
                    return Some(r);
                }
            },
            None => {},
        }
        j = j + 1;
    }
    None
}

/// Checks that `callable` meets `bound` whatever lifetimes an invocation
/// chooses for the parameters that the bound quantifies over. Both
/// signatures are annotated by elision first. The callable takes the
/// parameters of the bound and, after them, one reference for each that
/// it has captured; `captured` gives their regions in `scope`. A callable
/// whose signature holds only for particular lifetimes, such as one that
/// returns a reference it has captured, is refused.
pub fn check_universal_bound(
    scope: &RegionTree,
    bound: &Signature,
    callable: &Signature,
    captured: &Vec<Option<usize>>,
) -> (r: Result<(), AnalysisError>)
    requires
        scope.wf(),
    ensures
        r == spec_check_universal_bound(scope@, bound@, callable@, captured@),
{
    let b = match elide(bound) {
        Ok(b) => b,
        Err(e) => {
            return Err(e);
        },
    };
    let c = match elide(callable) {
        Ok(c) => c,
        Err(e) => {
            return Err(e);
        },
    };
    if !b.is_annotated() {
        return Err(AnalysisError::AmbiguousElision);
    }
    if !same_shape(&b, &c, captured.len()) {
        return Err(AnalysisError::UnboundNotSatisfied { lifetime: None });
    }
    match find_stray(scope, captured) {
        Some(r) => {
            return Err(AnalysisError::RegionContractViolation { region: r });
        },
        None => {},
    }
    let forest = make_forest(scope, b.lifetimes);
    let base: usize = scope.len();
    let total: usize = forest.len();
    proof {
        lemma_with_synthetic(scope@, b.lifetimes as nat);
    }
    let n: usize = b.params.len();
    let mut args: Vec<Option<usize>> = Vec::new();
    let mut i: usize = 0;
    while i < n
        invariant
            n == b@.params.len(),
            b@.is_annotated(),
            base + b.lifetimes == total,
            base == scope@.len(),
            i <= n,
            args@.len() == i,
            forall|j: int|
                0 <= j < i ==> args@[j] == trial_arg(base as nat, bound@, b@, captured@, j),
        decreases n - i,
    {
        let arg = match b.params[i] {
            SignatureType::Reference { lifetime: Some(l), .. } => if quantifies(bound, l) {
                assert(field_is_tagged(b@.params[i as int], b.lifetimes));
                Some(base + l)
            } else {
                None
            },
            _ => None,
        };
        args.push(arg);
        i = i + 1;
    }
    let m: usize = captured.len();
    let mut j: usize = 0;
    while j < m
        invariant
            n == b@.params.len(),
            m == captured@.len(),
            n + m == c@.params.len(),
            base == scope@.len(),
            j <= m,
            args@.len() == n + j,
            forall|q: int|
                0 <= q < n + j ==> args@[q] == trial_arg(base as nat, bound@, b@, captured@, q),
        decreases m - j,
    {
        args.push(captured[j]);
        j = j + 1;
    }
    assert(args@ =~= trial_args(base as nat, bound@, b@, captured@));
    match assign_call_site(&forest, &c, &args) {
        Err(e) => match e {
            AnalysisError::OutlivesViolation { longer, .. } => Err(
                AnalysisError::UnboundNotSatisfied { lifetime: Some(longer) },
            ),
            other => Err(other),
        },
        Ok(resolved) => {
            let satisfied = match b.output {
                SignatureType::Reference { lifetime: Some(l), .. } => if quantifies(bound, l) {
                    match resolved.output {
                        DeclaredType::Reference { lifetime: Lifetime::Concrete(r), .. } => {
                            forest.contains(r, base + l)
                        },
                        _ => false,
                    }
                } else {
                    true
                },
                _ => true,
            };
            if satisfied {
                Ok(())
            } else {
                Err(AnalysisError::UnboundNotSatisfied { lifetime: c.output.lifetime() })
            }
        },
    }
}

/// The synthetic regions come after the regions of the scope, which stay
/// as they are; each is an open root.
pub proof fn lemma_with_synthetic(scope: Seq<Region>, count: nat)
    ensures
        with_synthetic(scope, count).len() == scope.len() + count,
        forall|i: int|
            0 <= i < scope.len() ==> (#[trigger] with_synthetic(scope, count)[i]) == scope[i],
        forall|i: int|
            scope.len() <= i < scope.len() + count ==> (#[trigger] with_synthetic(
                scope,
                count,
            )[i]).parent is None && with_synthetic(scope, count)[i].open,
    decreases count,
{
    if count > 0 {
        lemma_with_synthetic(scope, (count - 1) as nat);
    }
}

/// A synthetic region lies apart from every other region, of the scope
/// or synthetic: neither contains the other.
pub proof fn lemma_synthetic_regions_apart(scope: Seq<Region>, count: nat, other: int, synthetic: int)
    requires
        0 <= other < scope.len() + count,
        scope.len() <= synthetic < scope.len() + count,
        other != synthetic,
    ensures
        spec_compare_extent(with_synthetic(scope, count), other, synthetic) == Extent::Disjoint,
{
    let forest = with_synthetic(scope, count);
    lemma_with_synthetic(scope, count);
    assert(forest[synthetic].parent is None);
    if is_ancestor(forest, synthetic, other) {
        lemma_ancestor_not_later(forest, synthetic, other);
        assert(forest[other].parent is None);
    }
}

/// The regions of the scope contain each other beside the synthetic
/// regions as they do without them.
pub proof fn lemma_scope_kept(scope: Seq<Region>, count: nat, outer: int, inner: int)
    requires
        0 <= outer < scope.len(),
        0 <= inner < scope.len(),
    ensures
        is_ancestor(with_synthetic(scope, count), outer, inner) == is_ancestor(scope, outer, inner),
{
    lemma_with_synthetic(scope, count);
    lemma_ancestor_same_parents(scope, with_synthetic(scope, count), outer, inner);
}

/// Every captured region is an open region of the scope unless one of
/// them is found to stray.
proof fn lemma_none_strays(scope: Seq<Region>, captured: Seq<Option<usize>>, from: int, at: int)
    requires
        0 <= from <= at < captured.len(),
        first_stray(scope, captured, from) is None,
    ensures
        captured[at] matches Some(r) ==> is_open_in(scope, r),
    decreases at - from,
{
    if from < at {
        lemma_none_strays(scope, captured, from + 1, at);
    }
}

/// A callable that returns a reference which none of the parameters of
/// the bound carries, such as one it has captured from the enclosing
/// scope, fails every bound whose output carries a lifetime that the
/// bound quantifies over.
pub proof fn lemma_captured_output_fails(
    scope: Seq<Region>,
    bound: SignatureView,
    callable: SignatureView,
    captured: Seq<Option<usize>>,
)
    requires
        spec_elide(bound) is Ok,
        spec_elide(callable) is Ok,
        spec_elide(bound)->Ok_0.output matches SignatureType::Reference { lifetime: Some(l), .. }
            && is_universal(bound, l),
        spec_elide(callable)->Ok_0.output matches SignatureType::Reference {
            lifetime: Some(l),
            ..
        } && forall|i: int|
            0 <= i < spec_elide(bound)->Ok_0.params.len() ==> (#[trigger] spec_elide(
                callable,
            )->Ok_0.params[i]).spec_lifetime() != Some(l),
    ensures
        spec_check_universal_bound(scope, bound, callable, captured) is Err,
{
    let b = spec_elide(bound)->Ok_0;
    let c = spec_elide(callable)->Ok_0;
    let forest = with_synthetic(scope, b.lifetimes as nat);
    let args = trial_args(scope.len(), bound, b, captured);
    if b.is_annotated() && shapes_agree(b, c, captured.len()) && first_stray(scope, captured, 0)
        is None && spec_assign_call_site(forest, c, args) is Ok {
        let resolved = spec_assign_call_site(forest, c, args)->Ok_0;
        let returned = c.output.spec_lifetime()->0;
        let asked = b.output.spec_lifetime()->0;
        assert(c.is_annotated());
        assert forall|i: int|
            0 <= i < c.params.len() && #[trigger] binds(
                c.params,
                args,
                i,
            ) implies c.params[i].spec_lifetime()->0 < c.lifetimes by {
            assert(field_is_tagged(c.params[i], c.lifetimes));
        }
        lemma_unify_binds_innermost(
            forest,
            c.params,
            args,
            c.lifetimes,
            c.params.len() as int,
            returned,
        );
        lemma_with_synthetic(scope, b.lifetimes as nat);
        assert(field_is_tagged(b.output, b.lifetimes));
        if let Some(r) = resolved.substitution[returned as int] {
            let w = choose|i: int|
                0 <= i < c.params.len() && #[trigger] carries(c.params, args, returned, i)
                    && args[i] == Some(r);
            assert(c.params[w].spec_lifetime() == Some(returned));
            assert(w >= b.params.len());
            lemma_none_strays(scope, captured, 0, w - b.params.len());
            assert(r < scope.len());
            let target = scope.len() + asked;
            assert(forest[target].parent is None);
            assert(!is_ancestor(forest, r as int, target));
        }
        assert(!output_satisfied(scope, bound, b, resolved));
    }
}

} // verus!
