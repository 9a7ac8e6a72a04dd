//! The resolution of a call site: each lifetime parameter of a signature
//! is bound to the region of the arguments that carry it, and the declared
//! constraints are held against the containment of those regions.

use vstd::prelude::*;
use crate::binding::DeclaredType;
use crate::diagnostic::AnalysisError;
use crate::lifetime::Lifetime;
use crate::region::{is_ancestor, Region, RegionTree};
use crate::signature::{Signature, SignatureType, SignatureView};

verus! {

/// A signature at one call site.
#[derive(Clone, Debug, PartialEq, Eq)]
pub struct ResolvedSignature {
    pub params: Vec<DeclaredType>,
    pub output: DeclaredType,
    /// The region that each lifetime parameter is bound to; `None` for a
    /// parameter that no argument carries.
    pub substitution: Vec<Option<usize>>,
}

/// A resolved signature as contracts see it.
pub struct ResolvedView {
    pub params: Seq<DeclaredType>,
    pub output: DeclaredType,
    pub substitution: Seq<Option<usize>>,
}

impl View for ResolvedSignature {
    type V = ResolvedView;

    open spec fn view(&self) -> ResolvedView {
        ResolvedView {
            params: self.params@,
            output: self.output,
            substitution: self.substitution@,
        }
    }
}

/// The parameter at `i` is a reference with a written lifetime, and the
/// argument in its place carries a region.
pub open spec fn binds(params: Seq<SignatureType>, args: Seq<Option<usize>>, i: int) -> bool {
    &&& 0 <= i < params.len()
    &&& i < args.len()
    &&& params[i].is_reference()
    &&& params[i].spec_lifetime() is Some
    &&& args[i] is Some
}

/// The substitution after the parameter `l` has met an argument of the
/// region `r`: `l` stands for the innermost of the regions it has met.
/// Regions of which neither contains the other cannot be met by one
/// lifetime.
pub open spec fn bind(regions: Seq<Region>, subst: Seq<Option<usize>>, l: usize, r: usize) -> Result<
    Seq<Option<usize>>,
    AnalysisError,
> {
    if !(r < regions.len() && regions[r as int].open) {
        Err(AnalysisError::RegionContractViolation { region: r })
    } else {
        match subst[l as int] {
            None => Ok(subst.update(l as int, Some(r))),
            Some(cur) => if is_ancestor(regions, r as int, cur as int) {
                Ok(subst)
            } else if is_ancestor(regions, cur as int, r as int) {
                Ok(subst.update(l as int, Some(r)))
            } else {
                Err(
                    AnalysisError::OutlivesViolation {
                        longer: l,
                        shorter: l,
                        longer_region: r,
                        shorter_region: cur,
                    },
                )
            },
        }
    }
}

/// The substitution after the first `upto` parameters have met their
/// arguments, or the first failure on the way.
pub open spec fn unify(
    regions: Seq<Region>,
    params: Seq<SignatureType>,
    args: Seq<Option<usize>>,
    lifetimes: usize,
    upto: int,
) -> Result<Seq<Option<usize>>, AnalysisError>
    decreases upto,
{
    if upto <= 0 {
        Ok(Seq::new(lifetimes as nat, |l: int| None))
    } else {
        match unify(regions, params, args, lifetimes, upto - 1) {
            Err(e) => Err(e),
            Ok(subst) => if binds(params, args, upto - 1) {
                bind(regions, subst, params[upto - 1].spec_lifetime()->0, args[upto - 1]->0)
            } else {
                Ok(subst)
            },
        }
    }
}

/// The constraint `longer: shorter` fails of the regions that the two
/// parameters are bound to. A constraint on a parameter that is not bound
/// fails of nothing.
pub open spec fn violated(
    regions: Seq<Region>,
    subst: Seq<Option<usize>>,
    constraint: (usize, usize),
) -> bool {
    &&& subst[constraint.0 as int] is Some
    &&& subst[constraint.1 as int] is Some
    &&& !is_ancestor(
        regions,
        subst[constraint.0 as int]->0 as int,
        subst[constraint.1 as int]->0 as int,
    )
}

/// The failure of the first violated constraint at or after `from`.
pub open spec fn first_violation(
    regions: Seq<Region>,
    constraints: Seq<(usize, usize)>,
    subst: Seq<Option<usize>>,
    from: int,
) -> Option<AnalysisError>
    decreases constraints.len() - from,
{
    if from < 0 || from >= constraints.len() {
        None
    } else if violated(regions, subst, constraints[from]) {
        Some(
            AnalysisError::OutlivesViolation {
                longer: constraints[from].0,
                shorter: constraints[from].1,
                longer_region: subst[constraints[from].0 as int]->0,
                shorter_region: subst[constraints[from].1 as int]->0,
            },
        )
    } else {
        first_violation(regions, constraints, subst, from + 1)
    }
}

/// A type of the signature at the call site: a reference carries the
/// region that its parameter is bound to, or the parameter itself where
/// it is not bound.
pub open spec fn resolved_type(t: SignatureType, subst: Seq<Option<usize>>) -> DeclaredType {
    match t {
        SignatureType::Owned => DeclaredType::Owned,
        SignatureType::Reference { lifetime, mutability } => DeclaredType::Reference {
            lifetime: match subst[lifetime->0 as int] {
                Some(r) => Lifetime::Concrete(r),
                None => Lifetime::Param(lifetime->0),
            },
            mutability,
        },
    }
}

/// The signature resolved against the regions of the arguments, or the
/// first failure: a signature that is not annotated, an argument of a
/// region that is not open, arguments that one lifetime cannot meet, a
/// declared constraint that does not hold.
pub open spec fn spec_assign_call_site(
    regions: Seq<Region>,
    sig: SignatureView,
    args: Seq<Option<usize>>,
) -> Result<ResolvedView, AnalysisError> {
    if !sig.is_annotated() {
        Err(AnalysisError::AmbiguousElision)
    } else {
        match unify(regions, sig.params, args, sig.lifetimes, sig.params.len() as int) {
            Err(e) => Err(e),
            Ok(subst) => match first_violation(regions, sig.constraints, subst, 0) {
                Some(e) => Err(e),
                None => Ok(
                    ResolvedView {
                        params: Seq::new(
                            sig.params.len(),
                            |i: int| resolved_type(sig.params[i], subst),
                        ),
                        output: resolved_type(sig.output, subst),
                        substitution: subst,
                    },
                ),
            },
        }
    }
}

/// Resolves one type of an annotated signature.
fn resolve_type(t: SignatureType, subst: &Vec<Option<usize>>) -> (r: DeclaredType)
    requires
        t matches SignatureType::Reference { lifetime, .. } ==> (lifetime matches Some(l) && l
            < subst@.len()),
    ensures
        r == resolved_type(t, subst@),
{
    match t {
        SignatureType::Owned => DeclaredType::Owned,
        SignatureType::Reference { lifetime, mutability } => {
            let l: usize = lifetime.unwrap();
            let resolved = match subst[l] {
                Some(r) => Lifetime::Concrete(r),
                None => Lifetime::Param(l),
            };
            DeclaredType::Reference { lifetime: resolved, mutability }
        },
    }
}

/// Resolves a signature at a call site. `args` gives, for each parameter
/// in turn, the region of the argument, or `None` for an argument that
/// carries no lifetime. A lifetime parameter is bound to the innermost
/// region of the arguments that carry it; then every declared constraint
/// must hold of the regions bound.
pub fn assign_call_site(regions: &RegionTree, sig: &Signature, args: &Vec<Option<usize>>) -> (r:
    Result<ResolvedSignature, AnalysisError>)
    requires
        regions.wf(),
    ensures
        r matches Ok(t) ==> spec_assign_call_site(regions@, sig@, args@) == Ok::<
            ResolvedView,
            AnalysisError,
        >(t@),
        r matches Err(e) ==> spec_assign_call_site(regions@, sig@, args@) == Err::<
            ResolvedView,
            AnalysisError,
        >(e),
{
    if !sig.is_annotated() {
        return Err(AnalysisError::AmbiguousElision);
    }
    let mut subst: Vec<Option<usize>> = Vec::new();
    let mut l: usize = 0;
    while l < sig.lifetimes
        invariant
            l <= sig.lifetimes,
            subst@.len() == l,
            forall|j: int| 0 <= j < l ==> subst@[j] is None,
        decreases sig.lifetimes - l,
    {
        subst.push(None);
        l = l + 1;
    }
    assert(subst@ =~= Seq::new(sig.lifetimes as nat, |l: int| None::<usize>));
    let n: usize = sig.params.len();
    let mut i: usize = 0;
    while i < n
        invariant
            regions.wf(),
            sig@.is_annotated(),
            n == sig@.params.len(),
            i <= n,
            subst@.len() == sig.lifetimes,
            unify(regions@, sig@.params, args@, sig.lifetimes, i as int) == Ok::<
                Seq<Option<usize>>,
                AnalysisError,
            >(subst@),
        decreases n - i,
    {
        let ghost before = subst@;
        if i < args.len() {
            match (sig.params[i], args[i]) {
                (SignatureType::Reference { lifetime: Some(p), .. }, Some(r)) => {
                    assert(binds(sig@.params, args@, i as int));
                    assert(field_is_tagged_at(sig@, i as int));
                    proof {
                        lemma_failure_stays(
                            regions@,
                            sig@.params,
                            args@,
                            sig.lifetimes,
                            i + 1,
                            n as int,
                        );
                    }
                    if !regions.is_open(r) {
                        return Err(AnalysisError::RegionContractViolation { region: r });
                    }
                    match subst[p] {
                        None => {
                            subst[p] = Some(r);
                        },
                        Some(cur) => {
                            if regions.contains(r, cur) {
                            } else if regions.contains(cur, r) {
                                subst[p] = Some(r);
                            } else {
                                return Err(
                                    AnalysisError::OutlivesViolation {
                                        longer: p,
                                        shorter: p,
                                        longer_region: r,
                                        shorter_region: cur,
                                    },
                                );
                            }
                        },
                    }
                },
                _ => {
                    assert(!binds(sig@.params, args@, i as int));
                },
            }
        } else {
            assert(!binds(sig@.params, args@, i as int));
        }
        i = i + 1;
    }
    let m: usize = sig.constraints.len();
    let mut k: usize = 0;
    while k < m
        invariant
            regions.wf(),
            sig@.is_annotated(),
            m == sig@.constraints.len(),
            k <= m,
            subst@.len() == sig.lifetimes,
            unify(regions@, sig@.params, args@, sig.lifetimes, sig@.params.len() as int) == Ok::<
                Seq<Option<usize>>,
                AnalysisError,
            >(subst@),
            first_violation(regions@, sig@.constraints, subst@, 0) == first_violation(
                regions@,
                sig@.constraints,
                subst@,
                k as int,
            ),
        decreases m - k,
    {
        let c = sig.constraints[k];
        assert(sig@.constraints[k as int].0 < sig.lifetimes);
        match (subst[c.0], subst[c.1]) {
            (Some(b), Some(a)) => {
                if !regions.contains(b, a) {
                    return Err(
                        AnalysisError::OutlivesViolation {
                            longer: c.0,
                            shorter: c.1,
                            longer_region: b,
                            shorter_region: a,
                        },
                    );
                }
            },
            _ => {},
        }
        k = k + 1;
    }
    let mut params: Vec<DeclaredType> = Vec::new();
    let mut j: usize = 0;
    while j < n
        invariant
            sig@.is_annotated(),
            n == sig@.params.len(),
            j <= n,
            subst@.len() == sig.lifetimes,
            params@.len() == j,
            forall|q: int| 0 <= q < j ==> params@[q] == resolved_type(sig@.params[q], subst@),
        decreases n - j,
    {
        assert(field_is_tagged_at(sig@, j as int));
        params.push(resolve_type(sig.params[j], &subst));
        j = j + 1;
    }
    assert(params@ =~= Seq::new(sig@.params.len(), |i: int| resolved_type(sig@.params[i], subst@)));
    let output = resolve_type(sig.output, &subst);
    Ok(ResolvedSignature { params, output, substitution: subst })
}

/// A failure to meet an argument is the failure of the whole resolution.
proof fn lemma_failure_stays(
    regions: Seq<Region>,
    params: Seq<SignatureType>,
    args: Seq<Option<usize>>,
    lifetimes: usize,
    at: int,
    upto: int,
)
    requires
        0 <= at <= upto,
    ensures
        unify(regions, params, args, lifetimes, at) is Err ==> unify(
            regions,
            params,
            args,
            lifetimes,
            upto,
        ) == unify(regions, params, args, lifetimes, at),
    decreases upto - at,
{
    if at < upto {
        lemma_failure_stays(regions, params, args, lifetimes, at, upto - 1);
    }
}

/// At a call site that is resolved, every declared constraint between
/// two bound parameters holds of their regions: the region of the longer
/// lifetime contains that of the shorter.
pub proof fn lemma_resolved_constraints_hold(
    regions: Seq<Region>,
    sig: SignatureView,
    args: Seq<Option<usize>>,
    k: int,
)
    requires
        spec_assign_call_site(regions, sig, args) is Ok,
        0 <= k < sig.constraints.len(),
    ensures
        !violated(
            regions,
            spec_assign_call_site(regions, sig, args)->Ok_0.substitution,
            sig.constraints[k],
        ),
{
    let subst = spec_assign_call_site(regions, sig, args)->Ok_0.substitution;
    lemma_no_violation_from(regions, sig.constraints, subst, 0, k);
}

proof fn lemma_no_violation_from(
    regions: Seq<Region>,
    constraints: Seq<(usize, usize)>,
    subst: Seq<Option<usize>>,
    from: int,
    k: int,
)
    requires
        0 <= from <= k < constraints.len(),
        first_violation(regions, constraints, subst, from) is None,
    ensures
        !violated(regions, subst, constraints[k]),
    decreases k - from,
{
    if from < k {
        lemma_no_violation_from(regions, constraints, subst, from + 1, k);
    }
}

/// The argument at `i` carries a region for the lifetime parameter `l`.
pub open spec fn carries(
    params: Seq<SignatureType>,
    args: Seq<Option<usize>>,
    l: usize,
    i: int,
) -> bool {
    binds(params, args, i) && params[i].spec_lifetime() == Some(l)
}

/// A lifetime parameter is bound to the innermost region of the arguments
/// that carry it: to the region of one of them, which every other
/// contains. A parameter that no argument carries is not bound.
pub proof fn lemma_unify_binds_innermost(
    regions: Seq<Region>,
    params: Seq<SignatureType>,
    args: Seq<Option<usize>>,
    lifetimes: usize,
    upto: int,
    l: usize,
)
    requires
        0 <= upto <= params.len(),
        l < lifetimes,
        forall|i: int|
            0 <= i < upto && #[trigger] binds(params, args, i) ==> params[i].spec_lifetime()->0
                < lifetimes,
        unify(regions, params, args, lifetimes, upto) is Ok,
    ensures
        unify(regions, params, args, lifetimes, upto)->Ok_0.len() == lifetimes,
        unify(regions, params, args, lifetimes, upto)->Ok_0[l as int] is None ==> forall|i: int|
            0 <= i < upto ==> !#[trigger] carries(params, args, l, i),
        unify(regions, params, args, lifetimes, upto)->Ok_0[l as int] matches Some(r) ==> (
        exists|i: int| 0 <= i < upto && #[trigger] carries(params, args, l, i) && args[i] == Some(r))
            && (forall|i: int|
            0 <= i < upto && #[trigger] carries(params, args, l, i) ==> is_ancestor(
                regions,
                args[i]->0 as int,
                r as int,
            )),
    decreases upto,
{
    if upto > 0 {
        let before = unify(regions, params, args, lifetimes, upto - 1)->Ok_0;
        let after = unify(regions, params, args, lifetimes, upto)->Ok_0;
        lemma_unify_binds_innermost(regions, params, args, lifetimes, upto - 1, l);
        if binds(params, args, upto - 1) {
            let met = params[upto - 1].spec_lifetime()->0;
            let r = args[upto - 1]->0;
            assert(is_ancestor(regions, r as int, r as int));
            if met == l {
                assert(carries(params, args, l, upto - 1));
                match before[l as int] {
                    None => {
                        assert(after[l as int] == Some(r));
                        assert forall|i: int|
                            0 <= i < upto && #[trigger] carries(
                                params,
                                args,
                                l,
                                i,
                            ) implies is_ancestor(regions, args[i]->0 as int, r as int) by {
                            if i < upto - 1 {
                                assert(!carries(params, args, l, i));
                            }
                        }
                    },
                    Some(cur) => {
                        if is_ancestor(regions, r as int, cur as int) {
                            assert(after[l as int] == Some(cur));
                            let w = choose|i: int|
                                0 <= i < upto - 1 && #[trigger] carries(params, args, l, i)
                                    && args[i] == Some(cur);
                            assert(0 <= w < upto && carries(params, args, l, w) && args[w] == Some(
                                cur,
                            ));
                        } else {
                            assert(after[l as int] == Some(r));
                            assert forall|i: int|
                                0 <= i < upto && #[trigger] carries(
                                    params,
                                    args,
                                    l,
                                    i,
                                ) implies is_ancestor(regions, args[i]->0 as int, r as int) by {
                                if i < upto - 1 {
                                    crate::region::lemma_ancestor_transitive(
                                        regions,
                                        args[i]->0 as int,
                                        cur as int,
                                        r as int,
                                    );
                                }
                            }
                        }
                    },
                }
            } else {
                assert(after[l as int] == before[l as int]);
                assert(!carries(params, args, l, upto - 1));
                if let Some(cur) = before[l as int] {
                    let w = choose|i: int|
                        0 <= i < upto - 1 && #[trigger] carries(params, args, l, i) && args[i]
                            == Some(cur);
                    assert(0 <= w < upto && carries(params, args, l, w) && args[w] == Some(cur));
                }
            }
        } else {
            assert(after == before);
            assert(!carries(params, args, l, upto - 1));
            if let Some(cur) = before[l as int] {
                let w = choose|i: int|
                    0 <= i < upto - 1 && #[trigger] carries(params, args, l, i) && args[i] == Some(
                        cur,
                    );
                assert(0 <= w < upto && carries(params, args, l, w) && args[w] == Some(cur));
            }
        }
    }
}

/// The parameter at `i` names a declared lifetime if it is a reference.
pub open spec fn field_is_tagged_at(sig: SignatureView, i: int) -> bool {
    crate::signature::field_is_tagged(sig.params[i], sig.lifetimes)
}

} // verus!
