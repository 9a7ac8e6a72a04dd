//! The outlives checker: declared constraints among lifetime parameters,
//! and the comparison of concrete lifetimes by the regions they belong to.

use vstd::prelude::*;
use crate::lifetime::Lifetime;
use crate::region::{is_ancestor, Region, RegionTree};
use crate::util::holds;

verus! {

/// The step into position `at` of `path` follows a declared constraint,
/// where a constraint `(longer, shorter)` leads from `longer` to `shorter`.
pub open spec fn links(edges: Seq<(usize, usize)>, path: Seq<usize>, at: int) -> bool {
    edges.contains((path[at - 1], path[at]))
}

/// `path` is a chain of lifetimes, each of which is declared to outlive
/// the next.
pub open spec fn is_chain(edges: Seq<(usize, usize)>, path: Seq<usize>) -> bool {
    path.len() > 0 && forall|at: int| 0 < at < path.len() ==> #[trigger] links(edges, path, at)
}

/// `longer: shorter` follows from the declared constraints: a chain of
/// them leads from `longer` to `shorter`. Every lifetime outlives itself.
pub open spec fn reachable(edges: Seq<(usize, usize)>, longer: usize, shorter: usize) -> bool {
    exists|path: Seq<usize>| #[trigger]
        is_chain(edges, path) && path.first() == longer && path.last() == shorter
}

/// Whether `longer` outlives `shorter`: parameters by the declared
/// constraints, concrete lifetimes by the containment of their regions. A
/// parameter and a concrete lifetime are not comparable.
pub open spec fn spec_outlives(
    edges: Seq<(usize, usize)>,
    regions: Seq<Region>,
    longer: Lifetime,
    shorter: Lifetime,
) -> bool {
    match (longer, shorter) {
        (Lifetime::Param(b), Lifetime::Param(a)) => reachable(edges, b, a),
        (Lifetime::Concrete(b), Lifetime::Concrete(a)) => is_ancestor(regions, b as int, a as int),
        _ => false,
    }
}

/// The number of entries of `flags` that are not set.
pub open spec fn unset(flags: Seq<bool>) -> nat
    decreases flags.len(),
{
    if flags.len() == 0 {
        0
    } else if flags.last() {
        unset(flags.drop_last())
    } else {
        unset(flags.drop_last()) + 1
    }
}

/// The graph of the declared constraints of one signature.
pub struct OutlivesGraph {
    edges: Vec<(usize, usize)>,
}

impl View for OutlivesGraph {
    type V = Seq<(usize, usize)>;

    closed spec fn view(&self) -> Seq<(usize, usize)> {
        self.edges@
    }
}

impl OutlivesGraph {
    /// A graph without constraints.
    pub fn new() -> (graph: Self)
        ensures
            graph@ == Seq::<(usize, usize)>::empty(),
    {
        OutlivesGraph { edges: Vec::new() }
    }

    /// Declares `longer: shorter`.
    pub fn declare_constraint(&mut self, longer: usize, shorter: usize)
        ensures
            final(self)@ == old(self)@.push((longer, shorter)),
    {
        self.edges.push((longer, shorter));
    }

    /// An edge that was not followed yet and starts at a lifetime that was
    /// reached.
    fn next_edge(&self, used: &Vec<bool>, reached: &Vec<usize>) -> (r: Option<usize>)
        requires
            used@.len() == self@.len(),
        ensures
            r matches Some(e) ==> e < self@.len() && !used@[e as int] && reached@.contains(
                self@[e as int].0,
            ),
            r is None ==> forall|e: int|
                0 <= e < self@.len() ==> used@[e] || !reached@.contains((#[trigger] self@[e]).0),
    {
        let n: usize = self.edges.len();
        let mut e: usize = 0;
        while e < n
            invariant
                n == self@.len(),
                used@.len() == n,
                e <= n,
                forall|k: int|
                    0 <= k < e ==> used@[k] || !reached@.contains((#[trigger] self@[k]).0),
            decreases n - e,
        {
            if !used[e] && holds(reached, self.edges[e].0) {
                return Some(e);
            }
            e = e + 1;
        }
        None
    }

    /// Whether `longer: shorter` follows from the declared constraints.
    pub fn outlives(&self, longer: usize, shorter: usize) -> (r: bool)
        ensures
            r == reachable(self@, longer, shorter),
    {
        let n: usize = self.edges.len();
        let mut used: Vec<bool> = Vec::new();
        let mut k: usize = 0;
        while k < n
            invariant
                k <= n,
                used@.len() == k,
                forall|j: int| 0 <= j < k ==> !used@[j],
            decreases n - k,
        {
            used.push(false);
            k = k + 1;
        }
        let mut reached: Vec<usize> = Vec::new();
        reached.push(longer);
        proof {
            assert(reached@[0] == longer);
            lemma_outlives_itself(self@, longer);
        }
        let mut next = self.next_edge(&used, &reached);
        while next.is_some()
            invariant
                n == self@.len(),
                used@.len() == n,
                reached@.contains(longer),
                forall|i: int|
                    0 <= i < reached@.len() ==> reachable(self@, longer, #[trigger] reached@[i]),
                forall|e: int|
                    0 <= e < n && used@[e] ==> reached@.contains((#[trigger] self@[e]).1),
                next matches Some(e) ==> e < n && !used@[e as int] && reached@.contains(
                    self@[e as int].0,
                ),
                next is None ==> forall|e: int|
                    0 <= e < n ==> used@[e] || !reached@.contains((#[trigger] self@[e]).0),
            decreases unset(used@),
        {
            let e: usize = next.unwrap();
            let edge = self.edges[e];
            proof {
                lemma_set_flag(used@, e as int);
                lemma_follow_edge(self@, longer, edge.0, edge.1);
            }
            used[e] = true;
            if !holds(&reached, edge.1) {
                let ghost before = reached@;
                reached.push(edge.1);
                proof {
                    assert(reached@[before.len() as int] == edge.1);
                    assert forall|x: usize| before.contains(x) implies reached@.contains(x) by {
                        let i = choose|i: int| 0 <= i < before.len() && before[i] == x;
                        assert(reached@[i] == x);
                    }
                }
            }
            next = self.next_edge(&used, &reached);
        }
        proof {
            if reachable(self@, longer, shorter) {
                let path = choose|path: Seq<usize>| #[trigger]
                    is_chain(self@, path) && path.first() == longer && path.last() == shorter;
                lemma_closed_holds_chain(self@, reached@, path, path.len() - 1);
            }
            if reached@.contains(shorter) {
                let i = choose|i: int| 0 <= i < reached@.len() && reached@[i] == shorter;
                assert(reachable(self@, longer, reached@[i]));
            }
        }
        holds(&reached, shorter)
    }

    /// Whether `longer` outlives `shorter`: two parameters by the declared
    /// constraints, two concrete lifetimes by the containment of their
    /// regions.
    pub fn check_outlives(&self, regions: &RegionTree, longer: Lifetime, shorter: Lifetime) -> (r:
        bool)
        requires
            regions.wf(),
        ensures
            r == spec_outlives(self@, regions@, longer, shorter),
    {
        match (longer, shorter) {
            (Lifetime::Param(b), Lifetime::Param(a)) => self.outlives(b, a),
            (Lifetime::Concrete(b), Lifetime::Concrete(a)) => regions.contains(b, a),
            _ => false,
        }
    }
}

/// Every lifetime outlives itself.
pub proof fn lemma_outlives_itself(edges: Seq<(usize, usize)>, a: usize)
    ensures
        reachable(edges, a, a),
{
    let path = seq![a];
    assert(is_chain(edges, path));
    assert(path.first() == a && path.last() == a);
}

/// One more step along a declared constraint reaches its target.
pub proof fn lemma_follow_edge(edges: Seq<(usize, usize)>, from: usize, mid: usize, to: usize)
    requires
        reachable(edges, from, mid),
        edges.contains((mid, to)),
    ensures
        reachable(edges, from, to),
{
    let path = choose|path: Seq<usize>| #[trigger]
        is_chain(edges, path) && path.first() == from && path.last() == mid;
    let longer = path.push(to);
    assert forall|at: int| 0 < at < longer.len() implies #[trigger] links(edges, longer, at) by {
        if at < path.len() {
            assert(links(edges, path, at));
        }
    }
    assert(is_chain(edges, longer));
    assert(longer.first() == from && longer.last() == to);
}

/// What is declared to outlive is transitive.
pub proof fn lemma_outlives_transitive(edges: Seq<(usize, usize)>, a: usize, b: usize, c: usize)
    requires
        reachable(edges, a, b),
        reachable(edges, b, c),
    ensures
        reachable(edges, a, c),
{
    let path = choose|path: Seq<usize>| #[trigger]
        is_chain(edges, path) && path.first() == b && path.last() == c;
    lemma_follow_chain(edges, a, path, path.len() - 1);
}

proof fn lemma_follow_chain(edges: Seq<(usize, usize)>, from: usize, path: Seq<usize>, at: int)
    requires
        is_chain(edges, path),
        reachable(edges, from, path.first()),
        0 <= at < path.len(),
    ensures
        reachable(edges, from, path[at]),
    decreases at,
{
    if at > 0 {
        lemma_follow_chain(edges, from, path, at - 1);
        assert(links(edges, path, at));
        lemma_follow_edge(edges, from, path[at - 1], path[at]);
    }
}

/// A set of lifetimes that holds the start of a chain and the target of
/// every constraint whose source it holds, holds the whole chain.
proof fn lemma_closed_holds_chain(
    edges: Seq<(usize, usize)>,
    reached: Seq<usize>,
    path: Seq<usize>,
    at: int,
)
    requires
        is_chain(edges, path),
        reached.contains(path.first()),
        forall|e: int|
            0 <= e < edges.len() && reached.contains((#[trigger] edges[e]).0) ==> reached.contains(
                edges[e].1,
            ),
        0 <= at < path.len(),
    ensures
        reached.contains(path[at]),
    decreases at,
{
    if at > 0 {
        lemma_closed_holds_chain(edges, reached, path, at - 1);
        assert(links(edges, path, at));
        let e = choose|e: int| 0 <= e < edges.len() && edges[e] == (path[at - 1], path[at]);
        assert(reached.contains(edges[e].0));
    }
}

/// Setting a flag that was not set leaves one unset flag less.
proof fn lemma_set_flag(flags: Seq<bool>, at: int)
    requires
        0 <= at < flags.len(),
        !flags[at],
    ensures
        unset(flags.update(at, true)) + 1 == unset(flags),
    decreases flags.len(),
{
    let after = flags.update(at, true);
    if at == flags.len() - 1 {
        assert(after.drop_last() =~= flags.drop_last());
    } else {
        assert(after.drop_last() =~= flags.drop_last().update(at, true));
        lemma_set_flag(flags.drop_last(), at);
    }
}

} // verus!
