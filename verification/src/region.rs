//! The region model: nested lexical extents as a forest, with containment
//! queries.

use vstd::prelude::*;
use crate::diagnostic::AnalysisError;

verus! {

/// A region is named by its position in the order of opening.
pub type RegionId = usize;

/// One node of the forest.
#[derive(Clone, Copy, Debug, PartialEq, Eq, Structural)]
pub struct Region {
    /// The region directly around this one; `None` for a root.
    pub parent: Option<usize>,
    /// How many regions with the same parent were opened before this one.
    pub order: usize,
    /// Whether the region is still open.
    pub open: bool,
}

/// How the extents of two regions lie to each other.
#[derive(Clone, Copy, Debug, PartialEq, Eq, Structural)]
pub enum Extent {
    AContainsB,
    BContainsA,
    Disjoint,
}

/// The number of regions among the first `upto` that have the parent `parent`.
pub open spec fn siblings_before(nodes: Seq<Region>, parent: Option<usize>, upto: int) -> nat
    decreases upto,
{
    if upto <= 0 || upto > nodes.len() {
        0
    } else if nodes[upto - 1].parent == parent {
        siblings_before(nodes, parent, upto - 1) + 1
    } else {
        siblings_before(nodes, parent, upto - 1)
    }
}

/// `outer` is `inner` itself or one of the regions around it.
pub open spec fn is_ancestor(nodes: Seq<Region>, outer: int, inner: int) -> bool
    decreases inner,
{
    if !(0 <= inner < nodes.len()) || !(0 <= outer < nodes.len()) {
        false
    } else if outer == inner {
        true
    } else {
        match nodes[inner].parent {
            Some(p) => p < inner && is_ancestor(nodes, outer, p as int),
            None => false,
        }
    }
}

/// `id` names a region of `nodes` that is open.
pub open spec fn is_open_in(nodes: Seq<Region>, id: usize) -> bool {
    id < nodes.len() && nodes[id as int].open
}

/// `id` names an open region with no open region inside it: one that may
/// be closed.
pub open spec fn may_close(nodes: Seq<Region>, id: usize) -> bool {
    is_open_in(nodes, id) && !has_open_descendant(nodes, id as int)
}

/// `node` is open and lies directly inside `id`.
pub open spec fn is_open_child(node: Region, id: int) -> bool {
    node.open && (node.parent matches Some(p) && p == id)
}

/// Some region strictly inside `id` is open.
pub open spec fn has_open_descendant(nodes: Seq<Region>, id: int) -> bool {
    exists|j: int|
        0 <= j < nodes.len() && j != id && (#[trigger] nodes[j]).open && is_ancestor(nodes, id, j)
}

/// The invariant of the forest: a parent is opened before its children, an
/// open region lies in an open region, and siblings are numbered in the
/// order of their opening.
pub open spec fn well_formed(nodes: Seq<Region>) -> bool {
    forall|i: int|
        0 <= i < nodes.len() ==> {
            &&& (#[trigger] nodes[i]).parent matches Some(p) ==> p < i
            &&& (nodes[i].open && nodes[i].parent is Some) ==> nodes[nodes[i].parent->0 as int].open
            &&& nodes[i].order == siblings_before(nodes, nodes[i].parent, i)
        }
}

/// Which of two regions contains the other, if either does.
pub open spec fn spec_compare_extent(nodes: Seq<Region>, a: int, b: int) -> Extent {
    if is_ancestor(nodes, a, b) {
        Extent::AContainsB
    } else if is_ancestor(nodes, b, a) {
        Extent::BContainsA
    } else {
        Extent::Disjoint
    }
}

/// The node that opening a region inside `parent` adds to `nodes`.
pub open spec fn opened(nodes: Seq<Region>, parent: Option<usize>) -> Region {
    Region {
        parent,
        order: siblings_before(nodes, parent, nodes.len() as int) as usize,
        open: true,
    }
}

/// The node `node` after its region was closed.
pub open spec fn closed(node: Region) -> Region {
    Region { parent: node.parent, order: node.order, open: false }
}

/// The forest of regions of one fragment.
pub struct RegionTree {
    nodes: Vec<Region>,
}

impl View for RegionTree {
    type V = Seq<Region>;

    closed spec fn view(&self) -> Seq<Region> {
        self.nodes@
    }
}

impl RegionTree {
    /// The forest keeps its invariant.
    pub open spec fn wf(&self) -> bool {
        well_formed(self@)
    }

    /// `id` names a region that is open.
    pub open spec fn spec_is_open(&self, id: usize) -> bool {
        is_open_in(self@, id)
    }

    /// `outer` is `inner` or lies around it.
    pub open spec fn spec_contains(&self, outer: usize, inner: usize) -> bool {
        is_ancestor(self@, outer as int, inner as int)
    }

    /// A forest without regions.
    pub fn new() -> (tree: Self)
        ensures
            tree.wf(),
            tree@ == Seq::<Region>::empty(),
    {
        RegionTree { nodes: Vec::new() }
    }

    /// The number of regions opened so far.
    pub fn len(&self) -> (n: usize)
        ensures
            n == self@.len(),
    {
        self.nodes.len()
    }

    /// Whether `id` names a region that is open.
    #[verifier::when_used_as_spec(spec_is_open)]
    pub fn is_open(&self, id: RegionId) -> (r: bool)
        ensures
            r == self.spec_is_open(id),
    {
        id < self.nodes.len() && self.nodes[id].open
    }

    /// Whether `outer` is `inner` or lies around it. Regions that were never
    /// opened contain nothing and lie in nothing.
    pub fn contains(&self, outer: RegionId, inner: RegionId) -> (r: bool)
        requires
            self.wf(),
        ensures
            r == self.spec_contains(outer, inner),
    {
        if outer >= self.nodes.len() || inner >= self.nodes.len() {
            return false;
        }
        let mut cur: usize = inner;
        loop
            invariant
                self.wf(),
                outer < self.nodes@.len(),
                cur < self.nodes@.len(),
                is_ancestor(self@, outer as int, inner as int) == is_ancestor(
                    self@,
                    outer as int,
                    cur as int,
                ),
            decreases cur,
        {
            if cur == outer {
                return true;
            }
            match self.nodes[cur].parent {
                None => {
                    return false;
                },
                Some(p) => {
                    cur = p;
                },
            }
        }
    }

    /// Which of two regions lies around the other, if either does. A region
    /// contains itself, so two equal names give `AContainsB`.
    pub fn compare_extent(&self, a: RegionId, b: RegionId) -> (r: Extent)
        requires
            self.wf(),
        ensures
            r == spec_compare_extent(self@, a as int, b as int),
    {
        if self.contains(a, b) {
            Extent::AContainsB
        } else if self.contains(b, a) {
            Extent::BContainsA
        } else {
            Extent::Disjoint
        }
    }

    /// Opens a region inside `parent`, or a new root for `None`, and
    /// returns its name. A parent that is unknown or closed is refused.
    pub fn open_region(&mut self, parent: Option<RegionId>) -> (r: Result<RegionId, AnalysisError>)
        requires
            old(self).wf(),
        ensures
            final(self).wf(),
            r is Ok <==> (parent matches Some(p) ==> old(self).spec_is_open(p)),
            r matches Ok(id) ==> id == old(self)@.len() && final(self)@ == old(self)@.push(
                opened(old(self)@, parent),
            ),
            r matches Err(e) ==> final(self)@ == old(self)@ && parent is Some && e == (
            AnalysisError::RegionContractViolation { region: parent->0 }),
    {
        match parent {
            Some(p) => {
                if !self.is_open(p) {
                    return Err(AnalysisError::RegionContractViolation { region: p });
                }
            },
            None => {},
        }
        let n: usize = self.nodes.len();
        let mut order: usize = 0;
        let mut j: usize = 0;
        while j < n
            invariant
                n == self.nodes@.len(),
                self.nodes@ == old(self).nodes@,
                j <= n,
                order == siblings_before(self.nodes@, parent, j as int),
                order <= j,
            decreases n - j,
        {
            if self.nodes[j].parent == parent {
                order = order + 1;
            }
            j = j + 1;
        }
        let node = Region { parent, order, open: true };
        proof {
            lemma_push_keeps_well_formed(self.nodes@, parent);
        }
        self.nodes.push(node);
        Ok(n)
    }

    /// Whether `id` may be closed: it is open, and every region inside it
    /// is closed.
    pub fn can_close(&self, id: RegionId) -> (r: bool)
        requires
            self.wf(),
        ensures
            r == may_close(self@, id),
    {
        if !self.is_open(id) {
            return false;
        }
        let n: usize = self.nodes.len();
        let mut j: usize = 0;
        while j < n
            invariant
                n == self.nodes@.len(),
                j <= n,
                self.wf(),
                id < n,
                forall|k: int| 0 <= k < j ==> !is_open_child(#[trigger] self.nodes@[k], id as int),
            decreases n - j,
        {
            if self.nodes[j].open && self.nodes[j].parent == Some(id) {
                proof {
                    lemma_open_child_is_descendant(self.nodes@, id as int, j as int);
                }
                return false;
            }
            j = j + 1;
        }
        proof {
            lemma_no_open_child_no_open_descendant(self.nodes@, id as int);
        }
        true
    }

    /// Closes an open region. A region that is unknown or closed already,
    /// or that still has an open region inside it, is refused.
    pub fn close_region(&mut self, id: RegionId) -> (r: Result<(), AnalysisError>)
        requires
            old(self).wf(),
        ensures
            final(self).wf(),
            r is Ok <==> may_close(old(self)@, id),
            r is Ok ==> final(self)@ == old(self)@.update(id as int, closed(old(self)@[id as int])),
            r matches Err(e) ==> final(self)@ == old(self)@ && e == (
            AnalysisError::RegionContractViolation { region: id }),
    {
        if !self.can_close(id) {
            return Err(AnalysisError::RegionContractViolation { region: id });
        }
        proof {
            lemma_no_open_descendant_no_open_child(self.nodes@, id as int);
            lemma_close_keeps_well_formed(self.nodes@, id as int);
        }
        let node = self.nodes[id];
        self.nodes[id] = Region { parent: node.parent, order: node.order, open: false };
        Ok(())
    }

    /// A forest of its own with the same regions.
    pub fn snapshot(&self) -> (tree: Self)
        ensures
            tree@ == self@,
    {
        RegionTree { nodes: crate::util::copy_of(&self.nodes) }
    }

    /// The nodes of all regions, in the order of opening.
    pub fn nodes(&self) -> (r: Vec<Region>)
        ensures
            r@ == self@,
    {
        crate::util::copy_of(&self.nodes)
    }

    /// The node of a region, if there is one of that name.
    pub fn get(&self, id: RegionId) -> (r: Option<Region>)
        ensures
            r == if id < self@.len() { Some(self@[id as int]) } else { None },
    {
        if id < self.nodes.len() {
            Some(self.nodes[id])
        } else {
            None
        }
    }
}

/// The count of siblings depends on the parents of the counted nodes alone.
pub proof fn lemma_siblings_same_parents(
    a: Seq<Region>,
    b: Seq<Region>,
    parent: Option<usize>,
    upto: int,
)
    requires
        upto <= a.len(),
        upto <= b.len(),
        forall|j: int| 0 <= j < upto ==> (#[trigger] a[j]).parent == b[j].parent,
    ensures
        siblings_before(a, parent, upto) == siblings_before(b, parent, upto),
    decreases upto,
{
    if upto > 0 {
        lemma_siblings_same_parents(a, b, parent, upto - 1);
    }
}

/// Containment among the regions of `a` is the same in every forest that
/// agrees with `a` on their parents.
pub proof fn lemma_ancestor_same_parents(a: Seq<Region>, b: Seq<Region>, outer: int, inner: int)
    requires
        a.len() <= b.len(),
        0 <= outer < a.len(),
        0 <= inner < a.len(),
        forall|j: int| 0 <= j < a.len() ==> (#[trigger] a[j]).parent == b[j].parent,
    ensures
        is_ancestor(a, outer, inner) == is_ancestor(b, outer, inner),
    decreases inner,
{
    if outer != inner {
        match a[inner].parent {
            Some(p) => {
                if p < inner {
                    lemma_ancestor_same_parents(a, b, outer, p as int);
                }
            },
            None => {},
        }
    }
}

/// The index of a region among its siblings tells their order: of two
/// regions with the same parent, the one opened first has the smaller.
pub proof fn lemma_siblings_in_order(nodes: Seq<Region>, first: int, second: int)
    requires
        well_formed(nodes),
        0 <= first < second < nodes.len(),
        nodes[first].parent == nodes[second].parent,
    ensures
        nodes[first].order < nodes[second].order,
{
    lemma_siblings_grow(nodes, nodes[first].parent, first + 1, second);
}

proof fn lemma_siblings_grow(nodes: Seq<Region>, parent: Option<usize>, from: int, upto: int)
    requires
        0 <= from <= upto <= nodes.len(),
    ensures
        siblings_before(nodes, parent, from) <= siblings_before(nodes, parent, upto),
    decreases upto,
{
    if from < upto {
        lemma_siblings_grow(nodes, parent, from, upto - 1);
    }
}

/// A region that contains another was opened no later.
pub proof fn lemma_ancestor_not_later(nodes: Seq<Region>, outer: int, inner: int)
    requires
        is_ancestor(nodes, outer, inner),
    ensures
        0 <= outer <= inner < nodes.len(),
    decreases inner,
{
    if outer != inner {
        lemma_ancestor_not_later(nodes, outer, nodes[inner].parent->0 as int);
    }
}

/// Containment is transitive.
pub proof fn lemma_ancestor_transitive(nodes: Seq<Region>, a: int, b: int, c: int)
    requires
        is_ancestor(nodes, a, b),
        is_ancestor(nodes, b, c),
    ensures
        is_ancestor(nodes, a, c),
    decreases c,
{
    lemma_ancestor_not_later(nodes, a, b);
    if b != c {
        lemma_ancestor_transitive(nodes, a, b, nodes[c].parent->0 as int);
        lemma_ancestor_not_later(nodes, a, nodes[c].parent->0 as int);
    }
}

/// Two regions that contain each other are one region.
pub proof fn lemma_ancestor_antisymmetric(nodes: Seq<Region>, a: int, b: int)
    requires
        is_ancestor(nodes, a, b),
        is_ancestor(nodes, b, a),
    ensures
        a == b,
{
    lemma_ancestor_not_later(nodes, a, b);
    lemma_ancestor_not_later(nodes, b, a);
}

/// The regions around one region lie on a chain: of two regions that both
/// contain a third, one contains the other.
pub proof fn lemma_ancestors_form_chain(nodes: Seq<Region>, a: int, b: int, c: int)
    requires
        is_ancestor(nodes, a, c),
        is_ancestor(nodes, b, c),
    ensures
        is_ancestor(nodes, a, b) || is_ancestor(nodes, b, a),
    decreases c,
{
    lemma_ancestor_not_later(nodes, a, c);
    lemma_ancestor_not_later(nodes, b, c);
    if a != c && b != c {
        lemma_ancestors_form_chain(nodes, a, b, nodes[c].parent->0 as int);
    }
}

/// In a well-formed forest every region around an open region is open.
pub proof fn lemma_open_inside_open(nodes: Seq<Region>, outer: int, inner: int)
    requires
        well_formed(nodes),
        is_ancestor(nodes, outer, inner),
        nodes[inner].open,
    ensures
        nodes[outer].open,
    decreases inner,
{
    if outer != inner {
        lemma_open_inside_open(nodes, outer, nodes[inner].parent->0 as int);
    }
}

proof fn lemma_open_child_is_descendant(nodes: Seq<Region>, id: int, child: int)
    requires
        well_formed(nodes),
        0 <= id < nodes.len(),
        0 <= child < nodes.len(),
        is_open_child(nodes[child], id),
    ensures
        has_open_descendant(nodes, id),
{
    assert(is_ancestor(nodes, id, id));
    assert(is_ancestor(nodes, id, child));
}

proof fn lemma_no_open_child_no_open_descendant(nodes: Seq<Region>, id: int)
    requires
        well_formed(nodes),
        0 <= id < nodes.len(),
        forall|k: int| 0 <= k < nodes.len() ==> !is_open_child(#[trigger] nodes[k], id),
    ensures
        !has_open_descendant(nodes, id),
{
    assert forall|j: int|
        0 <= j < nodes.len() && j != id && (#[trigger] nodes[j]).open implies !is_ancestor(
        nodes,
        id,
        j,
    ) by {
        lemma_open_descendant_has_open_child(nodes, id, j);
    }
}

proof fn lemma_open_descendant_has_open_child(nodes: Seq<Region>, id: int, j: int)
    requires
        well_formed(nodes),
        0 <= id < nodes.len(),
        0 <= j < nodes.len(),
        j != id,
        nodes[j].open,
        forall|k: int| 0 <= k < nodes.len() ==> !is_open_child(#[trigger] nodes[k], id),
    ensures
        !is_ancestor(nodes, id, j),
    decreases j,
{
    match nodes[j].parent {
        Some(p) => {
            if p as int != id {
                lemma_open_descendant_has_open_child(nodes, id, p as int);
            }
        },
        None => {},
    }
}

pub(crate) proof fn lemma_push_keeps_well_formed(nodes: Seq<Region>, parent: Option<usize>)
    requires
        well_formed(nodes),
        parent matches Some(p) ==> p < nodes.len() && nodes[p as int].open,
        nodes.len() <= usize::MAX,
    ensures
        well_formed(nodes.push(opened(nodes, parent))),
{
    let after = nodes.push(opened(nodes, parent));
    lemma_siblings_bounded(nodes, parent, nodes.len() as int);
    assert forall|i: int| 0 <= i < after.len() implies {
        &&& (#[trigger] after[i]).parent matches Some(p) ==> p < i
        &&& (after[i].open && after[i].parent is Some) ==> after[after[i].parent->0 as int].open
        &&& after[i].order == siblings_before(after, after[i].parent, i)
    } by {
        lemma_siblings_same_parents(nodes, after, after[i].parent, i);
        if i < nodes.len() {
            assert(after[i] == nodes[i]);
        }
    }
}

proof fn lemma_siblings_bounded(nodes: Seq<Region>, parent: Option<usize>, upto: int)
    requires
        0 <= upto <= nodes.len(),
    ensures
        siblings_before(nodes, parent, upto) <= upto,
    decreases upto,
{
    if upto > 0 {
        lemma_siblings_bounded(nodes, parent, upto - 1);
    }
}

pub(crate) proof fn lemma_no_open_descendant_no_open_child(nodes: Seq<Region>, id: int)
    requires
        well_formed(nodes),
        0 <= id < nodes.len(),
        !has_open_descendant(nodes, id),
    ensures
        forall|k: int| 0 <= k < nodes.len() ==> !is_open_child(#[trigger] nodes[k], id),
{
    assert forall|k: int| 0 <= k < nodes.len() implies !is_open_child(#[trigger] nodes[k], id) by {
        if is_open_child(nodes[k], id) {
            lemma_open_child_is_descendant(nodes, id, k);
        }
    }
}

pub(crate) proof fn lemma_close_keeps_well_formed(nodes: Seq<Region>, id: int)
    requires
        well_formed(nodes),
        0 <= id < nodes.len(),
        forall|k: int| 0 <= k < nodes.len() ==> !is_open_child(#[trigger] nodes[k], id),
    ensures
        well_formed(nodes.update(id, closed(nodes[id]))),
{
    let after = nodes.update(id, closed(nodes[id]));
    assert forall|i: int| 0 <= i < after.len() implies {
        &&& (#[trigger] after[i]).parent matches Some(p) ==> p < i
        &&& (after[i].open && after[i].parent is Some) ==> after[after[i].parent->0 as int].open
        &&& after[i].order == siblings_before(after, after[i].parent, i)
    } by {
        lemma_siblings_same_parents(nodes, after, after[i].parent, i);
        assert(nodes[i].parent == after[i].parent);
        if i != id {
            assert(after[i] == nodes[i]);
        }
    }
}

} // verus!
