//! The borrow tracker: the borrows issued in a fragment, which of them are
//! outstanding, and the rule that a value is either shared or held alone.

use vstd::prelude::*;
use vstd::multiset::Multiset;
use crate::binding::{Binding, BindingId, BindingTable, BindingTableView};
use crate::diagnostic::AnalysisError;
use crate::lifetime::{Lifetime, Mutability};
use crate::region::{is_open_in, Region, RegionId, RegionTree};

verus! {

/// A borrow is named by its position in the order of issue.
pub type BorrowId = usize;

/// One borrow of a binding.
#[derive(Clone, Copy, Debug, PartialEq, Eq, Structural)]
pub struct Borrow {
    /// The binding that is borrowed.
    pub binding: usize,
    pub kind: Mutability,
    /// The region the borrow was issued into: the one that its reference
    /// belongs to.
    pub region: usize,
    /// Whether the borrow is outstanding.
    pub active: bool,
}

impl Borrow {
    /// A borrow as it is issued.
    pub open spec fn issued(binding: usize, kind: Mutability, region: usize) -> Borrow {
        Borrow { binding, kind, region, active: true }
    }

    /// The borrow after its last use.
    pub open spec fn ended(self) -> Borrow {
        Borrow { active: false, ..self }
    }

    /// The lifetime of the reference: that of its region.
    pub open spec fn spec_lifetime(self) -> Lifetime {
        Lifetime::Concrete(self.region)
    }

    /// The lifetime that the reference carries.
    #[verifier::when_used_as_spec(spec_lifetime)]
    pub fn lifetime(self) -> (l: Lifetime)
        ensures
            l == self.spec_lifetime(),
    {
        Lifetime::Concrete(self.region)
    }

    /// The borrow is outstanding and belongs to `region`.
    pub open spec fn lives_in(self, region: usize) -> bool {
        self.active && self.region == region
    }
}

/// The kinds of the outstanding borrows of `binding`, each as often as
/// there is a borrow of it.
pub open spec fn active_borrows(records: Seq<Borrow>, binding: usize) -> Multiset<Mutability>
    decreases records.len(),
{
    if records.len() == 0 {
        Multiset::empty()
    } else {
        let rest = active_borrows(records.drop_last(), binding);
        if records.last().active && records.last().binding == binding {
            rest.insert(records.last().kind)
        } else {
            rest
        }
    }
}

/// The rule of exclusivity: any number of shared borrows, or a single
/// exclusive one and no other.
pub open spec fn exclusive_or_shared(m: Multiset<Mutability>) -> bool {
    m.count(Mutability::Exclusive) == 0 || (m.count(Mutability::Exclusive) == 1 && m.count(
        Mutability::Shared,
    ) == 0)
}

/// A borrow of `kind` cannot join the borrows `m`: an exclusive borrow
/// joins nothing, a shared one no exclusive borrow.
pub open spec fn conflicts(m: Multiset<Mutability>, kind: Mutability) -> bool {
    match kind {
        Mutability::Shared => m.count(Mutability::Exclusive) > 0,
        Mutability::Exclusive => m.len() > 0,
    }
}

/// The counts in the binding table are those of the outstanding borrows.
pub open spec fn counts_agree(records: Seq<Borrow>, bindings: Seq<Binding>) -> bool {
    &&& forall|k: int| 0 <= k < records.len() ==> (#[trigger] records[k]).binding < bindings.len()
    &&& forall|b: usize, kind: Mutability|
        b < bindings.len() ==> bindings[b as int].outstanding(kind) == #[trigger] active_borrows(
            records,
            b,
        ).count(kind)
}

/// Every outstanding borrow belongs to a region that is open.
pub open spec fn confined_to_open(records: Seq<Borrow>, regions: Seq<Region>) -> bool {
    forall|k: int|
        0 <= k < records.len() && (#[trigger] records[k]).active ==> records[k].region
            < regions.len() && regions[records[k].region as int].open
}

/// Whether a borrow of `binding` may be issued into `region`, and why not.
pub open spec fn may_borrow(
    table: BindingTableView,
    regions: Seq<Region>,
    binding: usize,
    kind: Mutability,
    region: usize,
) -> Result<(), AnalysisError> {
    if !is_open_in(regions, region) {
        Err(AnalysisError::RegionContractViolation { region })
    } else if table.read(binding) is Err {
        table.read(binding)
    } else if table.bindings[binding as int].conflicts_with(kind) {
        Err(AnalysisError::ConflictingBorrow { binding, region })
    } else {
        Ok(())
    }
}

/// The records after every outstanding borrow of `region` has ended.
pub open spec fn expired(records: Seq<Borrow>, region: usize) -> Seq<Borrow> {
    Seq::new(
        records.len(),
        |k: int| if records[k].lives_in(region) { records[k].ended() } else { records[k] },
    )
}

/// The borrow at `k` is outstanding, belongs to another region than
/// `region`, and borrows a binding that was declared in `region`: when
/// `region` closes, the reference outlasts its value.
pub open spec fn dangles_at(
    records: Seq<Borrow>,
    bindings: Seq<Binding>,
    region: usize,
    k: int,
) -> bool {
    &&& 0 <= k < records.len()
    &&& records[k].active
    &&& records[k].region != region
    &&& bindings[records[k].binding as int].region == region
}

/// No borrow before `upto` dangles when `region` closes.
pub open spec fn none_dangles_before(
    records: Seq<Borrow>,
    bindings: Seq<Binding>,
    region: usize,
    upto: int,
) -> bool {
    forall|k: int| 0 <= k < upto ==> !#[trigger] dangles_at(records, bindings, region, k)
}

/// Two tables hold the same bindings but for the counts of their borrows.
pub open spec fn same_slots(a: BindingTableView, b: BindingTableView) -> bool {
    &&& a.moved == b.moved
    &&& a.bindings.len() == b.bindings.len()
    &&& forall|i: int|
        0 <= i < a.bindings.len() ==> (#[trigger] a.bindings[i]).name == b.bindings[i].name
            && a.bindings[i].region == b.bindings[i].region && a.bindings[i].ty == b.bindings[i].ty
            && a.bindings[i].state == b.bindings[i].state
}

/// The borrows of one fragment.
pub struct BorrowTracker {
    records: Vec<Borrow>,
}

impl View for BorrowTracker {
    type V = Seq<Borrow>;

    closed spec fn view(&self) -> Seq<Borrow> {
        self.records@
    }
}

impl BorrowTracker {
    /// The tracker and the binding table tell the same of every binding.
    pub open spec fn wf(&self, bindings: &BindingTable) -> bool {
        counts_agree(self@, bindings@.bindings)
    }

    /// No outstanding borrow belongs to a region that is closed.
    pub open spec fn confined(&self, regions: &RegionTree) -> bool {
        confined_to_open(self@, regions@)
    }

    /// A tracker without borrows.
    pub fn new() -> (tracker: Self)
        ensures
            tracker@ == Seq::<Borrow>::empty(),
    {
        BorrowTracker { records: Vec::new() }
    }

    /// The number of borrows issued so far.
    pub fn len(&self) -> (n: usize)
        ensures
            n == self@.len(),
    {
        self.records.len()
    }

    /// The borrow of that name, if there is one.
    pub fn get(&self, id: BorrowId) -> (r: Option<Borrow>)
        ensures
            r == if id < self@.len() { Some(self@[id as int]) } else { None },
    {
        if id < self.records.len() {
            Some(self.records[id])
        } else {
            None
        }
    }

    /// Whether the borrow is outstanding.
    pub fn is_active(&self, id: BorrowId) -> (r: bool)
        ensures
            r == (id < self@.len() && self@[id as int].active),
    {
        id < self.records.len() && self.records[id].active
    }

    /// Issues a borrow of `kind` into `region`. The region must be open,
    /// the value whole, and the borrow must not conflict with those
    /// outstanding.
    pub fn borrow(
        &mut self,
        bindings: &mut BindingTable,
        regions: &RegionTree,
        binding: BindingId,
        kind: Mutability,
        region: RegionId,
    ) -> (r: Result<BorrowId, AnalysisError>)
        requires
            old(bindings).wf(),
            old(self).wf(old(bindings)),
            binding < old(bindings)@.bindings.len(),
        ensures
            final(bindings).wf(),
            final(self).wf(final(bindings)),
            old(self).confined(regions) ==> final(self).confined(regions),
            r is Ok <==> may_borrow(old(bindings)@, regions@, binding, kind, region) is Ok,
            r matches Err(e) ==> Err::<(), AnalysisError>(e) == may_borrow(
                old(bindings)@,
                regions@,
                binding,
                kind,
                region,
            ) && final(self)@ == old(self)@ && final(bindings)@ == old(bindings)@,
            r matches Ok(id) ==> id == old(self)@.len() && final(self)@ == old(self)@.push(
                Borrow::issued(binding, kind, region),
            ) && final(bindings)@.bindings == old(bindings)@.bindings.update(
                binding as int,
                old(bindings)@.bindings[binding as int].with_borrow(kind),
            ) && final(bindings)@.moved == old(bindings)@.moved,
            r is Ok ==> active_borrows(final(self)@, binding) == active_borrows(
                old(self)@,
                binding,
            ).insert(kind),
    {
        if !regions.is_open(region) {
            return Err(AnalysisError::RegionContractViolation { region });
        }
        let whole = bindings.read(binding);
        match whole {
            Err(e) => {
                return Err(e);
            },
            Ok(_) => {},
        }
        let b = bindings.binding(binding);
        let conflict = match kind {
            Mutability::Shared => b.exclusive > 0,
            Mutability::Exclusive => b.shared > 0 || b.exclusive > 0,
        };
        if conflict {
            return Err(AnalysisError::ConflictingBorrow { binding, region });
        }
        let id: usize = self.records.len();
        proof {
            lemma_count_bounded(self@, binding, Mutability::Shared);
            lemma_push_record(self@, Borrow::issued(binding, kind, region));
        }
        self.records.push(Borrow { binding, kind, region, active: true });
        proof {
            assert(self.records.len() == id + 1);
            assert(b.shared == active_borrows(old(self)@, binding).count(Mutability::Shared));
        }
        bindings.note_borrow(binding, kind);
        proof {
            let after = self@;
            let slots = bindings@.bindings;
            assert forall|i: usize, k: Mutability| i < slots.len() implies slots[i as int].outstanding(
                k,
            ) == #[trigger] active_borrows(after, i).count(k) by {
                broadcast use vstd::multiset::group_multiset_axioms;

                assert(old(bindings)@.bindings[i as int].outstanding(k) == active_borrows(
                    old(self)@,
                    i,
                ).count(k));
            }
        }
        Ok(id)
    }

    /// Issues a shared borrow: refused only while an exclusive borrow of
    /// the binding is outstanding.
    pub fn borrow_shared(
        &mut self,
        bindings: &mut BindingTable,
        regions: &RegionTree,
        binding: BindingId,
        region: RegionId,
    ) -> (r: Result<BorrowId, AnalysisError>)
        requires
            old(bindings).wf(),
            old(self).wf(old(bindings)),
            binding < old(bindings)@.bindings.len(),
        ensures
            final(bindings).wf(),
            final(self).wf(final(bindings)),
            old(self).confined(regions) ==> final(self).confined(regions),
            r is Ok <==> may_borrow(old(bindings)@, regions@, binding, Mutability::Shared, region)
                is Ok,
            r matches Err(e) ==> Err::<(), AnalysisError>(e) == may_borrow(
                old(bindings)@,
                regions@,
                binding,
                Mutability::Shared,
                region,
            ) && final(self)@ == old(self)@ && final(bindings)@ == old(bindings)@,
            r matches Ok(id) ==> id == old(self)@.len() && final(self)@ == old(self)@.push(
                Borrow::issued(binding, Mutability::Shared, region),
            ) && final(bindings)@.bindings == old(bindings)@.bindings.update(
                binding as int,
                old(bindings)@.bindings[binding as int].with_borrow(Mutability::Shared),
            ) && final(bindings)@.moved == old(bindings)@.moved,
            r is Ok ==> active_borrows(final(self)@, binding) == active_borrows(
                old(self)@,
                binding,
            ).insert(Mutability::Shared),
    {
        self.borrow(bindings, regions, binding, Mutability::Shared, region)
    }

    /// Issues an exclusive borrow: refused while any borrow of the binding
    /// is outstanding.
    pub fn borrow_exclusive(
        &mut self,
        bindings: &mut BindingTable,
        regions: &RegionTree,
        binding: BindingId,
        region: RegionId,
    ) -> (r: Result<BorrowId, AnalysisError>)
        requires
            old(bindings).wf(),
            old(self).wf(old(bindings)),
            binding < old(bindings)@.bindings.len(),
        ensures
            final(bindings).wf(),
            final(self).wf(final(bindings)),
            old(self).confined(regions) ==> final(self).confined(regions),
            r is Ok <==> may_borrow(
                old(bindings)@,
                regions@,
                binding,
                Mutability::Exclusive,
                region,
            ) is Ok,
            r matches Err(e) ==> Err::<(), AnalysisError>(e) == may_borrow(
                old(bindings)@,
                regions@,
                binding,
                Mutability::Exclusive,
                region,
            ) && final(self)@ == old(self)@ && final(bindings)@ == old(bindings)@,
            r matches Ok(id) ==> id == old(self)@.len() && final(self)@ == old(self)@.push(
                Borrow::issued(binding, Mutability::Exclusive, region),
            ) && final(bindings)@.bindings == old(bindings)@.bindings.update(
                binding as int,
                old(bindings)@.bindings[binding as int].with_borrow(Mutability::Exclusive),
            ) && final(bindings)@.moved == old(bindings)@.moved,
            r is Ok ==> active_borrows(final(self)@, binding) == active_borrows(
                old(self)@,
                binding,
            ).insert(Mutability::Exclusive),
    {
        self.borrow(bindings, regions, binding, Mutability::Exclusive, region)
    }

    /// The first outstanding borrow that would outlast its value if
    /// `region` closed now: a borrow of a binding of `region` that belongs
    /// to another region.
    pub fn first_dangling(&self, bindings: &BindingTable, region: RegionId) -> (r: Option<BorrowId>)
        requires
            self.wf(bindings),
        ensures
            r matches Some(k) ==> dangles_at(self@, bindings@.bindings, region, k as int)
                && none_dangles_before(self@, bindings@.bindings, region, k as int),
            r is None ==> none_dangles_before(
                self@,
                bindings@.bindings,
                region,
                self@.len() as int,
            ),
    {
        let n: usize = self.records.len();
        let mut k: usize = 0;
        while k < n
            invariant
                n == self@.len(),
                k <= n,
                self.wf(bindings),
                none_dangles_before(self@, bindings@.bindings, region, k as int),
            decreases n - k,
        {
            let record = self.records[k];
            if record.active && record.region != region && bindings.binding(record.binding).region
                == region {
                assert(dangles_at(self@, bindings@.bindings, region, k as int));
                return Some(k);
            }
            assert(!dangles_at(self@, bindings@.bindings, region, k as int));
            k = k + 1;
        }
        None
    }

    /// Ends an outstanding borrow, which takes exactly one entry out of the
    /// borrows of its binding. Returns whether there was such a borrow: one
    /// that has ended already, or was never issued, changes nothing.
    pub fn release(&mut self, bindings: &mut BindingTable, id: BorrowId) -> (r: bool)
        requires
            old(bindings).wf(),
            old(self).wf(old(bindings)),
        ensures
            final(bindings).wf(),
            final(self).wf(final(bindings)),
            r == (id < old(self)@.len() && old(self)@[id as int].active),
            r ==> final(self)@ == old(self)@.update(id as int, old(self)@[id as int].ended())
                && final(bindings)@.bindings == old(bindings)@.bindings.update(
                old(self)@[id as int].binding as int,
                old(bindings)@.bindings[old(self)@[id as int].binding as int].without_borrow(
                    old(self)@[id as int].kind,
                ),
            ) && active_borrows(final(self)@, old(self)@[id as int].binding) == active_borrows(
                old(self)@,
                old(self)@[id as int].binding,
            ).remove(old(self)@[id as int].kind),
            !r ==> final(self)@ == old(self)@ && final(bindings)@.bindings == old(
                bindings,
            )@.bindings,
            final(bindings)@.moved == old(bindings)@.moved,
    {
        if id >= self.records.len() {
            return false;
        }
        let record = self.records[id];
        if !record.active {
            return false;
        }
        proof {
            lemma_end_record(self@, id as int);
            assert(old(bindings)@.bindings[record.binding as int].outstanding(record.kind)
                == active_borrows(self@, record.binding).count(record.kind));
        }
        self.records[id] = Borrow {
            binding: record.binding,
            kind: record.kind,
            region: record.region,
            active: false,
        };
        bindings.note_release(record.binding, record.kind);
        proof {
            let after = self@;
            let slots = bindings@.bindings;
            assert forall|i: usize, k: Mutability| i < slots.len() implies slots[i as int].outstanding(
                k,
            ) == #[trigger] active_borrows(after, i).count(k) by {
                broadcast use vstd::multiset::group_multiset_axioms;

                assert(old(bindings)@.bindings[i as int].outstanding(k) == active_borrows(
                    old(self)@,
                    i,
                ).count(k));
            }
        }
        true
    }

    /// Ends every outstanding borrow that belongs to `region`, as the
    /// closing of the region does: a reference does not outlast its region.
    pub fn expire_region(&mut self, bindings: &mut BindingTable, region: RegionId)
        requires
            old(bindings).wf(),
            old(self).wf(old(bindings)),
        ensures
            final(bindings).wf(),
            final(self).wf(final(bindings)),
            final(self)@ == expired(old(self)@, region),
            same_slots(final(bindings)@, old(bindings)@),
    {
        let n: usize = self.records.len();
        let mut k: usize = 0;
        while k < n
            invariant
                n == self@.len(),
                n == old(self)@.len(),
                k <= n,
                bindings.wf(),
                self.wf(bindings),
                same_slots(bindings@, old(bindings)@),
                forall|j: int| 0 <= j < k ==> self@[j] == expired(old(self)@, region)[j],
                forall|j: int| k <= j < n ==> self@[j] == old(self)@[j],
            decreases n - k,
        {
            let record = self.records[k];
            if record.active && record.region == region {
                let ended = self.release(bindings, k);
                assert(ended);
            }
            k = k + 1;
        }
        assert(self@ =~= expired(old(self)@, region));
    }
}

/// A record added at the end joins the borrows of its binding and of no
/// other.
pub proof fn lemma_push_record(records: Seq<Borrow>, record: Borrow)
    ensures
        forall|b: usize| #[trigger]
            active_borrows(records.push(record), b) == if record.active && record.binding == b {
                active_borrows(records, b).insert(record.kind)
            } else {
                active_borrows(records, b)
            },
{
    assert(records.push(record).drop_last() =~= records);
}

/// The end of an outstanding borrow takes its kind out of the borrows of
/// its binding once, and leaves the borrows of every other binding.
pub proof fn lemma_end_record(records: Seq<Borrow>, at: int)
    requires
        0 <= at < records.len(),
        records[at].active,
    ensures
        active_borrows(records, records[at].binding).count(records[at].kind) > 0,
        forall|b: usize| #[trigger]
            active_borrows(records.update(at, records[at].ended()), b) == if records[at].binding
                == b {
                active_borrows(records, b).remove(records[at].kind)
            } else {
                active_borrows(records, b)
            },
{
    lemma_end_record_of(records, at, records[at].binding);
    assert forall|b: usize| #[trigger]
        active_borrows(records.update(at, records[at].ended()), b) == if records[at].binding == b {
            active_borrows(records, b).remove(records[at].kind)
        } else {
            active_borrows(records, b)
        } by {
        lemma_end_record_of(records, at, b);
    }
}

proof fn lemma_end_record_of(records: Seq<Borrow>, at: int, b: usize)
    requires
        0 <= at < records.len(),
        records[at].active,
    ensures
        records[at].binding == b ==> active_borrows(records, b).count(records[at].kind) > 0,
        active_borrows(records.update(at, records[at].ended()), b) == if records[at].binding == b {
            active_borrows(records, b).remove(records[at].kind)
        } else {
            active_borrows(records, b)
        },
    decreases records.len(),
{
    broadcast use vstd::multiset::group_multiset_axioms;

    let after = records.update(at, records[at].ended());
    let kind = records[at].kind;
    if at == records.len() - 1 {
        assert(after.drop_last() =~= records.drop_last());
        if records[at].binding == b {
            let rest = active_borrows(records.drop_last(), b);
            assert(rest.insert(kind).remove(kind) =~= rest);
        }
    } else {
        lemma_end_record_of(records.drop_last(), at, b);
        assert(after.drop_last() =~= records.drop_last().update(at, records[at].ended()));
        assert(after.last() == records.last());
        let rest = active_borrows(records.drop_last(), b);
        if records[at].binding == b && records.last().active && records.last().binding == b {
            let other = records.last().kind;
            assert(rest.remove(kind).insert(other) =~= rest.insert(other).remove(kind));
        }
    }
}

/// A borrow is refused as conflicting exactly where it would break the
/// rule of exclusivity: of borrows that keep the rule, one more borrow of
/// `kind` conflicts if and only if the borrows with it no longer keep it.
pub proof fn lemma_conflict_iff_rule_would_break(m: Multiset<Mutability>, kind: Mutability)
    requires
        exclusive_or_shared(m),
    ensures
        conflicts(m, kind) <==> !exclusive_or_shared(m.insert(kind)),
{
    broadcast use vstd::multiset::group_multiset_axioms;

    lemma_two_kinds(m);
}

/// The end of a borrow never breaks the rule of exclusivity.
pub proof fn lemma_release_keeps_rule(m: Multiset<Mutability>, kind: Mutability)
    requires
        exclusive_or_shared(m),
    ensures
        exclusive_or_shared(m.remove(kind)),
{
    broadcast use vstd::multiset::group_multiset_axioms;

}

/// Where the tracker and a well-formed binding table agree, the
/// outstanding borrows of every binding keep the rule of exclusivity, and
/// the counts of the table decide a conflict as the borrows do.
pub proof fn lemma_exclusivity_holds(records: Seq<Borrow>, table: BindingTableView, binding: usize)
    requires
        table.well_formed(),
        counts_agree(records, table.bindings),
        binding < table.bindings.len(),
    ensures
        exclusive_or_shared(active_borrows(records, binding)),
        forall|kind: Mutability|
            table.bindings[binding as int].conflicts_with(kind) == conflicts(
                active_borrows(records, binding),
                kind,
            ),
{
    let m = active_borrows(records, binding);
    let b = table.bindings[binding as int];
    assert(b.exclusivity());
    assert(b.outstanding(Mutability::Shared) == m.count(Mutability::Shared));
    assert(b.outstanding(Mutability::Exclusive) == m.count(Mutability::Exclusive));
    lemma_two_kinds(m);
}

/// Borrows are shared or exclusive: there are as many as of both kinds
/// together.
proof fn lemma_two_kinds(m: Multiset<Mutability>)
    ensures
        m.len() == m.count(Mutability::Shared) + m.count(Mutability::Exclusive),
    decreases m.len(),
{
    broadcast use vstd::multiset::group_multiset_axioms;

    if m.len() == 0 {
        vstd::multiset::lemma_multiset_empty_len(m);
    } else {
        let v = m.choose();
        let rest = m.remove(v);
        assert(rest.len() == m.len() - 1) by {
            assert(Multiset::singleton(v).subset_of(m));
        }
        lemma_two_kinds(rest);
    }
}

/// A binding that no record names has no outstanding borrow.
pub proof fn lemma_unused_binding(records: Seq<Borrow>, binding: usize)
    requires
        forall|k: int| 0 <= k < records.len() ==> (#[trigger] records[k]).binding != binding,
    ensures
        active_borrows(records, binding) == Multiset::<Mutability>::empty(),
    decreases records.len(),
{
    if records.len() > 0 {
        assert(records.last() == records[records.len() - 1]);
        lemma_unused_binding(records.drop_last(), binding);
    }
}

/// No binding has more outstanding borrows than borrows were issued.
pub proof fn lemma_count_bounded(records: Seq<Borrow>, binding: usize, kind: Mutability)
    ensures
        active_borrows(records, binding).count(kind) <= active_borrows(records, binding).len()
            <= records.len(),
    decreases records.len(),
{
    broadcast use vstd::multiset::group_multiset_axioms;

    if records.len() > 0 {
        lemma_count_bounded(records.drop_last(), binding, kind);
    }
}

} // verus!
