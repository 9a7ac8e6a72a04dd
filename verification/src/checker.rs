//! The state of one fragment: its regions, bindings and borrows together,
//! with the checks that need more than one of them.

use vstd::prelude::*;
use crate::binding::{
    Binding,
    BindingId,
    BindingState,
    BindingTable,
    BindingTableView,
    DeclaredType,
    Symbol,
};
use crate::borrow::{
    active_borrows,
    confined_to_open,
    counts_agree,
    dangles_at,
    expired,
    may_borrow,
    none_dangles_before,
    Borrow,
    BorrowId,
    BorrowTracker,
};
use crate::diagnostic::AnalysisError;
use crate::lifetime::Mutability;
use crate::region::{
    closed,
    is_ancestor,
    is_open_in,
    lemma_ancestor_not_later,
    lemma_open_inside_open,
    may_close,
    opened,
    well_formed,
    Region,
    RegionId,
    RegionTree,
};

verus! {

/// The state of a fragment as contracts see it.
pub struct CheckerView {
    pub regions: Seq<Region>,
    pub table: BindingTableView,
    pub borrows: Seq<Borrow>,
}

impl CheckerView {
    /// The invariant of the state: each part is well-formed, the binding
    /// table counts the outstanding borrows, every outstanding borrow
    /// belongs to an open region, and every binding to a known one.
    pub open spec fn well_formed(self) -> bool {
        &&& well_formed(self.regions)
        &&& self.table.well_formed()
        &&& counts_agree(self.borrows, self.table.bindings)
        &&& confined_to_open(self.borrows, self.regions)
        &&& forall|i: int|
            0 <= i < self.table.bindings.len() ==> (#[trigger] self.table.bindings[i]).region
                < self.regions.len()
    }

    /// A binding can be used while the region it was declared in is open.
    pub open spec fn in_scope(self, id: usize) -> Result<(), AnalysisError> {
        if is_open_in(self.regions, self.table.bindings[id as int].region) {
            Ok(())
        } else {
            Err(
                AnalysisError::RegionContractViolation {
                    region: self.table.bindings[id as int].region,
                },
            )
        }
    }

    /// What reading the whole value of `id` gives.
    pub open spec fn read(self, id: usize) -> Result<(), AnalysisError> {
        if self.in_scope(id) is Err {
            self.in_scope(id)
        } else {
            self.table.read(id)
        }
    }

    /// What reading one field of `id` gives.
    pub open spec fn read_field(self, id: usize, field: usize) -> Result<(), AnalysisError> {
        if self.in_scope(id) is Err {
            self.in_scope(id)
        } else {
            self.table.read_field(id, field)
        }
    }

    /// Whether the whole value of `id` may be moved out, and why not.
    pub open spec fn may_move(self, id: usize) -> Result<(), AnalysisError> {
        if self.in_scope(id) is Err {
            self.in_scope(id)
        } else {
            self.table.may_move(id)
        }
    }

    /// Whether `field` may be moved out of `id`, and why not.
    pub open spec fn may_move_field(self, id: usize, field: usize) -> Result<(), AnalysisError> {
        if self.in_scope(id) is Err {
            self.in_scope(id)
        } else {
            self.table.may_move_field(id, field)
        }
    }

    /// Whether a borrow of `id` may be issued into `region`, and why not.
    pub open spec fn may_borrow(self, id: usize, kind: Mutability, region: usize) -> Result<
        (),
        AnalysisError,
    > {
        if self.in_scope(id) is Err {
            self.in_scope(id)
        } else {
            may_borrow(self.table, self.regions, id, kind, region)
        }
    }

    /// Whether `region` may be closed, and why not: it must be open with
    /// nothing open inside it, and no binding of it may still be borrowed
    /// by a reference of another region.
    pub open spec fn may_close(self, region: usize) -> Result<(), AnalysisError> {
        if !may_close(self.regions, region) {
            Err(AnalysisError::RegionContractViolation { region })
        } else if !self.none_dangles(region) {
            let k = choose|k: int| self.first_dangling(region, k);
            Err(
                AnalysisError::DanglingAfterDrop {
                    binding: self.borrows[k].binding,
                    region: self.borrows[k].region,
                },
            )
        } else {
            Ok(())
        }
    }

    /// The state after a region was opened inside `parent`.
    pub open spec fn after_open(self, parent: Option<usize>) -> CheckerView {
        CheckerView { regions: self.regions.push(opened(self.regions, parent)), ..self }
    }

    /// The state after `region` was closed: its borrows have ended.
    pub open spec fn after_close(self, region: usize) -> CheckerView {
        CheckerView {
            regions: self.regions.update(region as int, closed(self.regions[region as int])),
            table: recounted(self.table, expired(self.borrows, region)),
            borrows: expired(self.borrows, region),
        }
    }

    /// The state after a binding was declared in `region`.
    pub open spec fn after_declare(self, name: u64, region: usize, ty: DeclaredType) -> CheckerView {
        CheckerView {
            table: BindingTableView {
                bindings: self.table.bindings.push(Binding::fresh(name, region, ty)),
                ..self.table
            },
            ..self
        }
    }

    /// The state after the whole value of `id` was moved out.
    pub open spec fn after_move(self, id: usize) -> CheckerView {
        CheckerView {
            table: BindingTableView {
                bindings: self.table.bindings.update(
                    id as int,
                    self.table.bindings[id as int].with_state(BindingState::Moved),
                ),
                ..self.table
            },
            ..self
        }
    }

    /// The state after `field` was moved out of `id`.
    pub open spec fn after_move_field(self, id: usize, field: usize) -> CheckerView {
        CheckerView {
            table: BindingTableView {
                bindings: self.table.bindings.update(
                    id as int,
                    self.table.bindings[id as int].with_state(BindingState::PartiallyMoved),
                ),
                moved: self.table.moved.push((id, field)),
            },
            ..self
        }
    }

    /// The state after a borrow of `id` was issued.
    pub open spec fn after_borrow(self, id: usize, kind: Mutability, region: usize) -> CheckerView {
        CheckerView {
            table: BindingTableView {
                bindings: self.table.bindings.update(
                    id as int,
                    self.table.bindings[id as int].with_borrow(kind),
                ),
                ..self.table
            },
            borrows: self.borrows.push(Borrow::issued(id, kind, region)),
            ..self
        }
    }

    /// The state after the outstanding borrow `k` has ended.
    pub open spec fn after_release(self, k: usize) -> CheckerView {
        let record = self.borrows[k as int];
        CheckerView {
            table: BindingTableView {
                bindings: self.table.bindings.update(
                    record.binding as int,
                    self.table.bindings[record.binding as int].without_borrow(record.kind),
                ),
                ..self.table
            },
            borrows: self.borrows.update(k as int, record.ended()),
            ..self
        }
    }

    /// No outstanding borrow would outlast its value if `region` closed.
    pub open spec fn none_dangles(self, region: usize) -> bool {
        none_dangles_before(
            self.borrows,
            self.table.bindings,
            region,
            self.borrows.len() as int,
        )
    }

    /// The borrow at `k` is the first that would outlast its value if
    /// `region` closed.
    pub open spec fn first_dangling(self, region: usize, k: int) -> bool {
        dangles_at(self.borrows, self.table.bindings, region, k) && none_dangles_before(
            self.borrows,
            self.table.bindings,
            region,
            k,
        )
    }
}

/// The binding table with the counts of the borrows taken from `records`.
pub open spec fn recounted(table: BindingTableView, records: Seq<Borrow>) -> BindingTableView {
    BindingTableView {
        bindings: Seq::new(
            table.bindings.len(),
            |i: int|
                Binding {
                    shared: active_borrows(records, i as usize).count(Mutability::Shared) as usize,
                    exclusive: active_borrows(records, i as usize).count(
                        Mutability::Exclusive,
                    ) as usize,
                    ..table.bindings[i]
                },
        ),
        moved: table.moved,
    }
}

/// The regions, bindings and borrows of one fragment.
pub struct Checker {
    regions: RegionTree,
    bindings: BindingTable,
    borrows: BorrowTracker,
}

impl View for Checker {
    type V = CheckerView;

    closed spec fn view(&self) -> CheckerView {
        CheckerView { regions: self.regions@, table: self.bindings@, borrows: self.borrows@ }
    }
}

impl Checker {
    /// The state keeps its invariant.
    pub open spec fn wf(&self) -> bool {
        self@.well_formed()
    }

    /// The state of a fragment in which nothing has happened.
    pub fn new() -> (checker: Self)
        ensures
            checker.wf(),
            checker@.regions == Seq::<Region>::empty(),
            checker@.table.bindings == Seq::<Binding>::empty(),
            checker@.table.moved == Seq::<(usize, usize)>::empty(),
            checker@.borrows == Seq::<Borrow>::empty(),
    {
        Checker {
            regions: RegionTree::new(),
            bindings: BindingTable::new(),
            borrows: BorrowTracker::new(),
        }
    }

    /// The regions of the fragment.
    pub fn regions(&self) -> (r: &RegionTree)
        ensures
            r@ == self@.regions,
    {
        &self.regions
    }

    /// The bindings of the fragment.
    pub fn bindings(&self) -> (r: &BindingTable)
        ensures
            r@ == self@.table,
    {
        &self.bindings
    }

    /// The borrows of the fragment.
    pub fn borrows(&self) -> (r: &BorrowTracker)
        ensures
            r@ == self@.borrows,
    {
        &self.borrows
    }

    /// Opens a region inside `parent`, or a new root for `None`.
    pub fn open_region(&mut self, parent: Option<RegionId>) -> (r: Result<RegionId, AnalysisError>)
        requires
            old(self).wf(),
        ensures
            final(self).wf(),
            r is Ok <==> (parent matches Some(p) ==> is_open_in(old(self)@.regions, p)),
            r matches Ok(id) ==> id == old(self)@.regions.len() && final(self)@.regions == old(
                self,
            )@.regions.push(opened(old(self)@.regions, parent)),
            r matches Err(e) ==> final(self)@ == old(self)@ && parent is Some && e == (
            AnalysisError::RegionContractViolation { region: parent->0 }),
            r is Ok ==> final(self)@ == old(self)@.after_open(parent),
    {
        self.regions.open_region(parent)
    }

    /// Closes a region. Its borrows end with it and its bindings are
    /// dropped. The close is refused, and nothing changed, where the
    /// region cannot be closed, or where a binding of the region is still
    /// borrowed by a reference that belongs to another region.
    pub fn close_region(&mut self, id: RegionId) -> (r: Result<(), AnalysisError>)
        requires
            old(self).wf(),
        ensures
            final(self).wf(),
            r == old(self)@.may_close(id),
            r is Ok ==> final(self)@ == old(self)@.after_close(id),
            r is Err ==> final(self)@ == old(self)@,
    {
        if !self.regions.can_close(id) {
            return Err(AnalysisError::RegionContractViolation { region: id });
        }
        match self.borrows.first_dangling(&self.bindings, id) {
            Some(k) => {
                let record = self.borrows.get(k).unwrap();
                proof {
                    assert(self@.first_dangling(id, k as int));
                    let chosen = choose|j: int| self@.first_dangling(id, j);
                    assert(chosen == k) by {
                        if chosen < k {
                            assert(dangles_at(self@.borrows, self@.table.bindings, id, chosen));
                        } else if k < chosen {
                            assert(dangles_at(self@.borrows, self@.table.bindings, id, k as int));
                        }
                    }
                }
                return Err(
                    AnalysisError::DanglingAfterDrop {
                        binding: record.binding,
                        region: record.region,
                    },
                );
            },
            None => {},
        }
        self.borrows.expire_region(&mut self.bindings, id);
        let closing = self.regions.close_region(id);
        let declared: usize = self.bindings.len();
        proof {
            assert(closing is Ok);
            let target = recounted(old(self)@.table, self@.borrows);
            let slots = self@.table.bindings;
            assert forall|i: int| 0 <= i < slots.len() implies slots[i] == target.bindings[i] by {
                let b = i as usize;
                assert(b < declared);
                assert(slots[b as int].outstanding(Mutability::Shared) == active_borrows(
                    self@.borrows,
                    b,
                ).count(Mutability::Shared));
                assert(slots[b as int].outstanding(Mutability::Exclusive) == active_borrows(
                    self@.borrows,
                    b,
                ).count(Mutability::Exclusive));
                assert(slots[i].name == old(self)@.table.bindings[i].name);
            }
            assert(slots =~= target.bindings);
        }
        Ok(())
    }

    /// Declares a binding in an open region and returns its name.
    pub fn declare(&mut self, name: Symbol, region: RegionId, ty: DeclaredType) -> (r: Result<
        BindingId,
        AnalysisError,
    >)
        requires
            old(self).wf(),
        ensures
            final(self).wf(),
            r is Ok <==> is_open_in(old(self)@.regions, region),
            r matches Ok(id) ==> id == old(self)@.table.bindings.len() && final(self)@ == old(
                self,
            )@.after_declare(name, region, ty),
            r matches Err(e) ==> final(self)@ == old(self)@ && e == (
            AnalysisError::RegionContractViolation { region }),
    {
        let r = self.bindings.declare(&self.regions, name, region, ty);
        proof {
            if r is Ok {
                crate::borrow::lemma_unused_binding(
                    self@.borrows,
                    old(self)@.table.bindings.len() as usize,
                );
                let before = old(self)@.table.bindings;
                let after = self@.table.bindings;
                assert forall|b: usize, kind: Mutability| b < after.len() implies after[b as int].outstanding(
                    kind,
                ) == #[trigger] active_borrows(self@.borrows, b).count(kind) by {
                    if b < before.len() {
                        assert(after[b as int] == before[b as int]);
                    }
                }
            }
        }
        r
    }

    /// Whether the binding is in scope: the region it was declared in is
    /// open.
    fn check_scope(&self, id: BindingId) -> (r: Result<(), AnalysisError>)
        requires
            self.wf(),
            id < self@.table.bindings.len(),
        ensures
            r == self@.in_scope(id),
    {
        let region = self.bindings.binding(id).region;
        if self.regions.is_open(region) {
            Ok(())
        } else {
            Err(AnalysisError::RegionContractViolation { region })
        }
    }

    /// Reads the whole value of a binding.
    pub fn read(&self, id: BindingId) -> (r: Result<(), AnalysisError>)
        requires
            self.wf(),
            id < self@.table.bindings.len(),
        ensures
            r == self@.read(id),
    {
        let scope = self.check_scope(id);
        if scope.is_err() {
            return scope;
        }
        self.bindings.read(id)
    }

    /// Reads one field of a binding.
    pub fn read_field(&self, id: BindingId, field: usize) -> (r: Result<(), AnalysisError>)
        requires
            self.wf(),
            id < self@.table.bindings.len(),
        ensures
            r == self@.read_field(id, field),
    {
        let scope = self.check_scope(id);
        if scope.is_err() {
            return scope;
        }
        self.bindings.read_field(id, field)
    }

    /// Moves the whole value out of a binding.
    pub fn move_out(&mut self, id: BindingId) -> (r: Result<(), AnalysisError>)
        requires
            old(self).wf(),
            id < old(self)@.table.bindings.len(),
        ensures
            final(self).wf(),
            r == old(self)@.may_move(id),
            r is Ok ==> final(self)@ == old(self)@.after_move(id),
            r is Err ==> final(self)@ == old(self)@,
    {
        let scope = self.check_scope(id);
        if scope.is_err() {
            return scope;
        }
        let r = self.bindings.move_out(id);
        proof {
            self.lemma_counts_kept(old(self));
        }
        r
    }

    /// Moves one field out of a binding.
    pub fn partial_move(&mut self, id: BindingId, field: usize) -> (r: Result<(), AnalysisError>)
        requires
            old(self).wf(),
            id < old(self)@.table.bindings.len(),
        ensures
            final(self).wf(),
            r == old(self)@.may_move_field(id, field),
            r is Ok ==> final(self)@ == old(self)@.after_move_field(id, field),
            r is Err ==> final(self)@ == old(self)@,
    {
        let scope = self.check_scope(id);
        if scope.is_err() {
            return scope;
        }
        let r = self.bindings.partial_move(id, field);
        proof {
            self.lemma_counts_kept(old(self));
        }
        r
    }

    /// Issues a borrow of `kind` that belongs to `region`.
    pub fn borrow(&mut self, id: BindingId, kind: Mutability, region: RegionId) -> (r: Result<
        BorrowId,
        AnalysisError,
    >)
        requires
            old(self).wf(),
            id < old(self)@.table.bindings.len(),
        ensures
            final(self).wf(),
            r is Ok <==> old(self)@.may_borrow(id, kind, region) is Ok,
            r matches Err(e) ==> Err::<(), AnalysisError>(e) == old(self)@.may_borrow(
                id,
                kind,
                region,
            ) && final(self)@ == old(self)@,
            r matches Ok(k) ==> k == old(self)@.borrows.len() && final(self)@ == old(
                self,
            )@.after_borrow(id, kind, region) && active_borrows(final(self)@.borrows, id)
                == active_borrows(old(self)@.borrows, id).insert(kind),
    {
        match self.check_scope(id) {
            Err(e) => {
                return Err(e);
            },
            Ok(_) => {},
        }
        self.borrows.borrow(&mut self.bindings, &self.regions, id, kind, region)
    }

    /// Issues a shared borrow: refused only while an exclusive borrow of
    /// the binding is outstanding.
    pub fn borrow_shared(&mut self, id: BindingId, region: RegionId) -> (r: Result<
        BorrowId,
        AnalysisError,
    >)
        requires
            old(self).wf(),
            id < old(self)@.table.bindings.len(),
        ensures
            final(self).wf(),
            r is Ok <==> old(self)@.may_borrow(id, Mutability::Shared, region) is Ok,
            r matches Err(e) ==> Err::<(), AnalysisError>(e) == old(self)@.may_borrow(
                id,
                Mutability::Shared,
                region,
            ) && final(self)@ == old(self)@,
            r matches Ok(k) ==> k == old(self)@.borrows.len() && final(self)@ == old(
                self,
            )@.after_borrow(id, Mutability::Shared, region) && active_borrows(final(self)@.borrows, id)
                == active_borrows(old(self)@.borrows, id).insert(Mutability::Shared),
    {
        self.borrow(id, Mutability::Shared, region)
    }

    /// Issues an exclusive borrow: refused while any borrow of the binding
    /// is outstanding.
    pub fn borrow_exclusive(&mut self, id: BindingId, region: RegionId) -> (r: Result<
        BorrowId,
        AnalysisError,
    >)
        requires
            old(self).wf(),
            id < old(self)@.table.bindings.len(),
        ensures
            final(self).wf(),
            r is Ok <==> old(self)@.may_borrow(id, Mutability::Exclusive, region) is Ok,
            r matches Err(e) ==> Err::<(), AnalysisError>(e) == old(self)@.may_borrow(
                id,
                Mutability::Exclusive,
                region,
            ) && final(self)@ == old(self)@,
            r matches Ok(k) ==> k == old(self)@.borrows.len() && final(self)@ == old(
                self,
            )@.after_borrow(id, Mutability::Exclusive, region) && active_borrows(final(self)@.borrows, id)
                == active_borrows(old(self)@.borrows, id).insert(Mutability::Exclusive),
    {
        self.borrow(id, Mutability::Exclusive, region)
    }

    /// Ends an outstanding borrow after its last use. Returns whether
    /// there was such a borrow.
    pub fn release(&mut self, id: BorrowId) -> (r: bool)
        requires
            old(self).wf(),
        ensures
            final(self).wf(),
            r == (id < old(self)@.borrows.len() && old(self)@.borrows[id as int].active),
            r ==> final(self)@ == old(self)@.after_release(id) && active_borrows(
                final(self)@.borrows,
                old(self)@.borrows[id as int].binding,
            ) == active_borrows(old(self)@.borrows, old(self)@.borrows[id as int].binding).remove(
                old(self)@.borrows[id as int].kind,
            ),
            !r ==> final(self)@ == old(self)@,
    {
        self.borrows.release(&mut self.bindings, id)
    }

    /// A change of the binding table that keeps the counts of the borrows
    /// keeps the agreement with the tracker.
    proof fn lemma_counts_kept(&self, before: &Checker)
        requires
            before.wf(),
            self@.borrows == before@.borrows,
            self@.table.bindings.len() == before@.table.bindings.len(),
            forall|i: int|
                0 <= i < self@.table.bindings.len() ==> (#[trigger] self@.table.bindings[i]).shared
                    == before@.table.bindings[i].shared && self@.table.bindings[i].exclusive
                    == before@.table.bindings[i].exclusive && self@.table.bindings[i].region
                    == before@.table.bindings[i].region,
        ensures
            counts_agree(self@.borrows, self@.table.bindings),
            forall|i: int|
                0 <= i < self@.table.bindings.len() ==> (#[trigger] self@.table.bindings[i]).region
                    < before@.regions.len(),
    {
        let before_slots = before@.table.bindings;
        let after = self@.table.bindings;
        assert forall|b: usize, kind: Mutability| b < after.len() implies after[b as int].outstanding(
            kind,
        ) == #[trigger] active_borrows(self@.borrows, b).count(kind) by {
            assert(before_slots[b as int].outstanding(kind) == active_borrows(
                before@.borrows,
                b,
            ).count(kind));
            assert(after[b as int].shared == before_slots[b as int].shared);
        }
        assert forall|i: int| 0 <= i < after.len() implies (#[trigger] after[i]).region
            < before@.regions.len() by {
            assert(before_slots[i].region < before@.regions.len());
        }
    }
}

/// A borrow of a binding that is in scope and whole, into an open region,
/// is refused as conflicting exactly where it would break the rule of
/// exclusivity; in every state the outstanding borrows of the binding
/// keep the rule.
pub proof fn lemma_conflict_exactly_when_rule_would_break(
    state: CheckerView,
    id: usize,
    kind: Mutability,
    region: usize,
)
    requires
        state.well_formed(),
        id < state.table.bindings.len(),
        state.in_scope(id) is Ok,
        state.table.read(id) is Ok,
        is_open_in(state.regions, region),
    ensures
        crate::borrow::exclusive_or_shared(active_borrows(state.borrows, id)),
        state.may_borrow(id, kind, region) is Ok <==> crate::borrow::exclusive_or_shared(
            active_borrows(state.borrows, id).insert(kind),
        ),
        state.may_borrow(id, kind, region) is Err ==> state.may_borrow(id, kind, region) == Err::<
            (),
            AnalysisError,
        >(AnalysisError::ConflictingBorrow { binding: id, region }),
{
    crate::borrow::lemma_exclusivity_holds(state.borrows, state.table, id);
    crate::borrow::lemma_conflict_iff_rule_would_break(active_borrows(state.borrows, id), kind);
}

/// While a borrow is outstanding, every region around the region it
/// belongs to is open, and was opened no later: the time for which the
/// borrow is outstanding lies inside the extent of each of them.
pub proof fn lemma_borrow_inside_containing_regions(state: CheckerView, outer: int, k: int)
    requires
        state.well_formed(),
        0 <= k < state.borrows.len(),
        state.borrows[k].active,
        is_ancestor(state.regions, outer, state.borrows[k].region as int),
    ensures
        0 <= outer <= state.borrows[k].region,
        state.regions[outer].open,
{
    lemma_ancestor_not_later(state.regions, outer, state.borrows[k].region as int);
    lemma_open_inside_open(state.regions, outer, state.borrows[k].region as int);
}

} // verus!
