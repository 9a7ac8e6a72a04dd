//! The transitions of the state of a fragment keep its invariant.
//!
//! Whatever an operation does to regions, bindings and borrows, the state
//! after it is well-formed if the state before it was and the operation
//! was not refused. So the rule of exclusivity holds at every point of
//! every run.

use vstd::prelude::*;
use crate::binding::{lemma_push_keeps_first_moved, BindingState, DeclaredType};
use crate::borrow::{
    active_borrows,
    expired,
    lemma_count_bounded,
    lemma_end_record,
    lemma_push_record,
    lemma_unused_binding,
    may_borrow,
    Borrow,
};
use crate::checker::CheckerView;
use crate::lifetime::Mutability;
use crate::region::{
    is_open_in,
    lemma_close_keeps_well_formed,
    lemma_no_open_descendant_no_open_child,
    lemma_push_keeps_well_formed,
    may_close,
};

verus! {

/// The state in which nothing has happened is well-formed.
pub proof fn lemma_empty_well_formed(s: CheckerView)
    requires
        s.regions.len() == 0,
        s.table.bindings.len() == 0,
        s.table.moved.len() == 0,
        s.borrows.len() == 0,
    ensures
        s.well_formed(),
{
}

/// Opening a region inside an open region, or a new root, keeps the
/// invariant.
pub proof fn lemma_open_keeps_well_formed(s: CheckerView, parent: Option<usize>)
    requires
        s.well_formed(),
        parent matches Some(p) ==> is_open_in(s.regions, p),
        s.regions.len() < usize::MAX,
    ensures
        s.after_open(parent).well_formed(),
{
    let next = s.after_open(parent);
    lemma_push_keeps_well_formed(s.regions, parent);
    assert forall|k: int|
        0 <= k < next.borrows.len() && (#[trigger] next.borrows[k]).active implies next.borrows[k].region
        < next.regions.len() && next.regions[next.borrows[k].region as int].open by {
        assert(s.regions[s.borrows[k].region as int].open);
    }
    assert forall|i: int| 0 <= i < next.table.bindings.len() implies (
    #[trigger] next.table.bindings[i]).region < next.regions.len() by {
        assert(s.table.bindings[i].region < s.regions.len());
    }
}

/// Ending the borrows of a region leaves every binding with no more
/// borrows of any kind than it had.
pub proof fn lemma_expired_counts(
    records: Seq<Borrow>,
    region: usize,
    binding: usize,
    kind: Mutability,
)
    ensures
        active_borrows(expired(records, region), binding).count(kind) <= active_borrows(
            records,
            binding,
        ).count(kind),
    decreases records.len(),
{
    broadcast use vstd::multiset::group_multiset_axioms;

    if records.len() > 0 {
        lemma_expired_counts(records.drop_last(), region, binding, kind);
        assert(expired(records, region).drop_last() =~= expired(records.drop_last(), region));
    }
}

/// Closing a region that may be closed keeps the invariant.
pub proof fn lemma_close_keeps_well_formed_state(s: CheckerView, region: usize)
    requires
        s.well_formed(),
        may_close(s.regions, region),
        s.table.bindings.len() <= usize::MAX,
    ensures
        s.after_close(region).well_formed(),
{
    let next = s.after_close(region);
    lemma_no_open_descendant_no_open_child(s.regions, region as int);
    lemma_close_keeps_well_formed(s.regions, region as int);
    assert forall|i: int| 0 <= i < next.table.bindings.len() implies {
        let old_slot = s.table.bindings[i];
        let slot = #[trigger] next.table.bindings[i];
        &&& slot.shared <= old_slot.shared
        &&& slot.exclusive <= old_slot.exclusive
        &&& slot.shared == active_borrows(next.borrows, i as usize).count(Mutability::Shared)
        &&& slot.exclusive == active_borrows(next.borrows, i as usize).count(
            Mutability::Exclusive,
        )
        &&& slot.state == old_slot.state
        &&& slot.region == old_slot.region
    } by {
        let b = i as usize;
        lemma_expired_counts(s.borrows, region, b, Mutability::Shared);
        lemma_expired_counts(s.borrows, region, b, Mutability::Exclusive);
        assert(s.table.bindings[b as int].outstanding(Mutability::Shared) == active_borrows(
            s.borrows,
            b,
        ).count(Mutability::Shared));
        assert(s.table.bindings[b as int].outstanding(Mutability::Exclusive) == active_borrows(
            s.borrows,
            b,
        ).count(Mutability::Exclusive));
    }
    assert forall|i: int| 0 <= i < next.table.bindings.len() implies {
        &&& (#[trigger] next.table.bindings[i]).exclusivity()
        &&& next.table.bindings[i].state != BindingState::Live
            ==> !next.table.bindings[i].borrowed()
        &&& next.table.bindings[i].state == BindingState::PartiallyMoved
            ==> crate::binding::first_moved(next.table.moved, i as usize) is Some
    } by {
        assert(s.table.bindings[i].exclusivity());
    }
    assert forall|k: int| 0 <= k < next.table.moved.len() implies (#[trigger] next.table.moved[k]).0
        < next.table.bindings.len() && next.table.bindings[next.table.moved[k].0 as int].state
        != BindingState::Live by {
        assert(s.table.moved[k].0 < s.table.bindings.len());
    }
    assert forall|b: usize, kind: Mutability|
        b < next.table.bindings.len() implies next.table.bindings[b as int].outstanding(kind)
        == #[trigger] active_borrows(next.borrows, b).count(kind) by {
        assert(next.table.bindings[b as int].shared == active_borrows(next.borrows, b).count(
            Mutability::Shared,
        ));
    }
    assert forall|k: int| 0 <= k < next.borrows.len() implies (#[trigger] next.borrows[k]).binding
        < next.table.bindings.len() by {
        assert(s.borrows[k].binding < s.table.bindings.len());
    }
    assert forall|k: int|
        0 <= k < next.borrows.len() && (#[trigger] next.borrows[k]).active implies next.borrows[k].region
        < next.regions.len() && next.regions[next.borrows[k].region as int].open by {
        assert(s.borrows[k].active);
        assert(s.regions[s.borrows[k].region as int].open);
    }
    assert forall|i: int| 0 <= i < next.table.bindings.len() implies (
    #[trigger] next.table.bindings[i]).region < next.regions.len() by {
        assert(s.table.bindings[i].region < s.regions.len());
    }
}

/// Declaring a binding in an open region keeps the invariant.
pub proof fn lemma_declare_keeps_well_formed(
    s: CheckerView,
    name: u64,
    region: usize,
    ty: DeclaredType,
)
    requires
        s.well_formed(),
        is_open_in(s.regions, region),
        s.table.bindings.len() < usize::MAX,
    ensures
        s.after_declare(name, region, ty).well_formed(),
{
    broadcast use vstd::multiset::group_multiset_axioms;

    let next = s.after_declare(name, region, ty);
    let fresh = s.table.bindings.len() as usize;
    lemma_unused_binding(s.borrows, fresh);
    assert forall|i: int| 0 <= i < next.table.bindings.len() implies {
        &&& (#[trigger] next.table.bindings[i]).exclusivity()
        &&& next.table.bindings[i].state != BindingState::Live
            ==> !next.table.bindings[i].borrowed()
        &&& next.table.bindings[i].state == BindingState::PartiallyMoved
            ==> crate::binding::first_moved(next.table.moved, i as usize) is Some
        &&& next.table.bindings[i].region < next.regions.len()
    } by {
        if i < fresh {
            assert(next.table.bindings[i] == s.table.bindings[i]);
        }
    }
    assert forall|k: int| 0 <= k < next.table.moved.len() implies (#[trigger] next.table.moved[k]).0
        < next.table.bindings.len() && next.table.bindings[next.table.moved[k].0 as int].state
        != BindingState::Live by {
        assert(s.table.moved[k].0 < s.table.bindings.len());
    }
    assert forall|b: usize, kind: Mutability|
        b < next.table.bindings.len() implies next.table.bindings[b as int].outstanding(kind)
        == #[trigger] active_borrows(next.borrows, b).count(kind) by {
        if b < fresh {
            assert(next.table.bindings[b as int] == s.table.bindings[b as int]);
        }
    }
}

/// A change of one binding that keeps its region and the counts of its
/// borrows, and leaves a table that is well-formed, keeps the invariant.
proof fn lemma_slot_change_keeps_well_formed(s: CheckerView, next: CheckerView, id: usize)
    requires
        s.well_formed(),
        next.table.well_formed(),
        id < s.table.bindings.len(),
        next.regions == s.regions,
        next.borrows == s.borrows,
        next.table.bindings == s.table.bindings.update(id as int, next.table.bindings[id as int]),
        next.table.bindings[id as int].region == s.table.bindings[id as int].region,
        next.table.bindings[id as int].shared == s.table.bindings[id as int].shared,
        next.table.bindings[id as int].exclusive == s.table.bindings[id as int].exclusive,
    ensures
        next.well_formed(),
{
    assert forall|b: usize, kind: Mutability|
        b < next.table.bindings.len() implies next.table.bindings[b as int].outstanding(kind)
        == #[trigger] active_borrows(next.borrows, b).count(kind) by {
        assert(s.table.bindings[b as int].outstanding(kind) == active_borrows(s.borrows, b).count(
            kind,
        ));
    }
    assert forall|i: int| 0 <= i < next.table.bindings.len() implies (
    #[trigger] next.table.bindings[i]).region < next.regions.len() by {
        assert(s.table.bindings[i].region < s.regions.len());
    }
}

/// Moving out a value that may be moved keeps the invariant.
pub proof fn lemma_move_keeps_well_formed(s: CheckerView, id: usize)
    requires
        s.well_formed(),
        id < s.table.bindings.len(),
        s.table.may_move(id) is Ok,
    ensures
        s.after_move(id).well_formed(),
{
    let next = s.after_move(id);
    assert forall|i: int| 0 <= i < next.table.bindings.len() implies {
        &&& (#[trigger] next.table.bindings[i]).exclusivity()
        &&& next.table.bindings[i].state != BindingState::Live
            ==> !next.table.bindings[i].borrowed()
        &&& next.table.bindings[i].state == BindingState::PartiallyMoved
            ==> crate::binding::first_moved(next.table.moved, i as usize) is Some
    } by {
        assert(s.table.bindings[i].exclusivity());
    }
    assert forall|k: int| 0 <= k < next.table.moved.len() implies (#[trigger] next.table.moved[k]).0
        < next.table.bindings.len() && next.table.bindings[next.table.moved[k].0 as int].state
        != BindingState::Live by {
        assert(s.table.moved[k].0 < s.table.bindings.len());
    }
    lemma_slot_change_keeps_well_formed(s, next, id);
}

/// Moving out a field that may be moved keeps the invariant.
pub proof fn lemma_move_field_keeps_well_formed(s: CheckerView, id: usize, field: usize)
    requires
        s.well_formed(),
        id < s.table.bindings.len(),
        s.table.may_move_field(id, field) is Ok,
    ensures
        s.after_move_field(id, field).well_formed(),
{
    let next = s.after_move_field(id, field);
    lemma_push_keeps_first_moved(s.table.moved, id, field);
    assert forall|i: int| 0 <= i < next.table.bindings.len() implies {
        &&& (#[trigger] next.table.bindings[i]).exclusivity()
        &&& next.table.bindings[i].state != BindingState::Live
            ==> !next.table.bindings[i].borrowed()
        &&& next.table.bindings[i].state == BindingState::PartiallyMoved
            ==> crate::binding::first_moved(next.table.moved, i as usize) is Some
    } by {
        assert(s.table.bindings[i].exclusivity());
    }
    assert forall|k: int| 0 <= k < next.table.moved.len() implies (#[trigger] next.table.moved[k]).0
        < next.table.bindings.len() && next.table.bindings[next.table.moved[k].0 as int].state
        != BindingState::Live by {
        if k < s.table.moved.len() {
            assert(s.table.moved[k].0 < s.table.bindings.len());
        }
    }
    lemma_slot_change_keeps_well_formed(s, next, id);
}

/// Issuing a borrow that is not refused keeps the invariant, and with it
/// the rule of exclusivity.
pub proof fn lemma_borrow_keeps_well_formed(
    s: CheckerView,
    id: usize,
    kind: Mutability,
    region: usize,
)
    requires
        s.well_formed(),
        id < s.table.bindings.len(),
        may_borrow(s.table, s.regions, id, kind, region) is Ok,
        s.borrows.len() < usize::MAX,
    ensures
        s.after_borrow(id, kind, region).well_formed(),
{
    broadcast use vstd::multiset::group_multiset_axioms;

    let next = s.after_borrow(id, kind, region);
    let slot = s.table.bindings[id as int];
    lemma_push_record(s.borrows, Borrow::issued(id, kind, region));
    lemma_count_bounded(s.borrows, id, Mutability::Shared);
    lemma_count_bounded(s.borrows, id, Mutability::Exclusive);
    assert(slot.outstanding(Mutability::Shared) == active_borrows(s.borrows, id).count(
        Mutability::Shared,
    ));
    assert(slot.outstanding(Mutability::Exclusive) == active_borrows(s.borrows, id).count(
        Mutability::Exclusive,
    ));
    assert(slot.exclusivity());
    assert forall|i: int| 0 <= i < next.table.bindings.len() implies {
        &&& (#[trigger] next.table.bindings[i]).exclusivity()
        &&& next.table.bindings[i].state != BindingState::Live
            ==> !next.table.bindings[i].borrowed()
        &&& next.table.bindings[i].state == BindingState::PartiallyMoved
            ==> crate::binding::first_moved(next.table.moved, i as usize) is Some
        &&& next.table.bindings[i].region < next.regions.len()
    } by {
        assert(s.table.bindings[i].exclusivity());
        assert(s.table.bindings[i].region < s.regions.len());
    }
    assert forall|k: int| 0 <= k < next.table.moved.len() implies (#[trigger] next.table.moved[k]).0
        < next.table.bindings.len() && next.table.bindings[next.table.moved[k].0 as int].state
        != BindingState::Live by {
        assert(s.table.moved[k].0 < s.table.bindings.len());
    }
    assert forall|b: usize, k: Mutability|
        b < next.table.bindings.len() implies next.table.bindings[b as int].outstanding(k)
        == #[trigger] active_borrows(next.borrows, b).count(k) by {
        assert(s.table.bindings[b as int].outstanding(k) == active_borrows(s.borrows, b).count(k));
    }
    assert forall|k: int| 0 <= k < next.borrows.len() implies (#[trigger] next.borrows[k]).binding
        < next.table.bindings.len() by {
        if k < s.borrows.len() {
            assert(s.borrows[k].binding < s.table.bindings.len());
        }
    }
    assert forall|k: int|
        0 <= k < next.borrows.len() && (#[trigger] next.borrows[k]).active implies next.borrows[k].region
        < next.regions.len() && next.regions[next.borrows[k].region as int].open by {
        if k < s.borrows.len() {
            assert(s.borrows[k].active);
        }
    }
}

/// The end of an outstanding borrow keeps the invariant.
pub proof fn lemma_release_keeps_well_formed(s: CheckerView, k: usize)
    requires
        s.well_formed(),
        k < s.borrows.len(),
        s.borrows[k as int].active,
    ensures
        s.after_release(k).well_formed(),
{
    broadcast use vstd::multiset::group_multiset_axioms;

    let next = s.after_release(k);
    let record = s.borrows[k as int];
    lemma_end_record(s.borrows, k as int);
    assert(record.binding < s.table.bindings.len());
    let slot = s.table.bindings[record.binding as int];
    assert(slot.outstanding(record.kind) == active_borrows(s.borrows, record.binding).count(
        record.kind,
    ));
    assert(slot.exclusivity());
    assert forall|i: int| 0 <= i < next.table.bindings.len() implies {
        &&& (#[trigger] next.table.bindings[i]).exclusivity()
        &&& next.table.bindings[i].state != BindingState::Live
            ==> !next.table.bindings[i].borrowed()
        &&& next.table.bindings[i].state == BindingState::PartiallyMoved
            ==> crate::binding::first_moved(next.table.moved, i as usize) is Some
        &&& next.table.bindings[i].region < next.regions.len()
    } by {
        assert(s.table.bindings[i].exclusivity());
        assert(s.table.bindings[i].region < s.regions.len());
    }
    assert forall|j: int| 0 <= j < next.table.moved.len() implies (#[trigger] next.table.moved[j]).0
        < next.table.bindings.len() && next.table.bindings[next.table.moved[j].0 as int].state
        != BindingState::Live by {
        assert(s.table.moved[j].0 < s.table.bindings.len());
    }
    assert forall|b: usize, kind: Mutability|
        b < next.table.bindings.len() implies next.table.bindings[b as int].outstanding(kind)
        == #[trigger] active_borrows(next.borrows, b).count(kind) by {
        assert(s.table.bindings[b as int].outstanding(kind) == active_borrows(s.borrows, b).count(
            kind,
        ));
    }
    assert forall|j: int| 0 <= j < next.borrows.len() implies (#[trigger] next.borrows[j]).binding
        < next.table.bindings.len() by {
        assert(s.borrows[j].binding < s.table.bindings.len());
    }
    assert forall|j: int|
        0 <= j < next.borrows.len() && (#[trigger] next.borrows[j]).active implies next.borrows[j].region
        < next.regions.len() && next.regions[next.borrows[j].region as int].open by {
        assert(s.borrows[j].active);
    }
}

} // verus!
