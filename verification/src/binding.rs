//! The binding table: value slots, the region each was declared in, and
//! what has been moved out of them.

use vstd::prelude::*;
use crate::diagnostic::AnalysisError;
use crate::lifetime::{Lifetime, Mutability};
use crate::region::{RegionId, RegionTree};

verus! {

/// A binding is named by its position in the order of declaration.
pub type BindingId = usize;

/// The interned name of a value slot.
pub type Symbol = u64;

/// The type a binding was declared with.
#[derive(Clone, Copy, Debug, PartialEq, Eq, Structural)]
pub enum DeclaredType {
    Owned,
    Reference { lifetime: Lifetime, mutability: Mutability },
}

/// What is left of the value of a binding.
#[derive(Clone, Copy, Debug, PartialEq, Eq, Structural)]
pub enum BindingState {
    Live,
    Moved,
    PartiallyMoved,
}

/// One value slot.
#[derive(Clone, Copy, Debug, PartialEq, Eq, Structural)]
pub struct Binding {
    pub name: u64,
    /// The region the binding was declared in.
    pub region: usize,
    pub ty: DeclaredType,
    pub state: BindingState,
    /// The number of outstanding shared borrows of the binding.
    pub shared: usize,
    /// The number of outstanding exclusive borrows of the binding.
    pub exclusive: usize,
}

impl Binding {
    /// The binding as `declare` makes it.
    pub open spec fn fresh(name: u64, region: usize, ty: DeclaredType) -> Binding {
        Binding { name, region, ty, state: BindingState::Live, shared: 0, exclusive: 0 }
    }

    /// A borrow of the binding is outstanding.
    pub open spec fn borrowed(self) -> bool {
        self.shared > 0 || self.exclusive > 0
    }

    /// The number of outstanding borrows of one kind.
    pub open spec fn outstanding(self, kind: Mutability) -> nat {
        match kind {
            Mutability::Shared => self.shared as nat,
            Mutability::Exclusive => self.exclusive as nat,
        }
    }

    /// Either only shared borrows are outstanding, or a single exclusive
    /// one and nothing else.
    pub open spec fn exclusivity(self) -> bool {
        self.exclusive == 0 || (self.exclusive == 1 && self.shared == 0)
    }

    /// A borrow of `kind` cannot be added to those outstanding.
    pub open spec fn conflicts_with(self, kind: Mutability) -> bool {
        match kind {
            Mutability::Shared => self.exclusive > 0,
            Mutability::Exclusive => self.shared > 0 || self.exclusive > 0,
        }
    }

    /// The binding with one more outstanding borrow of `kind`.
    pub open spec fn with_borrow(self, kind: Mutability) -> Binding {
        match kind {
            Mutability::Shared => Binding { shared: (self.shared + 1) as usize, ..self },
            Mutability::Exclusive => Binding { exclusive: (self.exclusive + 1) as usize, ..self },
        }
    }

    /// The binding with one outstanding borrow of `kind` less.
    pub open spec fn without_borrow(self, kind: Mutability) -> Binding {
        match kind {
            Mutability::Shared => Binding { shared: (self.shared - 1) as usize, ..self },
            Mutability::Exclusive => Binding { exclusive: (self.exclusive - 1) as usize, ..self },
        }
    }

    /// The binding with what is left of its value changed.
    pub open spec fn with_state(self, state: BindingState) -> Binding {
        Binding { state, ..self }
    }
}

/// The table as contracts see it.
pub struct BindingTableView {
    pub bindings: Seq<Binding>,
    /// The fields moved out so far, each with its binding, oldest first.
    pub moved: Seq<(usize, usize)>,
}

/// The field of the first entry at or after `from` that belongs to `binding`.
pub open spec fn first_moved_from(moved: Seq<(usize, usize)>, binding: usize, from: int) -> Option<
    usize,
>
    decreases moved.len() - from,
{
    if from < 0 || from >= moved.len() {
        None
    } else if moved[from].0 == binding {
        Some(moved[from].1)
    } else {
        first_moved_from(moved, binding, from + 1)
    }
}

/// The field that was moved out of `binding` first.
pub open spec fn first_moved(moved: Seq<(usize, usize)>, binding: usize) -> Option<usize> {
    first_moved_from(moved, binding, 0)
}

impl BindingTableView {
    /// The invariant of the table: the borrows of every binding keep the
    /// rule of exclusivity, only a whole value is borrowed, and the fields
    /// listed as moved belong to bindings that are no longer whole.
    pub open spec fn well_formed(self) -> bool {
        &&& forall|i: int|
            0 <= i < self.bindings.len() ==> {
                &&& (#[trigger] self.bindings[i]).exclusivity()
                &&& self.bindings[i].state != BindingState::Live ==> !self.bindings[i].borrowed()
                &&& self.bindings[i].state == BindingState::PartiallyMoved ==> first_moved(
                    self.moved,
                    i as usize,
                ) is Some
            }
        &&& forall|k: int|
            0 <= k < self.moved.len() ==> (#[trigger] self.moved[k]).0 < self.bindings.len()
                && self.bindings[self.moved[k].0 as int].state != BindingState::Live
    }

    /// What reading the whole value of `id` gives.
    pub open spec fn read(self, id: usize) -> Result<(), AnalysisError> {
        match self.bindings[id as int].state {
            BindingState::Live => Ok(()),
            BindingState::Moved => Err(AnalysisError::UseAfterMove { binding: id }),
            BindingState::PartiallyMoved => Err(
                AnalysisError::UseOfPartiallyMoved {
                    binding: id,
                    field: first_moved(self.moved, id)->0,
                },
            ),
        }
    }

    /// What reading one field of `id` gives.
    pub open spec fn read_field(self, id: usize, field: usize) -> Result<(), AnalysisError> {
        if self.bindings[id as int].state == BindingState::Moved {
            Err(AnalysisError::UseAfterMove { binding: id })
        } else if self.moved.contains((id, field)) {
            Err(AnalysisError::UseOfPartiallyMoved { binding: id, field })
        } else {
            Ok(())
        }
    }

    /// Whether the whole value of `id` may be moved out, and why not.
    pub open spec fn may_move(self, id: usize) -> Result<(), AnalysisError> {
        if self.read(id) is Err {
            self.read(id)
        } else if self.bindings[id as int].borrowed() {
            Err(AnalysisError::CannotMoveBorrowed { binding: id })
        } else {
            Ok(())
        }
    }

    /// Whether `field` may be moved out of `id`, and why not.
    pub open spec fn may_move_field(self, id: usize, field: usize) -> Result<(), AnalysisError> {
        if self.read_field(id, field) is Err {
            self.read_field(id, field)
        } else if self.bindings[id as int].borrowed() {
            Err(AnalysisError::CannotMoveBorrowed { binding: id })
        } else {
            Ok(())
        }
    }
}

/// The value slots of one fragment.
pub struct BindingTable {
    entries: Vec<Binding>,
    moved: Vec<(usize, usize)>,
}

impl View for BindingTable {
    type V = BindingTableView;

    closed spec fn view(&self) -> BindingTableView {
        BindingTableView { bindings: self.entries@, moved: self.moved@ }
    }
}

impl BindingTable {
    /// The table keeps its invariant.
    pub open spec fn wf(&self) -> bool {
        self@.well_formed()
    }

    /// A table without bindings.
    pub fn new() -> (table: Self)
        ensures
            table.wf(),
            table@.bindings == Seq::<Binding>::empty(),
            table@.moved == Seq::<(usize, usize)>::empty(),
    {
        BindingTable { entries: Vec::new(), moved: Vec::new() }
    }

    /// The number of bindings declared so far.
    pub fn len(&self) -> (n: usize)
        ensures
            n == self@.bindings.len(),
    {
        self.entries.len()
    }

    /// The binding of that name, if there is one.
    pub fn get(&self, id: BindingId) -> (r: Option<Binding>)
        ensures
            r == if id < self@.bindings.len() { Some(self@.bindings[id as int]) } else { None },
    {
        if id < self.entries.len() {
            Some(self.entries[id])
        } else {
            None
        }
    }

    /// The binding of a name that was declared.
    pub fn binding(&self, id: BindingId) -> (r: Binding)
        requires
            id < self@.bindings.len(),
        ensures
            r == self@.bindings[id as int],
    {
        self.entries[id]
    }

    /// Declares a binding in an open region and returns its name. A region
    /// that is unknown or closed is refused.
    pub fn declare(
        &mut self,
        regions: &RegionTree,
        name: Symbol,
        region: RegionId,
        ty: DeclaredType,
    ) -> (r: Result<BindingId, AnalysisError>)
        requires
            old(self).wf(),
        ensures
            final(self).wf(),
            r is Ok <==> regions.spec_is_open(region),
            r matches Ok(id) ==> id == old(self)@.bindings.len() && final(self)@.bindings == old(
                self,
            )@.bindings.push(Binding::fresh(name, region, ty)),
            r matches Err(e) ==> final(self)@.bindings == old(self)@.bindings && e == (
            AnalysisError::RegionContractViolation { region }),
            final(self)@.moved == old(self)@.moved,
    {
        if !regions.is_open(region) {
            return Err(AnalysisError::RegionContractViolation { region });
        }
        let id: usize = self.entries.len();
        self.entries.push(
            Binding { name, region, ty, state: BindingState::Live, shared: 0, exclusive: 0 },
        );
        Ok(id)
    }

    /// The field that was moved out of `id` first, if any was.
    fn first_moved_field(&self, id: BindingId) -> (r: Option<usize>)
        ensures
            r == first_moved(self@.moved, id),
    {
        let n: usize = self.moved.len();
        let mut k: usize = 0;
        while k < n
            invariant
                n == self.moved@.len(),
                k <= n,
                first_moved(self@.moved, id) == first_moved_from(self@.moved, id, k as int),
            decreases n - k,
        {
            if self.moved[k].0 == id {
                return Some(self.moved[k].1);
            }
            k = k + 1;
        }
        None
    }

    /// Whether `field` was moved out of `id`.
    fn field_is_moved(&self, id: BindingId, field: usize) -> (r: bool)
        ensures
            r == self@.moved.contains((id, field)),
    {
        let n: usize = self.moved.len();
        let mut k: usize = 0;
        while k < n
            invariant
                n == self.moved@.len(),
                k <= n,
                forall|j: int| 0 <= j < k ==> self.moved@[j] != (id, field),
            decreases n - k,
        {
            if self.moved[k].0 == id && self.moved[k].1 == field {
                assert(self.moved@[k as int] == (id, field));
                return true;
            }
            k = k + 1;
        }
        false
    }

    /// Reads the whole value of a binding. A moved value cannot be read,
    /// nor one that a field was moved out of.
    pub fn read(&self, id: BindingId) -> (r: Result<(), AnalysisError>)
        requires
            self.wf(),
            id < self@.bindings.len(),
        ensures
            r == self@.read(id),
    {
        match self.entries[id].state {
            BindingState::Live => Ok(()),
            BindingState::Moved => Err(AnalysisError::UseAfterMove { binding: id }),
            BindingState::PartiallyMoved => {
                // a partially moved binding has a moved field
                match self.first_moved_field(id) {
                    Some(field) => Err(AnalysisError::UseOfPartiallyMoved { binding: id, field }),
                    None => Err(AnalysisError::UseAfterMove { binding: id }),
                }
            },
        }
    }

    /// Reads one field of a binding. The fields that were not moved out of
    /// a partially moved binding stay readable.
    pub fn read_field(&self, id: BindingId, field: usize) -> (r: Result<(), AnalysisError>)
        requires
            self.wf(),
            id < self@.bindings.len(),
        ensures
            r == self@.read_field(id, field),
    {
        if self.entries[id].state == BindingState::Moved {
            Err(AnalysisError::UseAfterMove { binding: id })
        } else if self.field_is_moved(id, field) {
            Err(AnalysisError::UseOfPartiallyMoved { binding: id, field })
        } else {
            Ok(())
        }
    }

    /// Moves the whole value out of a binding. The value must be whole and
    /// no borrow of it outstanding.
    pub fn move_out(&mut self, id: BindingId) -> (r: Result<(), AnalysisError>)
        requires
            old(self).wf(),
            id < old(self)@.bindings.len(),
        ensures
            final(self).wf(),
            r == old(self)@.may_move(id),
            r is Ok ==> final(self)@.bindings == old(self)@.bindings.update(
                id as int,
                old(self)@.bindings[id as int].with_state(BindingState::Moved),
            ),
            r is Err ==> final(self)@.bindings == old(self)@.bindings,
            final(self)@.moved == old(self)@.moved,
    {
        let whole = self.read(id);
        if whole.is_err() {
            return whole;
        }
        let b = self.entries[id];
        if b.shared > 0 || b.exclusive > 0 {
            return Err(AnalysisError::CannotMoveBorrowed { binding: id });
        }
        self.entries[id] = Binding {
            name: b.name,
            region: b.region,
            ty: b.ty,
            state: BindingState::Moved,
            shared: b.shared,
            exclusive: b.exclusive,
        };
        Ok(())
    }

    /// Moves one field out of a binding, which leaves the binding
    /// partially moved: unreadable as a whole, its other fields readable.
    pub fn partial_move(&mut self, id: BindingId, field: usize) -> (r: Result<(), AnalysisError>)
        requires
            old(self).wf(),
            id < old(self)@.bindings.len(),
        ensures
            final(self).wf(),
            r == old(self)@.may_move_field(id, field),
            r is Ok ==> final(self)@.bindings == old(self)@.bindings.update(
                id as int,
                old(self)@.bindings[id as int].with_state(BindingState::PartiallyMoved),
            ) && final(self)@.moved == old(self)@.moved.push((id, field)),
            r is Err ==> final(self)@ == old(self)@,
    {
        let part = self.read_field(id, field);
        if part.is_err() {
            return part;
        }
        let b = self.entries[id];
        if b.shared > 0 || b.exclusive > 0 {
            return Err(AnalysisError::CannotMoveBorrowed { binding: id });
        }
        proof {
            lemma_push_keeps_first_moved(self@.moved, id, field);
        }
        self.entries[id] = Binding {
            name: b.name,
            region: b.region,
            ty: b.ty,
            state: BindingState::PartiallyMoved,
            shared: b.shared,
            exclusive: b.exclusive,
        };
        self.moved.push((id, field));
        Ok(())
    }

    /// Records one more outstanding borrow of `kind` on a live binding.
    pub(crate) fn note_borrow(&mut self, id: BindingId, kind: Mutability)
        requires
            old(self).wf(),
            id < old(self)@.bindings.len(),
            old(self)@.bindings[id as int].state == BindingState::Live,
            !old(self)@.bindings[id as int].conflicts_with(kind),
            old(self)@.bindings[id as int].shared < usize::MAX,
        ensures
            final(self).wf(),
            final(self)@.bindings == old(self)@.bindings.update(
                id as int,
                old(self)@.bindings[id as int].with_borrow(kind),
            ),
            final(self)@.moved == old(self)@.moved,
    {
        let b = self.entries[id];
        match kind {
            Mutability::Shared => {
                self.entries[id] = Binding {
                    name: b.name,
                    region: b.region,
                    ty: b.ty,
                    state: b.state,
                    shared: b.shared + 1,
                    exclusive: b.exclusive,
                };
            },
            Mutability::Exclusive => {
                self.entries[id] = Binding {
                    name: b.name,
                    region: b.region,
                    ty: b.ty,
                    state: b.state,
                    shared: b.shared,
                    exclusive: b.exclusive + 1,
                };
            },
        }
    }

    /// Records that one outstanding borrow of `kind` has ended.
    pub(crate) fn note_release(&mut self, id: BindingId, kind: Mutability)
        requires
            old(self).wf(),
            id < old(self)@.bindings.len(),
            old(self)@.bindings[id as int].outstanding(kind) > 0,
        ensures
            final(self).wf(),
            final(self)@.bindings == old(self)@.bindings.update(
                id as int,
                old(self)@.bindings[id as int].without_borrow(kind),
            ),
            final(self)@.moved == old(self)@.moved,
    {
        let b = self.entries[id];
        match kind {
            Mutability::Shared => {
                self.entries[id] = Binding {
                    name: b.name,
                    region: b.region,
                    ty: b.ty,
                    state: b.state,
                    shared: b.shared - 1,
                    exclusive: b.exclusive,
                };
            },
            Mutability::Exclusive => {
                self.entries[id] = Binding {
                    name: b.name,
                    region: b.region,
                    ty: b.ty,
                    state: b.state,
                    shared: b.shared,
                    exclusive: b.exclusive - 1,
                };
            },
        }
    }
}

/// An entry added at the end keeps the first moved field of every binding
/// that had one, and gives one to the binding it belongs to.
pub(crate) proof fn lemma_push_keeps_first_moved(moved: Seq<(usize, usize)>, id: usize, field: usize)
    ensures
        first_moved(moved.push((id, field)), id) is Some,
        forall|b: usize| first_moved(moved, b) is Some ==> first_moved(moved.push((id, field)), b)
            == first_moved(moved, b),
{
    lemma_push_first_moved_from(moved, id, field, id, 0);
    assert forall|b: usize| first_moved(moved, b) is Some implies first_moved(
        moved.push((id, field)),
        b,
    ) == first_moved(moved, b) by {
        lemma_push_first_moved_from(moved, id, field, b, 0);
    }
}

proof fn lemma_push_first_moved_from(
    moved: Seq<(usize, usize)>,
    id: usize,
    field: usize,
    b: usize,
    from: int,
)
    requires
        0 <= from <= moved.len(),
    ensures
        first_moved_from(moved, b, from) is Some ==> first_moved_from(
            moved.push((id, field)),
            b,
            from,
        ) == first_moved_from(moved, b, from),
        b == id ==> first_moved_from(moved.push((id, field)), b, from) is Some,
    decreases moved.len() - from,
{
    let after = moved.push((id, field));
    if from < moved.len() {
        assert(after[from] == moved[from]);
        if moved[from].0 != b {
            lemma_push_first_moved_from(moved, id, field, b, from + 1);
        }
    } else {
        assert(after[from] == (id, field));
    }
}

} // verus!
