//! What holds of every run of a block: the state between any two steps is
//! well-formed, so the borrows of every binding keep the rule of
//! exclusivity; and the report of a block that is accepted shows every
//! borrow inside the regions around it.

use vstd::prelude::*;
use crate::block::{
    after_use,
    borrows_inside_regions,
    consistent,
    framed,
    grounded,
    initial,
    issued,
    lemma_close_timed,
    lemma_finish_settled,
    lemma_framed,
    lemma_initial_timed,
    lemma_issue_timed,
    lemma_open_timed,
    lemma_quiet_timed,
    lemma_reference_known,
    lemma_settled_nested,
    lemma_use_timed,
    run,
    scoped,
    settled,
    spec_analyze_block,
    step,
    step_borrow,
    step_use,
    timed,
    BlockState,
};
use crate::borrow::{active_borrows, exclusive_or_shared, lemma_exclusivity_holds, Borrow};
use crate::checker::CheckerView;
use crate::liveness::{borrows_before, lemma_borrows_monotone, touched, untouched_between};
use crate::program::Instr;
use crate::transitions::{
    lemma_borrow_keeps_well_formed,
    lemma_close_keeps_well_formed_state,
    lemma_declare_keeps_well_formed,
    lemma_empty_well_formed,
    lemma_move_field_keeps_well_formed,
    lemma_move_keeps_well_formed,
    lemma_open_keeps_well_formed,
    lemma_release_keeps_well_formed,
};

verus! {

/// The regions, bindings and borrows are well-formed.
#[verifier::opaque]
pub open spec fn sound(c: CheckerView) -> bool {
    c.well_formed()
}

/// A run has made no more regions and bindings than it has run steps,
/// the region of the block aside.
pub open spec fn sized(s: BlockState, now: int) -> bool {
    s.checker.regions.len() <= now + 1 && s.checker.table.bindings.len() <= now
}

/// What holds of the state between two steps of a program that a machine
/// can hold.
pub open spec fn steady(s: BlockState, program: Seq<Instr>, now: int) -> bool {
    &&& 0 <= now <= program.len() < usize::MAX
    &&& sound(s.checker)
    &&& scoped(s)
    &&& timed(s, now)
    &&& framed(s)
    &&& sized(s, now)
    &&& s.checker.borrows.len() == borrows_before(program, now)
}

proof fn lemma_sound_grounded(s: BlockState)
    requires
        sound(s.checker),
    ensures
        grounded(s),
{
    reveal(sound);
}

proof fn lemma_sound_open(c: CheckerView, parent: Option<usize>)
    requires
        sound(c),
        parent matches Some(p) ==> crate::region::is_open_in(c.regions, p),
        c.regions.len() < usize::MAX,
    ensures
        sound(c.after_open(parent)),
{
    reveal(sound);
    lemma_open_keeps_well_formed(c, parent);
}

proof fn lemma_sound_close(c: CheckerView, region: usize)
    requires
        sound(c),
        c.may_close(region) is Ok,
        c.table.bindings.len() <= usize::MAX,
    ensures
        sound(c.after_close(region)),
{
    reveal(sound);
    lemma_close_keeps_well_formed_state(c, region);
}

proof fn lemma_sound_declare(c: CheckerView, name: u64, region: usize, ty: crate::binding::DeclaredType)
    requires
        sound(c),
        crate::region::is_open_in(c.regions, region),
        c.table.bindings.len() < usize::MAX,
    ensures
        sound(c.after_declare(name, region, ty)),
{
    reveal(sound);
    lemma_declare_keeps_well_formed(c, name, region, ty);
}

proof fn lemma_sound_move(c: CheckerView, id: usize)
    requires
        sound(c),
        id < c.table.bindings.len(),
        c.may_move(id) is Ok,
    ensures
        sound(c.after_move(id)),
{
    reveal(sound);
    lemma_move_keeps_well_formed(c, id);
}

proof fn lemma_sound_move_field(c: CheckerView, id: usize, field: usize)
    requires
        sound(c),
        id < c.table.bindings.len(),
        c.may_move_field(id, field) is Ok,
    ensures
        sound(c.after_move_field(id, field)),
{
    reveal(sound);
    lemma_move_field_keeps_well_formed(c, id, field);
}

proof fn lemma_sound_borrow(c: CheckerView, id: usize, kind: crate::lifetime::Mutability, region: usize)
    requires
        sound(c),
        id < c.table.bindings.len(),
        c.may_borrow(id, kind, region) is Ok,
        c.borrows.len() < usize::MAX,
    ensures
        sound(c.after_borrow(id, kind, region)),
        crate::region::is_open_in(c.regions, region),
{
    reveal(sound);
    lemma_borrow_keeps_well_formed(c, id, kind, region);
}

/// The state after a borrow was used is sound.
proof fn lemma_sound_use(s: BlockState, program: Seq<Instr>, at: usize, borrow: usize)
    requires
        sound(s.checker),
        borrow < s.checker.borrows.len(),
        s.checker.borrows[borrow as int].active,
    ensures
        sound(after_use(s, program, at, borrow).checker),
        after_use(s, program, at, borrow).checker.borrows.len() == s.checker.borrows.len(),
        after_use(s, program, at, borrow).checker.regions == s.checker.regions,
        after_use(s, program, at, borrow).checker.table.bindings.len()
            == s.checker.table.bindings.len(),
{
    reveal(sound);
    if untouched_between(program, borrow, at as int, program.len() as int) {
        lemma_release_keeps_well_formed(s.checker, borrow);
    }
}

proof fn lemma_initial_steady(program: Seq<Instr>)
    requires
        program.len() < usize::MAX,
    ensures
        steady(initial(), program, 0),
{
    let nothing = CheckerView {
        regions: Seq::empty(),
        table: crate::binding::BindingTableView { bindings: Seq::empty(), moved: Seq::empty() },
        borrows: Seq::empty(),
    };
    assert(sound(nothing)) by {
        reveal(sound);
        lemma_empty_well_formed(nothing);
    }
    lemma_sound_open(nothing, None);
    lemma_initial_timed();
    lemma_framed(initial(), 0);
}

proof fn lemma_open_steady(s: BlockState, program: Seq<Instr>, at: usize)
    requires
        steady(s, program, at as int),
        at < program.len(),
        program[at as int] is Open,
    ensures
        step(s, program, at) is Ok,
        steady(step(s, program, at)->Ok_0, program, at + 1),
{
    let next = step(s, program, at)->Ok_0;
    lemma_sound_open(s.checker, Some(s.current));
    lemma_sound_grounded(s);
    lemma_open_timed(s, next, at);
    lemma_framed(next, at + 1);
}

proof fn lemma_close_steady(s: BlockState, program: Seq<Instr>, at: usize)
    requires
        steady(s, program, at as int),
        at < program.len(),
        program[at as int] is Close,
        step(s, program, at) is Ok,
    ensures
        steady(step(s, program, at)->Ok_0, program, at + 1),
{
    let next = step(s, program, at)->Ok_0;
    let around = s.checker.regions[s.current as int].parent->0;
    lemma_sound_close(s.checker, s.current);
    lemma_sound_grounded(s);
    lemma_close_timed(s, next, at, around);
    lemma_framed(next, at + 1);
}

proof fn lemma_binding_steady(s: BlockState, program: Seq<Instr>, at: usize)
    requires
        steady(s, program, at as int),
        at < program.len(),
        program[at as int] is Declare || program[at as int] is Read
            || program[at as int] is ReadField || program[at as int] is Move
            || program[at as int] is MoveField,
        step(s, program, at) is Ok,
    ensures
        steady(step(s, program, at)->Ok_0, program, at + 1),
{
    let next = step(s, program, at)->Ok_0;
    match program[at as int] {
        Instr::Declare { name, ty } => {
            lemma_sound_declare(s.checker, name, s.current, ty);
        },
        Instr::Move { binding } => {
            lemma_sound_move(s.checker, binding);
        },
        Instr::MoveField { binding, field } => {
            lemma_sound_move_field(s.checker, binding, field);
        },
        _ => {},
    }
    lemma_quiet_timed(s, next, at);
    lemma_framed(next, at + 1);
}

/// The state in which a borrow was just issued is sound and timed.
proof fn lemma_issued_ready(
    s: BlockState,
    program: Seq<Instr>,
    at: usize,
    binding: usize,
    kind: crate::lifetime::Mutability,
    region: usize,
)
    requires
        steady(s, program, at as int),
        at < program.len(),
        binding < s.checker.table.bindings.len(),
        s.checker.may_borrow(binding, kind, region) is Ok,
    ensures
        sound(issued(s, at, binding, kind, region).checker),
        grounded(issued(s, at, binding, kind, region)),
        scoped(issued(s, at, binding, kind, region)),
        timed(issued(s, at, binding, kind, region), at as int),
        s.checker.borrows.len() <= at,
        issued(s, at, binding, kind, region).checker.borrows.len() == s.checker.borrows.len() + 1,
        issued(s, at, binding, kind, region).checker.borrows[s.checker.borrows.len() as int].active,
{
    let next = issued(s, at, binding, kind, region);
    lemma_borrows_monotone(program, at as int, at as int);
    lemma_sound_borrow(s.checker, binding, kind, region);
    lemma_sound_grounded(s);
    lemma_issue_timed(s, next, at, Borrow::issued(binding, kind, region));
}

proof fn lemma_borrow_steady(
    s: BlockState,
    program: Seq<Instr>,
    at: usize,
    binding: usize,
    kind: crate::lifetime::Mutability,
    region: usize,
)
    requires
        steady(s, program, at as int),
        at < program.len(),
        program[at as int] == (Instr::Borrow { binding, kind, region }),
        step_borrow(s, program, at, binding, kind, region) is Ok,
    ensures
        steady(step_borrow(s, program, at, binding, kind, region)->Ok_0, program, at + 1),
{
    let fresh = s.checker.borrows.len() as usize;
    let before = issued(s, at, binding, kind, region);
    let next = after_use(before, program, at, fresh);
    lemma_issued_ready(s, program, at, binding, kind, region);
    assert(fresh == s.checker.borrows.len());
    assert(sound(next.checker) && next.checker.regions == before.checker.regions
        && next.checker.table.bindings.len() == before.checker.table.bindings.len()
        && next.checker.borrows.len() == before.checker.borrows.len()) by {
        lemma_sound_use(before, program, at, fresh);
    }
    assert(scoped(next) && timed(next, at + 1)) by {
        lemma_use_timed(before, program, at, fresh);
    }
    assert(framed(next)) by {
        lemma_framed(next, at + 1);
    }
    assert(before.checker.regions == s.checker.regions);
    assert(before.checker.table.bindings.len() == s.checker.table.bindings.len());
    assert(borrows_before(program, at + 1) == borrows_before(program, at as int) + 1);
}

proof fn lemma_use_steady(s: BlockState, program: Seq<Instr>, at: usize)
    requires
        steady(s, program, at as int),
        at < program.len(),
        program[at as int] is Reborrow || program[at as int] is Use,
        step_use(s, program, at) is Ok,
    ensures
        steady(step_use(s, program, at)->Ok_0, program, at + 1),
{
    let next = step_use(s, program, at)->Ok_0;
    let through = match program[at as int] {
        Instr::Reborrow { through } => through,
        Instr::Use { reference } => reference,
        _ => 0,
    };
    lemma_reference_known(program, at as int, through);
    let b = touched(program, at as int)->0;
    lemma_sound_grounded(s);
    lemma_sound_use(s, program, at, b);
    lemma_use_timed(s, program, at, b);
    lemma_framed(next, at + 1);
}

/// A step that is not refused leaves a state as steady as it found.
proof fn lemma_step_steady(s: BlockState, program: Seq<Instr>, at: usize)
    requires
        steady(s, program, at as int),
        at < program.len(),
        step(s, program, at) is Ok,
    ensures
        steady(step(s, program, at)->Ok_0, program, at + 1),
{
    match program[at as int] {
        Instr::Open => {
            lemma_open_steady(s, program, at);
        },
        Instr::Close => {
            lemma_close_steady(s, program, at);
        },
        Instr::Borrow { binding, kind, region } => {
            lemma_borrow_steady(s, program, at, binding, kind, region);
        },
        Instr::Reborrow { .. } | Instr::Use { .. } => {
            lemma_use_steady(s, program, at);
        },
        _ => {
            lemma_binding_steady(s, program, at);
        },
    }
}

proof fn lemma_run_steady(program: Seq<Instr>, upto: nat)
    requires
        upto <= program.len() < usize::MAX,
        run(program, upto) is Ok,
    ensures
        steady(run(program, upto)->Ok_0, program, upto as int),
    decreases upto,
{
    if upto == 0 {
        lemma_initial_steady(program);
    } else {
        lemma_run_steady(program, (upto - 1) as nat);
        lemma_step_steady(run(program, (upto - 1) as nat)->Ok_0, program, (upto - 1) as usize);
    }
}

/// The state after any number of steps is consistent: its regions,
/// bindings and borrows are well-formed, the open regions are the current
/// one and those around it, and the extents and spans fit the steps run.
pub proof fn lemma_run_consistent(program: Seq<Instr>, upto: nat)
    requires
        upto <= program.len() < usize::MAX,
        run(program, upto) is Ok,
    ensures
        consistent(run(program, upto)->Ok_0, program, upto as int),
{
    lemma_run_steady(program, upto);
    reveal(sound);
}

/// At every point of every run, the outstanding borrows of every binding
/// keep the rule of exclusivity: they are all shared, or there is a
/// single exclusive one.
pub proof fn lemma_rule_holds_throughout(program: Seq<Instr>, upto: nat, binding: usize)
    requires
        upto <= program.len() < usize::MAX,
        run(program, upto) is Ok,
        binding < run(program, upto)->Ok_0.checker.table.bindings.len(),
    ensures
        exclusive_or_shared(active_borrows(run(program, upto)->Ok_0.checker.borrows, binding)),
{
    let s = run(program, upto)->Ok_0;
    lemma_run_steady(program, upto);
    assert(s.checker.well_formed()) by {
        reveal(sound);
    }
    lemma_exclusivity_holds(s.checker.borrows, s.checker.table, binding);
}

/// In the report of a block that is accepted, every region lies inside
/// the region around it, and every borrow is outstanding inside the
/// extent of its region and of every region that contains it.
pub proof fn lemma_accepted_block_is_nested(program: Seq<Instr>)
    requires
        program.len() < usize::MAX,
        spec_analyze_block(program) is Ok,
    ensures
        settled(spec_analyze_block(program)->Ok_0),
        borrows_inside_regions(spec_analyze_block(program)->Ok_0),
{
    let s = run(program, program.len())->Ok_0;
    lemma_run_steady(program, program.len());
    lemma_sound_grounded(s);
    lemma_finish_settled(s, program.len() as usize);
    lemma_settled_nested(spec_analyze_block(program)->Ok_0);
}

} // verus!
