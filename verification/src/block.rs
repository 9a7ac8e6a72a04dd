//! The analysis of a block: its steps are run in program order against
//! the regions, bindings and borrows of the fragment, and every borrow
//! ends at its last use.

use vstd::prelude::*;
use crate::borrow::Borrow;
use crate::checker::{Checker, CheckerView};
use crate::diagnostic::{AnalysisError, Failure};
use crate::lifetime::Mutability;
use crate::liveness::{
    borrows_before,
    is_last_use,
    lemma_borrows_monotone,
    lemma_origins_bounded,
    lemma_origins_prefix,
    origin_through,
    origins,
    touched,
    untouched_between,
    Liveness,
};
use crate::program::{Instr, Span};
use crate::region::{is_ancestor, Region};

verus! {

/// The time for which one borrow is outstanding.
#[derive(Clone, Copy, Debug, PartialEq, Eq, Structural)]
pub struct BorrowSpan {
    pub binding: usize,
    pub kind: Mutability,
    /// The region that the reference belongs to.
    pub region: usize,
    /// The step that issues the borrow.
    pub issued_at: usize,
    /// The step after which the borrow is no longer outstanding: its last
    /// use, or the close of its region where that comes first.
    pub released_at: usize,
}

/// The state of a block between two steps.
pub struct BlockState {
    pub checker: CheckerView,
    /// The innermost open region.
    pub current: usize,
    /// For each region, the steps that opened and closed it.
    pub extents: Seq<Span>,
    /// For each borrow, the steps that issued and ended it.
    pub spans: Seq<BorrowSpan>,
}

/// The state before the first step: the region of the block is open.
pub open spec fn initial() -> BlockState {
    let nothing = CheckerView {
        regions: Seq::empty(),
        table: crate::binding::BindingTableView { bindings: Seq::empty(), moved: Seq::empty() },
        borrows: Seq::empty(),
    };
    BlockState {
        checker: nothing.after_open(None),
        current: 0,
        extents: seq![Span { start: 0, end: 0 }],
        spans: Seq::empty(),
    }
}

/// The spans after the borrows of `region` have ended with the step `at`.
pub open spec fn ended_spans(
    spans: Seq<BorrowSpan>,
    records: Seq<Borrow>,
    region: usize,
    at: usize,
) -> Seq<BorrowSpan> {
    Seq::new(
        spans.len(),
        |k: int|
            if records[k].lives_in(region) {
                BorrowSpan { released_at: at, ..spans[k] }
            } else {
                spans[k]
            },
    )
}

/// The state after the step `at` has used the borrow: the borrow ends
/// with the step if no later step uses it.
pub open spec fn after_use(s: BlockState, program: Seq<Instr>, at: usize, borrow: usize) -> BlockState {
    if untouched_between(program, borrow, at as int, program.len() as int) {
        BlockState {
            checker: s.checker.after_release(borrow),
            spans: s.spans.update(
                borrow as int,
                BorrowSpan { released_at: at, ..s.spans[borrow as int] },
            ),
            ..s
        }
    } else {
        s
    }
}

/// The state after the step `at` has issued a borrow.
pub open spec fn issued(
    s: BlockState,
    at: usize,
    binding: usize,
    kind: Mutability,
    region: usize,
) -> BlockState {
    BlockState {
        checker: s.checker.after_borrow(binding, kind, region),
        spans: s.spans.push(BorrowSpan { binding, kind, region, issued_at: at, released_at: at }),
        ..s
    }
}

/// A step names a binding that the block has not declared: it reaches
/// outside every open region.
pub open spec fn out_of_scope(s: BlockState) -> AnalysisError {
    AnalysisError::RegionContractViolation { region: s.current }
}

/// The state after a step that borrows a binding. The binding must have
/// been declared and the borrow must not be refused; a borrow that no
/// later step uses ends at once.
pub open spec fn step_borrow(
    s: BlockState,
    program: Seq<Instr>,
    at: usize,
    binding: usize,
    kind: Mutability,
    region: usize,
) -> Result<BlockState, AnalysisError> {
    if binding >= s.checker.table.bindings.len() {
        Err(out_of_scope(s))
    } else {
        match s.checker.may_borrow(binding, kind, region) {
            Err(e) => Err(e),
            Ok(_) => Ok(
                after_use(
                    issued(s, at, binding, kind, region),
                    program,
                    at,
                    s.checker.borrows.len() as usize,
                ),
            ),
        }
    }
}

/// The state after a step that uses a reference. The reference must have
/// been made, and its borrow must not have ended with its region.
pub open spec fn step_use(s: BlockState, program: Seq<Instr>, at: usize) -> Result<
    BlockState,
    AnalysisError,
> {
    match touched(program, at as int) {
        None => Err(out_of_scope(s)),
        Some(b) => if !s.checker.borrows[b as int].active {
            Err(
                AnalysisError::RegionContractViolation {
                    region: s.checker.borrows[b as int].region,
                },
            )
        } else {
            Ok(after_use(s, program, at, b))
        },
    }
}

/// The state after the step `at`, or the reason why the step is refused.
pub open spec fn step(s: BlockState, program: Seq<Instr>, at: usize) -> Result<
    BlockState,
    AnalysisError,
> {
    let declared = s.checker.table.bindings.len();
    match program[at as int] {
        Instr::Open => Ok(
            BlockState {
                checker: s.checker.after_open(Some(s.current)),
                current: s.checker.regions.len() as usize,
                extents: s.extents.push(Span { start: at, end: at }),
                ..s
            },
        ),
        Instr::Close => match s.checker.regions[s.current as int].parent {
            None => Err(out_of_scope(s)),
            Some(around) => match s.checker.may_close(s.current) {
                Err(e) => Err(e),
                Ok(_) => Ok(
                    BlockState {
                        checker: s.checker.after_close(s.current),
                        current: around,
                        extents: s.extents.update(
                            s.current as int,
                            Span { start: s.extents[s.current as int].start, end: at },
                        ),
                        spans: ended_spans(s.spans, s.checker.borrows, s.current, at),
                    },
                ),
            },
        },
        Instr::Declare { name, ty } => Ok(
            BlockState { checker: s.checker.after_declare(name, s.current, ty), ..s },
        ),
        Instr::Read { binding } => if binding >= declared {
            Err(out_of_scope(s))
        } else {
            match s.checker.read(binding) {
                Err(e) => Err(e),
                Ok(_) => Ok(s),
            }
        },
        Instr::ReadField { binding, field } => if binding >= declared {
            Err(out_of_scope(s))
        } else {
            match s.checker.read_field(binding, field) {
                Err(e) => Err(e),
                Ok(_) => Ok(s),
            }
        },
        Instr::Move { binding } => if binding >= declared {
            Err(out_of_scope(s))
        } else {
            match s.checker.may_move(binding) {
                Err(e) => Err(e),
                Ok(_) => Ok(BlockState { checker: s.checker.after_move(binding), ..s }),
            }
        },
        Instr::MoveField { binding, field } => if binding >= declared {
            Err(out_of_scope(s))
        } else {
            match s.checker.may_move_field(binding, field) {
                Err(e) => Err(e),
                Ok(_) => Ok(
                    BlockState { checker: s.checker.after_move_field(binding, field), ..s },
                ),
            }
        },
        Instr::Borrow { binding, kind, region } => step_borrow(
            s,
            program,
            at,
            binding,
            kind,
            region,
        ),
        Instr::Reborrow { .. } | Instr::Use { .. } => step_use(s, program, at),
    }
}

/// The state after the first `upto` steps, or the first failure.
pub open spec fn run(program: Seq<Instr>, upto: nat) -> Result<BlockState, Failure>
    decreases upto,
{
    if upto == 0 {
        Ok(initial())
    } else {
        match run(program, (upto - 1) as nat) {
            Err(f) => Err(f),
            Ok(s) => match step(s, program, (upto - 1) as usize) {
                Err(e) => Err(Failure { error: e, position: (upto - 1) as usize }),
                Ok(next) => Ok(next),
            },
        }
    }
}

/// What the analysis of a block finds.
#[derive(Clone, Debug, PartialEq, Eq)]
pub struct BlockReport {
    /// The regions of the block, all closed.
    pub regions: Vec<Region>,
    /// For each region, the steps that opened and closed it. The region of
    /// the block spans the whole program.
    pub extents: Vec<Span>,
    /// For each borrow, the time for which it was outstanding.
    pub borrows: Vec<BorrowSpan>,
}

/// A report as contracts see it.
pub struct BlockReportView {
    pub regions: Seq<Region>,
    pub extents: Seq<Span>,
    pub borrows: Seq<BorrowSpan>,
}

impl View for BlockReport {
    type V = BlockReportView;

    open spec fn view(&self) -> BlockReportView {
        BlockReportView { regions: self.regions@, extents: self.extents@, borrows: self.borrows@ }
    }
}

/// The end of the block after all its steps: every region that the block
/// opened must be closed; then the region of the block closes.
pub open spec fn finish(s: BlockState, length: usize) -> Result<BlockReportView, Failure> {
    if s.current != 0 {
        Err(Failure { error: out_of_scope(s), position: length })
    } else {
        match s.checker.may_close(0) {
            Err(e) => Err(Failure { error: e, position: length }),
            Ok(_) => Ok(
                BlockReportView {
                    regions: s.checker.after_close(0).regions,
                    extents: s.extents.update(0, Span { start: 0, end: length }),
                    borrows: ended_spans(s.spans, s.checker.borrows, 0, length),
                },
            ),
        }
    }
}

/// What the analysis of a block returns.
pub open spec fn spec_analyze_block(program: Seq<Instr>) -> Result<BlockReportView, Failure> {
    match run(program, program.len()) {
        Err(f) => Err(f),
        Ok(s) => finish(s, program.len() as usize),
    }
}

/// Every borrow is outstanding inside the extent of its region and of
/// every region around it: no step issues it before one of them opens,
/// and it has ended when one of them closes.
pub open spec fn borrows_inside_regions(report: BlockReportView) -> bool {
    forall|k: int, outer: int|
        0 <= k < report.borrows.len() && #[trigger] is_ancestor(
            report.regions,
            outer,
            report.borrows[k].region as int,
        ) ==> report.extents[outer].start <= report.borrows[k].issued_at
            <= report.borrows[k].released_at <= report.extents[outer].end
}

/// The open regions are the current region and the regions around it.
#[verifier::opaque]
pub open spec fn scoped(s: BlockState) -> bool {
    &&& s.current < s.checker.regions.len()
    &&& forall|r: int|
        0 <= r < s.checker.regions.len() ==> ((#[trigger] s.checker.regions[r]).open
            <==> is_ancestor(s.checker.regions, r, s.current as int))
}

/// The extent noted for the region `r` fits the steps run so far: the
/// region was opened by now and not before the region around it, and a
/// closed region was closed by now and before the region around it.
pub open spec fn region_timed(s: BlockState, now: int, r: int) -> bool {
    let node = s.checker.regions[r];
    let extent = s.extents[r];
    &&& extent.start <= now
    &&& !node.open ==> extent.start <= extent.end <= now
    &&& node.parent matches Some(q) ==> s.extents[q as int].start <= extent.start && (
    !s.checker.regions[q as int].open ==> extent.end <= s.extents[q as int].end)
}

/// The span noted for the borrow `k` fits the steps run so far: the
/// borrow was issued by now inside its region, and a borrow that has
/// ended has ended by now and before its region closed.
pub open spec fn borrow_timed(s: BlockState, now: int, k: int) -> bool {
    let record = s.checker.borrows[k];
    let span = s.spans[k];
    &&& span.region == record.region
    &&& span.binding == record.binding
    &&& span.kind == record.kind
    &&& record.region < s.checker.regions.len()
    &&& s.extents[record.region as int].start <= span.issued_at <= now
    &&& !record.active ==> span.issued_at <= span.released_at <= now && (
    !s.checker.regions[record.region as int].open ==> span.released_at
        <= s.extents[record.region as int].end)
}

/// The extents and spans noted fit the steps run so far.
#[verifier::opaque]
pub open spec fn timed(s: BlockState, now: int) -> bool {
    &&& s.extents.len() == s.checker.regions.len()
    &&& s.spans.len() == s.checker.borrows.len()
    &&& forall|r: int| 0 <= r < s.checker.regions.len() ==> #[trigger] region_timed(s, now, r)
    &&& forall|k: int| 0 <= k < s.checker.borrows.len() ==> #[trigger] borrow_timed(s, now, k)
}

/// What holds of the state between two steps of a program.
pub open spec fn consistent(s: BlockState, program: Seq<Instr>, now: int) -> bool {
    &&& 0 <= now <= program.len() <= usize::MAX
    &&& s.checker.well_formed()
    &&& scoped(s)
    &&& timed(s, now)
    &&& s.checker.borrows.len() == borrows_before(program, now)
    &&& s.current < s.checker.regions.len()
    &&& s.checker.regions[s.current as int].open
    &&& s.extents.len() == s.checker.regions.len()
    &&& s.spans.len() == s.checker.borrows.len()
}

/// What the timing says outright: the current region is open, and every
/// region has its extent and every borrow its span.
pub open spec fn framed(s: BlockState) -> bool {
    &&& s.current < s.checker.regions.len()
    &&& s.checker.regions[s.current as int].open
    &&& s.extents.len() == s.checker.regions.len()
    &&& s.spans.len() == s.checker.borrows.len()
}

pub(crate) proof fn lemma_framed(s: BlockState, now: int)
    requires
        scoped(s),
        timed(s, now),
    ensures
        framed(s),
{
    reveal(scoped);
    reveal(timed);
    assert(is_ancestor(s.checker.regions, s.current as int, s.current as int));
}

/// The part of the invariant of the state that the timing rests on.
pub open spec fn grounded(s: BlockState) -> bool {
    &&& crate::region::well_formed(s.checker.regions)
    &&& crate::borrow::confined_to_open(s.checker.borrows, s.checker.regions)
}

pub(crate) proof fn lemma_initial_timed()
    ensures
        scoped(initial()),
        timed(initial(), 0),
{
    reveal(scoped);
    reveal(timed);
    let s = initial();
    assert(s.checker.regions.len() == 1);
    assert(is_ancestor(s.checker.regions, 0, 0));
    assert(region_timed(s, 0, 0));
}

/// The step `at` opens a region inside the current one.
pub(crate) proof fn lemma_open_timed(s: BlockState, next: BlockState, at: usize)
    requires
        grounded(s),
        scoped(s),
        timed(s, at as int),
        s.checker.regions.len() < usize::MAX,
        next.checker.regions == s.checker.regions.push(
            crate::region::opened(s.checker.regions, Some(s.current)),
        ),
        next.checker.borrows == s.checker.borrows,
        next.current == s.checker.regions.len(),
        next.extents == s.extents.push(Span { start: at, end: at }),
        next.spans == s.spans,
    ensures
        scoped(next),
        timed(next, at + 1),
{
    reveal(scoped);
    reveal(timed);
    let before = s.checker.regions;
    let after = next.checker.regions;
    let fresh = before.len() as int;
    assert(after[fresh].parent == Some(s.current));
    assert(before[s.current as int].open) by {
        assert(is_ancestor(before, s.current as int, s.current as int));
    }
    assert forall|r: int| 0 <= r < after.len() implies ((#[trigger] after[r]).open <==> is_ancestor(
        after,
        r,
        next.current as int,
    )) by {
        if r < fresh {
            assert(after[r] == before[r]);
            crate::region::lemma_ancestor_same_parents(before, after, r, s.current as int);
            assert(is_ancestor(after, r, fresh) == is_ancestor(after, r, s.current as int));
        }
    }
    assert forall|r: int| 0 <= r < after.len() implies #[trigger] region_timed(next, at + 1, r) by {
        if r < fresh {
            assert(region_timed(s, at as int, r));
            assert(after[r] == before[r]);
        } else {
            assert(region_timed(s, at as int, s.current as int));
        }
    }
    assert forall|k: int| 0 <= k < next.checker.borrows.len() implies #[trigger] borrow_timed(
        next,
        at + 1,
        k,
    ) by {
        assert(borrow_timed(s, at as int, k));
    }
}

/// The step `at` closes the current region, which lies inside `around`.
pub(crate) proof fn lemma_close_timed(s: BlockState, next: BlockState, at: usize, around: usize)
    requires
        grounded(s),
        scoped(s),
        timed(s, at as int),
        s.checker.regions[s.current as int].parent == Some(around),
        next.checker.regions == s.checker.regions.update(
            s.current as int,
            crate::region::closed(s.checker.regions[s.current as int]),
        ),
        next.checker.borrows == crate::borrow::expired(s.checker.borrows, s.current),
        next.current == around,
        next.extents == s.extents.update(
            s.current as int,
            Span { start: s.extents[s.current as int].start, end: at },
        ),
        next.spans == ended_spans(s.spans, s.checker.borrows, s.current, at),
    ensures
        scoped(next),
        timed(next, at + 1),
{
    reveal(scoped);
    reveal(timed);
    let before = s.checker.regions;
    let after = next.checker.regions;
    let c = s.current as int;
    let q = around as int;
    assert(before[c].open) by {
        assert(is_ancestor(before, c, c));
    }
    assert(q < c);
    assert forall|r: int| 0 <= r < after.len() implies ((#[trigger] after[r]).open <==> is_ancestor(
        after,
        r,
        q,
    )) by {
        crate::region::lemma_ancestor_same_parents(before, after, r, q);
        if r == c {
            if is_ancestor(before, c, q) {
                crate::region::lemma_ancestor_not_later(before, c, q);
            }
        } else {
            assert(after[r] == before[r]);
            assert(is_ancestor(before, r, c) == is_ancestor(before, r, q));
        }
    }
    assert forall|r: int| 0 <= r < after.len() implies #[trigger] region_timed(next, at + 1, r) by {
        assert(region_timed(s, at as int, r));
        assert(region_timed(s, at as int, c));
        if r != c {
            assert(after[r] == before[r]);
            if before[r].parent == Some(c as usize) && before[r].open {
                assert(is_ancestor(before, r, c));
                crate::region::lemma_ancestor_not_later(before, r, c);
            }
        }
    }
    assert forall|k: int| 0 <= k < next.checker.borrows.len() implies #[trigger] borrow_timed(
        next,
        at + 1,
        k,
    ) by {
        assert(borrow_timed(s, at as int, k));
        assert(region_timed(s, at as int, c));
        let record = s.checker.borrows[k];
        if record.active {
            assert(before[record.region as int].open);
        }
    }
}

/// The step `at` uses an outstanding borrow, which may end with it.
pub(crate) proof fn lemma_use_timed(s: BlockState, program: Seq<Instr>, at: usize, borrow: usize)
    requires
        grounded(s),
        scoped(s),
        timed(s, at as int),
        borrow < s.checker.borrows.len(),
        s.checker.borrows[borrow as int].active,
    ensures
        scoped(after_use(s, program, at, borrow)),
        timed(after_use(s, program, at, borrow), at + 1),
{
    reveal(scoped);
    reveal(timed);
    let next = after_use(s, program, at, borrow);
    assert(s.checker.regions[s.checker.borrows[borrow as int].region as int].open);
    assert forall|r: int| 0 <= r < next.checker.regions.len() implies #[trigger] region_timed(
        next,
        at + 1,
        r,
    ) by {
        assert(region_timed(s, at as int, r));
    }
    assert forall|k: int| 0 <= k < next.checker.borrows.len() implies #[trigger] borrow_timed(
        next,
        at + 1,
        k,
    ) by {
        assert(borrow_timed(s, at as int, k));
    }
}

/// The step `at` issues a borrow into an open region.
pub(crate) proof fn lemma_issue_timed(s: BlockState, next: BlockState, at: usize, record: Borrow)
    requires
        grounded(s),
        scoped(s),
        timed(s, at as int),
        crate::region::is_open_in(s.checker.regions, record.region),
        record.active,
        next.checker.regions == s.checker.regions,
        next.checker.borrows == s.checker.borrows.push(record),
        next.current == s.current,
        next.extents == s.extents,
        next.spans == s.spans.push(
            BorrowSpan {
                binding: record.binding,
                kind: record.kind,
                region: record.region,
                issued_at: at,
                released_at: at,
            },
        ),
    ensures
        grounded(next),
        scoped(next),
        timed(next, at as int),
{
    reveal(scoped);
    reveal(timed);
    let fresh = s.checker.borrows.len() as int;
    assert(region_timed(s, at as int, record.region as int));
    assert forall|r: int| 0 <= r < next.checker.regions.len() implies #[trigger] region_timed(
        next,
        at as int,
        r,
    ) by {
        assert(region_timed(s, at as int, r));
    }
    assert forall|k: int| 0 <= k < next.checker.borrows.len() implies #[trigger] borrow_timed(
        next,
        at as int,
        k,
    ) by {
        if k < fresh {
            assert(borrow_timed(s, at as int, k));
        }
    }
}

/// The step `at` changes neither regions nor borrows.
pub(crate) proof fn lemma_quiet_timed(s: BlockState, next: BlockState, at: usize)
    requires
        scoped(s),
        timed(s, at as int),
        next.checker.regions == s.checker.regions,
        next.checker.borrows == s.checker.borrows,
        next.current == s.current,
        next.extents == s.extents,
        next.spans == s.spans,
    ensures
        scoped(next),
        timed(next, at + 1),
{
    reveal(scoped);
    reveal(timed);
    assert forall|r: int| 0 <= r < next.checker.regions.len() implies #[trigger] region_timed(
        next,
        at + 1,
        r,
    ) by {
        assert(region_timed(s, at as int, r));
    }
    assert forall|k: int| 0 <= k < next.checker.borrows.len() implies #[trigger] borrow_timed(
        next,
        at + 1,
        k,
    ) by {
        assert(borrow_timed(s, at as int, k));
    }
}

/// What the step `at` uses through the reference `through` is known
/// from the whole program: it is what the reference stands for, if the
/// reference was made before the step.
pub(crate) proof fn lemma_reference_known(program: Seq<Instr>, at: int, through: usize)
    requires
        0 <= at < program.len(),
        program[at] == (Instr::Reborrow { through }) || program[at] == (Instr::Use {
            reference: through,
        }),
    ensures
        origins(program, at).len() <= at,
        touched(program, at) == if through < origins(program, at).len() {
            origin_through(origins(program, program.len() as int), through)
        } else {
            None
        },
        touched(program, at) matches Some(b) ==> b < borrows_before(program, at) && b
            < borrows_before(program, program.len() as int),
        origins(program, at + 1).len() == if program[at] is Reborrow {
            origins(program, at).len() + 1
        } else {
            origins(program, at).len()
        },
{
    lemma_origins_prefix(program, at, program.len() as int);
    lemma_origins_prefix(program, at, at);
    lemma_origins_bounded(program, at);
    lemma_borrows_monotone(program, at, program.len() as int);
    if through < origins(program, at).len() {
        assert(origins(program, program.len() as int)[through as int] == origins(
            program,
            at,
        )[through as int]);
    }
}

/// A failure at one step is the failure of the whole run.
pub(crate) proof fn lemma_failure_stays(program: Seq<Instr>, at: nat, upto: nat)
    requires
        at <= upto,
        run(program, at) is Err,
    ensures
        run(program, upto) == run(program, at),
    decreases upto - at,
{
    if at < upto {
        lemma_failure_stays(program, at, (upto - 1) as nat);
    }
}

/// In a report, every region is closed and lies inside the region around
/// it, and every borrow inside the region that its reference belongs to.
pub open spec fn settled(report: BlockReportView) -> bool {
    &&& report.extents.len() == report.regions.len()
    &&& forall|r: int|
        0 <= r < report.regions.len() ==> !(#[trigger] report.regions[r]).open
            && report.extents[r].start <= report.extents[r].end && (report.regions[r].parent
            matches Some(q) ==> q < r && report.extents[q as int].start <= report.extents[r].start
            && report.extents[r].end <= report.extents[q as int].end)
    &&& forall|k: int|
        0 <= k < report.borrows.len() ==> (#[trigger] report.borrows[k]).region
            < report.regions.len() && report.extents[report.borrows[k].region as int].start
            <= report.borrows[k].issued_at <= report.borrows[k].released_at
            <= report.extents[report.borrows[k].region as int].end
}

/// A region lies inside every region around it.
proof fn lemma_extent_inside(report: BlockReportView, outer: int, inner: int)
    requires
        settled(report),
        is_ancestor(report.regions, outer, inner),
    ensures
        report.extents[outer].start <= report.extents[inner].start,
        report.extents[inner].end <= report.extents[outer].end,
    decreases inner,
{
    if outer != inner {
        let q = report.regions[inner].parent->0 as int;
        lemma_extent_inside(report, outer, q);
    }
}

pub(crate) proof fn lemma_settled_nested(report: BlockReportView)
    requires
        settled(report),
    ensures
        borrows_inside_regions(report),
{
    assert forall|k: int, outer: int|
        0 <= k < report.borrows.len() && #[trigger] is_ancestor(
            report.regions,
            outer,
            report.borrows[k].region as int,
        ) implies report.extents[outer].start <= report.borrows[k].issued_at
        <= report.borrows[k].released_at <= report.extents[outer].end by {
        lemma_extent_inside(report, outer, report.borrows[k].region as int);
    }
}

/// The report made at the end of a consistent run is settled.
pub(crate) proof fn lemma_finish_settled(s: BlockState, length: usize)
    requires
        grounded(s),
        scoped(s),
        timed(s, length as int),
        s.current == 0,
        finish(s, length) is Ok,
    ensures
        settled(finish(s, length)->Ok_0),
{
    reveal(scoped);
    reveal(timed);
    let report = finish(s, length)->Ok_0;
    let before = s.checker.regions;
    assert(is_ancestor(before, 0, 0));
    assert(before[0].open);
    assert forall|r: int| 0 < r < before.len() implies !(#[trigger] before[r]).open by {
        if is_ancestor(before, r, 0) {
            crate::region::lemma_ancestor_not_later(before, r, 0);
        }
    }
    assert forall|r: int| 0 <= r < report.regions.len() implies !(
    #[trigger] report.regions[r]).open && report.extents[r].start <= report.extents[r].end && (
    report.regions[r].parent matches Some(q) ==> q < r && report.extents[q as int].start
        <= report.extents[r].start && report.extents[r].end <= report.extents[q as int].end) by {
        assert(region_timed(s, length as int, r));
        assert(before[r].parent == report.regions[r].parent);
        if let Some(q) = before[r].parent {
            assert(region_timed(s, length as int, q as int));
        }
    }
    assert forall|k: int| 0 <= k < report.borrows.len() implies (#[trigger] report.borrows[k]).region
        < report.regions.len() && report.extents[report.borrows[k].region as int].start
        <= report.borrows[k].issued_at <= report.borrows[k].released_at
        <= report.extents[report.borrows[k].region as int].end by {
        assert(borrow_timed(s, length as int, k));
        let record = s.checker.borrows[k];
        assert(region_timed(s, length as int, record.region as int));
        if record.active {
            assert(before[record.region as int].open);
        }
    }
}

/// The spans with those of the outstanding borrows of `region` ended at
/// the step `at`.
fn end_spans(spans: &Vec<BorrowSpan>, checker: &Checker, region: usize, at: usize) -> (r: Vec<
    BorrowSpan,
>)
    requires
        spans@.len() == checker@.borrows.len(),
    ensures
        r@ == ended_spans(spans@, checker@.borrows, region, at),
{
    let n: usize = spans.len();
    let mut r: Vec<BorrowSpan> = Vec::new();
    let mut k: usize = 0;
    while k < n
        invariant
            n == spans@.len(),
            n == checker@.borrows.len(),
            k <= n,
            r@.len() == k,
            forall|j: int|
                0 <= j < k ==> r@[j] == ended_spans(spans@, checker@.borrows, region, at)[j],
        decreases n - k,
    {
        let span = spans[k];
        let record = checker.borrows().get(k).unwrap();
        if record.active && record.region == region {
            r.push(
                BorrowSpan {
                    binding: span.binding,
                    kind: span.kind,
                    region: span.region,
                    issued_at: span.issued_at,
                    released_at: at,
                },
            );
        } else {
            r.push(span);
        }
        k = k + 1;
    }
    assert(r@ =~= ended_spans(spans@, checker@.borrows, region, at));
    r
}

/// A block while its steps are run.
struct BlockRun {
    checker: Checker,
    current: usize,
    extents: Vec<Span>,
    spans: Vec<BorrowSpan>,
    /// The number of references made so far.
    references: usize,
}

impl View for BlockRun {
    type V = BlockState;

    closed spec fn view(&self) -> BlockState {
        BlockState {
            checker: self.checker@,
            current: self.current,
            extents: self.extents@,
            spans: self.spans@,
        }
    }
}

impl BlockRun {
    /// The run has made the references of the first `now` steps.
    closed spec fn counted(&self, program: Seq<Instr>, now: int) -> bool {
        self.references == origins(program, now).len()
    }

    /// The block before its first step.
    fn start(Ghost(program): Ghost<Seq<Instr>>) -> (started: Self)
        requires
            program.len() <= usize::MAX,
        ensures
            started@ == initial(),
            consistent(started@, program, 0),
            started.counted(program, 0),
    {
        let mut checker = Checker::new();
        let root = checker.open_region(None);
        let mut extents: Vec<Span> = Vec::new();
        extents.push(Span { start: 0, end: 0 });
        let started = BlockRun { checker, current: 0, extents, spans: Vec::new(), references: 0 };
        proof {
            assert(started@.extents =~= initial().extents);
            assert(started@.spans =~= initial().spans);
            assert(started@.checker.regions =~= initial().checker.regions);
            assert(started@.checker.table.bindings =~= initial().checker.table.bindings);
            assert(started@.checker.table.moved =~= initial().checker.table.moved);
            assert(started@.checker.borrows =~= initial().checker.borrows);
            lemma_initial_timed();
            lemma_framed(started@, 0);
        }
        started
    }

    /// Ends the borrow with the step `at` if no later step uses it.
    fn touch(&mut self, program: &Vec<Instr>, live: &Liveness, at: usize, borrow: usize)
        requires
            live.describes(program@),
            old(self).checker.wf(),
            at < program@.len(),
            touched(program@, at as int) == Some(borrow),
            borrow < borrows_before(program@, program@.len() as int),
            borrow < old(self)@.checker.borrows.len(),
            old(self)@.spans.len() == old(self)@.checker.borrows.len(),
            old(self)@.checker.borrows[borrow as int].active,
        ensures
            final(self)@ == after_use(old(self)@, program@, at, borrow),
            final(self).checker.wf(),
            final(self).references == old(self).references,
    {
        let last = live.last_use(borrow).unwrap();
        proof {
            assert(is_last_use(program@, borrow, live.last_uses()[borrow as int] as int));
            if last != at {
                if last < at {
                    assert(touched(program@, at as int) != Some(borrow));
                }
                assert(touched(program@, last as int) == Some(borrow));
            }
        }
        if last == at {
            self.checker.release(borrow);
            let span = self.spans[borrow];
            self.spans[borrow] = BorrowSpan {
                binding: span.binding,
                kind: span.kind,
                region: span.region,
                issued_at: span.issued_at,
                released_at: at,
            };
        }
    }

    /// Runs a step that opens a region.
    fn step_open(&mut self, program: &Vec<Instr>, at: usize)
        requires
            at < program@.len(),
            program@[at as int] is Open,
            consistent(old(self)@, program@, at as int),
            old(self).counted(program@, at as int),
        ensures
            step(old(self)@, program@, at) == Ok::<BlockState, AnalysisError>(final(self)@),
            consistent(final(self)@, program@, at + 1),
            final(self).counted(program@, at + 1),
    {
        let opened = self.checker.open_region(Some(self.current));
        self.current = opened.unwrap();
        self.extents.push(Span { start: at, end: at });
        proof {
            assert(self.extents.len() == old(self)@.checker.regions.len() + 1);
            lemma_open_timed(old(self)@, self@, at);
            lemma_framed(self@, at + 1);
        }
    }

    /// Runs a step that closes the current region.
    fn step_close(&mut self, program: &Vec<Instr>, at: usize) -> (r: Result<(), AnalysisError>)
        requires
            at < program@.len(),
            program@[at as int] is Close,
            consistent(old(self)@, program@, at as int),
            old(self).counted(program@, at as int),
        ensures
            r matches Err(e) ==> step(old(self)@, program@, at) == Err::<BlockState, AnalysisError>(
                e,
            ),
            r is Ok ==> step(old(self)@, program@, at) == Ok::<BlockState, AnalysisError>(
                final(self)@,
            ) && consistent(final(self)@, program@, at + 1) && final(self).counted(
                program@,
                at + 1,
            ),
    {
        let node = self.checker.regions().get(self.current).unwrap();
        let around: usize = match node.parent {
            None => {
                return Err(AnalysisError::RegionContractViolation { region: self.current });
            },
            Some(around) => around,
        };
        let ended = end_spans(&self.spans, &self.checker, self.current, at);
        match self.checker.close_region(self.current) {
            Err(e) => Err(e),
            Ok(_) => {
                let start: usize = self.extents[self.current].start;
                self.extents[self.current] = Span { start, end: at };
                self.spans = ended;
                self.current = around;
                proof {
                    lemma_close_timed(old(self)@, self@, at, around);
                    lemma_framed(self@, at + 1);
                }
                Ok(())
            },
        }
    }

    /// Runs a step that declares, reads or moves a binding.
    fn step_binding(&mut self, program: &Vec<Instr>, at: usize) -> (r: Result<(), AnalysisError>)
        requires
            at < program@.len(),
            program@[at as int] is Declare || program@[at as int] is Read
                || program@[at as int] is ReadField || program@[at as int] is Move
                || program@[at as int] is MoveField,
            consistent(old(self)@, program@, at as int),
            old(self).counted(program@, at as int),
        ensures
            r matches Err(e) ==> step(old(self)@, program@, at) == Err::<BlockState, AnalysisError>(
                e,
            ),
            r is Ok ==> step(old(self)@, program@, at) == Ok::<BlockState, AnalysisError>(
                final(self)@,
            ) && consistent(final(self)@, program@, at + 1) && final(self).counted(
                program@,
                at + 1,
            ),
    {
        let declared: usize = self.checker.bindings().len();
        let outside = AnalysisError::RegionContractViolation { region: self.current };
        let r = match program[at] {
            Instr::Declare { name, ty } => {
                match self.checker.declare(name, self.current, ty) {
                    Ok(_) => Ok(()),
                    Err(e) => Err(e),
                }
            },
            Instr::Read { binding } => if binding >= declared {
                Err(outside)
            } else {
                self.checker.read(binding)
            },
            Instr::ReadField { binding, field } => if binding >= declared {
                Err(outside)
            } else {
                self.checker.read_field(binding, field)
            },
            Instr::Move { binding } => if binding >= declared {
                Err(outside)
            } else {
                self.checker.move_out(binding)
            },
            Instr::MoveField { binding, field } => if binding >= declared {
                Err(outside)
            } else {
                self.checker.partial_move(binding, field)
            },
            _ => Ok(()),
        };
        proof {
            if r is Ok {
                lemma_quiet_timed(old(self)@, self@, at);
                lemma_framed(self@, at + 1);
            }
        }
        r
    }

    /// Runs a step that borrows a binding.
    fn step_borrow(&mut self, program: &Vec<Instr>, live: &Liveness, at: usize) -> (r: Result<
        (),
        AnalysisError,
    >)
        requires
            live.describes(program@),
            at < program@.len(),
            program@[at as int] is Borrow,
            consistent(old(self)@, program@, at as int),
            old(self).counted(program@, at as int),
        ensures
            r matches Err(e) ==> step(old(self)@, program@, at) == Err::<BlockState, AnalysisError>(
                e,
            ),
            r is Ok ==> step(old(self)@, program@, at) == Ok::<BlockState, AnalysisError>(
                final(self)@,
            ) && consistent(final(self)@, program@, at + 1) && final(self).counted(
                program@,
                at + 1,
            ),
    {
        match program[at] {
            Instr::Borrow { binding, kind, region } => {
                if binding >= self.checker.bindings().len() {
                    return Err(AnalysisError::RegionContractViolation { region: self.current });
                }
                match self.checker.borrow(binding, kind, region) {
                    Err(e) => Err(e),
                    Ok(k) => {
                        proof {
                            lemma_origins_prefix(program@, at as int, at as int);
                            lemma_borrows_monotone(program@, at + 1, program@.len() as int);
                        }
                        self.spans.push(
                            BorrowSpan { binding, kind, region, issued_at: at, released_at: at },
                        );
                        self.references = self.references + 1;
                        let ghost issued = self@;
                        proof {
                            lemma_issue_timed(
                                old(self)@,
                                issued,
                                at,
                                Borrow::issued(binding, kind, region),
                            );
                            lemma_use_timed(issued, program@, at, k);
                            lemma_framed(after_use(issued, program@, at, k), at + 1);
                        }
                        self.touch(program, live, at, k);
                        Ok(())
                    },
                }
            },
            _ => Ok(()),
        }
    }

    /// Runs a step that uses a reference or makes a reference through it.
    fn use_reference(&mut self, program: &Vec<Instr>, live: &Liveness, at: usize) -> (r: Result<
        (),
        AnalysisError,
    >)
        requires
            live.describes(program@),
            at < program@.len(),
            program@[at as int] is Reborrow || program@[at as int] is Use,
            consistent(old(self)@, program@, at as int),
            old(self).counted(program@, at as int),
        ensures
            r matches Err(e) ==> step_use(old(self)@, program@, at) == Err::<
                BlockState,
                AnalysisError,
            >(e),
            r is Ok ==> step_use(old(self)@, program@, at) == Ok::<BlockState, AnalysisError>(
                final(self)@,
            ) && consistent(final(self)@, program@, at + 1) && final(self).counted(
                program@,
                at + 1,
            ),
    {
        let (through, makes): (usize, bool) = match program[at] {
            Instr::Reborrow { through } => (through, true),
            Instr::Use { reference } => (reference, false),
            _ => (0, false),
        };
        proof {
            lemma_reference_known(program@, at as int, through);
        }
        let origin: Option<usize> = if through < self.references {
            live.origin(through)
        } else {
            None
        };
        match origin {
            None => Err(AnalysisError::RegionContractViolation { region: self.current }),
            Some(b) => {
                let record = self.checker.borrows().get(b).unwrap();
                if !record.active {
                    return Err(AnalysisError::RegionContractViolation { region: record.region });
                }
                proof {
                    lemma_use_timed(old(self)@, program@, at, b);
                    lemma_framed(after_use(old(self)@, program@, at, b), at + 1);
                }
                self.touch(program, live, at, b);
                if makes {
                    self.references = self.references + 1;
                }
                Ok(())
            },
        }
    }

    /// Runs the step `at`.
    fn step(&mut self, program: &Vec<Instr>, live: &Liveness, at: usize) -> (r: Result<
        (),
        AnalysisError,
    >)
        requires
            live.describes(program@),
            at < program@.len(),
            consistent(old(self)@, program@, at as int),
            old(self).counted(program@, at as int),
        ensures
            r matches Err(e) ==> step(old(self)@, program@, at) == Err::<BlockState, AnalysisError>(
                e,
            ),
            r is Ok ==> step(old(self)@, program@, at) == Ok::<BlockState, AnalysisError>(
                final(self)@,
            ) && consistent(final(self)@, program@, at + 1) && final(self).counted(
                program@,
                at + 1,
            ),
    {
        match program[at] {
            Instr::Open => {
                self.step_open(program, at);
                Ok(())
            },
            Instr::Close => self.step_close(program, at),
            Instr::Borrow { .. } => self.step_borrow(program, live, at),
            Instr::Reborrow { .. } | Instr::Use { .. } => self.use_reference(program, live, at),
            _ => self.step_binding(program, at),
        }
    }

    /// Ends the block after its last step.
    fn finish(self, Ghost(program): Ghost<Seq<Instr>>, length: usize) -> (r: Result<
        BlockReport,
        Failure,
    >)
        requires
            length == program.len(),
            consistent(self@, program, length as int),
        ensures
            r matches Ok(report) ==> finish(self@, length) == Ok::<BlockReportView, Failure>(
                report@,
            ) && settled(report@) && borrows_inside_regions(report@),
            r matches Err(f) ==> finish(self@, length) == Err::<BlockReportView, Failure>(f),
    {
        let mut run = self;
        if run.current != 0 {
            return Err(
                Failure {
                    error: AnalysisError::RegionContractViolation { region: run.current },
                    position: length,
                },
            );
        }
        let ended = end_spans(&run.spans, &run.checker, 0, length);
        match run.checker.close_region(0) {
            Err(e) => Err(Failure { error: e, position: length }),
            Ok(_) => {
                run.extents[0] = Span { start: 0, end: length };
                let report = BlockReport {
                    regions: run.checker.regions().nodes(),
                    extents: run.extents,
                    borrows: ended,
                };
                proof {
                    lemma_finish_settled(self@, length);
                    lemma_settled_nested(report@);
                }
                Ok(report)
            },
        }
    }
}

/// Analyzes a block. The block has a region of its own, which is open
/// before the first step and closes after the last; its steps are run in
/// program order, and every borrow ends with the last step that uses it.
/// The first step that is refused ends the analysis.
pub fn analyze_block(program: &Vec<Instr>) -> (r: Result<BlockReport, Failure>)
    ensures
        r matches Ok(report) ==> spec_analyze_block(program@) == Ok::<BlockReportView, Failure>(
            report@,
        ) && settled(report@) && borrows_inside_regions(report@),
        r matches Err(f) ==> spec_analyze_block(program@) == Err::<BlockReportView, Failure>(f),
{
    let live = Liveness::compute(program);
    let n: usize = program.len();
    let mut state = BlockRun::start(Ghost(program@));
    let mut at: usize = 0;
    while at < n
        invariant
            n == program@.len(),
            at <= n,
            live.describes(program@),
            run(program@, at as nat) == Ok::<BlockState, Failure>(state@),
            consistent(state@, program@, at as int),
            state.counted(program@, at as int),
        decreases n - at,
    {
        match state.step(program, &live, at) {
            Err(e) => {
                proof {
                    assert(run(program@, (at + 1) as nat) == Err::<BlockState, Failure>(
                        Failure { error: e, position: at },
                    ));
                    lemma_failure_stays(program@, (at + 1) as nat, n as nat);
                }
                return Err(Failure { error: e, position: at });
            },
            Ok(_) => {},
        }
        at = at + 1;
    }
    state.finish(Ghost(program@), n)
}

} // verus!
