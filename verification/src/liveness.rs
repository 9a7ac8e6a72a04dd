//! The liveness pass: which borrow each reference stands for, and the last
//! step of the program that uses each borrow.
//!
//! A borrow is outstanding up to its last use, which may come well before
//! the end of the region that its reference belongs to.

use vstd::prelude::*;
use crate::program::Instr;

verus! {

/// The number of borrows issued by the first `upto` steps.
pub open spec fn borrows_before(program: Seq<Instr>, upto: int) -> nat
    decreases upto,
{
    if upto <= 0 || upto > program.len() {
        0
    } else if program[upto - 1] is Borrow {
        borrows_before(program, upto - 1) + 1
    } else {
        borrows_before(program, upto - 1)
    }
}

/// The borrow that a reference stands for after it was made out of the
/// references `known`: that of the reference it was made through, if
/// there is such a reference.
pub open spec fn origin_through(known: Seq<Option<usize>>, through: usize) -> Option<usize> {
    if through < known.len() {
        known[through as int]
    } else {
        None
    }
}

/// For each reference made by the first `upto` steps, the borrow it
/// stands for: its own for a reference made by a borrow, that of the
/// reference it was made through otherwise.
pub open spec fn origins(program: Seq<Instr>, upto: int) -> Seq<Option<usize>>
    decreases upto,
{
    if upto <= 0 || upto > program.len() {
        Seq::empty()
    } else {
        let known = origins(program, upto - 1);
        match program[upto - 1] {
            Instr::Borrow { .. } => known.push(Some(borrows_before(program, upto - 1) as usize)),
            Instr::Reborrow { through } => known.push(origin_through(known, through)),
            _ => known,
        }
    }
}

/// The borrow that the step `at` uses: the one it issues, or the one
/// behind the reference it reads, passes on or makes a reference through.
pub open spec fn touched(program: Seq<Instr>, at: int) -> Option<usize> {
    match program[at] {
        Instr::Borrow { .. } => Some(borrows_before(program, at) as usize),
        Instr::Reborrow { through } => origin_through(origins(program, at), through),
        Instr::Use { reference } => origin_through(origins(program, at), reference),
        _ => None,
    }
}

/// No step after `at` and before `upto` uses the borrow.
pub open spec fn untouched_between(program: Seq<Instr>, borrow: usize, at: int, upto: int) -> bool {
    forall|q: int| at < q < upto ==> #[trigger] touched(program, q) != Some(borrow)
}

/// The step `at` is the last that uses the borrow.
pub open spec fn is_last_use(program: Seq<Instr>, borrow: usize, at: int) -> bool {
    &&& 0 <= at < program.len()
    &&& touched(program, at) == Some(borrow)
    &&& untouched_between(program, borrow, at, program.len() as int)
}

/// What the liveness pass finds in a program.
pub struct Liveness {
    origin: Vec<Option<usize>>,
    last: Vec<usize>,
}

impl Liveness {
    /// For each reference, the borrow it stands for.
    pub closed spec fn origin_of(&self) -> Seq<Option<usize>> {
        self.origin@
    }

    /// For each borrow, the step of its last use.
    pub closed spec fn last_uses(&self) -> Seq<usize> {
        self.last@
    }

    /// The pass has read `program`.
    pub open spec fn describes(&self, program: Seq<Instr>) -> bool {
        &&& self.origin_of() == origins(program, program.len() as int)
        &&& self.last_uses().len() == borrows_before(program, program.len() as int)
        &&& forall|b: int|
            0 <= b < self.last_uses().len() ==> is_last_use(
                program,
                b as usize,
                #[trigger] self.last_uses()[b] as int,
            )
    }

    /// Reads a program once, front to back, and notes for each borrow the
    /// last step that uses it.
    pub fn compute(program: &Vec<Instr>) -> (found: Liveness)
        ensures
            found.describes(program@),
    {
        let n: usize = program.len();
        let mut origin: Vec<Option<usize>> = Vec::new();
        let mut last: Vec<usize> = Vec::new();
        let mut p: usize = 0;
        while p < n
            invariant
                n == program@.len(),
                p <= n,
                origin@ == origins(program@, p as int),
                last@.len() == borrows_before(program@, p as int),
                last@.len() <= p,
                forall|r: int|
                    0 <= r < origin@.len() ==> ((#[trigger] origin@[r]) matches Some(b) ==> b
                        < last@.len()),
                forall|b: int|
                    0 <= b < last@.len() ==> (#[trigger] last@[b]) < p && touched(
                        program@,
                        last@[b] as int,
                    ) == Some(b as usize) && untouched_between(
                        program@,
                        b as usize,
                        last@[b] as int,
                        p as int,
                    ),
            decreases n - p,
        {
            let ghost before = last@;
            let used: Option<usize> = match program[p] {
                Instr::Borrow { .. } => {
                    let b: usize = last.len();
                    origin.push(Some(b));
                    last.push(p);
                    Some(b)
                },
                Instr::Reborrow { through } => {
                    let b = if through < origin.len() {
                        origin[through]
                    } else {
                        None
                    };
                    origin.push(b);
                    b
                },
                Instr::Use { reference } => {
                    if reference < origin.len() {
                        origin[reference]
                    } else {
                        None
                    }
                },
                _ => None,
            };
            assert(used == touched(program@, p as int));
            match used {
                Some(b) => {
                    last[b] = p;
                },
                None => {},
            }
            proof {
                assert forall|b: int| 0 <= b < last@.len() implies (#[trigger] last@[b]) < p + 1
                    && touched(program@, last@[b] as int) == Some(b as usize) && untouched_between(
                    program@,
                    b as usize,
                    last@[b] as int,
                    p + 1,
                ) by {
                    if used != Some(b as usize) {
                        assert(b < before.len());
                        assert(last@[b] == before[b]);
                        assert(untouched_between(program@, b as usize, before[b] as int, p as int));
                    }
                }
            }
            p = p + 1;
        }
        Liveness { origin, last }
    }

    /// The borrow that a reference stands for.
    pub fn origin(&self, reference: usize) -> (r: Option<usize>)
        ensures
            r == origin_through(self.origin_of(), reference),
    {
        if reference < self.origin.len() {
            self.origin[reference]
        } else {
            None
        }
    }

    /// The step of the last use of a borrow, if the program issues it.
    pub fn last_use(&self, borrow: usize) -> (r: Option<usize>)
        ensures
            r == if borrow < self.last_uses().len() {
                Some(self.last_uses()[borrow as int])
            } else {
                None
            },
    {
        if borrow < self.last.len() {
            Some(self.last[borrow])
        } else {
            None
        }
    }
}

/// More steps issue no fewer borrows, and no more than there are steps.
pub proof fn lemma_borrows_monotone(program: Seq<Instr>, from: int, upto: int)
    requires
        0 <= from <= upto <= program.len(),
    ensures
        borrows_before(program, from) <= borrows_before(program, upto) <= upto,
    decreases upto,
{
    if from < upto {
        lemma_borrows_monotone(program, from, upto - 1);
    } else if upto > 0 {
        lemma_borrows_monotone(program, upto - 1, upto - 1);
    }
}

/// More steps make more references and change none that was made: what
/// a reference stands for is settled by the step that makes it.
pub proof fn lemma_origins_prefix(program: Seq<Instr>, from: int, upto: int)
    requires
        0 <= from <= upto <= program.len(),
    ensures
        origins(program, from).len() <= origins(program, upto).len() <= upto,
        forall|r: int|
            0 <= r < origins(program, from).len() ==> origins(program, upto)[r] == origins(
                program,
                from,
            )[r],
    decreases upto,
{
    if from < upto {
        lemma_origins_prefix(program, from, upto - 1);
    } else if upto > 0 {
        lemma_origins_prefix(program, upto - 1, upto - 1);
    }
}

/// A reference stands for a borrow that was issued before it was made.
pub proof fn lemma_origins_bounded(program: Seq<Instr>, upto: int)
    requires
        0 <= upto <= program.len(),
    ensures
        forall|r: int|
            0 <= r < origins(program, upto).len() ==> ((#[trigger] origins(program, upto)[r])
                matches Some(b) ==> b < borrows_before(program, upto)),
    decreases upto,
{
    if upto > 0 {
        lemma_origins_bounded(program, upto - 1);
        lemma_borrows_monotone(program, upto - 1, upto - 1);
    }
}

} // verus!
