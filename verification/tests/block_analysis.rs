use lifetime_analyzer::binding::DeclaredType;
use lifetime_analyzer::block::{analyze_block, BorrowSpan};
use lifetime_analyzer::diagnostic::{AnalysisError, Failure};
use lifetime_analyzer::lifetime::Mutability;
use lifetime_analyzer::liveness::Liveness;
use lifetime_analyzer::program::{Instr, Span};
use lifetime_analyzer::region::Region;

fn declare(name: u64) -> Instr {
    Instr::Declare { name, ty: DeclaredType::Owned }
}

fn shared(binding: usize, region: usize) -> Instr {
    Instr::Borrow { binding, kind: Mutability::Shared, region }
}

fn exclusive(binding: usize, region: usize) -> Instr {
    Instr::Borrow { binding, kind: Mutability::Exclusive, region }
}

fn failure(error: AnalysisError, position: usize) -> Failure {
    Failure { error, position }
}

#[test]
fn empty_block_has_one_region() {
    let report = analyze_block(&vec![]).unwrap();
    assert_eq!(report.regions, vec![Region { parent: None, order: 0, open: false }]);
    assert_eq!(report.extents, vec![Span { start: 0, end: 0 }]);
    assert_eq!(report.borrows, vec![]);
}

#[test]
fn shared_borrows_end_at_their_last_use_and_the_value_moves() {
    let program = vec![
        declare(1),
        shared(0, 0),
        shared(0, 0),
        Instr::Use { reference: 0 },
        Instr::Use { reference: 1 },
        Instr::Move { binding: 0 },
    ];
    let report = analyze_block(&program).unwrap();
    assert_eq!(
        report.borrows,
        vec![
            BorrowSpan { binding: 0, kind: Mutability::Shared, region: 0, issued_at: 1, released_at: 3 },
            BorrowSpan { binding: 0, kind: Mutability::Shared, region: 0, issued_at: 2, released_at: 4 },
        ]
    );
    assert_eq!(report.extents, vec![Span { start: 0, end: 6 }]);
}

#[test]
fn move_before_the_last_use_of_a_borrow_is_refused() {
    let program = vec![
        declare(1),
        shared(0, 0),
        shared(0, 0),
        Instr::Use { reference: 0 },
        Instr::Move { binding: 0 },
        Instr::Use { reference: 1 },
    ];
    assert_eq!(
        analyze_block(&program),
        Err(failure(AnalysisError::CannotMoveBorrowed { binding: 0 }, 4))
    );
}

#[test]
fn shared_borrow_before_the_last_use_of_an_exclusive_borrow_conflicts() {
    let program = vec![
        declare(1),
        exclusive(0, 0),
        shared(0, 0),
        Instr::Use { reference: 0 },
    ];
    assert_eq!(
        analyze_block(&program),
        Err(failure(AnalysisError::ConflictingBorrow { binding: 0, region: 0 }, 2))
    );
}

#[test]
fn shared_borrow_after_the_last_use_of_an_exclusive_borrow_is_accepted() {
    let program = vec![
        declare(1),
        exclusive(0, 0),
        Instr::Use { reference: 0 },
        Instr::Use { reference: 0 },
        shared(0, 0),
        Instr::Use { reference: 1 },
        Instr::Read { binding: 0 },
    ];
    let report = analyze_block(&program).unwrap();
    assert_eq!(
        report.borrows,
        vec![
            BorrowSpan { binding: 0, kind: Mutability::Exclusive, region: 0, issued_at: 1, released_at: 3 },
            BorrowSpan { binding: 0, kind: Mutability::Shared, region: 0, issued_at: 4, released_at: 5 },
        ]
    );
}

#[test]
fn borrow_that_is_never_used_ends_at_once() {
    let program = vec![declare(1), exclusive(0, 0), exclusive(0, 0), Instr::Move { binding: 0 }];
    let report = analyze_block(&program).unwrap();
    assert_eq!(report.borrows[0].released_at, 1);
    assert_eq!(report.borrows[1].released_at, 2);
}

#[test]
fn reference_made_through_another_keeps_the_borrow_outstanding() {
    // let r = pass_through(&s); s moved; r used
    let refused = vec![
        declare(1),
        shared(0, 0),
        Instr::Reborrow { through: 0 },
        Instr::Move { binding: 0 },
        Instr::Use { reference: 1 },
    ];
    assert_eq!(
        analyze_block(&refused),
        Err(failure(AnalysisError::CannotMoveBorrowed { binding: 0 }, 3))
    );
    let accepted = vec![
        declare(1),
        exclusive(0, 0),
        Instr::Reborrow { through: 0 },
        Instr::Use { reference: 1 },
        Instr::Reborrow { through: 1 },
        Instr::Use { reference: 2 },
        exclusive(0, 0),
    ];
    let report = analyze_block(&accepted).unwrap();
    assert_eq!(
        report.borrows,
        vec![
            BorrowSpan { binding: 0, kind: Mutability::Exclusive, region: 0, issued_at: 1, released_at: 5 },
            BorrowSpan { binding: 0, kind: Mutability::Exclusive, region: 0, issued_at: 6, released_at: 6 },
        ]
    );
}

#[test]
fn value_dropped_under_a_borrow_of_an_outer_region_dangles() {
    let program = vec![
        Instr::Open,
        declare(1),
        shared(0, 0),
        Instr::Close,
        Instr::Use { reference: 0 },
    ];
    assert_eq!(
        analyze_block(&program),
        Err(failure(AnalysisError::DanglingAfterDrop { binding: 0, region: 0 }, 3))
    );
}

#[test]
fn value_dropped_after_the_last_use_of_its_borrow_is_in_order() {
    let program = vec![
        Instr::Open,
        declare(1),
        shared(0, 0),
        Instr::Use { reference: 0 },
        Instr::Close,
    ];
    let report = analyze_block(&program).unwrap();
    assert_eq!(
        report.regions,
        vec![
            Region { parent: None, order: 0, open: false },
            Region { parent: Some(0), order: 0, open: false },
        ]
    );
    assert_eq!(report.extents, vec![Span { start: 0, end: 5 }, Span { start: 0, end: 4 }]);
}

#[test]
fn borrow_ends_with_its_region_at_the_latest() {
    // the reference belongs to the inner region; a use after the close is out of scope
    let program = vec![
        declare(1),
        Instr::Open,
        shared(0, 1),
        Instr::Close,
        exclusive(0, 0),
        Instr::Use { reference: 0 },
    ];
    assert_eq!(
        analyze_block(&program),
        Err(failure(AnalysisError::RegionContractViolation { region: 1 }, 5))
    );
    let closed = vec![
        declare(1),
        Instr::Open,
        shared(0, 1),
        Instr::Open,
        Instr::Close,
        Instr::Use { reference: 0 },
        Instr::Close,
        exclusive(0, 0),
    ];
    let report = analyze_block(&closed).unwrap();
    assert_eq!(report.borrows[0].released_at, 5);
    assert_eq!(
        report.extents,
        vec![Span { start: 0, end: 8 }, Span { start: 1, end: 6 }, Span { start: 3, end: 4 }]
    );
    assert_eq!(report.regions[2], Region { parent: Some(1), order: 0, open: false });
}

#[test]
fn region_close_ends_a_borrow_that_is_used_no_more() {
    let program = vec![
        declare(1),
        Instr::Open,
        declare(2),
        shared(1, 1),
        Instr::Use { reference: 0 },
        Instr::Close,
        Instr::Open,
        Instr::Close,
    ];
    let report = analyze_block(&program).unwrap();
    assert_eq!(
        report.regions,
        vec![
            Region { parent: None, order: 0, open: false },
            Region { parent: Some(0), order: 0, open: false },
            Region { parent: Some(0), order: 1, open: false },
        ]
    );
    assert_eq!(report.borrows[0].released_at, 4);
}

#[test]
fn partial_move_then_field_read_then_whole_read() {
    let program = vec![
        declare(1),
        Instr::MoveField { binding: 0, field: 0 },
        Instr::ReadField { binding: 0, field: 1 },
        Instr::Read { binding: 0 },
    ];
    assert_eq!(
        analyze_block(&program),
        Err(failure(AnalysisError::UseOfPartiallyMoved { binding: 0, field: 0 }, 3))
    );
    let accepted = vec![
        declare(1),
        Instr::MoveField { binding: 0, field: 0 },
        Instr::ReadField { binding: 0, field: 1 },
    ];
    assert!(analyze_block(&accepted).is_ok());
}

#[test]
fn use_after_move_is_refused() {
    let program = vec![declare(1), Instr::Move { binding: 0 }, Instr::Read { binding: 0 }];
    assert_eq!(analyze_block(&program), Err(failure(AnalysisError::UseAfterMove { binding: 0 }, 2)));
    let again = vec![declare(1), Instr::Move { binding: 0 }, Instr::Move { binding: 0 }];
    assert_eq!(analyze_block(&again), Err(failure(AnalysisError::UseAfterMove { binding: 0 }, 2)));
    let borrow = vec![declare(1), Instr::Move { binding: 0 }, shared(0, 0)];
    assert_eq!(analyze_block(&borrow), Err(failure(AnalysisError::UseAfterMove { binding: 0 }, 2)));
}

#[test]
fn steps_outside_every_scope_are_fatal() {
    let undeclared = vec![Instr::Read { binding: 0 }];
    assert_eq!(
        analyze_block(&undeclared),
        Err(failure(AnalysisError::RegionContractViolation { region: 0 }, 0))
    );
    let unmade = vec![declare(1), Instr::Use { reference: 0 }];
    assert_eq!(
        analyze_block(&unmade),
        Err(failure(AnalysisError::RegionContractViolation { region: 0 }, 1))
    );
    let later = vec![declare(1), Instr::Use { reference: 0 }, shared(0, 0)];
    assert_eq!(
        analyze_block(&later),
        Err(failure(AnalysisError::RegionContractViolation { region: 0 }, 1))
    );
    let dropped = vec![Instr::Open, declare(1), Instr::Close, Instr::Read { binding: 0 }];
    assert_eq!(
        analyze_block(&dropped),
        Err(failure(AnalysisError::RegionContractViolation { region: 1 }, 3))
    );
    let closes_itself = vec![Instr::Close];
    assert_eq!(
        analyze_block(&closes_itself),
        Err(failure(AnalysisError::RegionContractViolation { region: 0 }, 0))
    );
    let unclosed = vec![Instr::Open, Instr::Open, Instr::Close];
    assert_eq!(
        analyze_block(&unclosed),
        Err(failure(AnalysisError::RegionContractViolation { region: 1 }, 3))
    );
    let unknown_region = vec![declare(1), shared(0, 4)];
    assert_eq!(
        analyze_block(&unknown_region),
        Err(failure(AnalysisError::RegionContractViolation { region: 4 }, 1))
    );
}

#[test]
fn every_borrow_lies_inside_the_regions_around_it() {
    let program = vec![
        declare(1),
        Instr::Open,
        declare(2),
        Instr::Open,
        shared(0, 2),
        shared(1, 1),
        Instr::Use { reference: 0 },
        Instr::Close,
        Instr::Use { reference: 1 },
        exclusive(1, 1),
        Instr::Close,
        exclusive(0, 0),
        Instr::Use { reference: 3 },
    ];
    let report = analyze_block(&program).unwrap();
    assert_eq!(report.borrows.len(), 4);
    for span in &report.borrows {
        let mut region = Some(span.region);
        while let Some(r) = region {
            assert!(report.extents[r].start <= span.issued_at);
            assert!(span.issued_at <= span.released_at);
            assert!(span.released_at <= report.extents[r].end);
            region = report.regions[r].parent;
        }
    }
    assert_eq!(report.borrows[0].released_at, 6);
    assert_eq!(report.borrows[1].released_at, 8);
    assert_eq!(report.borrows[2].released_at, 9);
    assert_eq!(report.borrows[3].released_at, 12);
}

#[test]
fn liveness_finds_the_last_use_of_each_borrow() {
    let program = vec![
        declare(1),
        shared(0, 0),
        shared(0, 0),
        Instr::Use { reference: 0 },
        Instr::Reborrow { through: 1 },
        Instr::Use { reference: 0 },
        Instr::Use { reference: 2 },
        Instr::Use { reference: 9 },
    ];
    let live = Liveness::compute(&program);
    assert_eq!(live.origin(0), Some(0));
    assert_eq!(live.origin(1), Some(1));
    assert_eq!(live.origin(2), Some(1));
    assert_eq!(live.origin(3), None);
    assert_eq!(live.last_use(0), Some(5));
    assert_eq!(live.last_use(1), Some(6));
    assert_eq!(live.last_use(2), None);
}

#[test]
fn random_programs_give_nested_reports_or_a_failure_in_range() {
    let mut seed: u64 = 0x9e37_79b9_7f4a_7c15;
    let mut next = move |bound: u64| {
        seed ^= seed << 13;
        seed ^= seed >> 7;
        seed ^= seed << 17;
        seed % bound
    };
    let mut accepted = 0;
    for _ in 0..400 {
        let length = next(14) as usize;
        let mut program = Vec::new();
        let mut depth = 0;
        for _ in 0..length {
            let step = match next(10) {
                0 => {
                    depth += 1;
                    Instr::Open
                }
                1 if depth > 0 => {
                    depth -= 1;
                    Instr::Close
                }
                2 | 3 => declare(next(5)),
                4 => Instr::Read { binding: next(3) as usize },
                5 => Instr::Move { binding: next(3) as usize },
                6 => shared(next(3) as usize, next(3) as usize),
                7 => exclusive(next(3) as usize, next(3) as usize),
                8 => Instr::Reborrow { through: next(3) as usize },
                _ => Instr::Use { reference: next(4) as usize },
            };
            program.push(step);
        }
        for _ in 0..depth {
            program.push(Instr::Close);
        }
        match analyze_block(&program) {
            Ok(report) => {
                accepted += 1;
                assert_eq!(report.regions.len(), report.extents.len());
                assert_eq!(report.extents[0], Span { start: 0, end: program.len() });
                for (r, node) in report.regions.iter().enumerate() {
                    assert!(!node.open);
                    assert!(report.extents[r].start <= report.extents[r].end);
                    if let Some(q) = node.parent {
                        assert!(report.extents[q].start <= report.extents[r].start);
                        assert!(report.extents[r].end <= report.extents[q].end);
                    }
                }
                for span in &report.borrows {
                    assert!(matches!(program[span.issued_at], Instr::Borrow { .. }));
                    let mut region = Some(span.region);
                    while let Some(r) = region {
                        assert!(report.extents[r].start <= span.issued_at);
                        assert!(span.issued_at <= span.released_at);
                        assert!(span.released_at <= report.extents[r].end);
                        region = report.regions[r].parent;
                    }
                }
                // two borrows of one binding overlap only if both are shared
                for (i, a) in report.borrows.iter().enumerate() {
                    for b in &report.borrows[i + 1..] {
                        if a.binding == b.binding && b.issued_at < a.released_at {
                            assert_eq!((a.kind, b.kind), (Mutability::Shared, Mutability::Shared));
                        }
                    }
                }
            }
            Err(failure) => assert!(failure.position <= program.len()),
        }
    }
    assert!(accepted > 20);
}
