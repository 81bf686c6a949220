//! The byte-acceptance algebra, the program walker, and synthetic forking
//! exercised on hand-built programs.

use transmute_check::inst::{
    accept_range, AcceptState, Inst, InstByte, InstByteRange, InstPtr, InstSplit, RangeInclusive,
    StepByte,
};
use transmute_check::engine::{ExecError, Execution};
use transmute_check::program::{LayoutStep, ProgFork, Program};

fn range(start: u8, end: u8) -> RangeInclusive {
    RangeInclusive { start, end }
}

fn byte_range(start: u8, end: u8) -> Inst {
    Inst::ByteRange(InstByteRange { private: false, range: range(start, end), alternate: None })
}

#[test]
fn range_containment_and_overlap() {
    assert!(range(0, 10).contains_range(range(2, 5)));
    assert!(!range(2, 5).contains_range(range(0, 10)));
    assert!(range(0, 5).intersects(range(5, 9)));
    assert!(!range(0, 4).intersects(range(5, 9)));
}

#[test]
fn range_verdicts() {
    // containment accepts, partial overlap asks for a split, disjoint rejects
    assert_eq!(accept_range(range(0, 255), range(3, 7)), AcceptState::Always);
    assert_eq!(
        accept_range(range(0, 1), range(0, 255)),
        AcceptState::MaybeCheckRange(range(0, 1), range(0, 255))
    );
    assert_eq!(
        accept_range(range(0, 1), range(2, 255)),
        AcceptState::NeverOutOfRange(range(0, 1), range(2, 255))
    );
}

#[test]
fn byte_acceptance_truth_table() {
    let uninit = StepByte::Uninit;
    let pub_byte = |b: u8| StepByte::Byte(false, b);
    let priv_byte = |b: u8| StepByte::Byte(true, b);
    let pub_range = |a: u8, b: u8| StepByte::ByteRange(false, range(a, b));
    let priv_range = |a: u8, b: u8| StepByte::ByteRange(true, range(a, b));

    // an unspecified destination byte accepts anything
    assert_eq!(uninit.accepts(&pub_byte(7)), AcceptState::Always);
    assert_eq!(uninit.accepts(&priv_range(0, 9)), AcceptState::Always);
    assert_eq!(uninit.accepts(&uninit), AcceptState::Always);
    // nothing specified accepts an unspecified source byte
    assert_eq!(pub_byte(0).accepts(&uninit), AcceptState::NeverReadUninit);
    assert_eq!(pub_range(0, 255).accepts(&uninit), AcceptState::NeverReadUninit);
    // privacy on either side refuses, the destination side first
    assert_eq!(priv_byte(0).accepts(&pub_byte(0)), AcceptState::NeverWritePrivate);
    assert_eq!(priv_range(0, 1).accepts(&priv_byte(0)), AcceptState::NeverWritePrivate);
    assert_eq!(pub_byte(0).accepts(&priv_byte(0)), AcceptState::NeverReadPrivate);
    assert_eq!(pub_range(0, 255).accepts(&priv_range(0, 1)), AcceptState::NeverReadPrivate);
    // constant tags must match exactly
    assert_eq!(pub_byte(5).accepts(&pub_byte(5)), AcceptState::Always);
    assert_eq!(pub_byte(5).accepts(&pub_byte(6)), AcceptState::NeverTagMismatch);
    // ranges compare by the range algebra
    assert_eq!(pub_range(0, 255).accepts(&pub_byte(9)), AcceptState::Always);
    assert_eq!(pub_byte(9).accepts(&pub_range(0, 255)),
        AcceptState::MaybeCheckRange(range(9, 9), range(0, 255)));
    assert_eq!(pub_range(0, 7).accepts(&pub_range(8, 15)),
        AcceptState::NeverOutOfRange(range(0, 7), range(8, 15)));
}

#[test]
fn patch_helpers_fill_in_targets() {
    let mut split = Inst::new_invalid_split();
    assert_eq!(split, Inst::Split(InstSplit { alternate: InstPtr::MAX }));
    split.patch_split(4);
    assert_eq!(split, Inst::Split(InstSplit { alternate: 4 }));
    let mut goto = Inst::new_invalid_goto();
    assert_eq!(goto, Inst::JoinGoto(InstPtr::MAX));
    goto.patch_goto(9);
    assert_eq!(goto, Inst::JoinGoto(9));
}

#[test]
fn accept_state_always_matches_only_always() {
    assert!(AcceptState::Always.always());
    assert!(!AcceptState::NeverUnreachable.always());
    assert!(!AcceptState::NeverTagMismatch.always());
    assert!(!AcceptState::MaybeCheckRange(range(0, 1), range(0, 2)).always());
}

#[test]
fn walker_yields_bytes_joins_and_forks() {
    // 0: Split -> 3; 1: ByteRange 0..=1; 2: JoinGoto 4; 3: Byte 7; 4: Accept
    let insts = vec![
        Inst::Split(InstSplit { alternate: 3 }),
        byte_range(0, 1),
        Inst::JoinGoto(4),
        Inst::Byte(InstByte { private: false, byte: 7 }),
        Inst::Accept,
    ];
    let mut prog = Program::new(insts, "p");
    // the split yields its fork, then the in-order path continues
    assert_eq!(prog.next(), Some(LayoutStep::Fork(ProgFork { ip: 3, pos: 0 })));
    assert_eq!(
        prog.next(),
        Some(LayoutStep::Byte { ip: 1, pos: 0, byte: StepByte::ByteRange(false, range(0, 1)) })
    );
    // the join is silent and the accept ends the stream
    assert_eq!(prog.next(), None);
    // resuming at the fork walks the alternative branch
    prog.restore_fork(ProgFork { ip: 3, pos: 0 });
    assert_eq!(
        prog.next(),
        Some(LayoutStep::Byte { ip: 3, pos: 0, byte: StepByte::Byte(false, 7) })
    );
    assert_eq!(prog.next(), None);
}

#[test]
fn peeking_a_fork_does_not_consume_it() {
    let insts = vec![Inst::Split(InstSplit { alternate: 2 }), Inst::Accept, Inst::Accept];
    let mut prog = Program::new(insts, "p");
    let saved = prog.save_fork();
    assert_eq!(saved, ProgFork { ip: 0, pos: 0 });
    assert_eq!(prog.next_fork(), Some(ProgFork { ip: 2, pos: 0 }));
    // the peeked step is still buffered for next
    assert_eq!(prog.next(), Some(LayoutStep::Fork(ProgFork { ip: 2, pos: 0 })));
    assert_eq!(prog.next(), None);
    // a byte step peeks as no fork
    let mut prog2 = Program::new(vec![byte_range(0, 9), Inst::Accept], "q");
    assert_eq!(prog2.next_fork(), None);
    assert!(matches!(prog2.next(), Some(LayoutStep::Byte { .. })));
}

#[test]
fn range_with_branch_yields_fork_first_then_byte() {
    let insts = vec![
        Inst::ByteRange(InstByteRange { private: false, range: range(0, 4), alternate: Some(2) }),
        Inst::Accept,
        byte_range(5, 9),
        Inst::Accept,
    ];
    let mut prog = Program::new(insts, "p");
    assert_eq!(prog.next(), Some(LayoutStep::Fork(ProgFork { ip: 2, pos: 0 })));
    assert_eq!(
        prog.next(),
        Some(LayoutStep::Byte { ip: 0, pos: 0, byte: StepByte::ByteRange(false, range(0, 4)) })
    );
    assert_eq!(prog.next(), None);
}

#[test]
fn initial_verdicts_follow_instruction_kind() {
    let insts = vec![
        Inst::Split(InstSplit { alternate: 2 }),
        byte_range(0, 1),
        Inst::JoinGoto(4),
        Inst::Uninit,
        Inst::Accept,
    ];
    let prog = Program::new(insts, "p");
    let states = prog.accept_state(0);
    assert_eq!(
        states,
        vec![
            AcceptState::Always,
            AcceptState::NeverUnreachable,
            AcceptState::Always,
            AcceptState::NeverUnreachable,
            AcceptState::Always,
        ]
    );
    // a later start yields the tail of the same vector
    assert_eq!(prog.accept_state(3).len(), 2);
}

#[test]
fn synthetic_fork_splits_both_missing_sides() {
    // one source byte accepting 0..=255, asked to meet a destination range
    // 5..=10: the instruction narrows to the overlap and the two missing
    // sub-ranges hang off its alternate chain
    let insts = vec![byte_range(0, 255), Inst::Accept];
    let mut prog = Program::new(insts, "p");
    let mut marks = prog.accept_state(0);
    let verdict = AcceptState::MaybeCheckRange(range(5, 10), range(0, 255));
    let (state, fork) = prog.synthetic_fork(Some(0), verdict, &mut marks);
    assert_eq!(state, AcceptState::Always);
    let fork = fork.unwrap();
    // the narrowed instruction points at the last block spliced in
    let (lo_at, hi_at) = match prog.insts[0] {
        Inst::ByteRange(r) => {
            assert_eq!(r.range, range(5, 10));
            let hi_at = r.alternate.unwrap() as usize;
            let lo_at = match prog.insts[hi_at] {
                Inst::ByteRange(h) => {
                    assert_eq!(h.range, range(11, 255));
                    h.alternate.unwrap() as usize
                }
                _ => panic!("expected the high block"),
            };
            (lo_at, hi_at)
        }
        _ => panic!("expected a byte range"),
    };
    assert_eq!(fork.ip as usize, hi_at);
    match prog.insts[lo_at] {
        Inst::ByteRange(l) => {
            assert_eq!(l.range, range(0, 4));
            assert_eq!(l.alternate, None);
        }
        _ => panic!("expected the low block"),
    }
    // the verdict vector grew in step with the arena
    assert_eq!(marks.len(), prog.insts.len());
    // the narrowed range and the two blocks cover all of 0..=255
    let mut covered = vec![false; 256];
    for idx in [0usize, lo_at, hi_at] {
        if let Inst::ByteRange(r) = prog.insts[idx] {
            for b in r.range.start..=r.range.end {
                covered[b as usize] = true;
            }
        }
    }
    assert!(covered.iter().all(|c| *c));
}

#[test]
fn starved_splice_is_recorded_and_surfaced() {
    // a source program whose tail has no terminal: the splice's tail copy
    // cannot finish, so the program is marked exhausted and the verdict
    // comes back unchanged with the arena as it was
    let insts = vec![byte_range(0, 255)];
    let mut prog = Program::new(insts, "p");
    let mut marks = prog.accept_state(0);
    let verdict = AcceptState::MaybeCheckRange(range(5, 10), range(0, 255));
    let (state, fork) = prog.synthetic_fork(Some(0), verdict, &mut marks);
    assert_eq!(state, verdict);
    assert!(fork.is_none());
    assert!(prog.exhausted);
    assert_eq!(prog.insts, vec![byte_range(0, 255)]);
    // the engine surfaces the starved splice as an error instead of
    // reporting a verdict computed from an unspliced program
    let dst = Program::new(vec![byte_range(0, 1), Inst::Accept], "d");
    let src = Program::new(vec![byte_range(0, 255)], "s");
    let mut execution = Execution::new(dst, src);
    assert_eq!(execution.check(1000), Err(ExecError::LimitExceeded));
}

#[test]
fn synthetic_fork_leaves_other_verdicts_alone() {
    let insts = vec![byte_range(0, 255), Inst::Accept];
    let mut prog = Program::new(insts, "p");
    let mut marks = prog.accept_state(0);
    // a verdict that needs no split comes back unchanged
    let (state, fork) = prog.synthetic_fork(Some(0), AcceptState::NeverTagMismatch, &mut marks);
    assert_eq!(state, AcceptState::NeverTagMismatch);
    assert!(fork.is_none());
    assert_eq!(prog.insts.len(), 2);
    // so does one whose ranges do not intersect
    let verdict = AcceptState::MaybeCheckRange(range(0, 1), range(3, 9));
    let (state, fork) = prog.synthetic_fork(Some(0), verdict, &mut marks);
    assert_eq!(state, verdict);
    assert!(fork.is_none());
    // and one with no source instruction
    let verdict = AcceptState::MaybeCheckRange(range(0, 5), range(3, 9));
    let (state, fork) = prog.synthetic_fork(None, verdict, &mut marks);
    assert_eq!(state, verdict);
    assert!(fork.is_none());
    assert_eq!(prog.insts.len(), 2);
}
