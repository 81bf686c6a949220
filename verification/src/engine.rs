//! The execution engine: pairwise co-traversal of a destination and a source
//! program, collecting per-instruction verdicts and rejections.

use vstd::prelude::*;
use crate::inst::{spec_accepts, AcceptState, Inst, InstPtr, StepByte};
use crate::program::{
    accept_state_of, is_byte_inst, step_of, synth_model, walk_at, LayoutStep, ProgFork, Program,
    WalkNext,
};

verus! {

/// A paired resumption point: where to restart the destination and the
/// source walker for an alternative branch.
#[derive(Clone, Copy, Debug, PartialEq, Eq, Structural)]
pub struct ExecFork {
    pub dst: ProgFork,
    pub src: ProgFork,
}

/// A record that a particular source instruction cannot feed a particular
/// destination instruction, and why.
#[derive(Clone, Copy, Debug, PartialEq, Eq, Structural)]
pub struct Reject {
    pub src: Option<InstPtr>,
    pub dst: InstPtr,
    pub reason: AcceptState,
}

/// The analysis gave up: its step budget was exhausted before the
/// destination program ended on every branch.
#[derive(Clone, Copy, Debug, PartialEq, Eq, Structural)]
pub enum ExecError {
    LimitExceeded,
}

/// A walker reduced to the fields its stepping reads and writes.
pub ghost struct WalkerModel {
    pub insts: Seq<Inst>,
    pub ip: InstPtr,
    pub pos: usize,
    pub took: Option<InstPtr>,
    pub current: Option<LayoutStep>,
    pub exhausted: bool,
}

/// The model of a program's walker state.
pub open spec fn wm_of(p: Program) -> WalkerModel {
    WalkerModel {
        insts: p.insts@,
        ip: p.ip,
        pos: p.pos,
        took: p.took_fork,
        current: p.current,
        exhausted: p.exhausted,
    }
}

/// The next step of a modelled walker, buffered or computed.
pub open spec fn wm_walk_next(w: WalkerModel) -> WalkNext {
    match w.current {
        Some(s) => WalkNext { ip: w.ip as int, pos: w.pos as int, took: w.took, step: Some(s) },
        None => walk_at(w.insts, w.ip as int, w.pos as int, w.took),
    }
}

/// A modelled walker after one advance, with the given lookahead left behind.
pub open spec fn wm_after(w: WalkerModel, n: WalkNext, cur: Option<LayoutStep>) -> WalkerModel {
    WalkerModel { ip: n.ip as InstPtr, pos: n.pos as usize, took: n.took, current: cur, ..w }
}

/// `Program::next` on the model: take the next step and clear the lookahead.
pub open spec fn wm_next(w: WalkerModel) -> (WalkerModel, Option<LayoutStep>) {
    let n = wm_walk_next(w);
    (wm_after(w, n, None), n.step)
}

/// `Program::next_fork` on the model: buffer the next step and report it if
/// and only if it is a fork.
pub open spec fn wm_next_fork(w: WalkerModel) -> (WalkerModel, Option<ProgFork>) {
    let n = wm_walk_next(w);
    (
        wm_after(w, n, n.step),
        match n.step {
            Some(LayoutStep::Fork(f)) => Some(f),
            _ => None,
        },
    )
}

/// The verdict vector grown to cover a spliced arena: fresh instructions get
/// their initial verdicts.
pub open spec fn grown_marks(marks: Seq<AcceptState>, insts: Seq<Inst>) -> Seq<AcceptState> {
    marks + Seq::new(
        (insts.len() - marks.len()) as nat,
        |j: int| accept_state_of(insts[marks.len() + j]),
    )
}

/// The whole state of one check, reduced to what the loop reads and writes.
pub ghost struct ExecModel {
    pub dst: WalkerModel,
    pub src: WalkerModel,
    pub forks: Seq<ExecFork>,
    pub accept: Seq<AcceptState>,
    pub reject: Seq<Reject>,
}

/// The model of an execution's state.
pub open spec fn em_of(e: Execution) -> ExecModel {
    ExecModel {
        dst: wm_of(e.dst),
        src: wm_of(e.src),
        forks: e.forks@,
        accept: e.accept@,
        reject: e.reject@,
    }
}

/// The outcome of one co-traversal step: continue in a new state, finish in a
/// final state, or stop because a splice hit its resource cap.
pub ghost enum StepOut {
    Next(ExecModel),
    Done(ExecModel),
    Bail,
}

/// Resume the most recent open alternative, or finish if none is open.
pub open spec fn pop_or_done(e: ExecModel) -> StepOut {
    if e.forks.len() > 0 {
        let f = e.forks.last();
        StepOut::Next(
            ExecModel {
                forks: e.forks.drop_last(),
                src: WalkerModel { ip: f.src.ip, pos: f.src.pos, current: None, ..e.src },
                dst: WalkerModel { ip: f.dst.ip, pos: f.dst.pos, current: None, ..e.dst },
                ..e
            },
        )
    } else {
        StepOut::Done(e)
    }
}

/// One iteration of the co-traversal, as a function of the state: open source
/// then destination alternatives are pushed; otherwise both walkers take a
/// byte step, the byte algebra judges the pair, a partial range overlap
/// splices the source program, and a refusal is recorded before resuming the
/// next alternative.
pub open spec fn exec_step(e: ExecModel) -> StepOut {
    let src_fork = ProgFork { ip: e.src.ip, pos: e.src.pos };
    let dst_fork = ProgFork { ip: e.dst.ip, pos: e.dst.pos };
    let (src1, peek_src) = wm_next_fork(e.src);
    match peek_src {
        Some(next_src) => {
            let (src2, _step_s) = wm_next(src1);
            StepOut::Next(
                ExecModel {
                    src: src2,
                    forks: e.forks.push(ExecFork { dst: dst_fork, src: next_src }),
                    ..e
                },
            )
        },
        None => {
            let (dst1, peek_dst) = wm_next_fork(e.dst);
            match peek_dst {
                Some(next_dst) => {
                    let (dst2, _step_d) = wm_next(dst1);
                    StepOut::Next(
                        ExecModel {
                            src: src1,
                            dst: dst2,
                            forks: e.forks.push(ExecFork { dst: next_dst, src: src_fork }),
                            ..e
                        },
                    )
                },
                None => {
                    let (src2, stepped_src) = wm_next(src1);
                    let s_ip = match stepped_src {
                        Some(LayoutStep::Byte { ip, .. }) => Some(ip),
                        _ => None,
                    };
                    let byte_src = match stepped_src {
                        Some(LayoutStep::Byte { byte, .. }) => byte,
                        _ => StepByte::Uninit,
                    };
                    let (dst2, stepped_dst) = wm_next(dst1);
                    match stepped_dst {
                        None => pop_or_done(ExecModel { src: src2, dst: dst2, ..e }),
                        Some(LayoutStep::Fork(_)) => pop_or_done(
                            ExecModel { src: src2, dst: dst2, ..e },
                        ),
                        Some(LayoutStep::Byte { ip: d_ip, byte: byte_dst, .. }) => {
                            let already = match s_ip {
                                Some(p) => e.accept[p as int] is Always,
                                None => false,
                            };
                            if already {
                                pop_or_done(ExecModel { src: src2, dst: dst2, ..e })
                            } else {
                                let paired = spec_accepts(byte_dst, byte_src);
                                let m = synth_model(src2.insts, src2.pos, s_ip, paired);
                                if m.bail && !src2.exhausted {
                                    StepOut::Bail
                                } else {
                                    let src3 = WalkerModel {
                                        insts: m.insts,
                                        exhausted: src2.exhausted || m.bail,
                                        ..src2
                                    };
                                    let marks2 = grown_marks(e.accept, m.insts);
                                    let forks2 = match m.fork {
                                        Some(f) => e.forks.push(ExecFork { dst: dst_fork, src: f }),
                                        None => e.forks,
                                    };
                                    let accept3 = match s_ip {
                                        Some(p) => marks2.update(p as int, m.verdict),
                                        None => marks2,
                                    };
                                    let e2 = ExecModel {
                                        src: src3,
                                        dst: dst2,
                                        forks: forks2,
                                        accept: accept3,
                                        ..e
                                    };
                                    if !(m.verdict is Always) {
                                        pop_or_done(
                                            ExecModel {
                                                reject: e2.reject.push(
                                                    Reject {
                                                        src: s_ip,
                                                        dst: d_ip,
                                                        reason: m.verdict,
                                                    },
                                                ),
                                                ..e2
                                            },
                                        )
                                    } else {
                                        StepOut::Next(e2)
                                    }
                                }
                            }
                        },
                    }
                },
            }
        },
    }
}

/// The outcome of running the co-traversal to its end: a final state, or a
/// stop (the budget ran out, or a splice hit its cap).
pub ghost enum RunOut {
    Done(ExecModel),
    Stopped,
}

/// The co-traversal run for at most `fuel` iterations.
pub open spec fn exec_run(e: ExecModel, fuel: nat) -> RunOut
    decreases fuel,
{
    if fuel == 0 {
        RunOut::Stopped
    } else {
        match exec_step(e) {
            StepOut::Next(e2) => exec_run(e2, (fuel - 1) as nat),
            StepOut::Done(e2) => RunOut::Done(e2),
            StepOut::Bail => RunOut::Stopped,
        }
    }
}

/// The rejections that survive the walk: those whose source instruction
/// exists and was never proved acceptable.
pub open spec fn filter_model(reject: Seq<Reject>, accept: Seq<AcceptState>) -> Seq<Reject>
    decreases reject.len(),
{
    if reject.len() == 0 {
        Seq::<Reject>::empty()
    } else {
        let hd = reject[0];
        let tl = filter_model(reject.skip(1), accept);
        match hd.src {
            Some(p) => if !(accept[p as int] is Always) {
                seq![hd] + tl
            } else {
                tl
            },
            None => tl,
        }
    }
}

/// `Execution::check`, as a function of the starting state and the budget:
/// run the co-traversal, then keep only the surviving rejections.  `None` is
/// a run that the budget or a splice cap stopped.
pub open spec fn check_model(e: ExecModel, fuel: nat) -> Option<ExecModel> {
    match exec_run(e, fuel) {
        RunOut::Done(e2) => Some(ExecModel { reject: filter_model(e2.reject, e2.accept), ..e2 }),
        RunOut::Stopped => None,
    }
}

/// The state of one transmutability check: the two walkers, the stack of
/// open alternatives, the best verdict so far per source instruction, and
/// the rejections recorded along the way.
pub struct Execution {
    pub forks: Vec<ExecFork>,
    pub accept: Vec<AcceptState>,
    pub reject: Vec<Reject>,
    pub dst: Program,
    pub src: Program,
}

impl Execution {
    /// Both walkers are sound, the verdict vector is indexed by the source
    /// program's instructions, every recorded rejection carries a real
    /// refusal whose source index stays within the verdict vector, and every
    /// rejection whose source instruction is not yet accepted is the byte
    /// algebra's own verdict for that pair of instructions.
    pub open spec fn wf(self) -> bool {
        &&& self.dst.wf()
        &&& self.src.wf()
        &&& self.accept@.len() == self.src.insts@.len()
        &&& forall|j: int|
            0 <= j < self.reject@.len() ==> {
                let rej = #[trigger] self.reject@[j];
                &&& !(rej.reason is Always)
                &&& (rej.src matches Some(p) ==> (p as int) < self.accept@.len())
            }
        &&& forall|j: int|
            0 <= j < self.reject@.len() ==> {
                let rej = #[trigger] self.reject@[j];
                rej.src matches Some(p) ==> !(self.accept@[p as int] is Always) ==> {
                    &&& (rej.dst as int) < self.dst.insts@.len()
                    &&& is_byte_inst(self.src.insts@[p as int])
                    &&& is_byte_inst(self.dst.insts@[rej.dst as int])
                    &&& rej.reason == spec_accepts(
                        step_of(self.dst.insts@[rej.dst as int]),
                        step_of(self.src.insts@[p as int]),
                    )
                }
            }
    }

    /// Pair a destination and a source program for checking.  Every verdict
    /// starts out `Always` for control instructions and `NeverUnreachable`
    /// for byte instructions.
    pub fn new(dst: Program, src: Program) -> (r: Execution)
        requires
            dst.wf(),
            src.wf(),
        ensures
            r.wf(),
            r.dst == dst,
            r.src == src,
            r.forks@.len() == 0,
            r.reject@.len() == 0,
            r.accept@.len() == src.insts@.len(),
            forall|j: int|
                0 <= j < r.accept@.len() ==> r.accept@[j] == accept_state_of(src.insts@[j]),
    {
        let accept = src.accept_state(0);
        Execution { forks: Vec::new(), accept, reject: Vec::new(), dst, src }
    }

    /// Resume the most recently pushed alternative, if one is open: both
    /// walkers restart at the snapshots of the popped pair.
    fn pop_fork(&mut self) -> (r: bool)
        requires
            old(self).wf(),
            old(self).src.current is None,
            old(self).dst.current is None,
        ensures
            final(self).wf(),
            final(self).accept == old(self).accept,
            final(self).reject == old(self).reject,
            final(self).dst.insts@ == old(self).dst.insts@,
            final(self).src.insts@ == old(self).src.insts@,
            final(self).src.current is None,
            final(self).dst.current is None,
            r == (old(self).forks@.len() > 0),
            r ==> ({
                let f = old(self).forks@.last();
                &&& final(self).forks@ == old(self).forks@.drop_last()
                &&& final(self).src == (Program {
                    ip: f.src.ip,
                    pos: f.src.pos,
                    current: None,
                    ..old(self).src
                })
                &&& final(self).dst == (Program {
                    ip: f.dst.ip,
                    pos: f.dst.pos,
                    current: None,
                    ..old(self).dst
                })
            }),
            !r ==> final(self).forks@ == old(self).forks@ && final(self).src == old(self).src
                && final(self).dst == old(self).dst,
    {
        match self.forks.pop() {
            Some(fork) => {
                self.src.restore_fork(fork.src);
                self.dst.restore_fork(fork.dst);
                true
            }
            None => false,
        }
    }

    /// Run the co-traversal: fork on every open alternative of either side,
    /// ask the byte-acceptance algebra about each paired byte, splice the
    /// source program on a partial range overlap, and record a rejection
    /// whenever a pair is refused.  After the walk, a rejection survives only
    /// if no later branch proved its source instruction acceptable; the
    /// surviving list is the verdict, and an empty list means the
    /// transmutation is sound.  `fuel` caps the number of iterations; an
    /// exhausted budget surfaces as an error rather than an unbounded loop.
    #[verifier::rlimit(100)]
    pub fn check(&mut self, fuel: u64) -> (r: Result<(), ExecError>)
        requires
            old(self).wf(),
            old(self).src.current is None,
            old(self).dst.current is None,
        ensures
            final(self).wf(),
            ({
                let m = check_model(em_of(*old(self)), fuel as nat);
                match r {
                    Ok(_) => m == Some(em_of(*final(self))),
                    Err(_) => m is None,
                }
            }),
            r is Ok ==> final(self).src.exhausted == old(self).src.exhausted,
            r is Ok ==> forall|j: int|
                0 <= j < final(self).reject@.len() ==> {
                    let rej = #[trigger] final(self).reject@[j];
                    &&& rej.src matches Some(p) && (p as int) < final(self).accept@.len() && !(
                    final(self).accept@[p as int] is Always)
                    &&& !(rej.reason is Always)
                    &&& (rej.src matches Some(p) ==> {
                        &&& (p as int) < final(self).src.insts@.len()
                        &&& (rej.dst as int) < final(self).dst.insts@.len()
                        &&& is_byte_inst(final(self).src.insts@[p as int])
                        &&& is_byte_inst(final(self).dst.insts@[rej.dst as int])
                        &&& rej.reason == spec_accepts(
                            step_of(final(self).dst.insts@[rej.dst as int]),
                            step_of(final(self).src.insts@[p as int]),
                        )
                    })
                },
    {
        let mut remaining = fuel;
        loop
            invariant_except_break
                exec_run(em_of(*self), remaining as nat) == exec_run(
                    em_of(*old(self)),
                    fuel as nat,
                ),
            invariant
                self.wf(),
                self.src.exhausted == old(self).src.exhausted,
            ensures
                self.wf(),
                self.src.exhausted == old(self).src.exhausted,
                exec_run(em_of(*old(self)), fuel as nat) == RunOut::Done(em_of(*self)),
            decreases remaining,
        {
            if remaining == 0 {
                proof {
                    assert(exec_run(em_of(*self), 0) == RunOut::Stopped);
                    assert(check_model(em_of(*old(self)), fuel as nat) is None);
                }
                return Err(ExecError::LimitExceeded);
            }
            remaining = remaining - 1;
            let ghost em0 = em_of(*self);
            let src_fork = self.src.save_fork();
            let dst_fork = self.dst.save_fork();
            let ghost src0 = self.src;
            let ghost dst0 = self.dst;
            let peeked_src = self.src.next_fork();
            proof {
                assert(wm_of(self.src) == wm_next_fork(em0.src).0);
                assert(peeked_src == wm_next_fork(em0.src).1);
            }
            match peeked_src {
                Some(next_src) => {
                    let ghost src1g = self.src;
                    self.src.next();
                    proof {
                        assert(wm_of(self.src) == wm_next(wm_of(src1g)).0);
                    }
                    let dst_here = self.dst.save_fork();
                    self.forks.push(ExecFork { dst: dst_here, src: next_src });
                    proof {
                        assert(exec_step(em0) == StepOut::Next(em_of(*self)));
                        assert(exec_run(em0, (remaining + 1) as nat) == exec_run(
                            em_of(*self),
                            remaining as nat,
                        ));
                    }
                    continue;
                }
                None => {}
            }
            let peeked_dst = self.dst.next_fork();
            proof {
                assert(wm_of(self.dst) == wm_next_fork(em0.dst).0);
                assert(peeked_dst == wm_next_fork(em0.dst).1);
            }
            match peeked_dst {
                Some(next_dst) => {
                    let ghost dst1g = self.dst;
                    self.dst.next();
                    proof {
                        assert(wm_of(self.dst) == wm_next(wm_of(dst1g)).0);
                    }
                    self.forks.push(ExecFork { dst: next_dst, src: src_fork });
                    proof {
                        assert(exec_step(em0) == StepOut::Next(em_of(*self)));
                        assert(exec_run(em0, (remaining + 1) as nat) == exec_run(
                            em_of(*self),
                            remaining as nat,
                        ));
                    }
                    continue;
                }
                None => {}
            }
            let stepped_src = self.src.next();
            proof {
                let w0 = crate::program::walk_next(src0);
                if w0.step is None {
                    crate::program::lemma_walk_end_stable(
                        src0.insts@,
                        src0.ip as int,
                        src0.pos as int,
                        src0.took_fork,
                    );
                }
                assert(!(stepped_src matches Some(LayoutStep::Fork(_))));
                assert(wm_of(self.src) == wm_next(wm_next_fork(em0.src).0).0);
                assert(stepped_src == wm_next(wm_next_fork(em0.src).0).1);
            }
            let (s_ip, byte_src) = match stepped_src {
                None => (None, StepByte::Uninit),
                Some(LayoutStep::Byte { ip, byte, .. }) => (Some(ip), byte),
                Some(LayoutStep::Fork(_)) => vstd::pervasive::unreached(),
            };
            let stepped_dst = self.dst.next();
            proof {
                let w0 = crate::program::walk_next(dst0);
                if w0.step is None {
                    crate::program::lemma_walk_end_stable(
                        dst0.insts@,
                        dst0.ip as int,
                        dst0.pos as int,
                        dst0.took_fork,
                    );
                }
                assert(!(stepped_dst matches Some(LayoutStep::Fork(_))));
                assert(wm_of(self.dst) == wm_next(wm_next_fork(em0.dst).0).0);
                assert(stepped_dst == wm_next(wm_next_fork(em0.dst).0).1);
            }
            let (d_ip, byte_dst) = match stepped_dst {
                None => {
                    if self.pop_fork() {
                        proof {
                            assert(exec_step(em0) == StepOut::Next(em_of(*self)));
                            assert(exec_run(em0, (remaining + 1) as nat) == exec_run(
                                em_of(*self),
                                remaining as nat,
                            ));
                        }
                        continue;
                    } else {
                        proof {
                            assert(exec_step(em0) == StepOut::Done(em_of(*self)));
                            assert(exec_run(em0, (remaining + 1) as nat) == RunOut::Done(
                                em_of(*self),
                            ));
                        }
                        break;
                    }
                }
                Some(LayoutStep::Byte { ip, byte, .. }) => (ip, byte),
                Some(LayoutStep::Fork(_)) => vstd::pervasive::unreached(),
            };
            let already_accepted = match s_ip {
                Some(ip) => self.accept[ip as usize].always(),
                None => false,
            };
            if already_accepted {
                if self.pop_fork() {
                    proof {
                        assert(exec_step(em0) == StepOut::Next(em_of(*self)));
                        assert(exec_run(em0, (remaining + 1) as nat) == exec_run(
                            em_of(*self),
                            remaining as nat,
                        ));
                    }
                    continue;
                } else {
                    proof {
                        assert(exec_step(em0) == StepOut::Done(em_of(*self)));
                        assert(exec_run(em0, (remaining + 1) as nat) == RunOut::Done(
                            em_of(*self),
                        ));
                    }
                    break;
                }
            }
            let ghost src2g = self.src;
            let ghost marks0 = self.accept@;
            let paired = byte_dst.accepts(&byte_src);
            let pre_exhausted = self.src.exhausted;
            let (verdict, fork) = self.src.synthetic_fork(s_ip, paired, &mut self.accept);
            let ghost mg = synth_model(src2g.insts@, src2g.pos, s_ip, paired);
            proof {
                assert(self.src.insts@ == mg.insts);
                assert(verdict == mg.verdict && fork == mg.fork);
                assert(self.src.exhausted == (src2g.exhausted || mg.bail));
                assert(self.accept@ =~= grown_marks(marks0, mg.insts));
            }
            if self.src.exhausted && !pre_exhausted {
                // a splice ran out of resources: surface it rather than
                // report a verdict computed from an unspliced program
                proof {
                    assert(exec_step(em0) == StepOut::Bail);
                    assert(exec_run(em0, (remaining + 1) as nat) == RunOut::Stopped);
                    assert(check_model(em_of(*old(self)), fuel as nat) is None);
                }
                return Err(ExecError::LimitExceeded);
            }
            match fork {
                Some(src_fork_new) => {
                    self.forks.push(ExecFork { dst: dst_fork, src: src_fork_new });
                }
                None => {}
            }
            match s_ip {
                Some(ip) => {
                    self.accept[ip as usize] = verdict;
                }
                None => {}
            }
            if !verdict.always() {
                self.reject.push(Reject { src: s_ip, dst: d_ip, reason: verdict });
                if self.pop_fork() {
                    proof {
                        assert(exec_step(em0) == StepOut::Next(em_of(*self)));
                        assert(exec_run(em0, (remaining + 1) as nat) == exec_run(
                            em_of(*self),
                            remaining as nat,
                        ));
                    }
                    continue;
                } else {
                    proof {
                        assert(exec_step(em0) == StepOut::Done(em_of(*self)));
                        assert(exec_run(em0, (remaining + 1) as nat) == RunOut::Done(
                            em_of(*self),
                        ));
                    }
                    break;
                }
            }
            proof {
                assert(exec_step(em0) == StepOut::Next(em_of(*self)));
                assert(exec_run(em0, (remaining + 1) as nat) == exec_run(
                    em_of(*self),
                    remaining as nat,
                ));
            }
        }
        // keep a rejection only if its source instruction exists and no
        // later branch proved that instruction acceptable
        let ghost eml = em_of(*self);
        let mut kept: Vec<Reject> = Vec::new();
        let mut i: usize = 0;
        proof {
            assert(self.reject@.skip(0) =~= self.reject@);
            assert(kept@ + filter_model(self.reject@, self.accept@) =~= filter_model(
                self.reject@,
                self.accept@,
            ));
        }
        while i < self.reject.len()
            invariant
                self.wf(),
                0 <= i <= self.reject@.len(),
                kept@ + filter_model(self.reject@.skip(i as int), self.accept@) == filter_model(
                    self.reject@,
                    self.accept@,
                ),
                forall|j: int|
                    0 <= j < kept@.len() ==> {
                        let rej = #[trigger] kept@[j];
                        &&& rej.src matches Some(p) && (p as int) < self.accept@.len() && !(
                        self.accept@[p as int] is Always)
                        &&& !(rej.reason is Always)
                        &&& (rej.src matches Some(p) ==> {
                            &&& (p as int) < self.src.insts@.len()
                            &&& (rej.dst as int) < self.dst.insts@.len()
                            &&& is_byte_inst(self.src.insts@[p as int])
                            &&& is_byte_inst(self.dst.insts@[rej.dst as int])
                            &&& rej.reason == spec_accepts(
                                step_of(self.dst.insts@[rej.dst as int]),
                                step_of(self.src.insts@[p as int]),
                            )
                        })
                    },
            decreases self.reject@.len() - i,
        {
            let ghost kept0 = kept@;
            let rej = self.reject[i];
            proof {
                assert(self.reject@.skip(i as int)[0] == rej);
                assert(self.reject@.skip(i as int).skip(1) =~= self.reject@.skip(i as int + 1));
            }
            match rej.src {
                Some(srcp) => {
                    if !self.accept[srcp as usize].always() {
                        kept.push(rej);
                        proof {
                            assert(kept@ + filter_model(
                                self.reject@.skip(i as int + 1),
                                self.accept@,
                            ) =~= kept0 + filter_model(
                                self.reject@.skip(i as int),
                                self.accept@,
                            ));
                        }
                    } else {
                        proof {
                            assert(filter_model(self.reject@.skip(i as int + 1), self.accept@)
                                == filter_model(self.reject@.skip(i as int), self.accept@));
                        }
                    }
                }
                None => {
                    proof {
                        assert(filter_model(self.reject@.skip(i as int + 1), self.accept@)
                            == filter_model(self.reject@.skip(i as int), self.accept@));
                    }
                }
            }
            i = i + 1;
        }
        proof {
            assert(self.reject@.skip(i as int) =~= Seq::<Reject>::empty());
            assert(filter_model(self.reject@.skip(i as int), self.accept@)
                =~= Seq::<Reject>::empty());
            assert(kept@ + filter_model(self.reject@.skip(i as int), self.accept@) =~= kept@);
            assert(kept@ == filter_model(eml.reject, eml.accept));
        }
        self.reject = kept;
        proof {
            assert(self.wf());
            assert(em_of(*self) == ExecModel { reject: filter_model(eml.reject, eml.accept), ..eml });
            assert(check_model(em_of(*old(self)), fuel as nat) == Some(em_of(*self)));
        }
        Ok(())
    }
}

} // verus!
