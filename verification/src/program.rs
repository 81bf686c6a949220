//! Programs of byte-automaton instructions and their lazy walkers.

use vstd::prelude::*;
use crate::inst::{
    in_range, range_contains, range_intersects, AcceptState, Inst, InstByteRange, InstPtr,
    InstSplit, RangeInclusive, StepByte,
};

verus! {

/// A snapshot sufficient to resume a walker at an alternative branch.
#[derive(Clone, Copy, Debug, PartialEq, Eq, Structural)]
pub struct ProgFork {
    pub ip: InstPtr,
    pub pos: usize,
}

/// One step of the lazy walk over a program.
#[derive(Clone, Copy, Debug, PartialEq, Eq, Structural)]
pub enum LayoutStep {
    /// A byte-level step: the instruction at `ip` admits the bytes of
    /// `byte` at offset `pos` within the type.
    Byte { ip: InstPtr, pos: usize, byte: StepByte },
    /// A non-deterministic choice that can be resumed later.
    Fork(ProgFork),
}

/// A byte automaton: a flat, append-only instruction arena together with the
/// state of its walker.  `ip` is the instruction pointer, `pos` the byte
/// offset within the type; `took_fork` remembers a byte-range instruction
/// that has already yielded its fork, so that the next step yields the byte
/// itself; `current` is a one-step lookahead buffer; `exhausted` records
/// that a synthetic fork hit its resource cap and left the program without
/// the splice it owed.
pub struct Program {
    pub insts: Vec<Inst>,
    pub ip: InstPtr,
    pub pos: usize,
    pub name: &'static str,
    pub took_fork: Option<InstPtr>,
    pub current: Option<LayoutStep>,
    pub exhausted: bool,
}

/// Whether an instruction yields a byte-level step.
pub open spec fn is_byte_inst(inst: Inst) -> bool {
    inst is Uninit || inst is Byte || inst is ByteRange
}

/// The byte-level step an instruction denotes.
pub open spec fn step_of(inst: Inst) -> StepByte {
    match inst {
        Inst::Uninit => StepByte::Uninit,
        Inst::Byte(b) => StepByte::Byte(b.private, b.byte),
        Inst::ByteRange(r) => StepByte::ByteRange(r.private, r.range),
        _ => StepByte::Uninit,
    }
}

/// Branches and joins only ever point forward, which is what makes every
/// in-order walk terminate; pointer and reference instructions never occur.
pub open spec fn inst_forward(inst: Inst, i: int) -> bool {
    match inst {
        Inst::Split(s) => s.alternate > i,
        Inst::JoinGoto(t) => t > i,
        Inst::Pointer(_) => false,
        Inst::Ref(_) => false,
        _ => true,
    }
}

/// Well-formed instruction arena: indexable by `InstPtr`, all branches and
/// joins forward.
pub open spec fn wf_insts(insts: Seq<Inst>) -> bool {
    &&& insts.len() <= u32::MAX
    &&& forall|i: int| 0 <= i < insts.len() ==> inst_forward(#[trigger] insts[i], i)
}

/// The initial verdict of an instruction: control instructions are trivially
/// acceptable, byte instructions start out unreached.
pub open spec fn accept_state_of(inst: Inst) -> AcceptState {
    match inst {
        Inst::Split(_) => AcceptState::Always,
        Inst::JoinGoto(_) => AcceptState::Always,
        Inst::Accept => AcceptState::Always,
        _ => AcceptState::NeverUnreachable,
    }
}

/// The instruction pointer after skipping the chain of joins starting at
/// `ip`: the first position holding a non-join instruction, or the first
/// out-of-bounds target.
pub open spec fn resolve_ip(insts: Seq<Inst>, ip: int) -> int
    decreases insts.len() - ip,
{
    if 0 <= ip < insts.len() {
        match insts[ip] {
            Inst::JoinGoto(t) => if ip < t < insts.len() {
                resolve_ip(insts, t as int)
            } else {
                t as int
            },
            _ => ip,
        }
    } else {
        ip
    }
}

/// `pos` advanced by one byte, saturating at the machine-word limit.
pub open spec fn inc_pos(pos: int) -> int {
    if pos < usize::MAX {
        pos + 1
    } else {
        pos
    }
}

/// The outcome of asking a walker for its next step.
pub ghost struct WalkNext {
    pub ip: int,
    pub pos: int,
    pub took: Option<InstPtr>,
    pub step: Option<LayoutStep>,
}

/// What one walker advance computes from a state without lookahead: resolve
/// the join chain, then either end (out of bounds, or `Accept`), yield a
/// byte step, yield a branch fork, or — for a byte range carrying an
/// alternate — yield the fork first and the byte on the following call.
pub open spec fn walk_at(insts: Seq<Inst>, ip0: int, pos0: int, took: Option<InstPtr>) -> WalkNext {
    let r = resolve_ip(insts, ip0);
    if !(0 <= r < insts.len()) {
        WalkNext { ip: r, pos: pos0, took, step: None }
    } else {
        match insts[r] {
            Inst::Accept => WalkNext { ip: r, pos: pos0, took, step: None },
            Inst::Uninit => WalkNext {
                ip: r + 1,
                pos: inc_pos(pos0),
                took,
                step: Some(
                    LayoutStep::Byte {
                        ip: r as InstPtr,
                        pos: pos0 as usize,
                        byte: StepByte::Uninit,
                    },
                ),
            },
            Inst::Byte(b) => WalkNext {
                ip: r + 1,
                pos: inc_pos(pos0),
                took,
                step: Some(
                    LayoutStep::Byte {
                        ip: r as InstPtr,
                        pos: pos0 as usize,
                        byte: StepByte::Byte(b.private, b.byte),
                    },
                ),
            },
            Inst::ByteRange(br) => match br.alternate {
                None => WalkNext {
                    ip: r + 1,
                    pos: inc_pos(pos0),
                    took,
                    step: Some(
                        LayoutStep::Byte {
                            ip: r as InstPtr,
                            pos: pos0 as usize,
                            byte: StepByte::ByteRange(br.private, br.range),
                        },
                    ),
                },
                Some(alt) => if took == Some(r as InstPtr) {
                    WalkNext {
                        ip: r + 1,
                        pos: inc_pos(pos0),
                        took: None,
                        step: Some(
                            LayoutStep::Byte {
                                ip: r as InstPtr,
                                pos: pos0 as usize,
                                byte: StepByte::ByteRange(br.private, br.range),
                            },
                        ),
                    }
                } else {
                    WalkNext {
                        ip: r,
                        pos: pos0,
                        took: Some(r as InstPtr),
                        step: Some(LayoutStep::Fork(ProgFork { ip: alt, pos: pos0 as usize })),
                    }
                },
            },
            Inst::Split(sp) => WalkNext {
                ip: r + 1,
                pos: pos0,
                took,
                step: Some(LayoutStep::Fork(ProgFork { ip: sp.alternate, pos: pos0 as usize })),
            },
            _ => WalkNext { ip: r, pos: pos0, took, step: None },
        }
    }
}

/// The next step of a walker, whether or not a lookahead is buffered.
pub open spec fn walk_next(p: Program) -> WalkNext {
    match p.current {
        Some(s) => WalkNext { ip: p.ip as int, pos: p.pos as int, took: p.took_fork, step: Some(s) },
        None => walk_at(p.insts@, p.ip as int, p.pos as int, p.took_fork),
    }
}

/// A buffered step is consistent with the arena it was read from.
pub open spec fn step_wf(insts: Seq<Inst>, s: LayoutStep) -> bool {
    match s {
        LayoutStep::Byte { ip, pos, byte } => ip < insts.len() && is_byte_inst(insts[ip as int])
            && byte == step_of(insts[ip as int]),
        LayoutStep::Fork(_) => true,
    }
}

impl Program {
    /// Well-formed walker: a well-formed arena and a consistent lookahead.
    pub open spec fn wf(self) -> bool {
        &&& wf_insts(self.insts@)
        &&& match self.current {
            Some(s) => step_wf(self.insts@, s),
            None => true,
        }
    }

    /// A fresh walker over `insts`, at instruction zero, byte offset zero.
    pub fn new(insts: Vec<Inst>, name: &'static str) -> (r: Program)
        ensures
            r.insts == insts,
            r.ip == 0,
            r.pos == 0,
            r.name == name,
            r.took_fork is None,
            r.current is None,
            r.exhausted == false,
            wf_insts(insts@) ==> r.wf(),
    {
        Program { insts, ip: 0, pos: 0, name, took_fork: None, current: None, exhausted: false }
    }

    /// Snapshot the walker's position.
    pub fn save_fork(&self) -> (r: ProgFork)
        ensures
            r == (ProgFork { ip: self.ip, pos: self.pos }),
    {
        ProgFork { ip: self.ip, pos: self.pos }
    }

    /// Resume at a snapshot, dropping any buffered lookahead.
    pub fn restore_fork(&mut self, fork: ProgFork)
        requires
            old(self).wf(),
        ensures
            final(self).wf(),
            *final(self) == (Program {
                ip: fork.ip,
                pos: fork.pos,
                current: None,
                ..*old(self)
            }),
    {
        self.ip = fork.ip;
        self.pos = fork.pos;
        self.current = None;
    }

    /// Fill the lookahead buffer from the walker state.
    fn advance(&mut self)
        requires
            old(self).wf(),
            old(self).current is None,
        ensures
            final(self).wf(),
            final(self).insts@ == old(self).insts@,
            final(self).name == old(self).name,
            final(self).exhausted == old(self).exhausted,
            ({
                let w = walk_at(
                    old(self).insts@,
                    old(self).ip as int,
                    old(self).pos as int,
                    old(self).took_fork,
                );
                &&& final(self).ip == w.ip
                &&& final(self).pos == w.pos
                &&& final(self).took_fork == w.took
                &&& final(self).current == w.step
            }),
    {
        loop
            invariant
                self.wf(),
                self.current is None,
                self.insts@ == old(self).insts@,
                self.name == old(self).name,
                self.pos == old(self).pos,
                self.took_fork == old(self).took_fork,
                self.exhausted == old(self).exhausted,
                walk_at(self.insts@, self.ip as int, self.pos as int, self.took_fork) == walk_at(
                    old(self).insts@,
                    old(self).ip as int,
                    old(self).pos as int,
                    old(self).took_fork,
                ),
            decreases self.insts@.len() - self.ip,
        {
            if self.ip as usize >= self.insts.len() {
                return ;
            }
            let inst = self.insts[self.ip as usize];
            match inst {
                Inst::Accept => {
                    return ;
                }
                Inst::ByteRange(range) => {
                    match range.alternate {
                        Some(alternate) => {
                            let taken = match self.took_fork {
                                Some(t) => t == self.ip,
                                None => false,
                            };
                            if taken {
                                self.took_fork = None;
                                self.current = Some(
                                    LayoutStep::Byte {
                                        ip: self.ip,
                                        pos: self.pos,
                                        byte: StepByte::ByteRange(range.private, range.range),
                                    },
                                );
                                self.ip = self.ip + 1;
                                if self.pos < usize::MAX {
                                    self.pos = self.pos + 1;
                                }
                                return ;
                            } else {
                                self.took_fork = Some(self.ip);
                                self.current = Some(
                                    LayoutStep::Fork(ProgFork { ip: alternate, pos: self.pos }),
                                );
                                return ;
                            }
                        }
                        None => {
                            self.current = Some(
                                LayoutStep::Byte {
                                    ip: self.ip,
                                    pos: self.pos,
                                    byte: StepByte::ByteRange(range.private, range.range),
                                },
                            );
                            self.ip = self.ip + 1;
                            if self.pos < usize::MAX {
                                self.pos = self.pos + 1;
                            }
                            return ;
                        }
                    }
                }
                Inst::Uninit => {
                    self.current = Some(
                        LayoutStep::Byte { ip: self.ip, pos: self.pos, byte: StepByte::Uninit },
                    );
                    self.ip = self.ip + 1;
                    if self.pos < usize::MAX {
                        self.pos = self.pos + 1;
                    }
                    return ;
                }
                Inst::Split(split) => {
                    self.current = Some(
                        LayoutStep::Fork(ProgFork { ip: split.alternate, pos: self.pos }),
                    );
                    self.ip = self.ip + 1;
                    return ;
                }
                Inst::Byte(byte) => {
                    self.current = Some(
                        LayoutStep::Byte {
                            ip: self.ip,
                            pos: self.pos,
                            byte: StepByte::Byte(byte.private, byte.byte),
                        },
                    );
                    self.ip = self.ip + 1;
                    if self.pos < usize::MAX {
                        self.pos = self.pos + 1;
                    }
                    return ;
                }
                Inst::Ref(_) => {
                    vstd::pervasive::unreached()
                }
                Inst::Pointer(_) => {
                    vstd::pervasive::unreached()
                }
                Inst::JoinGoto(addr) => {
                    if addr as usize >= self.insts.len() {
                        self.ip = addr;
                        return ;
                    }
                    self.ip = addr;
                }
            }
        }
    }

    /// Observe the next step without consuming it, if and only if it is a
    /// fork.
    pub fn next_fork(&mut self) -> (r: Option<ProgFork>)
        requires
            old(self).wf(),
        ensures
            final(self).wf(),
            final(self).insts@ == old(self).insts@,
            final(self).name == old(self).name,
            final(self).exhausted == old(self).exhausted,
            ({
                let w = walk_next(*old(self));
                &&& final(self).ip == w.ip
                &&& final(self).pos == w.pos
                &&& final(self).took_fork == w.took
                &&& final(self).current == w.step
                &&& r == (match w.step {
                    Some(LayoutStep::Fork(f)) => Some(f),
                    _ => None,
                })
            }),
    {
        if self.current.is_none() {
            self.advance();
        }
        match self.current {
            Some(LayoutStep::Fork(fork)) => Some(fork),
            _ => None,
        }
    }

    /// Take the next step of the walk, if the program has not ended.
    pub fn next(&mut self) -> (r: Option<LayoutStep>)
        requires
            old(self).wf(),
        ensures
            final(self).wf(),
            final(self).insts@ == old(self).insts@,
            final(self).name == old(self).name,
            final(self).exhausted == old(self).exhausted,
            final(self).current is None,
            ({
                let w = walk_next(*old(self));
                &&& final(self).ip == w.ip
                &&& final(self).pos == w.pos
                &&& final(self).took_fork == w.took
                &&& r == w.step
            }),
            match r {
                Some(LayoutStep::Byte { ip, pos, byte }) => ip < old(self).insts@.len()
                    && is_byte_inst(old(self).insts@[ip as int]) && byte == step_of(
                    old(self).insts@[ip as int],
                ),
                _ => true,
            },
    {
        if self.current.is_none() {
            self.advance();
        }
        let c = self.current;
        self.current = None;
        c
    }

    /// The initial verdict vector for the instructions from `start` on.
    pub fn accept_state(&self, start: usize) -> (r: Vec<AcceptState>)
        requires
            start <= self.insts@.len(),
        ensures
            r@.len() == self.insts@.len() - start,
            forall|j: int|
                0 <= j < r@.len() ==> r@[j] == accept_state_of(self.insts@[start + j]),
    {
        let mut out: Vec<AcceptState> = Vec::new();
        let mut k: usize = start;
        while k < self.insts.len()
            invariant
                start <= k <= self.insts@.len(),
                out@.len() == k - start,
                forall|j: int|
                    0 <= j < out@.len() ==> out@[j] == accept_state_of(self.insts@[start + j]),
            decreases self.insts@.len() - k,
        {
            let state = match self.insts[k] {
                Inst::Split(_) => AcceptState::Always,
                Inst::JoinGoto(_) => AcceptState::Always,
                Inst::Accept => AcceptState::Always,
                _ => AcceptState::NeverUnreachable,
            };
            out.push(state);
            k = k + 1;
        }
        out
    }
}

/// In a well-formed arena the join chain always stops at a position that is
/// not itself a join, or runs off the end of the program.
pub proof fn lemma_resolve_stops(insts: Seq<Inst>, ip0: int)
    requires
        wf_insts(insts),
    ensures
        ({
            let r = resolve_ip(insts, ip0);
            (0 <= r < insts.len()) ==> !(insts[r] is JoinGoto)
        }),
    decreases insts.len() - ip0,
{
    if 0 <= ip0 < insts.len() {
        match insts[ip0] {
            Inst::JoinGoto(t) => {
                assert(inst_forward(insts[ip0], ip0));
                if ip0 < t < insts.len() {
                    lemma_resolve_stops(insts, t as int);
                }
            }
            _ => {}
        }
    }
}

/// A walk that has ended stays ended: advancing again from the state a
/// finished advance left behind yields no step.
pub proof fn lemma_walk_end_stable(insts: Seq<Inst>, ip0: int, pos0: int, took: Option<InstPtr>)
    requires
        wf_insts(insts),
    ensures
        ({
            let w = walk_at(insts, ip0, pos0, took);
            w.step is None ==> walk_at(insts, w.ip, w.pos, w.took).step is None
        }),
{
    let w = walk_at(insts, ip0, pos0, took);
    let r = resolve_ip(insts, ip0);
    if w.step is None {
        lemma_resolve_stops(insts, ip0);
        assert(resolve_ip(insts, r) == r);
    }
}

/// The sub-range of the source range `s` below the destination range `d`.
pub open spec fn lo_missing(d: RangeInclusive, s: RangeInclusive) -> RangeInclusive
    recommends
        s.start < d.start,
{
    RangeInclusive { start: s.start, end: (d.start - 1) as u8 }
}

/// The sub-range of the source range `s` above the destination range `d`.
pub open spec fn hi_missing(d: RangeInclusive, s: RangeInclusive) -> RangeInclusive
    recommends
        d.end < s.end,
{
    RangeInclusive { start: (d.end + 1) as u8, end: s.end }
}

/// What a successful synthetic fork does to the arena: every instruction but
/// `i` keeps its place; the instruction at `i` is narrowed to the destination
/// range `d`; and for each sub-range of `s` that `d` misses, a freshly
/// appended byte-range instruction holding it is chained in front of the
/// instruction's previous alternate.
pub open spec fn synth_splice(
    oi: Seq<Inst>,
    ni: Seq<Inst>,
    i: int,
    br: InstByteRange,
    d: RangeInclusive,
    s: RangeInclusive,
) -> bool {
    let lo = s.start < d.start;
    let hi = s.end > d.end;
    &&& oi.len() <= ni.len()
    &&& (forall|k: int| 0 <= k < oi.len() && k != i ==> ni[k] == oi[k])
    &&& if !lo && !hi {
        ni[i] == Inst::ByteRange(
            InstByteRange { private: br.private, range: d, alternate: br.alternate },
        ) && ni.len() == oi.len()
    } else if lo && !hi {
        exists|l1: int|
            oi.len() <= l1 < ni.len() && ni[i] == Inst::ByteRange(
                InstByteRange { private: br.private, range: d, alternate: Some(l1 as InstPtr) },
            ) && #[trigger] ni[l1] == Inst::ByteRange(
                InstByteRange {
                    private: br.private,
                    range: lo_missing(d, s),
                    alternate: br.alternate,
                },
            )
    } else if !lo && hi {
        exists|l1: int|
            oi.len() <= l1 < ni.len() && ni[i] == Inst::ByteRange(
                InstByteRange { private: br.private, range: d, alternate: Some(l1 as InstPtr) },
            ) && #[trigger] ni[l1] == Inst::ByteRange(
                InstByteRange {
                    private: br.private,
                    range: hi_missing(d, s),
                    alternate: br.alternate,
                },
            )
    } else {
        exists|l1: int, l2: int|
            oi.len() <= l1 < l2 < ni.len() && ni[i] == Inst::ByteRange(
                InstByteRange { private: br.private, range: d, alternate: Some(l2 as InstPtr) },
            ) && #[trigger] ni[l2] == Inst::ByteRange(
                InstByteRange {
                    private: br.private,
                    range: hi_missing(d, s),
                    alternate: Some(l1 as InstPtr),
                },
            ) && #[trigger] ni[l1] == Inst::ByteRange(
                InstByteRange {
                    private: br.private,
                    range: lo_missing(d, s),
                    alternate: br.alternate,
                },
            )
    }
}

/// Synthetic-fork soundness over ranges: the narrowed destination range
/// together with the missing sub-ranges covers every byte value the original
/// source range admitted, so no source possibility is lost by splicing; and
/// when the destination range lies within the source range, the union is
/// exactly the original source range.
pub proof fn lemma_synth_ranges_cover(d: RangeInclusive, s: RangeInclusive)
    requires
        range_intersects(d, s),
        d.start <= d.end,
        s.start <= s.end,
    ensures
        forall|b: int|
            in_range(s, b) ==> in_range(d, b) || (s.start < d.start && in_range(
                lo_missing(d, s),
                b,
            )) || (s.end > d.end && in_range(hi_missing(d, s), b)),
        range_contains(s, d) ==> forall|b: int|
            #![auto]
            (in_range(d, b) || (s.start < d.start && in_range(lo_missing(d, s), b)) || (s.end
                > d.end && in_range(hi_missing(d, s), b))) <==> in_range(s, b),
{
}

/// Synthetic-fork soundness: a successful splice loses no source
/// possibility.  The instruction at `i` now admits exactly the destination
/// range, and every byte value of the original source range `s` that the
/// narrowed instruction no longer admits is admitted by a byte-range
/// instruction freshly appended by the splice.  Together with
/// `lemma_synth_ranges_cover`, when the destination range lay within `s`,
/// the narrowed instruction and its chain admit exactly the bytes of `s`.
pub proof fn lemma_synthetic_fork_sound(
    oi: Seq<Inst>,
    ni: Seq<Inst>,
    i: int,
    br: InstByteRange,
    d: RangeInclusive,
    s: RangeInclusive,
)
    requires
        synth_splice(oi, ni, i, br, d, s),
        range_intersects(d, s),
        d.start <= d.end,
        s.start <= s.end,
        0 <= i < oi.len(),
    ensures
        ni[i] == Inst::ByteRange(
            InstByteRange { private: br.private, range: d, alternate: spliced_alternate(ni, i) },
        ),
        forall|b: int|
            in_range(s, b) && !in_range(d, b) ==> exists|k: int|
                oi.len() <= k < ni.len() && ((#[trigger] ni[k]) matches Inst::ByteRange(r)
                    && in_range(r.range, b)),
{
    let lo = s.start < d.start;
    let hi = s.end > d.end;
    lemma_synth_ranges_cover(d, s);
    assert forall|b: int| in_range(s, b) && !in_range(d, b) implies exists|k: int|
        oi.len() <= k < ni.len() && ((#[trigger] ni[k]) matches Inst::ByteRange(r) && in_range(
        r.range,
        b,
    )) by {
        if lo && !hi {
            let l1 = choose|l1: int|
                oi.len() <= l1 < ni.len() && ni[i] == Inst::ByteRange(
                    InstByteRange { private: br.private, range: d, alternate: Some(l1 as InstPtr) },
                ) && #[trigger] ni[l1] == Inst::ByteRange(
                    InstByteRange {
                        private: br.private,
                        range: lo_missing(d, s),
                        alternate: br.alternate,
                    },
                );
            assert(in_range(lo_missing(d, s), b));
            assert((ni[l1] matches Inst::ByteRange(r) && in_range(r.range, b)));
        } else if !lo && hi {
            let l1 = choose|l1: int|
                oi.len() <= l1 < ni.len() && ni[i] == Inst::ByteRange(
                    InstByteRange { private: br.private, range: d, alternate: Some(l1 as InstPtr) },
                ) && #[trigger] ni[l1] == Inst::ByteRange(
                    InstByteRange {
                        private: br.private,
                        range: hi_missing(d, s),
                        alternate: br.alternate,
                    },
                );
            assert(in_range(hi_missing(d, s), b));
            assert((ni[l1] matches Inst::ByteRange(r) && in_range(r.range, b)));
        } else {
            let (l1, l2) = choose|l1: int, l2: int|
                oi.len() <= l1 < l2 < ni.len() && ni[i] == Inst::ByteRange(
                    InstByteRange { private: br.private, range: d, alternate: Some(l2 as InstPtr) },
                ) && #[trigger] ni[l2] == Inst::ByteRange(
                    InstByteRange {
                        private: br.private,
                        range: hi_missing(d, s),
                        alternate: Some(l1 as InstPtr),
                    },
                ) && #[trigger] ni[l1] == Inst::ByteRange(
                    InstByteRange {
                        private: br.private,
                        range: lo_missing(d, s),
                        alternate: br.alternate,
                    },
                );
            if in_range(lo_missing(d, s), b) {
                assert((ni[l1] matches Inst::ByteRange(r) && in_range(r.range, b)));
            } else {
                assert(in_range(hi_missing(d, s), b));
                assert((ni[l2] matches Inst::ByteRange(r) && in_range(r.range, b)));
            }
        }
    }
}

/// Whether a copied instruction reproduces the byte range of its original:
/// for a byte range, the copy is a byte range with the same privacy flag and
/// the same range; any other instruction is unconstrained here.
pub open spec fn mirrors_range(orig: Inst, copy: Inst) -> bool {
    match orig {
        Inst::ByteRange(br) => match copy {
            Inst::ByteRange(c) => c.private == br.private && c.range == br.range,
            _ => false,
        },
        _ => true,
    }
}

/// Whether a verdict calls for a synthetic fork: a partial range overlap,
/// reported for a present source instruction that is a byte range.
pub open spec fn live_check_range(
    oi: Seq<Inst>,
    ip: Option<InstPtr>,
    accepts: AcceptState,
) -> bool {
    match (ip, accepts) {
        (Some(ipp), AcceptState::MaybeCheckRange(d, s)) => {
            &&& range_intersects(d, s)
            &&& (ipp as int) < oi.len()
            &&& oi[ipp as int] is ByteRange
        },
        _ => false,
    }
}

/// The alternate the splice left on the instruction it narrowed.
pub open spec fn spliced_alternate(ni: Seq<Inst>, i: int) -> Option<InstPtr> {
    match ni[i] {
        Inst::ByteRange(r) => r.alternate,
        _ => None,
    }
}

/// The scan phase of a tail copy, as a function: walk the original arena from
/// `pos`, accumulating relocated instructions in `acc` — branch and join
/// targets shift by the distance between the read position and the write
/// position, a join at copying depth zero is followed instead of copied, and
/// the branch of a copied byte range is set aside in `forks` for a later
/// recursive copy.  `None` is a copy that runs out of room or off an edge.
pub open spec fn copy_scan(
    oi: Seq<Inst>,
    pos: int,
    depth: int,
    acc: Seq<Inst>,
    forks: Seq<(usize, InstPtr)>,
) -> Option<(Seq<Inst>, Seq<(usize, InstPtr)>)>
    decreases oi.len() - pos,
{
    if !(0 <= pos < oi.len()) {
        None
    } else if oi.len() + acc.len() >= u32::MAX {
        None
    } else {
        let cur = oi.len() + acc.len();
        match oi[pos] {
            Inst::Split(sp) => {
                let t = sp.alternate + cur - pos;
                if t >= u32::MAX {
                    None
                } else if pos + 1 >= oi.len() {
                    None
                } else {
                    copy_scan(
                        oi,
                        pos + 1,
                        depth + 1,
                        acc.push(Inst::Split(InstSplit { alternate: t as InstPtr })),
                        forks,
                    )
                }
            },
            Inst::JoinGoto(t) => {
                if depth == 0 {
                    if t as int >= oi.len() {
                        None
                    } else if t as int <= pos {
                        None
                    } else {
                        copy_scan(oi, t as int, 0, acc, forks)
                    }
                } else {
                    let nt = t + cur - pos;
                    if nt >= u32::MAX {
                        None
                    } else if pos + 1 >= oi.len() {
                        None
                    } else {
                        copy_scan(
                            oi,
                            pos + 1,
                            depth - 1,
                            acc.push(Inst::JoinGoto(nt as InstPtr)),
                            forks,
                        )
                    }
                }
            },
            Inst::ByteRange(r) => {
                let acc2 = match r.alternate {
                    Some(_) => acc.push(
                        Inst::ByteRange(
                            InstByteRange { private: r.private, range: r.range, alternate: None },
                        ),
                    ),
                    None => acc.push(Inst::ByteRange(r)),
                };
                let forks2 = match r.alternate {
                    Some(alt) => forks.push((cur as usize, alt)),
                    None => forks,
                };
                if pos + 1 >= oi.len() {
                    None
                } else {
                    copy_scan(oi, pos + 1, depth, acc2, forks2)
                }
            },
            Inst::Accept => Some((acc.push(Inst::Accept), forks)),
            Inst::Uninit => {
                if pos + 1 >= oi.len() {
                    None
                } else {
                    copy_scan(oi, pos + 1, depth, acc.push(Inst::Uninit), forks)
                }
            },
            Inst::Byte(b) => {
                if pos + 1 >= oi.len() {
                    None
                } else {
                    copy_scan(oi, pos + 1, depth, acc.push(Inst::Byte(b)), forks)
                }
            },
            Inst::Pointer(_) => None,
            Inst::Ref(_) => None,
        }
    }
}

/// The fixup phase of a tail copy, as a function: for each byte-range branch
/// set aside by the scan, append a recursive copy of the branch tail to the
/// arena and point the copied instruction at it.
pub open spec fn copy_fixup(
    arena: Seq<Inst>,
    forks: Seq<(usize, InstPtr)>,
    i: int,
    fuel: nat,
) -> Option<Seq<Inst>>
    decreases fuel, 0int, forks.len() - i,
{
    if !(0 <= i < forks.len()) {
        Some(arena)
    } else {
        let p = forks[i].0;
        let alt = forks[i].1;
        if alt as int >= arena.len() {
            None
        } else if fuel == 0 {
            None
        } else {
            match copy_model(arena, alt as int, (fuel - 1) as nat) {
                None => None,
                Some(a2) => match a2[p as int] {
                    Inst::ByteRange(r) => copy_fixup(
                        a2.update(
                            p as int,
                            Inst::ByteRange(
                                InstByteRange {
                                    private: r.private,
                                    range: r.range,
                                    alternate: Some(arena.len() as InstPtr),
                                },
                            ),
                        ),
                        forks,
                        i + 1,
                        fuel,
                    ),
                    _ => None,
                },
            }
        }
    }
}

/// The whole arena after a tail copy from `start`, as a function of the arena
/// it started from: the scanned segment appended, then every set-aside branch
/// copied in turn.  `None` is a copy that a resource cap or a malformed edge
/// stopped.
pub open spec fn copy_model(oi: Seq<Inst>, start: int, fuel: nat) -> Option<Seq<Inst>>
    decreases fuel, 1int, 0int,
{
    if fuel == 0 {
        None
    } else if !(0 <= start < oi.len()) {
        None
    } else {
        match copy_scan(oi, start, 0, Seq::<Inst>::empty(), Seq::<(usize, InstPtr)>::empty()) {
            None => None,
            Some((seg, fks)) => copy_fixup(oi + seg, fks, 0, fuel),
        }
    }
}

/// What one synthetic fork leaves behind: the new arena, the verdict and fork
/// handed back, and whether a resource cap stopped the splice.
pub ghost struct SynthOut {
    pub insts: Seq<Inst>,
    pub verdict: AcceptState,
    pub fork: Option<ProgFork>,
    pub bail: bool,
}

/// A synthetic fork that changes nothing: the verdict is returned as it came.
pub open spec fn synth_noop(oi: Seq<Inst>, accepts: AcceptState) -> SynthOut {
    SynthOut { insts: oi, verdict: accepts, fork: None, bail: false }
}

/// A live range splice, as a function: copy the tail for the low missing
/// sub-range and for the high one (each copy budgeted by the arena length it
/// starts from), chain the copies onto the instruction's alternate, then
/// narrow the instruction to the destination range.  A copy that fails leaves
/// the arena as it was and reports the cap.
pub open spec fn synth_live_model(
    oi: Seq<Inst>,
    pos: usize,
    ipv: InstPtr,
    br0: InstByteRange,
    d: RangeInclusive,
    s: RangeInclusive,
) -> SynthOut {
    let after_lo: Option<(Seq<Inst>, Option<InstPtr>)> = if s.start < d.start {
        match copy_model(oi, ipv as int, (oi.len() + 1) as nat) {
            None => None,
            Some(a1) => Some(
                (
                    a1.update(
                        oi.len() as int,
                        Inst::ByteRange(
                            InstByteRange {
                                private: br0.private,
                                range: lo_missing(d, s),
                                alternate: br0.alternate,
                            },
                        ),
                    ),
                    Some(oi.len() as InstPtr),
                ),
            ),
        }
    } else {
        Some((oi, br0.alternate))
    };
    match after_lo {
        None => SynthOut {
            insts: oi,
            verdict: AcceptState::MaybeCheckRange(d, s),
            fork: None,
            bail: true,
        },
        Some((a1, alt1)) => {
            let after_hi: Option<(Seq<Inst>, Option<InstPtr>)> = if s.end > d.end {
                match copy_model(a1, ipv as int, (a1.len() + 1) as nat) {
                    None => None,
                    Some(a2) => Some(
                        (
                            a2.update(
                                a1.len() as int,
                                Inst::ByteRange(
                                    InstByteRange {
                                        private: br0.private,
                                        range: hi_missing(d, s),
                                        alternate: alt1,
                                    },
                                ),
                            ),
                            Some(a1.len() as InstPtr),
                        ),
                    ),
                }
            } else {
                Some((a1, alt1))
            };
            match after_hi {
                None => SynthOut {
                    insts: oi,
                    verdict: AcceptState::MaybeCheckRange(d, s),
                    fork: None,
                    bail: true,
                },
                Some((a2, alt2)) => SynthOut {
                    insts: a2.update(
                        ipv as int,
                        Inst::ByteRange(
                            InstByteRange { private: br0.private, range: d, alternate: alt2 },
                        ),
                    ),
                    verdict: AcceptState::Always,
                    fork: match alt2 {
                        Some(a) => Some(ProgFork { ip: a, pos }),
                        None => None,
                    },
                    bail: false,
                },
            }
        },
    }
}

/// A synthetic fork, as a function of the arena, the walker's byte offset,
/// the reported instruction and the incoming acceptance state.  Only a
/// partial range overlap on a present byte-range instruction splices;
/// everything else is a no-op.
pub open spec fn synth_model(
    oi: Seq<Inst>,
    pos: usize,
    ip: Option<InstPtr>,
    accepts: AcceptState,
) -> SynthOut {
    match (ip, accepts) {
        (Some(ipv), AcceptState::MaybeCheckRange(d, s)) => {
            if !range_intersects(d, s) {
                synth_noop(oi, accepts)
            } else {
                match oi[ipv as int] {
                    Inst::ByteRange(br0) => synth_live_model(oi, pos, ipv, br0, d, s),
                    _ => synth_noop(oi, accepts),
                }
            }
        },
        _ => synth_noop(oi, accepts),
    }
}

impl Program {
    /// Append a relocated copy of the walk tail that starts at `start`:
    /// branch and join targets shift with the copy, a join at copying depth
    /// zero is followed instead of copied, and the branches of copied byte
    /// ranges are duplicated recursively.  Returns the address of the copy,
    /// or `None` when a resource cap or a malformed edge stops the copy; in
    /// either case the instructions below the old length are untouched.
    fn copy_fork(&mut self, start: InstPtr, fuel: u64) -> (r: Option<InstPtr>)
        requires
            old(self).wf(),
            (start as int) < old(self).insts@.len(),
        ensures
            final(self).wf(),
            final(self).ip == old(self).ip,
            final(self).pos == old(self).pos,
            final(self).took_fork == old(self).took_fork,
            final(self).current == old(self).current,
            final(self).name == old(self).name,
            final(self).exhausted == old(self).exhausted,
            old(self).insts@.len() <= final(self).insts@.len(),
            forall|k: int|
                0 <= k < old(self).insts@.len() ==> final(self).insts@[k] == old(self).insts@[k],
            match r {
                Some(loc) => {
                    &&& loc == old(self).insts@.len()
                    &&& (loc as int) < final(self).insts@.len()
                    &&& mirrors_range(old(self).insts@[start as int], final(self).insts@[loc as int])
                    &&& exists|e: int|
                        (loc as int) < e <= final(self).insts@.len()
                            && #[trigger] final(self).insts@[e - 1] == Inst::Accept
                },
                None => true,
            },
            ({
                let m = copy_model(old(self).insts@, start as int, fuel as nat);
                match r {
                    Some(_) => m == Some(final(self).insts@),
                    None => m is None,
                }
            }),
        decreases fuel,
    {
        if fuel == 0 {
            return None;
        }
        let snapshot = self.insts.len();
        let dst = snapshot;
        let mut pos = start as usize;
        let mut offset = dst - pos;
        let mut depth: usize = 0;
        let mut more_forks: Vec<(usize, InstPtr)> = Vec::new();
        proof {
            assert(self.insts@.skip(snapshot as int) =~= Seq::<Inst>::empty());
            assert(more_forks@ =~= Seq::<(usize, InstPtr)>::empty());
        }
        loop
            invariant_except_break
                pos < snapshot,
                depth <= pos,
                pos + offset == self.insts@.len(),
                pos == start as int ==> self.insts@.len() == dst,
                copy_scan(
                    old(self).insts@,
                    start as int,
                    0,
                    Seq::<Inst>::empty(),
                    Seq::<(usize, InstPtr)>::empty(),
                ) == copy_scan(
                    old(self).insts@,
                    pos as int,
                    depth as int,
                    self.insts@.skip(snapshot as int),
                    more_forks@,
                ),
            invariant
                self.wf(),
                old(self).wf(),
                fuel >= 1,
                self.ip == old(self).ip,
                self.pos == old(self).pos,
                self.took_fork == old(self).took_fork,
                self.current == old(self).current,
                self.name == old(self).name,
                self.exhausted == old(self).exhausted,
                snapshot == old(self).insts@.len(),
                dst == snapshot,
                snapshot <= self.insts@.len(),
                forall|k: int|
                    0 <= k < snapshot ==> self.insts@[k] == old(self).insts@[k],
                forall|m: int|
                    0 <= m < more_forks@.len() ==> snapshot <= #[trigger] more_forks@[m].0
                        < self.insts@.len() && self.insts@[more_forks@[m].0 as int] is ByteRange,
                pos >= start as int,
                pos > start as int && self.insts@.len() > dst ==> mirrors_range(
                    old(self).insts@[start as int],
                    self.insts@[dst as int],
                ),
                old(self).insts@[start as int] is ByteRange && pos > start as int
                    ==> self.insts@.len() > dst,
            ensures
                dst < self.insts@.len(),
                self.insts@[self.insts@.len() - 1] == Inst::Accept,
                mirrors_range(old(self).insts@[start as int], self.insts@[dst as int]),
                copy_scan(
                    old(self).insts@,
                    start as int,
                    0,
                    Seq::<Inst>::empty(),
                    Seq::<(usize, InstPtr)>::empty(),
                ) == Some((self.insts@.skip(snapshot as int), more_forks@)),
            decreases snapshot - pos,
        {
            let ghost acc0 = self.insts@.skip(snapshot as int);
            let ghost forks0 = more_forks@;
            let ghost pos0 = pos as int;
            let ghost depth0 = depth as int;
            proof {
                assert(old(self).insts@.len() + acc0.len() == self.insts@.len());
                assert(old(self).insts@[pos0] == self.insts@[pos0]);
            }
            if self.insts.len() >= u32::MAX as usize {
                proof {
                    assert(copy_scan(old(self).insts@, pos0, depth0, acc0, forks0) is None);
                    assert(copy_model(old(self).insts@, start as int, fuel as nat) is None);
                }
                return None;
            }
            let inst = self.insts[pos];
            match inst {
                Inst::Split(split) => {
                    let t = split.alternate as u64 + offset as u64;
                    if t >= u32::MAX as u64 {
                        proof {
                            assert(copy_scan(old(self).insts@, pos0, depth0, acc0, forks0)
                                is None);
                            assert(copy_model(old(self).insts@, start as int, fuel as nat)
                                is None);
                        }
                        return None;
                    }
                    self.insts.push(Inst::Split(InstSplit { alternate: t as u32 }));
                    depth = depth + 1;
                    proof {
                        assert(self.insts@.skip(snapshot as int) =~= acc0.push(
                            Inst::Split(InstSplit { alternate: t as u32 }),
                        ));
                    }
                    if pos + 1 >= snapshot {
                        proof {
                            assert(copy_scan(old(self).insts@, pos0, depth0, acc0, forks0)
                                is None);
                            assert(copy_model(old(self).insts@, start as int, fuel as nat)
                                is None);
                        }
                        return None;
                    }
                    pos = pos + 1;
                    proof {
                        assert(copy_scan(old(self).insts@, pos0, depth0, acc0, forks0)
                            == copy_scan(
                            old(self).insts@,
                            pos as int,
                            depth as int,
                            self.insts@.skip(snapshot as int),
                            more_forks@,
                        ));
                    }
                }
                Inst::JoinGoto(t) => {
                    proof {
                        assert(crate::program::inst_forward(old(self).insts@[pos0], pos0));
                    }
                    if depth == 0 {
                        if t as usize >= snapshot {
                            proof {
                                assert(copy_scan(old(self).insts@, pos0, depth0, acc0, forks0)
                                    is None);
                                assert(copy_model(old(self).insts@, start as int, fuel as nat)
                                    is None);
                            }
                            return None;
                        }
                        pos = t as usize;
                        offset = self.insts.len() - pos;
                        proof {
                            assert(copy_scan(old(self).insts@, pos0, depth0, acc0, forks0)
                                == copy_scan(
                                old(self).insts@,
                                pos as int,
                                depth as int,
                                self.insts@.skip(snapshot as int),
                                more_forks@,
                            ));
                        }
                    } else {
                        depth = depth - 1;
                        let nt = t as u64 + offset as u64;
                        if nt >= u32::MAX as u64 {
                            proof {
                                assert(copy_scan(old(self).insts@, pos0, depth0, acc0, forks0)
                                    is None);
                                assert(copy_model(old(self).insts@, start as int, fuel as nat)
                                    is None);
                            }
                            return None;
                        }
                        self.insts.push(Inst::JoinGoto(nt as u32));
                        proof {
                            assert(self.insts@.skip(snapshot as int) =~= acc0.push(
                                Inst::JoinGoto(nt as u32),
                            ));
                        }
                        if pos + 1 >= snapshot {
                            proof {
                                assert(copy_scan(old(self).insts@, pos0, depth0, acc0, forks0)
                                    is None);
                                assert(copy_model(old(self).insts@, start as int, fuel as nat)
                                    is None);
                            }
                            return None;
                        }
                        pos = pos + 1;
                        proof {
                            assert(copy_scan(old(self).insts@, pos0, depth0, acc0, forks0)
                                == copy_scan(
                                old(self).insts@,
                                pos as int,
                                depth as int,
                                self.insts@.skip(snapshot as int),
                                more_forks@,
                            ));
                        }
                    }
                }
                Inst::ByteRange(range) => {
                    match range.alternate {
                        Some(alt) => {
                            more_forks.push((self.insts.len(), alt));
                            self.insts.push(
                                Inst::ByteRange(
                                    InstByteRange {
                                        private: range.private,
                                        range: range.range,
                                        alternate: None,
                                    },
                                ),
                            );
                            proof {
                                assert(self.insts@.skip(snapshot as int) =~= acc0.push(
                                    Inst::ByteRange(
                                        InstByteRange {
                                            private: range.private,
                                            range: range.range,
                                            alternate: None,
                                        },
                                    ),
                                ));
                                assert(more_forks@ =~= forks0.push(
                                    (((old(self).insts@.len() + acc0.len()) as usize), alt),
                                ));
                            }
                        }
                        None => {
                            self.insts.push(Inst::ByteRange(range));
                            proof {
                                assert(self.insts@.skip(snapshot as int) =~= acc0.push(
                                    Inst::ByteRange(range),
                                ));
                            }
                        }
                    }
                    if pos + 1 >= snapshot {
                        proof {
                            assert(copy_scan(old(self).insts@, pos0, depth0, acc0, forks0)
                                is None);
                            assert(copy_model(old(self).insts@, start as int, fuel as nat)
                                is None);
                        }
                        return None;
                    }
                    pos = pos + 1;
                    proof {
                        assert(copy_scan(old(self).insts@, pos0, depth0, acc0, forks0)
                            == copy_scan(
                            old(self).insts@,
                            pos as int,
                            depth as int,
                            self.insts@.skip(snapshot as int),
                            more_forks@,
                        ));
                    }
                }
                Inst::Accept => {
                    self.insts.push(Inst::Accept);
                    proof {
                        assert(self.insts@.skip(snapshot as int) =~= acc0.push(Inst::Accept));
                        assert(copy_scan(old(self).insts@, pos0, depth0, acc0, forks0)
                            == Some((self.insts@.skip(snapshot as int), more_forks@)));
                    }
                    break;
                }
                Inst::Uninit => {
                    self.insts.push(Inst::Uninit);
                    proof {
                        assert(self.insts@.skip(snapshot as int) =~= acc0.push(Inst::Uninit));
                    }
                    if pos + 1 >= snapshot {
                        proof {
                            assert(copy_scan(old(self).insts@, pos0, depth0, acc0, forks0)
                                is None);
                            assert(copy_model(old(self).insts@, start as int, fuel as nat)
                                is None);
                        }
                        return None;
                    }
                    pos = pos + 1;
                    proof {
                        assert(copy_scan(old(self).insts@, pos0, depth0, acc0, forks0)
                            == copy_scan(
                            old(self).insts@,
                            pos as int,
                            depth as int,
                            self.insts@.skip(snapshot as int),
                            more_forks@,
                        ));
                    }
                }
                Inst::Byte(b) => {
                    self.insts.push(Inst::Byte(b));
                    proof {
                        assert(self.insts@.skip(snapshot as int) =~= acc0.push(Inst::Byte(b)));
                    }
                    if pos + 1 >= snapshot {
                        proof {
                            assert(copy_scan(old(self).insts@, pos0, depth0, acc0, forks0)
                                is None);
                            assert(copy_model(old(self).insts@, start as int, fuel as nat)
                                is None);
                        }
                        return None;
                    }
                    pos = pos + 1;
                    proof {
                        assert(copy_scan(old(self).insts@, pos0, depth0, acc0, forks0)
                            == copy_scan(
                            old(self).insts@,
                            pos as int,
                            depth as int,
                            self.insts@.skip(snapshot as int),
                            more_forks@,
                        ));
                    }
                }
                Inst::Pointer(_) => {
                    proof {
                        assert(copy_scan(old(self).insts@, pos0, depth0, acc0, forks0) is None);
                        assert(copy_model(old(self).insts@, start as int, fuel as nat) is None);
                    }
                    return None;
                }
                Inst::Ref(_) => {
                    proof {
                        assert(copy_scan(old(self).insts@, pos0, depth0, acc0, forks0) is None);
                        assert(copy_model(old(self).insts@, start as int, fuel as nat) is None);
                    }
                    return None;
                }
            }
        }
        let ghost end_scan = self.insts@.len() as int;
        proof {
            assert(old(self).insts@ + self.insts@.skip(snapshot as int) =~= self.insts@);
            assert(copy_model(old(self).insts@, start as int, fuel as nat) == copy_fixup(
                self.insts@,
                more_forks@,
                0,
                fuel as nat,
            ));
        }
        let mut i: usize = 0;
        while i < more_forks.len()
            invariant
                copy_model(old(self).insts@, start as int, fuel as nat) == copy_fixup(
                    self.insts@,
                    more_forks@,
                    i as int,
                    fuel as nat,
                ),
                i <= more_forks@.len(),
                self.wf(),
                self.ip == old(self).ip,
                self.pos == old(self).pos,
                self.took_fork == old(self).took_fork,
                self.current == old(self).current,
                self.name == old(self).name,
                self.exhausted == old(self).exhausted,
                snapshot == old(self).insts@.len(),
                dst == snapshot,
                dst < self.insts@.len(),
                dst < end_scan <= self.insts@.len(),
                self.insts@[end_scan - 1] == Inst::Accept,
                mirrors_range(old(self).insts@[start as int], self.insts@[dst as int]),
                forall|k: int|
                    0 <= k < snapshot ==> self.insts@[k] == old(self).insts@[k],
                forall|m: int|
                    0 <= m < more_forks@.len() ==> snapshot <= #[trigger] more_forks@[m].0
                        < self.insts@.len() && self.insts@[more_forks@[m].0 as int] is ByteRange,
                fuel >= 1,
            decreases more_forks@.len() - i,
        {
            let pair = more_forks[i];
            let p = pair.0;
            let alt = pair.1;
            let ghost arena0 = self.insts@;
            if alt as usize >= self.insts.len() {
                proof {
                    assert(copy_fixup(arena0, more_forks@, i as int, fuel as nat) is None);
                }
                return None;
            }
            match self.copy_fork(alt, fuel - 1) {
                None => {
                    proof {
                        assert(copy_fixup(arena0, more_forks@, i as int, fuel as nat) is None);
                    }
                    return None;
                }
                Some(loc) => {
                    let mut br = match self.insts[p] {
                        Inst::ByteRange(r) => r,
                        _ => {
                            proof {
                                assert(copy_fixup(arena0, more_forks@, i as int, fuel as nat)
                                    is None);
                            }
                            return None;
                        }
                    };
                    br.alternate = Some(loc);
                    self.insts[p] = Inst::ByteRange(br);
                    proof {
                        assert(copy_fixup(arena0, more_forks@, i as int, fuel as nat)
                            == copy_fixup(self.insts@, more_forks@, i as int + 1, fuel as nat));
                    }
                }
            }
            i = i + 1;
        }
        proof {
            assert(copy_fixup(self.insts@, more_forks@, i as int, fuel as nat) == Some(
                self.insts@,
            ));
        }
        Some(dst as InstPtr)
    }

    /// Resolve a `MaybeCheckRange` verdict by splicing the source program:
    /// the byte-range instruction at `ip` is narrowed to the destination
    /// range, and for each missing sub-range of its source range a copy of
    /// the tail is appended behind a fresh byte-range instruction and chained
    /// onto the instruction's alternate.  `marks` grows in step with the
    /// arena so verdict indices stay aligned.  The contract owes the splice
    /// whenever the verdict is a live range check (`live_check_range`); any
    /// other verdict returns unchanged with the arena as it was, and a
    /// resource cap that stops a copy leaves the arena as it was and records
    /// itself in `exhausted`, which the execution engine surfaces as an
    /// error.
    #[verifier::rlimit(100)]
    pub fn synthetic_fork(
        &mut self,
        ip: Option<InstPtr>,
        accepts: AcceptState,
        marks: &mut Vec<AcceptState>,
    ) -> (r: (AcceptState, Option<ProgFork>))
        requires
            old(self).wf(),
            old(self).current is None,
            old(marks)@.len() == old(self).insts@.len(),
            ip matches Some(i) ==> (i as int) < old(self).insts@.len(),
        ensures
            final(self).wf(),
            final(self).current is None,
            final(self).ip == old(self).ip,
            final(self).pos == old(self).pos,
            final(self).took_fork == old(self).took_fork,
            final(self).name == old(self).name,
            old(self).insts@.len() <= final(self).insts@.len(),
            final(marks)@.len() == final(self).insts@.len(),
            forall|j: int| 0 <= j < old(marks)@.len() ==> final(marks)@[j] == old(marks)@[j],
            forall|j: int|
                old(marks)@.len() <= j < final(marks)@.len() ==> final(marks)@[j]
                    == accept_state_of(#[trigger] final(self).insts@[j]),
            ({
                let oi = old(self).insts@;
                let ni = final(self).insts@;
                // either the verdict needed no splice and nothing changed,
                // or the resource cap struck and is recorded, or the splice
                // was carried out in full
                ||| (r == (accepts, None::<ProgFork>) && ni == oi && final(self).exhausted == old(
                    self,
                ).exhausted && !live_check_range(oi, ip, accepts))
                ||| (r == (accepts, None::<ProgFork>) && ni == oi && final(self).exhausted)
                ||| (final(self).exhausted == old(self).exhausted && (match (ip, accepts) {
                    (Some(ipp), AcceptState::MaybeCheckRange(d, s)) => {
                        let i = ipp as int;
                        &&& range_intersects(d, s)
                        &&& oi[i] is ByteRange
                        &&& (oi[i] matches Inst::ByteRange(br) ==> {
                            &&& synth_splice(oi, ni, i, br, d, s)
                            &&& r.0 == AcceptState::Always
                            &&& (ni[i] matches Inst::ByteRange(nbr) ==> r.1 == match nbr.alternate {
                                Some(a) => Some(ProgFork { ip: a, pos: old(self).pos }),
                                None => None::<ProgFork>,
                            })
                        })
                    },
                    _ => false,
                }))
            }),
            ({
                let m = synth_model(old(self).insts@, old(self).pos, ip, accepts);
                &&& final(self).insts@ == m.insts
                &&& r == (m.verdict, m.fork)
                &&& final(self).exhausted == (old(self).exhausted || m.bail)
            }),
    {
        let original = accepts;
        let (dst, src) = match accepts {
            AcceptState::MaybeCheckRange(d, s) => (d, s),
            _ => {
                return (original, None);
            }
        };
        if !dst.intersects(src) {
            return (original, None);
        }
        let ip_v = match ip {
            Some(i) => i,
            None => {
                return (original, None);
            }
        };
        let mut previous = match self.insts[ip_v as usize] {
            Inst::ByteRange(range) => range,
            _ => {
                return (original, None);
            }
        };
        let ghost br0 = previous;
        let keep_insts = self.insts.len();
        let keep_marks = marks.len();
        let ghost orig_insts = self.insts@;
        let ghost orig_marks = marks@;
        let ghost mut lo_loc: int = 0;
        let ghost mut lo_copied: Seq<Inst> = orig_insts;

        if src.start < dst.start {
            let fuel = self.insts.len() as u64 + 1;
            match self.copy_fork(ip_v, fuel) {
                None => {
                    self.insts.truncate(keep_insts);
                    self.exhausted = true;
                    proof {
                        assert(self.insts@ =~= orig_insts);
                        assert(copy_model(orig_insts, ip_v as int, (orig_insts.len() + 1) as nat)
                            is None);
                        assert(synth_model(old(self).insts@, old(self).pos, ip, accepts)
                            == SynthOut {
                            insts: orig_insts,
                            verdict: AcceptState::MaybeCheckRange(dst, src),
                            fork: None::<ProgFork>,
                            bail: true,
                        });
                    }
                    return (original, None);
                }
                Some(location) => {
                    proof {
                        lo_copied = self.insts@;
                        assert(copy_model(orig_insts, ip_v as int, (orig_insts.len() + 1) as nat)
                            == Some(lo_copied));
                    }
                    let alternate = previous.alternate;
                    previous.alternate = Some(location);
                    let missing = RangeInclusive { start: src.start, end: dst.start - 1 };
                    self.insts[location as usize] = Inst::ByteRange(
                        InstByteRange { private: previous.private, range: missing, alternate },
                    );
                    let mut states = self.accept_state(location as usize);
                    marks.append(&mut states);
                    proof {
                        lo_loc = location as int;
                        assert(self.insts@ == lo_copied.update(
                            orig_insts.len() as int,
                            Inst::ByteRange(
                                InstByteRange {
                                    private: br0.private,
                                    range: lo_missing(dst, src),
                                    alternate: br0.alternate,
                                },
                            ),
                        ));
                    }
                }
            }
        }
        let ghost a1g = self.insts@;
        let ghost alt1g = previous.alternate;
        let ghost mut hi_loc: int = 0;
        let ghost mut hi_copied: Seq<Inst> = a1g;

        if src.end > dst.end {
            let fuel = self.insts.len() as u64 + 1;
            match self.copy_fork(ip_v, fuel) {
                None => {
                    self.insts.truncate(keep_insts);
                    marks.truncate(keep_marks);
                    self.exhausted = true;
                    proof {
                        assert(self.insts@ =~= orig_insts);
                        assert(marks@ =~= orig_marks);
                        assert(copy_model(a1g, ip_v as int, (a1g.len() + 1) as nat) is None);
                        assert(synth_model(old(self).insts@, old(self).pos, ip, accepts)
                            == SynthOut {
                            insts: orig_insts,
                            verdict: AcceptState::MaybeCheckRange(dst, src),
                            fork: None::<ProgFork>,
                            bail: true,
                        });
                    }
                    return (original, None);
                }
                Some(location) => {
                    proof {
                        hi_copied = self.insts@;
                        assert(copy_model(a1g, ip_v as int, (a1g.len() + 1) as nat) == Some(
                            hi_copied,
                        ));
                    }
                    let alternate = previous.alternate;
                    previous.alternate = Some(location);
                    let missing = RangeInclusive { start: dst.end + 1, end: src.end };
                    self.insts[location as usize] = Inst::ByteRange(
                        InstByteRange { private: previous.private, range: missing, alternate },
                    );
                    let mut states = self.accept_state(location as usize);
                    marks.append(&mut states);
                    proof {
                        hi_loc = location as int;
                        assert(self.insts@ == hi_copied.update(
                            a1g.len() as int,
                            Inst::ByteRange(
                                InstByteRange {
                                    private: br0.private,
                                    range: hi_missing(dst, src),
                                    alternate: alt1g,
                                },
                            ),
                        ));
                    }
                }
            }
        }
        let ghost a2g = self.insts@;
        let ghost alt2g = previous.alternate;
        previous.range = dst;
        self.insts[ip_v as usize] = Inst::ByteRange(previous);
        let fork = match previous.alternate {
            Some(a) => Some(ProgFork { ip: a, pos: self.pos }),
            None => None,
        };
        proof {
            let oi = orig_insts;
            let ni = self.insts@;
            let i = ip_v as int;
            let lo = src.start < dst.start;
            let hi = src.end > dst.end;
            if lo && hi {
                assert(oi.len() <= lo_loc < hi_loc < ni.len());
                assert(ni[hi_loc] == Inst::ByteRange(
                    InstByteRange {
                        private: br0.private,
                        range: hi_missing(dst, src),
                        alternate: Some(lo_loc as InstPtr),
                    },
                ));
                assert(ni[lo_loc] == Inst::ByteRange(
                    InstByteRange {
                        private: br0.private,
                        range: lo_missing(dst, src),
                        alternate: br0.alternate,
                    },
                ));
                assert(synth_splice(oi, ni, i, br0, dst, src));
            } else if lo {
                assert(ni[lo_loc] == Inst::ByteRange(
                    InstByteRange {
                        private: br0.private,
                        range: lo_missing(dst, src),
                        alternate: br0.alternate,
                    },
                ));
                assert(synth_splice(oi, ni, i, br0, dst, src));
            } else if hi {
                assert(ni[hi_loc] == Inst::ByteRange(
                    InstByteRange {
                        private: br0.private,
                        range: hi_missing(dst, src),
                        alternate: br0.alternate,
                    },
                ));
                assert(synth_splice(oi, ni, i, br0, dst, src));
            } else {
                assert(synth_splice(oi, ni, i, br0, dst, src));
            }
            assert(self.insts@ == a2g.update(
                ip_v as int,
                Inst::ByteRange(
                    InstByteRange { private: br0.private, range: dst, alternate: alt2g },
                ),
            ));
            assert(synth_model(old(self).insts@, old(self).pos, ip, accepts) == SynthOut {
                insts: self.insts@,
                verdict: AcceptState::Always,
                fork,
                bail: false,
            });
        }
        (AcceptState::Always, fork)
    }
}

} // verus!
