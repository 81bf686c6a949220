//! Byte-automaton instructions and the byte-acceptance algebra.

use vstd::prelude::*;
use crate::ty::Endian;

verus! {

/// Index of an instruction within a program.
pub type InstPtr = u32;

/// One byte-level instruction of the automaton.
#[derive(Clone, Copy, Debug, PartialEq, Eq, Structural)]
pub enum Inst {
    /// Terminal: the walk ends here.
    Accept,
    /// One padding byte whose content is unspecified.
    Uninit,
    /// Declared for pointers; the compiler never emits it.
    Pointer(InstrPointer),
    /// Declared for references; the compiler never emits it.
    Ref(InstrRef),
    /// Exactly one constant byte (a literal discriminant digit).
    Byte(InstByte),
    /// One byte drawn from an inclusive range, with an optional
    /// non-deterministic branch produced by synthetic forking.
    ByteRange(InstByteRange),
    /// Branch: continue in order or jump to `alternate`.
    Split(InstSplit),
    /// Unconditional jump to a join point.
    JoinGoto(InstPtr),
}

#[derive(Clone, Copy, Debug, PartialEq, Eq, Structural)]
pub struct InstrPointer {
    pub pointer_size: u32,
    pub data_align: u32,
}

/// Whether a pointed-to value is shared or unique.
#[derive(Clone, Copy, Debug, PartialEq, Eq, Structural)]
pub enum RefKind {
    Shared,
    Unique,
}

#[derive(Clone, Copy, Debug, PartialEq, Eq, Structural)]
pub struct InstrRef {
    pub ref_type: RefKind,
    pub pointer_size: u32,
    pub data_align: u32,
}

#[derive(Clone, Copy, Debug, PartialEq, Eq, Structural)]
pub struct InstSplit {
    pub alternate: InstPtr,
}

#[derive(Clone, Copy, Debug, PartialEq, Eq, Structural)]
pub struct InstByte {
    pub private: bool,
    pub byte: u8,
}

#[derive(Clone, Copy, Debug, PartialEq, Eq, Structural)]
pub struct InstByteRange {
    pub private: bool,
    pub range: RangeInclusive,
    pub alternate: Option<InstPtr>,
}

/// An inclusive range of byte values.
#[derive(Clone, Copy, Debug, PartialEq, Eq, Structural)]
pub struct RangeInclusive {
    pub start: u8,
    pub end: u8,
}

/// The verdict for one destination/source byte pair, and the per-instruction
/// accumulator of the execution engine.
#[derive(Clone, Copy, Debug, PartialEq, Eq, Structural)]
pub enum AcceptState {
    /// The pair is universally admissible.
    Always,
    /// An unspecified source byte would flow into a specified destination.
    NeverReadUninit,
    /// The source byte is hidden behind a private field.
    NeverReadPrivate,
    /// The destination byte is hidden behind a private field.
    NeverWritePrivate,
    /// Two constant discriminant bytes differ.
    NeverTagMismatch,
    /// The source range lies wholly outside the destination range.
    NeverOutOfRange(RangeInclusive, RangeInclusive),
    /// Initial placeholder: no walk has reached this source instruction yet.
    NeverUnreachable,
    /// The ranges overlap without containment; a synthetic fork is needed.
    MaybeCheckRange(RangeInclusive, RangeInclusive),
}

/// One byte-level step yielded by a program walker.
#[derive(Clone, Copy, Debug, PartialEq, Eq, Structural)]
pub enum StepByte {
    /// A padding byte.
    Uninit,
    /// A constant byte; the flag says whether it is private.
    Byte(bool, u8),
    /// A byte from an inclusive range; the flag says whether it is private.
    ByteRange(bool, RangeInclusive),
}

impl Inst {
    /// A branch whose target is not yet known; `patch_split` fills it in.
    pub fn new_invalid_split() -> (r: Inst)
        ensures
            r == Inst::Split(InstSplit { alternate: InstPtr::MAX }),
    {
        Inst::Split(InstSplit { alternate: InstPtr::MAX })
    }

    /// A jump whose target is not yet known; `patch_goto` fills it in.
    pub fn new_invalid_goto() -> (r: Inst)
        ensures
            r == Inst::JoinGoto(InstPtr::MAX),
    {
        Inst::JoinGoto(InstPtr::MAX)
    }

    /// Set the branch target of a `Split`.
    pub fn patch_split(&mut self, alternate: InstPtr)
        requires
            *old(self) is Split,
        ensures
            *final(self) == Inst::Split(InstSplit { alternate }),
    {
        match self {
            Inst::Split(ref mut split) => {
                split.alternate = alternate;
            }
            _ => vstd::pervasive::unreached(),
        }
    }

    /// Set the target of a `JoinGoto`.
    pub fn patch_goto(&mut self, addr: InstPtr)
        requires
            *old(self) is JoinGoto,
        ensures
            *final(self) == Inst::JoinGoto(addr),
    {
        match self {
            Inst::JoinGoto(ref mut goto) => {
                *goto = addr;
            }
            _ => vstd::pervasive::unreached(),
        }
    }
}

impl AcceptState {
    /// Whether this verdict is the universally-admissible one.
    pub fn always(&self) -> (r: bool)
        ensures
            r == (*self is Always),
    {
        matches!(self, AcceptState::Always)
    }
}

/// Whether byte value `b` lies in range `r`.
pub open spec fn in_range(r: RangeInclusive, b: int) -> bool {
    r.start <= b <= r.end
}

/// Syntactic containment of `small` in `big`.
pub open spec fn range_contains(big: RangeInclusive, small: RangeInclusive) -> bool {
    big.start <= small.start && big.end >= small.end
}

/// Syntactic overlap of `a` and `b`.
pub open spec fn range_intersects(a: RangeInclusive, b: RangeInclusive) -> bool {
    a.end >= b.start && a.start <= b.end
}

/// The verdict for a destination range `a` facing a source range `b`.
pub open spec fn spec_accept_range(a: RangeInclusive, b: RangeInclusive) -> AcceptState {
    if range_contains(a, b) {
        AcceptState::Always
    } else if range_intersects(a, b) {
        AcceptState::MaybeCheckRange(a, b)
    } else {
        AcceptState::NeverOutOfRange(a, b)
    }
}

/// Whether a step carries the private flag.
pub open spec fn step_private(s: StepByte) -> bool {
    match s {
        StepByte::Uninit => false,
        StepByte::Byte(p, _) => p,
        StepByte::ByteRange(p, _) => p,
    }
}

/// The range of a single byte value.
pub open spec fn range_of_byte(b: u8) -> RangeInclusive {
    RangeInclusive { start: b, end: b }
}

/// The byte-acceptance truth table, first match wins: an unspecified
/// destination byte accepts everything; an unspecified source byte is
/// rejected by any specified destination; privacy on either side rejects;
/// constant bytes must match; ranges are compared by `spec_accept_range`.
pub open spec fn spec_accepts(d: StepByte, s: StepByte) -> AcceptState {
    if d is Uninit {
        AcceptState::Always
    } else if s is Uninit {
        AcceptState::NeverReadUninit
    } else if step_private(d) {
        AcceptState::NeverWritePrivate
    } else if step_private(s) {
        AcceptState::NeverReadPrivate
    } else {
        match (d, s) {
            (StepByte::Byte(_, a), StepByte::Byte(_, b)) => if a != b {
                AcceptState::NeverTagMismatch
            } else {
                AcceptState::Always
            },
            (StepByte::Byte(_, a), StepByte::ByteRange(_, r)) => spec_accept_range(
                range_of_byte(a),
                r,
            ),
            (StepByte::ByteRange(_, r), StepByte::Byte(_, b)) => spec_accept_range(
                r,
                range_of_byte(b),
            ),
            (StepByte::ByteRange(_, a), StepByte::ByteRange(_, b)) => spec_accept_range(a, b),
            _ => AcceptState::Always,
        }
    }
}

impl RangeInclusive {
    /// Whether `small` lies wholly within `self`.
    pub fn contains_range(&self, small: RangeInclusive) -> (r: bool)
        ensures
            r == range_contains(*self, small),
    {
        self.start <= small.start && self.end >= small.end
    }

    /// Whether `other` overlaps `self` anywhere.
    pub fn intersects(&self, other: RangeInclusive) -> (r: bool)
        ensures
            r == range_intersects(*self, other),
    {
        self.end >= other.start && self.start <= other.end
    }
}

/// The verdict for a destination range facing a source range: containment
/// accepts, overlap asks for a synthetic fork, disjointness rejects.
pub fn accept_range(a: RangeInclusive, b: RangeInclusive) -> (r: AcceptState)
    ensures
        r == spec_accept_range(a, b),
{
    if a.contains_range(b) {
        AcceptState::Always
    } else if a.intersects(b) {
        AcceptState::MaybeCheckRange(a, b)
    } else {
        AcceptState::NeverOutOfRange(a, b)
    }
}

impl StepByte {
    /// The verdict when this destination byte is asked to accept `source`.
    pub fn accepts(&self, source: &StepByte) -> (r: AcceptState)
        ensures
            r == spec_accepts(*self, *source),
    {
        match (*self, *source) {
            (StepByte::Uninit, _) => AcceptState::Always,
            (_, StepByte::Uninit) => AcceptState::NeverReadUninit,
            (StepByte::ByteRange(true, _), _) | (StepByte::Byte(true, _), _) => {
                AcceptState::NeverWritePrivate
            }
            (_, StepByte::ByteRange(true, _)) | (_, StepByte::Byte(true, _)) => {
                AcceptState::NeverReadPrivate
            }
            (StepByte::Byte(false, a), StepByte::Byte(false, b)) => {
                if a != b {
                    AcceptState::NeverTagMismatch
                } else {
                    AcceptState::Always
                }
            }
            (StepByte::Byte(false, byte), StepByte::ByteRange(false, range)) => {
                accept_range(RangeInclusive { start: byte, end: byte }, range)
            }
            (StepByte::ByteRange(false, range), StepByte::Byte(false, byte)) => {
                accept_range(range, RangeInclusive { start: byte, end: byte })
            }
            (StepByte::ByteRange(false, a), StepByte::ByteRange(false, b)) => {
                accept_range(a, b)
            }
        }
    }
}

/// Byte `k` of `value`, counting from the least significant end.
pub open spec fn nth_byte(value: u128, k: int) -> u8
    recommends
        0 <= k < 16,
{
    ((value >> ((8 * k) as u128)) & 0xff) as u8
}

/// Digit `j` of a `size`-byte literal written in the given byte order.
pub open spec fn literal_byte(endian: Endian, size: int, value: u128, j: int) -> u8
    recommends
        0 <= j < size <= 16,
{
    match endian {
        Endian::Little => nth_byte(value, j),
        Endian::Big => nth_byte(value, size - 1 - j),
    }
}

impl InstByte {
    /// The `size` constant-byte instructions that spell `value` in the given
    /// byte order, low address first.
    pub fn for_literal(endian: Endian, size: usize, value: u128, private: bool) -> (r: Vec<Inst>)
        requires
            1 <= size <= 16,
        ensures
            r@.len() == size,
            forall|j: int|
                0 <= j < size ==> r@[j] == Inst::Byte(
                    InstByte { private, byte: literal_byte(endian, size as int, value, j) },
                ),
    {
        let mut out: Vec<Inst> = Vec::new();
        let mut j: usize = 0;
        while j < size
            invariant
                1 <= size <= 16,
                0 <= j <= size,
                out@.len() == j,
                forall|k: int|
                    0 <= k < j ==> out@[k] == Inst::Byte(
                        InstByte { private, byte: literal_byte(endian, size as int, value, k) },
                    ),
            decreases size - j,
        {
            let sh: u128 = match endian {
                Endian::Little => 8 * (j as u128),
                Endian::Big => 8 * ((size - 1 - j) as u128),
            };
            let byte = ((value >> sh) & 0xff) as u8;
            out.push(Inst::Byte(InstByte { private, byte }));
            j += 1;
        }
        out
    }
}

/// Range algebra: disjoint ranges always reject, containment always accepts,
/// a partial overlap asks for a synthetic fork; and the syntactic `contains`
/// and `intersects` agree with subset and non-empty-intersection over the
/// byte values, for non-empty ranges.
pub proof fn lemma_range_algebra(d: RangeInclusive, s: RangeInclusive)
    requires
        d.start <= d.end,
        s.start <= s.end,
    ensures
        !range_intersects(d, s) ==> spec_accept_range(d, s) == AcceptState::NeverOutOfRange(d, s),
        range_contains(d, s) ==> spec_accept_range(d, s) == AcceptState::Always,
        range_intersects(d, s) && !range_contains(d, s) ==> spec_accept_range(d, s)
            == AcceptState::MaybeCheckRange(d, s),
        range_contains(d, s) <==> (forall|b: int| in_range(s, b) ==> in_range(d, b)),
        range_intersects(d, s) <==> (exists|b: int| in_range(s, b) && in_range(d, b)),
{
    if forall|b: int| in_range(s, b) ==> in_range(d, b) {
        assert(in_range(s, s.start as int));
        assert(in_range(s, s.end as int));
    }
    if range_intersects(d, s) {
        let w = max_u8(d.start, s.start);
        assert(in_range(s, w) && in_range(d, w));
    }
}

pub open spec fn max_u8(a: u8, b: u8) -> int {
    if a >= b {
        a as int
    } else {
        b as int
    }
}

/// For two public byte ranges, the verdict is the universally-admissible
/// one exactly when every byte value the source range admits is admitted by
/// the destination range.
pub proof fn lemma_always_is_subset(d: RangeInclusive, s: RangeInclusive)
    requires
        d.start <= d.end,
        s.start <= s.end,
    ensures
        (spec_accepts(StepByte::ByteRange(false, d), StepByte::ByteRange(false, s))
            == AcceptState::Always) <==> (forall|b: int| in_range(s, b) ==> in_range(d, b)),
{
    lemma_range_algebra(d, s);
}

/// Privacy monotonicity: a private destination byte rejects every specified
/// source with `NeverWritePrivate`; a private source byte is rejected by
/// every specified, non-private destination with `NeverReadPrivate`.
pub proof fn lemma_privacy_monotonicity(d: StepByte, s: StepByte)
    ensures
        step_private(d) && !(s is Uninit) ==> spec_accepts(d, s) == AcceptState::NeverWritePrivate,
        step_private(s) && !(d is Uninit) && !step_private(d) ==> spec_accepts(d, s)
            == AcceptState::NeverReadPrivate,
{
}

/// Unspecified bytes: an uninit destination accepts everything; an uninit
/// source is rejected by every specified destination with `NeverReadUninit`.
pub proof fn lemma_uninit(d: StepByte, s: StepByte)
    ensures
        d is Uninit ==> spec_accepts(d, s) == AcceptState::Always,
        s is Uninit && !(d is Uninit) ==> spec_accepts(d, s) == AcceptState::NeverReadUninit,
{
}

} // verus!
