//! The layout compiler: lowering a type tree into a byte-automaton program.

use vstd::prelude::*;
use vstd::arithmetic::div_mod::lemma_add_mod_noop;
use vstd::arithmetic::mul::{lemma_mul_inequality, lemma_mul_nonnegative};
use crate::ty::{
    align_ok, extend_layout, fold_fields, layout_of, lemma_align_divides, lemma_aligned_coarser,
    lemma_align_up_shift, lemma_extend_ge, lemma_fold_payloads_ge, lemma_fold_union_ge, lemma_pad,
    lemma_sum_aligned, lemma_wf_align_ok, lm, lm_array, lm_extend, lm_of, lm_round, max_i,
    pad_needed,
    spec_align_up, spec_pad, sums_nonempty, wf_enum, wf_struct, wf_ty, wf_union, Endian, Enum,
    EnumVariant, Field, Layout, LayoutModel, Ty, Union, UnionVariant,
};
use crate::inst::{Inst, InstByte, InstByteRange, InstPtr, InstSplit, RangeInclusive};
use crate::program::{wf_insts, Program};

verus! {

/// An instruction of a finished region: branch and join targets stay inside
/// `(i, b]`, byte ranges carry no synthetic branch yet, and no pointer or
/// reference instruction occurs.
pub open spec fn inst_bounded(inst: Inst, i: int, b: int) -> bool {
    match inst {
        Inst::Split(s) => i < s.alternate <= b,
        Inst::JoinGoto(t) => i < t <= b,
        Inst::ByteRange(r) => r.alternate is None,
        Inst::Pointer(_) => false,
        Inst::Ref(_) => false,
        _ => true,
    }
}

/// The instructions of `[a, b)` form a finished region: all control flow
/// stays within it or falls out at its end `b`.
pub open spec fn region_bounded(insts: Seq<Inst>, a: int, b: int) -> bool {
    forall|i: int| a <= i < b ==> inst_bounded(#[trigger] insts[i], i, b)
}

/// A finished region stays finished when the sequence grows around it and
/// the bound is relaxed.
pub proof fn lemma_region_frame(i1: Seq<Inst>, i2: Seq<Inst>, a: int, b: int, b2: int)
    requires
        region_bounded(i1, a, b),
        b <= b2,
        forall|k: int| a <= k < b ==> i2[k] == i1[k],
    ensures
        region_bounded(i2, a, b),
{
    assert forall|i: int| a <= i < b implies inst_bounded(#[trigger] i2[i], i, b) by {
        assert(inst_bounded(i1[i], i, b));
    }
}

/// Two adjacent finished regions join into one.
pub proof fn lemma_region_join(insts: Seq<Inst>, a: int, m: int, b: int)
    requires
        a <= m <= b,
        region_bounded(insts, a, m),
        region_bounded(insts, m, b),
    ensures
        region_bounded(insts, a, b),
{
    assert forall|i: int| a <= i < b implies inst_bounded(#[trigger] insts[i], i, b) by {
        if i < m {
            assert(inst_bounded(insts[i], i, m));
        } else {
            assert(inst_bounded(insts[i], i, b));
        }
    }
}

/// Whether an instruction that admits bytes carries the private flag;
/// control instructions and padding carry none.
pub open spec fn inst_private(inst: Inst) -> bool {
    match inst {
        Inst::Byte(b) => b.private,
        Inst::ByteRange(r) => r.private,
        _ => true,
    }
}

/// Every byte-admitting instruction of `[a, b)` is flagged private.
pub open spec fn region_private(insts: Seq<Inst>, a: int, b: int) -> bool {
    forall|k: int| a <= k < b ==> inst_private(#[trigger] insts[k])
}

/// A private region followed by a private extension is private as a whole.
pub proof fn lemma_private_concat(i1: Seq<Inst>, i2: Seq<Inst>, a: int)
    requires
        0 <= a <= i1.len() <= i2.len(),
        forall|k: int| 0 <= k < i1.len() ==> i2[k] == i1[k],
        region_private(i1, a, i1.len() as int),
        region_private(i2, i1.len() as int, i2.len() as int),
    ensures
        region_private(i2, a, i2.len() as int),
{
    assert forall|k: int| a <= k < i2.len() implies inst_private(#[trigger] i2[k]) by {
        if k < i1.len() {
            assert(inst_private(i1[k]));
        }
    }
}

/// Instruction well-formedness of a compiled program (whose last instruction
/// is the terminal): every branch and join target lies strictly within the
/// program, so no invalid placeholder target survives compilation.
pub proof fn lemma_compiled_targets_in_bounds(insts: Seq<Inst>)
    requires
        insts.len() >= 1,
        insts.len() <= u32::MAX,
        region_bounded(insts, 0, insts.len() - 1),
        insts[insts.len() - 1] == Inst::Accept,
    ensures
        forall|i: int|
            0 <= i < insts.len() ==> match #[trigger] insts[i] {
                Inst::Split(s) => i < s.alternate < insts.len() && s.alternate != InstPtr::MAX,
                Inst::JoinGoto(t) => i < t < insts.len() && t != InstPtr::MAX,
                _ => true,
            },
        wf_insts(insts),
{
    assert forall|i: int|
        0 <= i < insts.len() implies crate::program::inst_forward(#[trigger] insts[i], i) by {
        if i < insts.len() - 1 {
            assert(inst_bounded(insts[i], i, insts.len() - 1));
        }
    }
    assert forall|i: int|
        0 <= i < insts.len() implies match #[trigger] insts[i] {
        Inst::Split(s) => i < s.alternate < insts.len() && s.alternate != InstPtr::MAX,
        Inst::JoinGoto(t) => i < t < insts.len() && t != InstPtr::MAX,
        _ => true,
    } by {
        if i < insts.len() - 1 {
            assert(inst_bounded(insts[i], i, insts.len() - 1));
        }
    }
}

/// The number of byte-emitting instructions on the in-order path from `ip`
/// up to the bound `b`: a byte counts one and falls through, a branch falls
/// through, a join jumps forward; the walk ends at the bound, at a terminal,
/// or at any malformed edge.
pub open spec fn walk_len(insts: Seq<Inst>, ip: int, b: int) -> int
    decreases b - ip,
{
    if !(0 <= ip < b && b <= insts.len()) {
        0
    } else {
        match insts[ip] {
            Inst::Uninit => 1 + walk_len(insts, ip + 1, b),
            Inst::Byte(_) => 1 + walk_len(insts, ip + 1, b),
            Inst::ByteRange(_) => 1 + walk_len(insts, ip + 1, b),
            Inst::Split(_) => walk_len(insts, ip + 1, b),
            Inst::JoinGoto(t) => if ip < t <= b {
                walk_len(insts, t as int, b)
            } else {
                0
            },
            _ => 0,
        }
    }
}

/// Whether the in-order path from `ip` reaches exactly the bound `b`.
pub open spec fn walk_exits(insts: Seq<Inst>, ip: int, b: int) -> bool
    decreases b - ip,
{
    if ip == b {
        true
    } else if !(0 <= ip < b && b <= insts.len()) {
        false
    } else {
        match insts[ip] {
            Inst::Uninit => walk_exits(insts, ip + 1, b),
            Inst::Byte(_) => walk_exits(insts, ip + 1, b),
            Inst::ByteRange(_) => walk_exits(insts, ip + 1, b),
            Inst::Split(_) => walk_exits(insts, ip + 1, b),
            Inst::JoinGoto(t) => ip < t <= b && walk_exits(insts, t as int, b),
            _ => false,
        }
    }
}

/// The walk reads only the instructions between its position and its bound.
pub proof fn lemma_walk_frame(i1: Seq<Inst>, i2: Seq<Inst>, ip: int, b: int)
    requires
        b <= i1.len(),
        b <= i2.len(),
        forall|k: int| ip <= k < b ==> i2[k] == i1[k],
    ensures
        walk_len(i2, ip, b) == walk_len(i1, ip, b),
        walk_exits(i2, ip, b) == walk_exits(i1, ip, b),
    decreases b - ip,
{
    if 0 <= ip < b {
        match i1[ip] {
            Inst::JoinGoto(t) => {
                if ip < t <= b {
                    lemma_walk_frame(i1, i2, t as int, b);
                }
            }
            _ => {
                lemma_walk_frame(i1, i2, ip + 1, b);
            }
        }
    }
}

/// Walks over adjacent regions compose: when the path through the first
/// region exits at its end, the path onward continues from there, and the
/// byte counts add.
pub proof fn lemma_walk_concat(insts: Seq<Inst>, a: int, m: int, b: int)
    requires
        walk_exits(insts, a, m),
        a <= m <= b,
        b <= insts.len(),
    ensures
        walk_exits(insts, m, b) ==> walk_exits(insts, a, b),
        walk_len(insts, a, b) == walk_len(insts, a, m) + walk_len(insts, m, b),
    decreases m - a,
{
    if a != m {
        match insts[a] {
            Inst::JoinGoto(t) => {
                lemma_walk_concat(insts, t as int, m, b);
            }
            _ => {
                lemma_walk_concat(insts, a + 1, m, b);
            }
        }
    }
}

/// A run of byte-emitting instructions walks straight through: it exits at
/// its end and emits one byte per instruction.
pub proof fn lemma_walk_byte_run(insts: Seq<Inst>, a: int, b: int)
    requires
        0 <= a <= b <= insts.len(),
        forall|k: int| a <= k < b ==> crate::program::is_byte_inst(#[trigger] insts[k]),
    ensures
        walk_exits(insts, a, b),
        walk_len(insts, a, b) == b - a,
    decreases b - a,
{
    if a < b {
        lemma_walk_byte_run(insts, a + 1, b);
    }
}

/// An upper bound on the instructions `extend_from_ty` appends for a type:
/// seven covers any alignment padding on entry, and each case covers its own
/// emission, padding included.
pub open spec fn inst_bound(ty: Ty) -> int
    decreases ty, 0int,
{
    7 + match ty {
        Ty::Void => 0,
        Ty::Bool => 1,
        Ty::Int(n) => n as int,
        Ty::Ptr(_) => 0,
        Ty::Ref(_) => 0,
        Ty::Array(a) => a.count * inst_bound(a.element),
        Ty::Struct(st) => sum_field_bound(st.fields@, st.fields@.len() as int) + 7,
        Ty::Enum(e) => sum_variant_bound(e.variants@, e.variants@.len() as int)
            + e.variants@.len() * (24 + lm(e.payload_layout).size),
        Ty::Union(u) => sum_union_bound(u.variants@, u.variants@.len() as int) + u.variants@.len()
            * (16 + lm(u.layout).size),
    }
}

/// Instruction bound for the first `i` fields of a struct, padding included.
pub open spec fn sum_field_bound(fields: Seq<Field>, i: int) -> int
    decreases fields, i,
{
    if i <= 0 || i > fields.len() {
        0
    } else {
        sum_field_bound(fields, i - 1) + 7 + inst_bound(fields[i - 1].ty)
    }
}

/// Instruction bound for the payloads of the first `i` enum variants.
pub open spec fn sum_variant_bound(vs: Seq<EnumVariant>, i: int) -> int
    decreases vs, i,
{
    if i <= 0 || i > vs.len() {
        0
    } else {
        sum_variant_bound(vs, i - 1) + inst_bound(vs[i - 1].payload)
    }
}

/// Instruction bound for the first `i` union variants.
pub open spec fn sum_union_bound(vs: Seq<UnionVariant>, i: int) -> int
    decreases vs, i,
{
    if i <= 0 || i > vs.len() {
        0
    } else {
        sum_union_bound(vs, i - 1) + inst_bound(vs[i - 1].ty)
    }
}

/// Every instruction bound is at least seven, and the partial sums grow.
pub proof fn lemma_inst_bound_nonneg(ty: Ty)
    ensures
        inst_bound(ty) >= 7,
    decreases ty, 1int,
{
    match ty {
        Ty::Array(a) => {
            lemma_inst_bound_nonneg(a.element);
            lemma_mul_nonnegative(a.count as int, inst_bound(a.element));
        }
        Ty::Struct(st) => {
            lemma_sum_field_bound_nonneg(st.fields@, st.fields@.len() as int);
        }
        Ty::Enum(e) => {
            lemma_sum_variant_bound_nonneg(e.variants@, e.variants@.len() as int);
            lemma_mul_nonnegative(e.variants@.len() as int, 24 + lm(e.payload_layout).size);
        }
        Ty::Union(u) => {
            lemma_sum_union_bound_nonneg(u.variants@, u.variants@.len() as int);
            lemma_mul_nonnegative(u.variants@.len() as int, 16 + lm(u.layout).size);
        }
        _ => {}
    }
}

pub proof fn lemma_sum_field_bound_nonneg(fields: Seq<Field>, i: int)
    requires
        i <= fields.len(),
    ensures
        sum_field_bound(fields, i) >= 0,
        forall|k: int| 0 <= k <= i ==> #[trigger] sum_field_bound(fields, k) <= sum_field_bound(
            fields,
            i,
        ),
    decreases fields, i, 0int,
{
    if i > 0 {
        lemma_sum_field_bound_nonneg(fields, i - 1);
        lemma_inst_bound_nonneg(fields[i - 1].ty);
    }
}

pub proof fn lemma_sum_variant_bound_nonneg(vs: Seq<EnumVariant>, i: int)
    requires
        i <= vs.len(),
    ensures
        sum_variant_bound(vs, i) >= 0,
        forall|k: int| 0 <= k <= i ==> #[trigger] sum_variant_bound(vs, k) <= sum_variant_bound(
            vs,
            i,
        ),
    decreases vs, i, 0int,
{
    if i > 0 {
        lemma_sum_variant_bound_nonneg(vs, i - 1);
        lemma_inst_bound_nonneg(vs[i - 1].payload);
    }
}

pub proof fn lemma_sum_union_bound_nonneg(vs: Seq<UnionVariant>, i: int)
    requires
        i <= vs.len(),
    ensures
        sum_union_bound(vs, i) >= 0,
        forall|k: int| 0 <= k <= i ==> #[trigger] sum_union_bound(vs, k) <= sum_union_bound(vs, i),
    decreases vs, i, 0int,
{
    if i > 0 {
        lemma_sum_union_bound_nonneg(vs, i - 1);
        lemma_inst_bound_nonneg(vs[i - 1].ty);
    }
}

/// A multiple of a multiple: `stride % a == 0` makes every `k * stride` a
/// multiple of `a` as well.
pub proof fn lemma_mul_multiple_mod(k: int, stride: int, a: int)
    requires
        k >= 0,
        stride >= 0,
        a > 0,
        stride % a == 0,
    ensures
        (k * stride) % a == 0,
    decreases k,
{
    vstd::arithmetic::div_mod::lemma_small_mod(0nat, a as nat);
    if k == 0 {
        assert(0int * stride == 0);
    } else {
        lemma_mul_multiple_mod(k - 1, stride, a);
        assert(k * stride == (k - 1) * stride + stride) by (nonlinear_arith);
        lemma_add_mod_noop((k - 1) * stride, stride, a);
    }
}

/// The compiler: a growing instruction arena, the layout reached so far, and
/// the current privacy depth.
pub struct Compiler {
    pub endian: Endian,
    pub layout: Layout,
    pub insts: Vec<Inst>,
    pub priv_depth: usize,
}

impl Compiler {
    /// The compiler's running state is sound: a supported alignment and a
    /// well-formed arena.
    pub open spec fn wf(self) -> bool {
        &&& align_ok(self.layout.align as int)
        &&& wf_insts(self.insts@)
    }

    /// A fresh compiler: empty layout, no instructions, public depth.
    pub fn new(endian: Endian) -> (r: Compiler)
        ensures
            r.wf(),
            r.endian == endian,
            r.layout == (Layout { size: 0, align: 1 }),
            r.insts@.len() == 0,
            r.priv_depth == 0,
    {
        Compiler {
            endian,
            layout: Layout { size: 0, align: 1 },
            insts: Vec::new(),
            priv_depth: 0,
        }
    }

    /// Append `padding` unspecified bytes.
    fn pad(&mut self, padding: usize)
        requires
            old(self).wf(),
            lm(old(self).layout).size + padding <= usize::MAX,
            old(self).insts@.len() + padding <= u32::MAX,
        ensures
            final(self).wf(),
            final(self).endian == old(self).endian,
            final(self).priv_depth == old(self).priv_depth,
            final(self).layout.size == old(self).layout.size + padding,
            final(self).layout.align == old(self).layout.align,
            final(self).insts@.len() == old(self).insts@.len() + padding,
            forall|k: int|
                0 <= k < old(self).insts@.len() ==> final(self).insts@[k] == old(self).insts@[k],
            forall|k: int|
                old(self).insts@.len() <= k < final(self).insts@.len() ==> final(self).insts@[k]
                    == Inst::Uninit,
            region_bounded(
                final(self).insts@,
                old(self).insts@.len() as int,
                final(self).insts@.len() as int,
            ),
            walk_exits(
                final(self).insts@,
                old(self).insts@.len() as int,
                final(self).insts@.len() as int,
            ),
            walk_len(
                final(self).insts@,
                old(self).insts@.len() as int,
                final(self).insts@.len() as int,
            ) == padding,
    {
        let mut i: usize = 0;
        while i < padding
            invariant
                old(self).wf(),
                0 <= i <= padding,
                lm(old(self).layout).size + padding <= usize::MAX,
                old(self).insts@.len() + padding <= u32::MAX,
                self.endian == old(self).endian,
                self.priv_depth == old(self).priv_depth,
                self.layout == old(self).layout,
                self.insts@.len() == old(self).insts@.len() + i,
                forall|k: int|
                    0 <= k < old(self).insts@.len() ==> self.insts@[k] == old(self).insts@[k],
                forall|k: int|
                    old(self).insts@.len() <= k < self.insts@.len() ==> self.insts@[k]
                        == Inst::Uninit,
            decreases padding - i,
        {
            self.insts.push(Inst::Uninit);
            i = i + 1;
        }
        self.layout = Layout { size: self.layout.size + padding, align: self.layout.align };
        proof {
            assert forall|k: int|
                0 <= k < self.insts@.len() implies inst_forward_holds(self.insts@, k) by {
                if k < old(self).insts@.len() {
                    assert(crate::program::inst_forward(old(self).insts@[k], k));
                }
            }
            lemma_walk_byte_run(
                self.insts@,
                old(self).insts@.len() as int,
                self.insts@.len() as int,
            );
        }
    }

    /// Pad with unspecified bytes up to the given alignment.
    fn pad_to_align(&mut self, align: usize)
        requires
            old(self).wf(),
            align_ok(align as int),
            spec_align_up(lm(old(self).layout).size, align as int) <= usize::MAX,
            old(self).insts@.len() + spec_pad(lm(old(self).layout).size, align as int)
                <= u32::MAX,
        ensures
            final(self).wf(),
            final(self).endian == old(self).endian,
            final(self).priv_depth == old(self).priv_depth,
            final(self).layout.size == spec_align_up(lm(old(self).layout).size, align as int),
            final(self).layout.align == old(self).layout.align,
            final(self).insts@.len() == old(self).insts@.len() + spec_pad(
                lm(old(self).layout).size,
                align as int,
            ),
            forall|k: int|
                0 <= k < old(self).insts@.len() ==> final(self).insts@[k] == old(self).insts@[k],
            forall|k: int|
                old(self).insts@.len() <= k < final(self).insts@.len() ==> final(self).insts@[k]
                    == Inst::Uninit,
            region_bounded(
                final(self).insts@,
                old(self).insts@.len() as int,
                final(self).insts@.len() as int,
            ),
            walk_exits(
                final(self).insts@,
                old(self).insts@.len() as int,
                final(self).insts@.len() as int,
            ),
            walk_len(
                final(self).insts@,
                old(self).insts@.len() as int,
                final(self).insts@.len() as int,
            ) == spec_pad(lm(old(self).layout).size, align as int),
    {
        proof {
            lemma_pad(lm(self.layout).size, align as int);
        }
        let padding = pad_needed(self.layout.size, align);
        self.pad(padding);
    }

    /// Append `size` copies of one byte-range instruction drawn from
    /// `lo..=hi`, private at positive privacy depth.  The layout is the
    /// caller's to update.
    fn repeat_byte(&mut self, size: u32, lo: u8, hi: u8)
        requires
            old(self).wf(),
            old(self).insts@.len() + size <= u32::MAX,
        ensures
            final(self).wf(),
            final(self).endian == old(self).endian,
            final(self).priv_depth == old(self).priv_depth,
            final(self).layout == old(self).layout,
            final(self).insts@.len() == old(self).insts@.len() + size,
            forall|k: int|
                0 <= k < old(self).insts@.len() ==> final(self).insts@[k] == old(self).insts@[k],
            forall|k: int|
                old(self).insts@.len() <= k < final(self).insts@.len() ==> final(self).insts@[k]
                    == Inst::ByteRange(
                    InstByteRange {
                        private: old(self).priv_depth > 0,
                        range: RangeInclusive { start: lo, end: hi },
                        alternate: None,
                    },
                ),
            region_bounded(
                final(self).insts@,
                old(self).insts@.len() as int,
                final(self).insts@.len() as int,
            ),
            walk_exits(
                final(self).insts@,
                old(self).insts@.len() as int,
                final(self).insts@.len() as int,
            ),
            walk_len(
                final(self).insts@,
                old(self).insts@.len() as int,
                final(self).insts@.len() as int,
            ) == size,
    {
        let private = self.priv_depth > 0;
        let mut i: u32 = 0;
        while i < size
            invariant
                old(self).wf(),
                0 <= i <= size,
                old(self).insts@.len() + size <= u32::MAX,
                private == (old(self).priv_depth > 0),
                self.endian == old(self).endian,
                self.priv_depth == old(self).priv_depth,
                self.layout == old(self).layout,
                self.insts@.len() == old(self).insts@.len() + i,
                forall|k: int|
                    0 <= k < old(self).insts@.len() ==> self.insts@[k] == old(self).insts@[k],
                forall|k: int|
                    old(self).insts@.len() <= k < self.insts@.len() ==> self.insts@[k]
                        == Inst::ByteRange(
                        InstByteRange {
                            private: old(self).priv_depth > 0,
                            range: RangeInclusive { start: lo, end: hi },
                            alternate: None,
                        },
                    ),
            decreases size - i,
        {
            self.insts.push(
                Inst::ByteRange(
                    InstByteRange {
                        private,
                        range: RangeInclusive { start: lo, end: hi },
                        alternate: None,
                    },
                ),
            );
            i = i + 1;
        }
        proof {
            assert forall|k: int|
                0 <= k < self.insts@.len() implies inst_forward_holds(self.insts@, k) by {
                if k < old(self).insts@.len() {
                    assert(crate::program::inst_forward(old(self).insts@[k], k));
                }
            }
            lemma_walk_byte_run(
                self.insts@,
                old(self).insts@.len() as int,
                self.insts@.len() as int,
            );
        }
    }
}

/// Forwardness of the instruction at `k`, spelled as a predicate so the
/// helper proofs can name it.
pub open spec fn inst_forward_holds(insts: Seq<Inst>, k: int) -> bool {
    crate::program::inst_forward(insts[k], k)
}

impl Compiler {
    /// Emit one enum variant from a position aligned for the whole enum: the
    /// literal discriminant, padding up to the payload alignment, the payload
    /// itself, tail padding up to the shared payload size, and padding up to
    /// the enum's own alignment.  The layout advances by exactly the enum's
    /// full (rounded) layout size.
    #[verifier::rlimit(100)]
    fn extend_enum_variant(&mut self, e_def: &Enum, variant: &EnumVariant)
        requires
            old(self).wf(),
            wf_enum(*e_def),
            wf_ty(variant.payload),
            sums_nonempty(variant.payload),
            lm_of(variant.payload).size <= lm(e_def.payload_layout).size,
            lm_of(variant.payload).align <= lm(e_def.payload_layout).align,
            lm(old(self).layout).size % lm(e_def.tag_layout).align == 0,
            lm(old(self).layout).size % lm(e_def.payload_layout).align == 0,
            lm(old(self).layout).align >= lm(e_def.tag_layout).align,
            lm(old(self).layout).align >= lm(e_def.payload_layout).align,
            lm(old(self).layout).size + lm(e_def.layout).size <= usize::MAX,
            old(self).insts@.len() + 22 + inst_bound(variant.payload) + lm(
                e_def.payload_layout,
            ).size <= u32::MAX,
            old(self).priv_depth + inst_bound(variant.payload) <= usize::MAX,
        ensures
            final(self).wf(),
            final(self).endian == old(self).endian,
            final(self).priv_depth == old(self).priv_depth,
            lm(final(self).layout) == (LayoutModel {
                size: lm(old(self).layout).size + lm(e_def.layout).size,
                align: lm(old(self).layout).align,
            }),
            old(self).insts@.len() <= final(self).insts@.len(),
            final(self).insts@.len() <= old(self).insts@.len() + 22 + inst_bound(variant.payload)
                + lm(e_def.payload_layout).size,
            forall|k: int|
                0 <= k < old(self).insts@.len() ==> final(self).insts@[k] == old(self).insts@[k],
            region_bounded(
                final(self).insts@,
                old(self).insts@.len() as int,
                final(self).insts@.len() as int,
            ),
            walk_exits(
                final(self).insts@,
                old(self).insts@.len() as int,
                final(self).insts@.len() as int,
            ),
            walk_len(
                final(self).insts@,
                old(self).insts@.len() as int,
                final(self).insts@.len() as int,
            ) == lm(e_def.layout).size,
            forall|j: int|
                0 <= j < lm(e_def.tag_layout).size ==> #[trigger] final(self).insts@[old(
                    self,
                ).insts@.len() + j] == Inst::Byte(
                    InstByte {
                        private: old(self).priv_depth > 0,
                        byte: crate::inst::literal_byte(
                            old(self).endian,
                            lm(e_def.tag_layout).size,
                            variant.disc,
                            j,
                        ),
                    },
                ),
            old(self).priv_depth > 0 ==> region_private(
                final(self).insts@,
                old(self).insts@.len() as int,
                final(self).insts@.len() as int,
            ),
        decreases variant.payload, 1int,
    {
        let ghost len0 = self.insts@.len() as int;
        let ghost size0 = lm(self.layout).size;
        let ghost tag_up = spec_align_up(lm(e_def.tag_layout).size, lm(e_def.payload_layout).align);
        proof {
            lemma_wf_align_ok(variant.payload);
            lemma_inst_bound_nonneg(variant.payload);
            lemma_pad(size0, lm(e_def.tag_layout).align);
            lemma_pad(lm(e_def.tag_layout).size, lm(e_def.payload_layout).align);
            // the enum's stored layout is the tag extended by the payload,
            // rounded up to a multiple of the enum's own alignment
            lemma_pad(tag_up + lm(e_def.payload_layout).size, lm(e_def.layout).align);
            assert(lm(e_def.layout).size == spec_align_up(
                tag_up + lm(e_def.payload_layout).size,
                lm(e_def.layout).align,
            ));
            // the base is aligned for the whole enum, whose alignment is one
            // of the tag's and the payload's
            assert(size0 % lm(e_def.layout).align == 0);
        }
        let endian = self.endian;
        let private = self.priv_depth > 0;
        let mut tag = InstByte::for_literal(
            endian,
            e_def.tag_layout.size,
            variant.disc,
            private,
        );
        let ghost tag_seq = tag@;
        self.insts.append(&mut tag);
        proof {
            assert forall|k: int|
                0 <= k < self.insts@.len() implies inst_forward_holds(self.insts@, k) by {
                if k < len0 {
                    assert(crate::program::inst_forward(old(self).insts@[k], k));
                } else {
                    assert(self.insts@[k] == tag_seq[k - len0]);
                }
            }
            assert(region_bounded(self.insts@, len0, self.insts@.len() as int)) by {
                assert forall|i: int|
                    len0 <= i < self.insts@.len() implies inst_bounded(
                    #[trigger] self.insts@[i],
                    i,
                    self.insts@.len() as int,
                ) by {
                    assert(self.insts@[i] == tag_seq[i - len0]);
                }
            }
            assert forall|i: int|
                len0 <= i < self.insts@.len() implies crate::program::is_byte_inst(
                #[trigger] self.insts@[i],
            ) by {
                assert(self.insts@[i] == tag_seq[i - len0]);
            }
            lemma_walk_byte_run(self.insts@, len0, self.insts@.len() as int);
        }
        self.layout = extend_layout(self.layout, e_def.tag_layout);
        let ghost g1 = self.insts@;
        let ghost len1 = self.insts@.len() as int;
        proof {
            lemma_region_frame(self.insts@, self.insts@, len0, len1, len1);
            lemma_align_up_shift(
                size0,
                lm(e_def.tag_layout).size,
                lm(e_def.payload_layout).align,
            );
        }
        self.pad_to_align(e_def.payload_layout.align);
        let ghost len2 = self.insts@.len() as int;
        let ghost size2 = lm(self.layout).size;
        proof {
            assert(size2 == size0 + tag_up);
            // the payload lands on a position aligned for it
            lemma_sum_aligned(size0, tag_up, lm(e_def.payload_layout).align);
            lemma_align_divides(lm_of(variant.payload).align, lm(e_def.payload_layout).align);
            lemma_aligned_coarser(
                size2,
                lm_of(variant.payload).align,
                lm(e_def.payload_layout).align,
            );
            lemma_pad(size2, lm_of(variant.payload).align);
            lemma_region_frame(self.insts@, self.insts@, len0, len1, len2);
            lemma_region_join(self.insts@, len0, len1, len2);
        }
        let ghost g2 = self.insts@;
        self.extend_from_ty(&variant.payload);
        let ghost g3 = self.insts@;
        let ghost len3 = self.insts@.len() as int;
        proof {
            lemma_region_frame(self.insts@, self.insts@, len0, len2, len3);
            lemma_region_join(self.insts@, len0, len2, len3);
        }
        let variant_layout = layout_of(&variant.payload);
        self.pad(e_def.payload_layout.size - variant_layout.size);
        let ghost g4 = self.insts@;
        let ghost len4 = self.insts@.len() as int;
        proof {
            lemma_region_frame(self.insts@, self.insts@, len0, len3, len4);
            lemma_region_join(self.insts@, len0, len3, len4);
            // the unrounded end lands on a base plus the unrounded extension
            lemma_align_up_shift(
                size0,
                tag_up + lm(e_def.payload_layout).size,
                lm(e_def.layout).align,
            );
        }
        self.pad_to_align(e_def.layout.align);
        proof {
            let len5 = self.insts@.len() as int;
            lemma_region_frame(self.insts@, self.insts@, len0, len4, len5);
            lemma_region_join(self.insts@, len0, len4, len5);
            // assemble the in-order byte count of the whole variant
            let cur = self.insts@;
            assert forall|k: int| len0 <= k < len1 implies cur[k] == g1[k] by {}
            assert forall|k: int| len1 <= k < len2 implies cur[k] == g2[k] by {}
            assert forall|k: int| len2 <= k < len3 implies cur[k] == g3[k] by {}
            assert forall|k: int| len3 <= k < len4 implies cur[k] == g4[k] by {}
            lemma_walk_frame(g1, cur, len0, len1);
            lemma_walk_frame(g2, cur, len1, len2);
            lemma_walk_frame(g3, cur, len2, len3);
            lemma_walk_frame(g4, cur, len3, len4);
            lemma_walk_concat(cur, len3, len4, len5 as int);
            lemma_walk_concat(cur, len2, len3, len5 as int);
            lemma_walk_concat(cur, len1, len2, len5 as int);
            lemma_walk_concat(cur, len0, len1, len5 as int);
            // the literal discriminant bytes written first are still in place
            assert forall|j: int|
                0 <= j < lm(e_def.tag_layout).size implies #[trigger] cur[len0 + j] == Inst::Byte(
                InstByte {
                    private: old(self).priv_depth > 0,
                    byte: crate::inst::literal_byte(
                        old(self).endian,
                        lm(e_def.tag_layout).size,
                        variant.disc,
                        j,
                    ),
                },
            ) by {
                assert(cur[len0 + j] == g1[len0 + j]);
                assert(g1[len0 + j] == tag_seq[j]);
            }
            if old(self).priv_depth > 0 {
                assert(region_private(g1, len0, len1)) by {
                    assert forall|k: int| len0 <= k < len1 implies inst_private(
                        #[trigger] g1[k],
                    ) by {
                        assert(g1[k] == tag_seq[k - len0]);
                    }
                }
                lemma_private_concat(g1, g2, len0);
                lemma_private_concat(g2, g3, len0);
                lemma_private_concat(g3, g4, len0);
                lemma_private_concat(g4, cur, len0);
            }
        }
    }

    /// Emit one union variant from a position aligned for the whole union:
    /// the variant itself, then tail padding up to the union size; a private
    /// variant raises the privacy depth around its emission.  The layout
    /// advances by exactly the union's layout size.
    #[verifier::rlimit(100)]
    fn extend_union_variant(&mut self, u_def: &Union, variant: &UnionVariant)
        requires
            old(self).wf(),
            wf_union(*u_def),
            wf_ty(variant.ty),
            sums_nonempty(variant.ty),
            lm_of(variant.ty).size <= lm(u_def.layout).size,
            lm_of(variant.ty).align <= lm(u_def.layout).align,
            lm(old(self).layout).size % lm(u_def.layout).align == 0,
            lm(old(self).layout).align >= lm(u_def.layout).align,
            lm(old(self).layout).size + lm_round(lm(u_def.layout)).size <= usize::MAX,
            old(self).insts@.len() + 14 + inst_bound(variant.ty) + lm(u_def.layout).size
                <= u32::MAX,
            old(self).priv_depth + 1 + inst_bound(variant.ty) <= usize::MAX,
        ensures
            final(self).wf(),
            final(self).endian == old(self).endian,
            final(self).priv_depth == old(self).priv_depth,
            lm(final(self).layout) == (LayoutModel {
                size: lm(old(self).layout).size + lm_round(lm(u_def.layout)).size,
                align: lm(old(self).layout).align,
            }),
            old(self).insts@.len() <= final(self).insts@.len(),
            final(self).insts@.len() <= old(self).insts@.len() + 14 + inst_bound(variant.ty) + lm(
                u_def.layout,
            ).size,
            forall|k: int|
                0 <= k < old(self).insts@.len() ==> final(self).insts@[k] == old(self).insts@[k],
            region_bounded(
                final(self).insts@,
                old(self).insts@.len() as int,
                final(self).insts@.len() as int,
            ),
            walk_exits(
                final(self).insts@,
                old(self).insts@.len() as int,
                final(self).insts@.len() as int,
            ),
            walk_len(
                final(self).insts@,
                old(self).insts@.len() as int,
                final(self).insts@.len() as int,
            ) == lm_round(lm(u_def.layout)).size,
            old(self).priv_depth > 0 ==> region_private(
                final(self).insts@,
                old(self).insts@.len() as int,
                final(self).insts@.len() as int,
            ),
        decreases variant.ty, 1int,
    {
        let ghost len0 = self.insts@.len() as int;
        let ghost size0 = lm(self.layout).size;
        proof {
            lemma_wf_align_ok(variant.ty);
            lemma_inst_bound_nonneg(variant.ty);
            lemma_pad(size0, lm(u_def.layout).align);
        }
        self.pad_to_align(u_def.layout.align);
        let ghost len1 = self.insts@.len() as int;
        proof {
            // the variant lands on a position aligned for it
            lemma_align_divides(lm_of(variant.ty).align, lm(u_def.layout).align);
            lemma_aligned_coarser(size0, lm_of(variant.ty).align, lm(u_def.layout).align);
            lemma_pad(size0, lm_of(variant.ty).align);
        }
        let ghost g1 = self.insts@;
        if variant.private {
            self.priv_depth = self.priv_depth + 1;
        }
        self.extend_from_ty(&variant.ty);
        if variant.private {
            self.priv_depth = self.priv_depth - 1;
        }
        let ghost g2 = self.insts@;
        let ghost len2 = self.insts@.len() as int;
        proof {
            lemma_region_frame(self.insts@, self.insts@, len0, len1, len2);
            lemma_region_join(self.insts@, len0, len1, len2);
            // the tail runs up to the union's rounded size
            lemma_pad(lm(u_def.layout).size, lm(u_def.layout).align);
        }
        let variant_layout = layout_of(&variant.ty);
        let rounding = pad_needed(u_def.layout.size, u_def.layout.align);
        self.pad(u_def.layout.size + rounding - variant_layout.size);
        proof {
            let len3 = self.insts@.len() as int;
            lemma_region_frame(self.insts@, self.insts@, len0, len2, len3);
            lemma_region_join(self.insts@, len0, len2, len3);
            // assemble the in-order byte count of the whole variant
            let cur = self.insts@;
            assert forall|k: int| len0 <= k < len1 implies cur[k] == g1[k] by {}
            assert forall|k: int| len1 <= k < len2 implies cur[k] == g2[k] by {}
            lemma_walk_frame(g1, cur, len0, len1);
            lemma_walk_frame(g2, cur, len1, len2);
            lemma_walk_concat(cur, len1, len2, len3 as int);
            lemma_walk_concat(cur, len0, len1, len3 as int);
            if old(self).priv_depth > 0 {
                lemma_private_concat(g1, g2, len0);
                lemma_private_concat(g2, cur, len0);
            }
        }
    }

    /// Lower a type onto the end of the program: pad up to the type's
    /// alignment, then emit its admissible byte sequences.  The running
    /// layout advances by exactly the C extension of the type's layout, and
    /// the appended instructions form a finished region.
    #[verifier::rlimit(100)]
    pub fn extend_from_ty(&mut self, ty: &Ty)
        requires
            old(self).wf(),
            wf_ty(*ty),
            sums_nonempty(*ty),
            lm_extend(lm(old(self).layout), lm_of(*ty)).size <= usize::MAX,
            old(self).insts@.len() + inst_bound(*ty) <= u32::MAX,
            old(self).priv_depth + inst_bound(*ty) <= usize::MAX,
        ensures
            final(self).wf(),
            final(self).endian == old(self).endian,
            final(self).priv_depth == old(self).priv_depth,
            lm(final(self).layout) == lm_extend(lm(old(self).layout), lm_of(*ty)),
            old(self).insts@.len() <= final(self).insts@.len(),
            final(self).insts@.len() <= old(self).insts@.len() + inst_bound(*ty),
            forall|k: int|
                0 <= k < old(self).insts@.len() ==> final(self).insts@[k] == old(self).insts@[k],
            region_bounded(
                final(self).insts@,
                old(self).insts@.len() as int,
                final(self).insts@.len() as int,
            ),
            walk_exits(
                final(self).insts@,
                old(self).insts@.len() as int,
                final(self).insts@.len() as int,
            ),
            walk_len(
                final(self).insts@,
                old(self).insts@.len() as int,
                final(self).insts@.len() as int,
            ) == lm_extend(lm(old(self).layout), lm_of(*ty)).size - lm(old(self).layout).size,
            *ty is Bool ==> ({
                let n2 = final(self).insts@.len() as int;
                &&& forall|k: int|
                    old(self).insts@.len() <= k < n2 - 1 ==> #[trigger] final(self).insts@[k]
                        == Inst::Uninit
                &&& final(self).insts@[n2 - 1] == Inst::ByteRange(
                    InstByteRange {
                        private: old(self).priv_depth > 0,
                        range: RangeInclusive { start: 0, end: 1 },
                        alternate: None,
                    },
                )
            }),
            *ty matches Ty::Int(n) ==> ({
                let n2 = final(self).insts@.len() as int;
                &&& forall|k: int|
                    old(self).insts@.len() <= k < n2 - n ==> #[trigger] final(self).insts@[k]
                        == Inst::Uninit
                &&& forall|k: int|
                    n2 - n <= k < n2 ==> #[trigger] final(self).insts@[k] == Inst::ByteRange(
                        InstByteRange {
                            private: old(self).priv_depth > 0,
                            range: RangeInclusive { start: 0, end: 255 },
                            alternate: None,
                        },
                    )
            }),
            *ty is Void ==> final(self).insts@ == old(self).insts@,
            old(self).priv_depth > 0 ==> region_private(
                final(self).insts@,
                old(self).insts@.len() as int,
                final(self).insts@.len() as int,
            ),
        decreases *ty, 0int,
    {
        let ghost old_len = self.insts@.len() as int;
        let ghost old_size = lm(self.layout).size;
        let ghost old_align = lm(self.layout).align;
        proof {
            lemma_wf_align_ok(*ty);
            lemma_inst_bound_nonneg(*ty);
            lemma_extend_ge(lm(self.layout), lm_of(*ty));
            lemma_pad(old_size, lm_of(*ty).align);
        }
        let layout = layout_of(ty);
        self.layout = Layout {
            size: self.layout.size,
            align: if self.layout.align >= layout.align {
                self.layout.align
            } else {
                layout.align
            },
        };
        self.pad_to_align(layout.align);
        let ghost base_insts = self.insts@;
        let ghost base_len = self.insts@.len() as int;
        let ghost base_size = lm(self.layout).size;
        let ghost base_align = lm(self.layout).align;
        proof {
            assert(base_size == spec_align_up(old_size, lm_of(*ty).align));
            assert(base_align == max_i(old_align, lm_of(*ty).align));
            assert(base_len <= old_len + 7);
        }
        proof {
            // the alignment padding holds no byte instruction at all
            if old(self).priv_depth > 0 {
                assert(region_private(self.insts@, old_len, base_len));
            }
        }
        match ty {
            Ty::Void => {
                proof {
                    assert(self.insts@ =~= old(self).insts@);
                }
            }
            Ty::Bool => {
                self.repeat_byte(1, 0, 1);
                proof {
                    lemma_pad(lm(self.layout).size, 1);
                }
                self.layout = extend_layout(self.layout, layout);
                proof {
                    lemma_region_frame(base_insts, self.insts@, old_len, base_len, base_len);
                    lemma_region_join(self.insts@, old_len, base_len, self.insts@.len() as int);
                    lemma_walk_frame(base_insts, self.insts@, old_len, base_len);
                    lemma_walk_concat(self.insts@, old_len, base_len, self.insts@.len() as int);
                    if old(self).priv_depth > 0 {
                        assert forall|k: int|
                            base_len <= k < self.insts@.len() implies inst_private(
                            #[trigger] self.insts@[k],
                        ) by {}
                        lemma_private_concat(base_insts, self.insts@, old_len);
                    }
                }
            }
            Ty::Int(size) => {
                let n = *size;
                self.repeat_byte(n, 0, 255);
                proof {
                    lemma_pad(lm(self.layout).size, lm_of(*ty).align);
                    lemma_aligned_coarser(base_size, lm_of(*ty).align, lm_of(*ty).align);
                }
                self.layout = extend_layout(self.layout, layout);
                proof {
                    lemma_region_frame(base_insts, self.insts@, old_len, base_len, base_len);
                    lemma_region_join(self.insts@, old_len, base_len, self.insts@.len() as int);
                    lemma_walk_frame(base_insts, self.insts@, old_len, base_len);
                    lemma_walk_concat(self.insts@, old_len, base_len, self.insts@.len() as int);
                    if old(self).priv_depth > 0 {
                        assert forall|k: int|
                            base_len <= k < self.insts@.len() implies inst_private(
                            #[trigger] self.insts@[k],
                        ) by {}
                        lemma_private_concat(base_insts, self.insts@, old_len);
                    }
                }
            }
            Ty::Ptr(_) => {
                vstd::pervasive::unreached()
            }
            Ty::Ref(_) => {
                vstd::pervasive::unreached()
            }
            Ty::Array(array) => {
                let ghost e = lm_of(array.element);
                let ghost stride = spec_align_up(e.size, e.align);
                let ghost eb = inst_bound(array.element);
                proof {
                    lemma_wf_align_ok(array.element);
                    lemma_inst_bound_nonneg(array.element);
                    lemma_pad(e.size, e.align);
                    lemma_mul_nonnegative(array.count as int, eb);
                    assert(stride % e.align == 0);
                }
                proof {
                    assert(region_bounded(base_insts, old_len, base_len));
                    assert(walk_exits(base_insts, old_len, base_len));
                    assert(walk_len(base_insts, old_len, base_len) == base_len - old_len);
                }
                let count = array.count;
                let mut j: usize = 0;
                while j < count
                    invariant
                        self.wf(),
                        self.endian == old(self).endian,
                        self.priv_depth == old(self).priv_depth,
                        0 <= j <= count,
                        count == array.count,
                        *ty == Ty::Array(*array),
                        wf_ty(array.element),
                        sums_nonempty(array.element),
                        e == lm_of(array.element),
                        stride == spec_align_up(e.size, e.align),
                        eb == inst_bound(array.element),
                        e.size >= 0,
                        eb >= 7,
                        align_ok(e.align),
                        stride >= e.size,
                        stride % e.align == 0,
                        base_size >= 0,
                        base_align == max_i(old_align, e.align),
                        base_size % e.align == 0,
                        base_size + lm_array(e, count as int).size <= usize::MAX,
                        old(self).insts@.len() + inst_bound(Ty::Array(*array)) <= u32::MAX,
                        old(self).priv_depth + inst_bound(Ty::Array(*array)) <= usize::MAX,
                        base_len <= old_len + 7,
                        0 <= old_len <= base_len,
                        old_len == old(self).insts@.len(),
                        lm(self.layout) == (LayoutModel {
                            size: base_size + lm_array(e, j as int).size,
                            align: base_align,
                        }),
                        base_len <= self.insts@.len(),
                        self.insts@.len() <= base_len + j * eb,
                        forall|k: int| 0 <= k < base_len ==> self.insts@[k] == base_insts[k],
                        region_bounded(base_insts, old_len, base_len),
                        region_bounded(self.insts@, base_len, self.insts@.len() as int),
                        walk_exits(base_insts, old_len, base_len),
                        walk_len(base_insts, old_len, base_len) == base_len - old_len,
                        walk_exits(self.insts@, base_len, self.insts@.len() as int),
                        walk_len(self.insts@, base_len, self.insts@.len() as int) == lm_array(
                            e,
                            j as int,
                        ).size,
                        old(self).priv_depth > 0 ==> region_private(
                            self.insts@,
                            old_len,
                            self.insts@.len() as int,
                        ),
                    decreases count - j,
                {
                    proof {
                        // the next element lands on a base plus a multiple of
                        // the stride, which is aligned for the element
                        lemma_mul_nonnegative(j as int, stride);
                        lemma_mul_multiple_mod(j as int, stride, e.align);
                        if j > 0 {
                            lemma_mul_nonnegative(j - 1, stride);
                            lemma_mul_multiple_mod(j - 1, stride, e.align);
                            lemma_align_up_shift(
                                base_size,
                                (j - 1) * stride + e.size,
                                e.align,
                            );
                            lemma_align_up_shift((j - 1) * stride, e.size, e.align);
                            assert((j - 1) * stride + stride == j * stride) by (nonlinear_arith);
                        } else {
                            lemma_pad(base_size, e.align);
                            assert(0int * stride == 0);
                        }
                        // the element's own bound fits the remaining budget
                        lemma_mul_inequality(j as int + 1, count as int, eb);
                        assert((j as int) * eb + eb == (j as int + 1) * eb) by (nonlinear_arith);
                        lemma_mul_nonnegative(j as int, eb);
                        // the extended size stays within the array's total
                        if j + 1 < count {
                            lemma_mul_inequality(j as int, count as int - 1, stride);
                            assert((j as int) * stride + e.size <= (count as int - 1) * stride
                                + e.size);
                        } else {
                            assert((j as int) * stride + e.size == lm_array(
                                e,
                                count as int,
                            ).size);
                        }
                        lemma_mul_inequality(j as int, count as int - 1, stride);
                        lemma_mul_nonnegative(j as int, stride);
                    }
                    let ghost pre_insts = self.insts@;
                    let ghost pre_len = self.insts@.len() as int;
                    self.extend_from_ty(&array.element);
                    proof {
                        lemma_region_frame(pre_insts, self.insts@, base_len, pre_len, pre_len);
                        lemma_region_join(self.insts@, base_len, pre_len, self.insts@.len() as int);
                        assert((j as int + 1 - 1) * stride == (j as int) * stride);
                        lemma_walk_frame(pre_insts, self.insts@, base_len, pre_len);
                        lemma_walk_concat(self.insts@, base_len, pre_len, self.insts@.len() as int);
                        if old(self).priv_depth > 0 {
                            lemma_private_concat(pre_insts, self.insts@, old_len);
                        }
                    }
                    j = j + 1;
                }
                proof {
                    if count == 0 {
                        lemma_pad(base_size, 1);
                    }
                    lemma_region_frame(base_insts, self.insts@, old_len, base_len, base_len);
                    lemma_region_join(self.insts@, old_len, base_len, self.insts@.len() as int);
                    lemma_walk_frame(base_insts, self.insts@, old_len, base_len);
                    lemma_walk_concat(self.insts@, old_len, base_len, self.insts@.len() as int);
                }
            }
            Ty::Struct(s_def) => {
                let ghost fseq = s_def.fields@;
                let ghost nf_g = fseq.len() as int;
                proof {
                    assert(wf_struct(*s_def));
                    lemma_sum_field_bound_nonneg(fseq, nf_g);
                }
                proof {
                    assert(region_bounded(base_insts, old_len, base_len));
                    assert(walk_exits(base_insts, old_len, base_len));
                    assert(walk_len(base_insts, old_len, base_len) == base_len - old_len);
                }
                let nf = s_def.fields.len();
                let mut fi: usize = 0;
                while fi < nf
                    invariant
                        self.wf(),
                        self.endian == old(self).endian,
                        self.priv_depth == old(self).priv_depth,
                        0 <= fi <= nf,
                        nf == fseq.len(),
                        fseq == s_def.fields@,
                        nf_g == nf,
                        *ty == Ty::Struct(*s_def),
                        wf_struct(*s_def),
                        forall|m: int| 0 <= m < nf ==> wf_ty(#[trigger] fseq[m].ty),
                        base_size >= 0,
                        align_ok(lm(s_def.layout).align),
                        forall|m: int| 0 <= m < nf ==> sums_nonempty(#[trigger] fseq[m].ty),
                        base_align == max_i(old_align, lm(s_def.layout).align),
                        base_size % lm(s_def.layout).align == 0,
                        base_size + lm_of(Ty::Struct(*s_def)).size <= usize::MAX,
                        old(self).insts@.len() + inst_bound(Ty::Struct(*s_def)) <= u32::MAX,
                        old(self).priv_depth + inst_bound(Ty::Struct(*s_def)) <= usize::MAX,
                        base_len <= old_len + 7,
                        0 <= old_len <= base_len,
                        old_len == old(self).insts@.len(),
                        lm(self.layout) == (LayoutModel {
                            size: base_size + fold_fields(fseq, fi as int).size,
                            align: base_align,
                        }),
                        base_len <= self.insts@.len(),
                        self.insts@.len() <= base_len + sum_field_bound(fseq, fi as int),
                        forall|k: int| 0 <= k < base_len ==> self.insts@[k] == base_insts[k],
                        region_bounded(base_insts, old_len, base_len),
                        region_bounded(self.insts@, base_len, self.insts@.len() as int),
                        walk_exits(base_insts, old_len, base_len),
                        walk_len(base_insts, old_len, base_len) == base_len - old_len,
                        walk_exits(self.insts@, base_len, self.insts@.len() as int),
                        walk_len(self.insts@, base_len, self.insts@.len() as int) == fold_fields(
                            fseq,
                            fi as int,
                        ).size,
                        old(self).priv_depth > 0 ==> region_private(
                            self.insts@,
                            old_len,
                            self.insts@.len() as int,
                        ),
                    decreases nf - fi,
                {
                    proof {
                        lemma_fold_fields_facts(fseq, nf_g);
                        lemma_fold_fields_facts(fseq, fi as int + 1);
                        lemma_fold_fields_nonneg(fseq, fi as int);
                        lemma_fold_fields_nonneg(fseq, nf_g);
                        lemma_sum_field_bound_nonneg(fseq, nf_g);
                        lemma_sum_field_bound_nonneg(fseq, fi as int + 1);
                        lemma_inst_bound_nonneg(fseq[fi as int].ty);
                        lemma_wf_align_ok(fseq[fi as int].ty);
                        // the field's alignment divides the struct's
                        lemma_align_divides(
                            lm_of(fseq[fi as int].ty).align,
                            lm(s_def.layout).align,
                        );
                        lemma_aligned_coarser(
                            base_size,
                            lm_of(fseq[fi as int].ty).align,
                            lm(s_def.layout).align,
                        );
                        // fold sizes stay within the struct's stored layout
                        lemma_fold_fields_mono(fseq, fi as int + 1, nf_g);
                        lemma_pad(
                            base_size + fold_fields(fseq, fi as int).size,
                            lm_of(fseq[fi as int].ty).align,
                        );
                        lemma_align_up_shift(
                            base_size,
                            fold_fields(fseq, fi as int).size,
                            lm_of(fseq[fi as int].ty).align,
                        );
                        lemma_pad(lm(s_def.layout).size, lm(s_def.layout).align);
                    }
                    let f_private = s_def.fields[fi].private;
                    let flayout = layout_of(&s_def.fields[fi].ty);
                    let ghost pre_pad_insts = self.insts@;
                    let ghost pre_pad_len = self.insts@.len() as int;
                    self.pad_to_align(flayout.align);
                    proof {
                        lemma_region_frame(
                            pre_pad_insts,
                            self.insts@,
                            base_len,
                            pre_pad_len,
                            pre_pad_len,
                        );
                        lemma_region_join(
                            self.insts@,
                            base_len,
                            pre_pad_len,
                            self.insts@.len() as int,
                        );
                        lemma_walk_frame(pre_pad_insts, self.insts@, base_len, pre_pad_len);
                        lemma_walk_concat(
                            self.insts@,
                            base_len,
                            pre_pad_len,
                            self.insts@.len() as int,
                        );
                        lemma_pad(lm(self.layout).size, lm_of(fseq[fi as int].ty).align);
                        // budget for the field itself
                        assert(sum_field_bound(fseq, fi as int + 1) == sum_field_bound(
                            fseq,
                            fi as int,
                        ) + 7 + inst_bound(fseq[fi as int].ty));
                        assert(inst_bound(Ty::Struct(*s_def)) == 7 + sum_field_bound(fseq, nf_g)
                            + 7);
                        if old(self).priv_depth > 0 {
                            lemma_private_concat(pre_pad_insts, self.insts@, old_len);
                        }
                    }
                    if f_private {
                        self.priv_depth = self.priv_depth + 1;
                    }
                    let ghost pre_insts = self.insts@;
                    let ghost pre_len = self.insts@.len() as int;
                    self.extend_from_ty(&s_def.fields[fi].ty);
                    if f_private {
                        self.priv_depth = self.priv_depth - 1;
                    }
                    proof {
                        lemma_region_frame(pre_insts, self.insts@, base_len, pre_len, pre_len);
                        lemma_region_join(self.insts@, base_len, pre_len, self.insts@.len() as int);
                        lemma_walk_frame(pre_insts, self.insts@, base_len, pre_len);
                        lemma_walk_concat(self.insts@, base_len, pre_len, self.insts@.len() as int);
                        if old(self).priv_depth > 0 {
                            lemma_private_concat(pre_insts, self.insts@, old_len);
                        }
                    }
                    fi = fi + 1;
                }
                proof {
                    lemma_fold_fields_facts(fseq, nf_g);
                    lemma_pad(base_size + lm(s_def.layout).size, lm(s_def.layout).align);
                    lemma_align_up_shift(
                        base_size,
                        lm(s_def.layout).size,
                        lm(s_def.layout).align,
                    );
                }
                let ghost pre_pad_insts = self.insts@;
                let ghost pre_pad_len = self.insts@.len() as int;
                self.pad_to_align(layout.align);
                proof {
                    lemma_region_frame(
                        pre_pad_insts,
                        self.insts@,
                        base_len,
                        pre_pad_len,
                        pre_pad_len,
                    );
                    lemma_region_join(self.insts@, base_len, pre_pad_len, self.insts@.len() as int);
                    lemma_region_frame(base_insts, self.insts@, old_len, base_len, base_len);
                    lemma_region_join(self.insts@, old_len, base_len, self.insts@.len() as int);
                    lemma_walk_frame(pre_pad_insts, self.insts@, base_len, pre_pad_len);
                    lemma_walk_concat(
                        self.insts@,
                        base_len,
                        pre_pad_len,
                        self.insts@.len() as int,
                    );
                    lemma_walk_frame(base_insts, self.insts@, old_len, base_len);
                    lemma_walk_concat(self.insts@, old_len, base_len, self.insts@.len() as int);
                    if old(self).priv_depth > 0 {
                        lemma_private_concat(pre_pad_insts, self.insts@, old_len);
                    }
                }
            }
            Ty::Enum(e_def) => {
                proof {
                    assert(wf_enum(*e_def));
                    lemma_sum_variant_bound_nonneg(e_def.variants@, e_def.variants@.len() as int);
                    lemma_mul_nonnegative(
                        e_def.variants@.len() as int,
                        24 + lm(e_def.payload_layout).size,
                    );
                }
                self.lower_enum(e_def);
                proof {
                    lemma_region_frame(base_insts, self.insts@, old_len, base_len, base_len);
                    lemma_region_join(self.insts@, old_len, base_len, self.insts@.len() as int);
                    lemma_walk_frame(base_insts, self.insts@, old_len, base_len);
                    lemma_walk_concat(self.insts@, old_len, base_len, self.insts@.len() as int);
                    if old(self).priv_depth > 0 {
                        lemma_private_concat(base_insts, self.insts@, old_len);
                    }
                }
            }
            Ty::Union(u_def) => {
                proof {
                    assert(wf_union(*u_def));
                    lemma_sum_union_bound_nonneg(u_def.variants@, u_def.variants@.len() as int);
                    lemma_mul_nonnegative(u_def.variants@.len() as int, 16 + lm(u_def.layout).size);
                }
                self.lower_union(u_def);
                proof {
                    lemma_region_frame(base_insts, self.insts@, old_len, base_len, base_len);
                    lemma_region_join(self.insts@, old_len, base_len, self.insts@.len() as int);
                    lemma_walk_frame(base_insts, self.insts@, old_len, base_len);
                    lemma_walk_concat(self.insts@, old_len, base_len, self.insts@.len() as int);
                    if old(self).priv_depth > 0 {
                        lemma_private_concat(base_insts, self.insts@, old_len);
                    }
                }
            }
        }
    }

    /// Lower a tagged sum from a position aligned for it: all but the last
    /// variant sit behind a branch and end in a jump to the join point after
    /// the last variant; branch and jump targets are back-patched once known.
    #[verifier::rlimit(100)]
    fn lower_enum(&mut self, e_def: &Enum)
        requires
            old(self).wf(),
            wf_enum(*e_def),
            e_def.variants@.len() >= 1,
            forall|m: int|
                0 <= m < e_def.variants@.len() ==> sums_nonempty(
                    #[trigger] e_def.variants@[m].payload,
                ),
            lm(old(self).layout).size % lm(e_def.layout).align == 0,
            lm(old(self).layout).align >= lm(e_def.layout).align,
            lm(old(self).layout).size + lm(e_def.layout).size <= usize::MAX,
            old(self).insts@.len() + sum_variant_bound(e_def.variants@, e_def.variants@.len() as int)
                + e_def.variants@.len() * (24 + lm(e_def.payload_layout).size) <= u32::MAX,
            old(self).priv_depth + inst_bound(Ty::Enum(*e_def)) <= usize::MAX,
        ensures
            final(self).wf(),
            final(self).endian == old(self).endian,
            final(self).priv_depth == old(self).priv_depth,
            lm(final(self).layout) == (LayoutModel {
                size: lm(old(self).layout).size + lm(e_def.layout).size,
                align: lm(old(self).layout).align,
            }),
            old(self).insts@.len() <= final(self).insts@.len(),
            final(self).insts@.len() <= old(self).insts@.len() + sum_variant_bound(
                e_def.variants@,
                e_def.variants@.len() as int,
            ) + e_def.variants@.len() * (24 + lm(e_def.payload_layout).size),
            forall|k: int|
                0 <= k < old(self).insts@.len() ==> final(self).insts@[k] == old(self).insts@[k],
            region_bounded(
                final(self).insts@,
                old(self).insts@.len() as int,
                final(self).insts@.len() as int,
            ),
            walk_exits(
                final(self).insts@,
                old(self).insts@.len() as int,
                final(self).insts@.len() as int,
            ),
            walk_len(
                final(self).insts@,
                old(self).insts@.len() as int,
                final(self).insts@.len() as int,
            ) == lm(e_def.layout).size,
            old(self).priv_depth > 0 ==> region_private(
                final(self).insts@,
                old(self).insts@.len() as int,
                final(self).insts@.len() as int,
            ),
        decreases *e_def, 3int,
    {
        let ghost vs = e_def.variants@;
        let ghost nv_g = vs.len() as int;
        let ghost base_insts = self.insts@;
        let ghost base_len = self.insts@.len() as int;
        let ghost base_size = lm(self.layout).size;
        let ghost base_align = lm(self.layout).align;
        let ghost plsize = lm(e_def.payload_layout).size;
        proof {
            lemma_sum_variant_bound_nonneg(vs, nv_g);
            lemma_mul_nonnegative(nv_g, 24 + plsize);
            lemma_inst_bound_nonneg(Ty::Enum(*e_def));
            // the enum alignment dominates the tag and payload alignments
            assert(lm(e_def.layout).align == max_i(
                lm(e_def.tag_layout).align,
                lm(e_def.payload_layout).align,
            ));
            lemma_align_divides(lm(e_def.tag_layout).align, lm(e_def.layout).align);
            lemma_align_divides(lm(e_def.payload_layout).align, lm(e_def.layout).align);
            lemma_aligned_coarser(base_size, lm(e_def.tag_layout).align, lm(e_def.layout).align);
            lemma_aligned_coarser(
                base_size,
                lm(e_def.payload_layout).align,
                lm(e_def.layout).align,
            );
            // the tag and the padded payload both fit inside the enum layout
            lemma_pad(lm(e_def.tag_layout).size, lm(e_def.payload_layout).align);
        }
        let nv = e_def.variants.len();
        let orig_layout = self.layout;
        let mut patches: Vec<usize> = Vec::new();
        let mut prev_patch: Option<usize> = None;
        let ghost mut g0: int = 0;
        let mut vi: usize = 0;
        while vi < nv - 1
            invariant
                self.wf(),
                self.endian == old(self).endian,
                self.priv_depth == old(self).priv_depth,
                self.layout == orig_layout,
                0 <= vi <= nv - 1,
                nv == vs.len(),
                nv >= 1,
                vs == e_def.variants@,
                wf_enum(*e_def),
                forall|m: int| 0 <= m < nv ==> sums_nonempty(#[trigger] vs[m].payload),
                plsize == lm(e_def.payload_layout).size,
                vi >= 1 ==> {
                    &&& base_len + 1 <= g0 < self.insts@.len()
                    &&& self.insts@[base_len] is Split
                    &&& patches@.len() >= 1 && patches@[0] == g0
                    &&& walk_exits(self.insts@, base_len + 1, g0)
                    &&& walk_len(self.insts@, base_len + 1, g0) == lm(e_def.layout).size
                    &&& (prev_patch matches Some(sp) && (sp == base_len || sp > g0))
                },
                forall|m1: int, m2: int|
                    0 <= m1 < m2 < patches@.len() ==> #[trigger] patches@[m1]
                        < #[trigger] patches@[m2],
                lm(orig_layout) == (LayoutModel { size: base_size, align: base_align }),
                base_size % lm(e_def.tag_layout).align == 0,
                base_size % lm(e_def.payload_layout).align == 0,
                base_align >= lm(e_def.tag_layout).align,
                base_align >= lm(e_def.payload_layout).align,
                base_size + lm(e_def.layout).size <= usize::MAX,
                base_len + sum_variant_bound(vs, nv_g) + nv_g * (24 + plsize) <= u32::MAX,
                old(self).priv_depth + inst_bound(Ty::Enum(*e_def)) <= usize::MAX,
                base_len == old(self).insts@.len(),
                nv_g == nv,
                base_len <= self.insts@.len(),
                self.insts@.len() <= base_len + sum_variant_bound(vs, vi as int) + vi * (24
                    + plsize),
                forall|k: int| 0 <= k < base_len ==> self.insts@[k] == base_insts[k],
                forall|i: int|
                    base_len <= i < self.insts@.len() ==> inst_bounded(
                        #[trigger] self.insts@[i],
                        i,
                        self.insts@.len() as int,
                    ) || (self.insts@[i] == Inst::Split(InstSplit { alternate: InstPtr::MAX })
                        && (prev_patch matches Some(sp) && sp == i)) || (self.insts@[i]
                        == Inst::JoinGoto(InstPtr::MAX) && exists|m: int|
                        0 <= m < patches@.len() && #[trigger] patches@[m] == i),
                match prev_patch {
                    Some(sp) => base_len <= sp < self.insts@.len() && self.insts@[sp as int]
                        == Inst::Split(InstSplit { alternate: InstPtr::MAX }) && vi >= 1,
                    None => vi == 0 && patches@.len() == 0,
                },
                forall|m: int|
                    0 <= m < patches@.len() ==> base_len <= #[trigger] patches@[m]
                        < self.insts@.len() && self.insts@[patches@[m] as int] is JoinGoto,
                patches@.len() == vi,
                old(self).priv_depth > 0 ==> region_private(
                    self.insts@,
                    base_len,
                    self.insts@.len() as int,
                ),
            decreases nv - 1 - vi,
        {
            proof {
                lemma_fold_payloads_ge(vs, nv_g, vi as int);
                lemma_sum_variant_bound_nonneg(vs, nv_g);
                lemma_sum_variant_bound_nonneg(vs, vi as int + 1);
                lemma_inst_bound_nonneg(vs[vi as int].payload);
                lemma_mul_inequality(vi as int + 1, nv_g, 24 + plsize);
                assert((vi as int + 1) * (24 + plsize) == vi as int * (24 + plsize) + (24
                    + plsize)) by (nonlinear_arith);
                lemma_mul_nonnegative(vi as int, 24 + plsize);
                lemma_wf_align_ok(vs[vi as int].payload);
            }
            let ghost it_insts = self.insts@;
            let ghost it_len = self.insts@.len() as int;
            let ghost it_patches = patches@;
            let ghost it_prev = prev_patch;
            let split = self.insts.len();
            match prev_patch {
                Some(prev_split) => {
                    let mut pinst = self.insts[prev_split];
                    pinst.patch_split(split as InstPtr);
                    self.insts[prev_split] = pinst;
                }
                None => {}
            }
            prev_patch = Some(split);
            self.insts.push(Inst::new_invalid_split());
            let ghost mid_insts = self.insts@;
            proof {
                assert forall|k: int|
                    0 <= k < mid_insts.len() implies inst_forward_holds(mid_insts, k) by {
                    if k < it_len {
                        if !(it_prev matches Some(sp) && sp == k) {
                            assert(mid_insts[k] == it_insts[k]);
                            assert(inst_forward_holds(it_insts, k));
                        }
                    }
                }
            }
            self.extend_enum_variant(e_def, &e_def.variants[vi]);
            let ghost var_insts = self.insts@;
            let ghost var_len = self.insts@.len() as int;
            patches.push(self.insts.len());
            self.insts.push(Inst::new_invalid_goto());
            self.layout = orig_layout;
            proof {
                if vi == 0 {
                    g0 = var_len;
                }
            }
            vi = vi + 1;
            proof {
                let cur = self.insts@;
                let clen = cur.len() as int;
                assert forall|k: int|
                    0 <= k < clen implies inst_forward_holds(cur, k) by {
                    if k < var_len {
                        assert(cur[k] == var_insts[k]);
                        assert(inst_forward_holds(var_insts, k));
                    }
                }
                assert(it_patches == patches@.subrange(0, patches@.len() - 1));
                assert forall|i: int|
                    base_len <= i < clen implies inst_bounded(#[trigger] cur[i], i, clen) || (
                    cur[i] == Inst::Split(InstSplit { alternate: InstPtr::MAX }) && (
                    prev_patch matches Some(sp) && sp == i)) || (cur[i] == Inst::JoinGoto(
                        InstPtr::MAX,
                    ) && exists|m: int| 0 <= m < patches@.len() && #[trigger] patches@[m] == i) by {
                    if i < it_len {
                        if it_prev matches Some(sp) && sp == i {
                            // the previous branch was just patched to `split`
                            assert(cur[i] == Inst::Split(
                                InstSplit { alternate: split as InstPtr },
                            ));
                            assert(inst_bounded(cur[i], i, clen));
                        } else {
                            assert(cur[i] == it_insts[i]);
                            if inst_bounded(it_insts[i], i, it_len) {
                                assert(inst_bounded(cur[i], i, clen));
                            } else if it_insts[i] == Inst::JoinGoto(InstPtr::MAX) {
                                let m = choose|m: int|
                                    0 <= m < it_patches.len() && #[trigger] it_patches[m] == i;
                                assert(patches@[m] == i);
                            }
                        }
                    } else if i == it_len {
                        assert(cur[i] == Inst::Split(InstSplit { alternate: InstPtr::MAX }));
                    } else if i < var_len {
                        assert(cur[i] == var_insts[i]);
                        assert(inst_bounded(var_insts[i], i, var_len));
                    } else {
                        assert(cur[i] == Inst::JoinGoto(InstPtr::MAX));
                        assert(patches@[patches@.len() - 1] == i);
                    }
                }
                if old(self).priv_depth > 0 {
                    assert forall|k: int|
                        base_len <= k < clen implies inst_private(#[trigger] cur[k]) by {
                        if k < it_len {
                            if it_prev matches Some(sp) && sp == k {
                                assert(cur[k] == Inst::Split(
                                    InstSplit { alternate: split as InstPtr },
                                ));
                            } else {
                                assert(cur[k] == it_insts[k]);
                                assert(inst_private(it_insts[k]));
                            }
                        } else if k == it_len {
                            assert(cur[k] == Inst::Split(InstSplit { alternate: InstPtr::MAX }));
                        } else if k < var_len {
                            assert(cur[k] == var_insts[k]);
                            assert(inst_private(var_insts[k]));
                        } else {
                            assert(cur[k] == Inst::JoinGoto(InstPtr::MAX));
                        }
                    }
                }
                // the first variant's in-order walk survives every later
                // mutation: all of them land outside its interior
                if vi == 1 {
                    assert forall|k: int|
                        base_len + 1 <= k < g0 implies cur[k] == var_insts[k] by {}
                    lemma_walk_frame(var_insts, cur, base_len + 1, g0);
                } else {
                    assert forall|k: int|
                        base_len + 1 <= k < g0 implies cur[k] == it_insts[k] by {}
                    lemma_walk_frame(it_insts, cur, base_len + 1, g0);
                }
            }
        }
        proof {
            lemma_fold_payloads_ge(vs, nv_g, nv_g - 1);
            lemma_sum_variant_bound_nonneg(vs, nv_g);
            lemma_inst_bound_nonneg(vs[nv_g - 1].payload);
            lemma_mul_inequality(nv_g - 1, nv_g, 24 + plsize);
            assert((nv_g - 1) * (24 + plsize) + (24 + plsize) == nv_g * (24 + plsize))
                by (nonlinear_arith);
            lemma_mul_nonnegative(nv_g - 1, 24 + plsize);
            lemma_wf_align_ok(vs[nv_g - 1].payload);
        }
        let ghost pre_patch_insts = self.insts@;
        match prev_patch {
            Some(last_split) => {
                let ip = self.insts.len();
                let mut pinst = self.insts[last_split];
                pinst.patch_split(ip as InstPtr);
                self.insts[last_split] = pinst;
                proof {
                    if old(self).priv_depth > 0 {
                        assert forall|k: int|
                            base_len <= k < self.insts@.len() implies inst_private(
                            #[trigger] self.insts@[k],
                        ) by {
                            if k != last_split {
                                assert(self.insts@[k] == pre_patch_insts[k]);
                                assert(inst_private(pre_patch_insts[k]));
                            }
                        }
                    }
                }
            }
            None => {}
        }
        proof {
            if nv >= 2 {
                assert forall|k: int|
                    base_len + 1 <= k < g0 implies self.insts@[k] == pre_patch_insts[k] by {}
                lemma_walk_frame(pre_patch_insts, self.insts@, base_len + 1, g0);
            }
        }
        let ghost pre_last_insts = self.insts@;
        let ghost pre_last = self.insts@.len() as int;
        self.extend_enum_variant(e_def, &e_def.variants[nv - 1]);
        proof {
            if nv >= 2 {
                assert forall|k: int|
                    base_len + 1 <= k < g0 implies self.insts@[k] == pre_last_insts[k] by {}
                lemma_walk_frame(pre_last_insts, self.insts@, base_len + 1, g0);
            }
            if old(self).priv_depth > 0 {
                lemma_private_concat(pre_last_insts, self.insts@, base_len);
            }
        }
        let ip_end = self.insts.len();
        let mut pi: usize = 0;
        while pi < patches.len()
            invariant
                self.wf(),
                self.endian == old(self).endian,
                self.priv_depth == old(self).priv_depth,
                0 <= pi <= patches@.len(),
                ip_end == self.insts@.len(),
                base_len <= ip_end <= u32::MAX,
                lm(self.layout) == (LayoutModel {
                    size: base_size + lm(e_def.layout).size,
                    align: base_align,
                }),
                base_len == old(self).insts@.len(),
                nv == vs.len() && nv >= 1 && nv_g == nv,
                patches@.len() == nv - 1,
                forall|k: int| 0 <= k < base_len ==> self.insts@[k] == base_insts[k],
                forall|m: int|
                    0 <= m < patches@.len() ==> base_len <= #[trigger] patches@[m] < ip_end
                        && self.insts@[patches@[m] as int] is JoinGoto,
                forall|m: int|
                    0 <= m < pi ==> self.insts@[#[trigger] patches@[m] as int] == Inst::JoinGoto(
                        ip_end as u32,
                    ),
                nv >= 2 ==> {
                    &&& base_len + 1 <= g0 < ip_end
                    &&& self.insts@[base_len] is Split
                    &&& patches@[0] == g0
                    &&& walk_exits(self.insts@, base_len + 1, g0)
                    &&& walk_len(self.insts@, base_len + 1, g0) == lm(e_def.layout).size
                },
                nv == 1 ==> walk_exits(self.insts@, base_len, ip_end as int) && walk_len(
                    self.insts@,
                    base_len,
                    ip_end as int,
                ) == lm(e_def.layout).size,
                forall|m1: int, m2: int|
                    0 <= m1 < m2 < patches@.len() ==> #[trigger] patches@[m1]
                        < #[trigger] patches@[m2],
                forall|i: int|
                    base_len <= i < ip_end ==> inst_bounded(
                        #[trigger] self.insts@[i],
                        i,
                        ip_end as int,
                    ) || (self.insts@[i] == Inst::JoinGoto(InstPtr::MAX) && exists|m: int|
                        pi <= m < patches@.len() && #[trigger] patches@[m] == i),
                old(self).priv_depth > 0 ==> region_private(
                    self.insts@,
                    base_len,
                    ip_end as int,
                ),
            decreases patches@.len() - pi,
        {
            let ghost pre = self.insts@;
            let p = patches[pi];
            let mut ginst = self.insts[p];
            ginst.patch_goto(ip_end as u32);
            self.insts[p] = ginst;
            proof {
                if old(self).priv_depth > 0 {
                    assert forall|k: int|
                        base_len <= k < ip_end implies inst_private(
                        #[trigger] self.insts@[k],
                    ) by {
                        if k != p {
                            assert(self.insts@[k] == pre[k]);
                            assert(inst_private(pre[k]));
                        }
                    }
                }
            }
            pi = pi + 1;
            proof {
                assert forall|k: int|
                    0 <= k < self.insts@.len() implies inst_forward_holds(self.insts@, k) by {}
                if nv >= 2 {
                    assert forall|k: int|
                        base_len + 1 <= k < g0 implies self.insts@[k] == pre[k] by {
                        if pi - 1 >= 1 {
                            assert(patches@[0] < patches@[pi - 1]);
                        }
                    }
                    lemma_walk_frame(pre, self.insts@, base_len + 1, g0);
                }
            }
        }
        proof {
            // the in-order path: fall through the first branch, walk the
            // first variant, and jump from its join straight to the end
            let cur = self.insts@;
            if nv >= 2 {
                assert(cur[g0] == Inst::JoinGoto(ip_end as u32));
                assert(walk_exits(cur, ip_end as int, ip_end as int));
                assert(walk_len(cur, ip_end as int, ip_end as int) == 0);
                assert(walk_exits(cur, g0, ip_end as int));
                assert(walk_len(cur, g0, ip_end as int) == 0);
                lemma_walk_concat(cur, base_len + 1, g0, ip_end as int);
                assert(walk_exits(cur, base_len, ip_end as int));
                assert(walk_len(cur, base_len, ip_end as int) == lm(e_def.layout).size);
            }
        }
    }

    /// Lower an untagged union from a position aligned for it, with the same
    /// branch-and-join skeleton as a tagged sum but no discriminant.
    #[verifier::rlimit(100)]
    fn lower_union(&mut self, u_def: &Union)
        requires
            old(self).wf(),
            wf_union(*u_def),
            u_def.variants@.len() >= 1,
            forall|m: int|
                0 <= m < u_def.variants@.len() ==> sums_nonempty(#[trigger] u_def.variants@[m].ty),
            lm(old(self).layout).size % lm(u_def.layout).align == 0,
            lm(old(self).layout).align >= lm(u_def.layout).align,
            lm(old(self).layout).size + lm_round(lm(u_def.layout)).size <= usize::MAX,
            old(self).insts@.len() + sum_union_bound(u_def.variants@, u_def.variants@.len() as int)
                + u_def.variants@.len() * (16 + lm(u_def.layout).size) <= u32::MAX,
            old(self).priv_depth + inst_bound(Ty::Union(*u_def)) <= usize::MAX,
        ensures
            final(self).wf(),
            final(self).endian == old(self).endian,
            final(self).priv_depth == old(self).priv_depth,
            lm(final(self).layout) == (LayoutModel {
                size: lm(old(self).layout).size + lm_round(lm(u_def.layout)).size,
                align: lm(old(self).layout).align,
            }),
            old(self).insts@.len() <= final(self).insts@.len(),
            final(self).insts@.len() <= old(self).insts@.len() + sum_union_bound(
                u_def.variants@,
                u_def.variants@.len() as int,
            ) + u_def.variants@.len() * (16 + lm(u_def.layout).size),
            forall|k: int|
                0 <= k < old(self).insts@.len() ==> final(self).insts@[k] == old(self).insts@[k],
            region_bounded(
                final(self).insts@,
                old(self).insts@.len() as int,
                final(self).insts@.len() as int,
            ),
            walk_exits(
                final(self).insts@,
                old(self).insts@.len() as int,
                final(self).insts@.len() as int,
            ),
            walk_len(
                final(self).insts@,
                old(self).insts@.len() as int,
                final(self).insts@.len() as int,
            ) == lm_round(lm(u_def.layout)).size,
            old(self).priv_depth > 0 ==> region_private(
                final(self).insts@,
                old(self).insts@.len() as int,
                final(self).insts@.len() as int,
            ),
        decreases *u_def, 3int,
    {
        let ghost vs = u_def.variants@;
        let ghost nv_g = vs.len() as int;
        let ghost base_insts = self.insts@;
        let ghost base_len = self.insts@.len() as int;
        let ghost base_size = lm(self.layout).size;
        let ghost base_align = lm(self.layout).align;
        let ghost usize_g = lm(u_def.layout).size;
        proof {
            lemma_sum_union_bound_nonneg(vs, nv_g);
            lemma_mul_nonnegative(nv_g, 16 + usize_g);
            lemma_inst_bound_nonneg(Ty::Union(*u_def));
        }
        let nv = u_def.variants.len();
        let orig_layout = self.layout;
        let mut patches: Vec<usize> = Vec::new();
        let mut prev_patch: Option<usize> = None;
        let ghost mut g0: int = 0;
        let mut vi: usize = 0;
        while vi < nv - 1
            invariant
                self.wf(),
                self.endian == old(self).endian,
                self.priv_depth == old(self).priv_depth,
                self.layout == orig_layout,
                0 <= vi <= nv - 1,
                nv == vs.len(),
                nv >= 1,
                vs == u_def.variants@,
                wf_union(*u_def),
                forall|m: int| 0 <= m < nv ==> sums_nonempty(#[trigger] vs[m].ty),
                usize_g == lm(u_def.layout).size,
                vi >= 1 ==> {
                    &&& base_len + 1 <= g0 < self.insts@.len()
                    &&& self.insts@[base_len] is Split
                    &&& patches@.len() >= 1 && patches@[0] == g0
                    &&& walk_exits(self.insts@, base_len + 1, g0)
                    &&& walk_len(self.insts@, base_len + 1, g0) == lm_round(lm(u_def.layout)).size
                    &&& (prev_patch matches Some(sp) && (sp == base_len || sp > g0))
                },
                forall|m1: int, m2: int|
                    0 <= m1 < m2 < patches@.len() ==> #[trigger] patches@[m1]
                        < #[trigger] patches@[m2],
                lm(orig_layout) == (LayoutModel { size: base_size, align: base_align }),
                base_size % lm(u_def.layout).align == 0,
                base_align >= lm(u_def.layout).align,
                base_size + lm_round(lm(u_def.layout)).size <= usize::MAX,
                base_len + sum_union_bound(vs, nv_g) + nv_g * (16 + usize_g) <= u32::MAX,
                old(self).priv_depth + inst_bound(Ty::Union(*u_def)) <= usize::MAX,
                base_len == old(self).insts@.len(),
                nv_g == nv,
                base_len <= self.insts@.len(),
                self.insts@.len() <= base_len + sum_union_bound(vs, vi as int) + vi * (16
                    + usize_g),
                forall|k: int| 0 <= k < base_len ==> self.insts@[k] == base_insts[k],
                forall|i: int|
                    base_len <= i < self.insts@.len() ==> inst_bounded(
                        #[trigger] self.insts@[i],
                        i,
                        self.insts@.len() as int,
                    ) || (self.insts@[i] == Inst::Split(InstSplit { alternate: InstPtr::MAX })
                        && (prev_patch matches Some(sp) && sp == i)) || (self.insts@[i]
                        == Inst::JoinGoto(InstPtr::MAX) && exists|m: int|
                        0 <= m < patches@.len() && #[trigger] patches@[m] == i),
                match prev_patch {
                    Some(sp) => base_len <= sp < self.insts@.len() && self.insts@[sp as int]
                        == Inst::Split(InstSplit { alternate: InstPtr::MAX }) && vi >= 1,
                    None => vi == 0 && patches@.len() == 0,
                },
                forall|m: int|
                    0 <= m < patches@.len() ==> base_len <= #[trigger] patches@[m]
                        < self.insts@.len() && self.insts@[patches@[m] as int] is JoinGoto,
                patches@.len() == vi,
                old(self).priv_depth > 0 ==> region_private(
                    self.insts@,
                    base_len,
                    self.insts@.len() as int,
                ),
            decreases nv - 1 - vi,
        {
            proof {
                lemma_fold_union_ge(vs, nv_g, vi as int);
                lemma_sum_union_bound_nonneg(vs, nv_g);
                lemma_sum_union_bound_nonneg(vs, vi as int + 1);
                lemma_inst_bound_nonneg(vs[vi as int].ty);
                lemma_mul_inequality(vi as int + 1, nv_g, 16 + usize_g);
                assert((vi as int + 1) * (16 + usize_g) == vi as int * (16 + usize_g) + (16
                    + usize_g)) by (nonlinear_arith);
                lemma_mul_nonnegative(vi as int, 16 + usize_g);
                lemma_wf_align_ok(vs[vi as int].ty);
            }
            let ghost it_insts = self.insts@;
            let ghost it_len = self.insts@.len() as int;
            let ghost it_patches = patches@;
            let ghost it_prev = prev_patch;
            let split = self.insts.len();
            match prev_patch {
                Some(prev_split) => {
                    let mut pinst = self.insts[prev_split];
                    pinst.patch_split(split as InstPtr);
                    self.insts[prev_split] = pinst;
                }
                None => {}
            }
            prev_patch = Some(split);
            self.insts.push(Inst::new_invalid_split());
            let ghost mid_insts = self.insts@;
            proof {
                assert forall|k: int|
                    0 <= k < mid_insts.len() implies inst_forward_holds(mid_insts, k) by {
                    if k < it_len {
                        if !(it_prev matches Some(sp) && sp == k) {
                            assert(mid_insts[k] == it_insts[k]);
                            assert(inst_forward_holds(it_insts, k));
                        }
                    }
                }
            }
            self.extend_union_variant(u_def, &u_def.variants[vi]);
            let ghost var_insts = self.insts@;
            let ghost var_len = self.insts@.len() as int;
            patches.push(self.insts.len());
            self.insts.push(Inst::new_invalid_goto());
            self.layout = orig_layout;
            proof {
                if vi == 0 {
                    g0 = var_len;
                }
            }
            vi = vi + 1;
            proof {
                let cur = self.insts@;
                let clen = cur.len() as int;
                assert forall|k: int|
                    0 <= k < clen implies inst_forward_holds(cur, k) by {
                    if k < var_len {
                        assert(cur[k] == var_insts[k]);
                        assert(inst_forward_holds(var_insts, k));
                    }
                }
                assert(it_patches == patches@.subrange(0, patches@.len() - 1));
                assert forall|i: int|
                    base_len <= i < clen implies inst_bounded(#[trigger] cur[i], i, clen) || (
                    cur[i] == Inst::Split(InstSplit { alternate: InstPtr::MAX }) && (
                    prev_patch matches Some(sp) && sp == i)) || (cur[i] == Inst::JoinGoto(
                        InstPtr::MAX,
                    ) && exists|m: int| 0 <= m < patches@.len() && #[trigger] patches@[m] == i) by {
                    if i < it_len {
                        if it_prev matches Some(sp) && sp == i {
                            assert(cur[i] == Inst::Split(
                                InstSplit { alternate: split as InstPtr },
                            ));
                            assert(inst_bounded(cur[i], i, clen));
                        } else {
                            assert(cur[i] == it_insts[i]);
                            if inst_bounded(it_insts[i], i, it_len) {
                                assert(inst_bounded(cur[i], i, clen));
                            } else if it_insts[i] == Inst::JoinGoto(InstPtr::MAX) {
                                let m = choose|m: int|
                                    0 <= m < it_patches.len() && #[trigger] it_patches[m] == i;
                                assert(patches@[m] == i);
                            }
                        }
                    } else if i == it_len {
                        assert(cur[i] == Inst::Split(InstSplit { alternate: InstPtr::MAX }));
                    } else if i < var_len {
                        assert(cur[i] == var_insts[i]);
                        assert(inst_bounded(var_insts[i], i, var_len));
                    } else {
                        assert(cur[i] == Inst::JoinGoto(InstPtr::MAX));
                        assert(patches@[patches@.len() - 1] == i);
                    }
                }
                if old(self).priv_depth > 0 {
                    assert forall|k: int|
                        base_len <= k < clen implies inst_private(#[trigger] cur[k]) by {
                        if k < it_len {
                            if it_prev matches Some(sp) && sp == k {
                                assert(cur[k] == Inst::Split(
                                    InstSplit { alternate: split as InstPtr },
                                ));
                            } else {
                                assert(cur[k] == it_insts[k]);
                                assert(inst_private(it_insts[k]));
                            }
                        } else if k == it_len {
                            assert(cur[k] == Inst::Split(InstSplit { alternate: InstPtr::MAX }));
                        } else if k < var_len {
                            assert(cur[k] == var_insts[k]);
                            assert(inst_private(var_insts[k]));
                        } else {
                            assert(cur[k] == Inst::JoinGoto(InstPtr::MAX));
                        }
                    }
                }
                // the first variant's in-order walk survives every later
                // mutation: all of them land outside its interior
                if vi == 1 {
                    assert forall|k: int|
                        base_len + 1 <= k < g0 implies cur[k] == var_insts[k] by {}
                    lemma_walk_frame(var_insts, cur, base_len + 1, g0);
                } else {
                    assert forall|k: int|
                        base_len + 1 <= k < g0 implies cur[k] == it_insts[k] by {}
                    lemma_walk_frame(it_insts, cur, base_len + 1, g0);
                }
            }
        }
        proof {
            lemma_fold_union_ge(vs, nv_g, nv_g - 1);
            lemma_sum_union_bound_nonneg(vs, nv_g);
            lemma_inst_bound_nonneg(vs[nv_g - 1].ty);
            lemma_mul_inequality(nv_g - 1, nv_g, 16 + usize_g);
            assert((nv_g - 1) * (16 + usize_g) + (16 + usize_g) == nv_g * (16 + usize_g))
                by (nonlinear_arith);
            lemma_mul_nonnegative(nv_g - 1, 16 + usize_g);
            lemma_wf_align_ok(vs[nv_g - 1].ty);
        }
        let ghost pre_patch_insts = self.insts@;
        match prev_patch {
            Some(last_split) => {
                let ip = self.insts.len();
                let mut pinst = self.insts[last_split];
                pinst.patch_split(ip as InstPtr);
                self.insts[last_split] = pinst;
                proof {
                    if old(self).priv_depth > 0 {
                        assert forall|k: int|
                            base_len <= k < self.insts@.len() implies inst_private(
                            #[trigger] self.insts@[k],
                        ) by {
                            if k != last_split {
                                assert(self.insts@[k] == pre_patch_insts[k]);
                                assert(inst_private(pre_patch_insts[k]));
                            }
                        }
                    }
                }
            }
            None => {}
        }
        proof {
            if nv >= 2 {
                assert forall|k: int|
                    base_len + 1 <= k < g0 implies self.insts@[k] == pre_patch_insts[k] by {}
                lemma_walk_frame(pre_patch_insts, self.insts@, base_len + 1, g0);
            }
        }
        let ghost pre_last_insts = self.insts@;
        self.extend_union_variant(u_def, &u_def.variants[nv - 1]);
        proof {
            if nv >= 2 {
                assert forall|k: int|
                    base_len + 1 <= k < g0 implies self.insts@[k] == pre_last_insts[k] by {}
                lemma_walk_frame(pre_last_insts, self.insts@, base_len + 1, g0);
            }
            if old(self).priv_depth > 0 {
                lemma_private_concat(pre_last_insts, self.insts@, base_len);
            }
        }
        let ip_end = self.insts.len();
        let mut pi: usize = 0;
        while pi < patches.len()
            invariant
                self.wf(),
                self.endian == old(self).endian,
                self.priv_depth == old(self).priv_depth,
                0 <= pi <= patches@.len(),
                ip_end == self.insts@.len(),
                base_len <= ip_end <= u32::MAX,
                lm(self.layout) == (LayoutModel {
                    size: base_size + lm_round(lm(u_def.layout)).size,
                    align: base_align,
                }),
                base_len == old(self).insts@.len(),
                nv == vs.len() && nv >= 1 && nv_g == nv,
                patches@.len() == nv - 1,
                forall|k: int| 0 <= k < base_len ==> self.insts@[k] == base_insts[k],
                forall|m: int|
                    0 <= m < patches@.len() ==> base_len <= #[trigger] patches@[m] < ip_end
                        && self.insts@[patches@[m] as int] is JoinGoto,
                forall|m: int|
                    0 <= m < pi ==> self.insts@[#[trigger] patches@[m] as int] == Inst::JoinGoto(
                        ip_end as u32,
                    ),
                nv >= 2 ==> {
                    &&& base_len + 1 <= g0 < ip_end
                    &&& self.insts@[base_len] is Split
                    &&& patches@[0] == g0
                    &&& walk_exits(self.insts@, base_len + 1, g0)
                    &&& walk_len(self.insts@, base_len + 1, g0) == lm_round(lm(u_def.layout)).size
                },
                nv == 1 ==> walk_exits(self.insts@, base_len, ip_end as int) && walk_len(
                    self.insts@,
                    base_len,
                    ip_end as int,
                ) == lm_round(lm(u_def.layout)).size,
                forall|m1: int, m2: int|
                    0 <= m1 < m2 < patches@.len() ==> #[trigger] patches@[m1]
                        < #[trigger] patches@[m2],
                forall|i: int|
                    base_len <= i < ip_end ==> inst_bounded(
                        #[trigger] self.insts@[i],
                        i,
                        ip_end as int,
                    ) || (self.insts@[i] == Inst::JoinGoto(InstPtr::MAX) && exists|m: int|
                        pi <= m < patches@.len() && #[trigger] patches@[m] == i),
                old(self).priv_depth > 0 ==> region_private(
                    self.insts@,
                    base_len,
                    ip_end as int,
                ),
            decreases patches@.len() - pi,
        {
            let ghost pre = self.insts@;
            let p = patches[pi];
            let mut ginst = self.insts[p];
            ginst.patch_goto(ip_end as u32);
            self.insts[p] = ginst;
            proof {
                if old(self).priv_depth > 0 {
                    assert forall|k: int|
                        base_len <= k < ip_end implies inst_private(
                        #[trigger] self.insts@[k],
                    ) by {
                        if k != p {
                            assert(self.insts@[k] == pre[k]);
                            assert(inst_private(pre[k]));
                        }
                    }
                }
            }
            pi = pi + 1;
            proof {
                assert forall|k: int|
                    0 <= k < self.insts@.len() implies inst_forward_holds(self.insts@, k) by {}
                if nv >= 2 {
                    assert forall|k: int|
                        base_len + 1 <= k < g0 implies self.insts@[k] == pre[k] by {
                        if pi - 1 >= 1 {
                            assert(patches@[0] < patches@[pi - 1]);
                        }
                    }
                    lemma_walk_frame(pre, self.insts@, base_len + 1, g0);
                }
            }
        }
        proof {
            // the in-order path: fall through the first branch, walk the
            // first variant, and jump from its join straight to the end
            let cur = self.insts@;
            if nv >= 2 {
                assert(cur[g0] == Inst::JoinGoto(ip_end as u32));
                assert(walk_exits(cur, ip_end as int, ip_end as int));
                assert(walk_len(cur, ip_end as int, ip_end as int) == 0);
                assert(walk_exits(cur, g0, ip_end as int));
                assert(walk_len(cur, g0, ip_end as int) == 0);
                lemma_walk_concat(cur, base_len + 1, g0, ip_end as int);
                assert(walk_exits(cur, base_len, ip_end as int));
                assert(walk_len(cur, base_len, ip_end as int) == lm_round(lm(u_def.layout)).size);
            }
        }
    }
}

impl Compiler {
    /// Compile a type into a fresh program: lower it from an empty layout,
    /// then seal the program with the terminal instruction.  The result is a
    /// well-formed program in which every branch and join target lies
    /// strictly inside the program and no placeholder target remains.
    pub fn compile(ty: &Ty, endian: Endian, name: &'static str) -> (r: Program)
        requires
            wf_ty(*ty),
            sums_nonempty(*ty),
            lm_of(*ty).size <= usize::MAX,
            inst_bound(*ty) + 1 <= u32::MAX,
        ensures
            r.wf(),
            r.ip == 0,
            r.pos == 0,
            r.took_fork is None,
            r.current is None,
            r.exhausted == false,
            r.name == name,
            1 <= r.insts@.len() <= inst_bound(*ty) + 1,
            r.insts@[r.insts@.len() - 1] == Inst::Accept,
            region_bounded(r.insts@, 0, r.insts@.len() - 1),
            walk_exits(r.insts@, 0, r.insts@.len() - 1),
            walk_len(r.insts@, 0, r.insts@.len() - 1) == lm_of(*ty).size,
            forall|i: int|
                0 <= i < r.insts@.len() ==> match #[trigger] r.insts@[i] {
                    Inst::Split(sp) => i < sp.alternate < r.insts@.len() && sp.alternate
                        != InstPtr::MAX,
                    Inst::JoinGoto(t) => i < t < r.insts@.len() && t != InstPtr::MAX,
                    _ => true,
                },
    {
        proof {
            lemma_wf_align_ok(*ty);
            lemma_inst_bound_nonneg(*ty);
            vstd::arithmetic::div_mod::lemma_small_mod(0nat, lm_of(*ty).align as nat);
            lemma_pad(0, lm_of(*ty).align);
        }
        let mut compiler = Compiler::new(endian);
        compiler.extend_from_ty(ty);
        let ghost pre_push = compiler.insts@;
        let ghost pre_len = compiler.insts@.len() as int;
        compiler.insts.push(Inst::Accept);
        proof {
            lemma_region_frame(pre_push, compiler.insts@, 0, pre_len, pre_len);
            lemma_compiled_targets_in_bounds(compiler.insts@);
            lemma_walk_frame(pre_push, compiler.insts@, 0, pre_len);
        }
        Program::new(compiler.insts, name)
    }
}

/// The alignment of a field fold is the largest field alignment seen, so it
/// dominates every folded field; sizes never shrink as the fold grows.
pub proof fn lemma_fold_fields_facts(fields: Seq<Field>, i: int)
    requires
        i <= fields.len(),
    ensures
        forall|k: int|
            0 <= k < i ==> lm_of(#[trigger] fields[k].ty).align <= fold_fields(fields, i).align,
        fold_fields(fields, i).align >= 1,
    decreases i,
{
    if i > 0 {
        lemma_fold_fields_facts(fields, i - 1);
    }
}

/// Field folds have non-negative size and positive alignment.
pub proof fn lemma_fold_fields_nonneg(fields: Seq<Field>, i: int)
    requires
        i <= fields.len(),
        forall|k: int| 0 <= k < fields.len() ==> wf_ty(#[trigger] fields[k].ty),
    ensures
        fold_fields(fields, i).size >= 0,
        fold_fields(fields, i).align >= 1,
    decreases i,
{
    if i > 0 {
        lemma_fold_fields_nonneg(fields, i - 1);
        lemma_wf_align_ok(fields[i - 1].ty);
        lemma_pad(fold_fields(fields, i - 1).size, lm_of(fields[i - 1].ty).align);
    }
}

/// Field folds grow monotonically in size and alignment.
pub proof fn lemma_fold_fields_mono(fields: Seq<Field>, i: int, j: int)
    requires
        0 <= i <= j <= fields.len(),
        forall|k: int| 0 <= k < fields.len() ==> wf_ty(#[trigger] fields[k].ty),
    ensures
        fold_fields(fields, i).size <= fold_fields(fields, j).size,
        fold_fields(fields, i).align <= fold_fields(fields, j).align,
        fold_fields(fields, i).size >= 0,
        fold_fields(fields, i).align >= 1,
    decreases j - i,
{
    lemma_fold_fields_nonneg(fields, i);
    if i < j {
        lemma_fold_fields_mono(fields, i + 1, j);
        lemma_fold_fields_nonneg(fields, i);
        lemma_wf_align_ok(fields[i].ty);
        lemma_pad(fold_fields(fields, i).size, lm_of(fields[i].ty).align);
    }
}

} // verus!
