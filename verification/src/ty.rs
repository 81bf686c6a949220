//! The type model: trees of variants, and their C layout.

use vstd::prelude::*;
use vstd::arithmetic::div_mod::{
    lemma_add_mod_noop, lemma_mod_bound, lemma_mod_mod, lemma_mod_self_0, lemma_small_mod,
};

verus! {

/// Byte order used when a literal discriminant is lowered to bytes.
#[derive(Clone, Copy, PartialEq, Eq, Structural, Debug)]
pub enum Endian {
    Little,
    Big,
}

/// Size and alignment of a type, in bytes.
#[derive(Clone, Copy, PartialEq, Eq, Structural, Debug)]
pub struct Layout {
    pub size: usize,
    pub align: usize,
}

/// Mathematical mirror of `Layout`, free of machine-word bounds.
pub ghost struct LayoutModel {
    pub size: int,
    pub align: int,
}

/// The model a concrete `Layout` denotes.
pub open spec fn lm(l: Layout) -> LayoutModel {
    LayoutModel { size: l.size as int, align: l.align as int }
}

/// The alignments this type system produces: the power-of-two divisors of 8.
pub open spec fn align_ok(a: int) -> bool {
    a == 1 || a == 2 || a == 4 || a == 8
}

/// Bytes of padding needed to raise `size` to a multiple of `align`.
pub open spec fn spec_pad(size: int, align: int) -> int
    recommends
        align > 0,
{
    (align - size % align) % align
}

/// `size` rounded up to the next multiple of `align`.
pub open spec fn spec_align_up(size: int, align: int) -> int
    recommends
        align > 0,
{
    size + spec_pad(size, align)
}

pub open spec fn max_i(a: int, b: int) -> int {
    if a >= b {
        a
    } else {
        b
    }
}

/// The C extension rule: pad `a` up to `b`'s alignment, then append `b`;
/// the alignment of the whole is the larger of the two.
pub open spec fn lm_extend(a: LayoutModel, b: LayoutModel) -> LayoutModel {
    LayoutModel {
        size: spec_align_up(a.size, b.align) + b.size,
        align: max_i(a.align, b.align),
    }
}

/// `size` rounded up to a multiple of the layout's own alignment.
pub open spec fn lm_round(a: LayoutModel) -> LayoutModel {
    LayoutModel { size: spec_align_up(a.size, a.align), align: a.align }
}

/// Layout of `n` copies of an element laid end to end by the extension rule:
/// padding between elements, none after the last.
pub open spec fn lm_array(e: LayoutModel, n: int) -> LayoutModel {
    if n <= 0 {
        LayoutModel { size: 0, align: e.align }
    } else {
        LayoutModel { size: (n - 1) * spec_align_up(e.size, e.align) + e.size, align: e.align }
    }
}

/// Pointwise maximum, the layout rule for untagged unions.
pub open spec fn lm_union(a: LayoutModel, b: LayoutModel) -> LayoutModel {
    LayoutModel { size: max_i(a.size, b.size), align: max_i(a.align, b.align) }
}

/// A C-ABI type tree.
pub enum Ty {
    Void,
    Bool,
    Int(u32),
    Ptr(Pointer),
    Ref(Reference),
    Struct(Struct),
    Array(Box<Array>),
    Enum(Enum),
    Union(Union),
}

/// Whether a pointer or reference is shared or unique.
pub enum RefKind {
    Shared,
    Unique,
}

/// A raw pointer: declared in the model but not supported by the compiler.
pub struct Pointer {
    pub kind: RefKind,
    pub align: usize,
}

/// A reference: declared in the model but not supported by the compiler.
pub struct Reference {
    pub kind: RefKind,
    pub size: usize,
    pub align: usize,
}

pub struct Struct {
    pub name: &'static str,
    pub layout: Layout,
    pub fields: Vec<Field>,
}

pub struct Field {
    pub private: bool,
    pub ty: Ty,
}

pub struct Array {
    pub element: Ty,
    pub count: usize,
}

pub struct Enum {
    pub name: &'static str,
    pub layout: Layout,
    pub tag_layout: Layout,
    pub payload_layout: Layout,
    pub variants: Vec<EnumVariant>,
}

pub struct EnumVariant {
    pub disc: u128,
    pub payload: Ty,
}

pub struct Union {
    pub name: &'static str,
    pub layout: Layout,
    pub variants: Vec<UnionVariant>,
}

pub struct UnionVariant {
    pub private: bool,
    pub ty: Ty,
}

/// Alignment of an `n`-byte integer: `min(n, 8)`.
pub open spec fn int_align(n: int) -> int {
    if n >= 8 {
        8
    } else {
        n
    }
}

/// The layout a type denotes.  Composites carry their layout as a stored
/// invariant; `wf_ty` ties the stored value to the layout recomputed from the
/// children.
pub open spec fn lm_of(ty: Ty) -> LayoutModel
    decreases ty,
{
    match ty {
        Ty::Void => LayoutModel { size: 0, align: 1 },
        Ty::Bool => LayoutModel { size: 1, align: 1 },
        Ty::Int(n) => LayoutModel { size: n as int, align: int_align(n as int) },
        Ty::Ptr(_) => LayoutModel { size: 0, align: 1 },
        Ty::Ref(_) => LayoutModel { size: 0, align: 1 },
        Ty::Array(a) => lm_array(lm_of(a.element), a.count as int),
        Ty::Struct(st) => lm_round(lm(st.layout)),
        Ty::Enum(e) => lm(e.layout),
        Ty::Union(u) => lm_round(lm(u.layout)),
    }
}

/// The layout of a struct's first `i` fields, folded by the extension rule.
pub open spec fn fold_fields(fields: Seq<Field>, i: int) -> LayoutModel
    decreases i,
{
    if i <= 0 {
        LayoutModel { size: 0, align: 1 }
    } else {
        lm_extend(fold_fields(fields, i - 1), lm_of(fields[i - 1].ty))
    }
}

/// The pointwise-maximum layout of an enum's first `i` variant payloads.
pub open spec fn fold_payloads(vs: Seq<EnumVariant>, i: int) -> LayoutModel
    decreases i,
{
    if i <= 0 {
        LayoutModel { size: 0, align: 1 }
    } else {
        lm_union(fold_payloads(vs, i - 1), lm_of(vs[i - 1].payload))
    }
}

/// The pointwise-maximum layout of a union's first `i` variants.
pub open spec fn fold_union(vs: Seq<UnionVariant>, i: int) -> LayoutModel
    decreases i,
{
    if i <= 0 {
        LayoutModel { size: 0, align: 1 }
    } else {
        lm_union(fold_union(vs, i - 1), lm_of(vs[i - 1].ty))
    }
}

/// Well-formedness of a struct under construction: every field is
/// well-formed, and the stored running layout is the fold over the fields.
/// The rounded size must fit a machine word, since `lm_of` rounds it.
pub open spec fn wf_struct(st: Struct) -> bool
    decreases st,
{
    &&& forall|i: int| 0 <= i < st.fields@.len() ==> wf_ty(#[trigger] st.fields@[i].ty)
    &&& lm(st.layout) == fold_fields(st.fields@, st.fields@.len() as int)
    &&& align_ok(st.layout.align as int)
    &&& lm_round(lm(st.layout)).size <= usize::MAX
}

/// Well-formedness of an enum under construction: a supported tag width, the
/// stored payload layout is the fold over the payloads, and the stored layout
/// is the tag extended by the payload, rounded up to a multiple of its own
/// alignment.
pub open spec fn wf_enum(e: Enum) -> bool
    decreases e,
{
    &&& forall|i: int| 0 <= i < e.variants@.len() ==> wf_ty(#[trigger] e.variants@[i].payload)
    &&& (e.tag_layout.size == 1 || e.tag_layout.size == 2 || e.tag_layout.size == 4
        || e.tag_layout.size == 8)
    &&& e.tag_layout.align == e.tag_layout.size
    &&& lm(e.payload_layout) == fold_payloads(e.variants@, e.variants@.len() as int)
    &&& align_ok(e.payload_layout.align as int)
    &&& lm(e.layout) == lm_round(lm_extend(lm(e.tag_layout), lm(e.payload_layout)))
}

/// Well-formedness of a union under construction: the stored layout is the
/// running pointwise maximum; `lm_of` rounds it up to a multiple of its
/// alignment, so the rounded size must fit a machine word.
pub open spec fn wf_union(u: Union) -> bool
    decreases u,
{
    &&& forall|i: int| 0 <= i < u.variants@.len() ==> wf_ty(#[trigger] u.variants@[i].ty)
    &&& lm(u.layout) == fold_union(u.variants@, u.variants@.len() as int)
    &&& align_ok(u.layout.align as int)
    &&& lm_round(lm(u.layout)).size <= usize::MAX
}

/// A representable type: no pointers or references, supported integer
/// widths, stored layouts consistent with the children, and every size
/// within a machine word.
pub open spec fn wf_ty(ty: Ty) -> bool
    decreases ty,
{
    match ty {
        Ty::Void => true,
        Ty::Bool => true,
        Ty::Int(n) => n == 1 || n == 2 || n == 4 || n == 8 || n == 16,
        Ty::Ptr(_) => false,
        Ty::Ref(_) => false,
        Ty::Array(a) => wf_ty(a.element) && lm_array(lm_of(a.element), a.count as int).size
            <= usize::MAX,
        Ty::Struct(st) => wf_struct(st),
        Ty::Enum(e) => wf_enum(e),
        Ty::Union(u) => wf_union(u),
    }
}

/// Every tagged sum and union in the tree has at least one variant; the
/// compiler refuses the empty ones.
pub open spec fn sums_nonempty(ty: Ty) -> bool
    decreases ty,
{
    match ty {
        Ty::Void => true,
        Ty::Bool => true,
        Ty::Int(_) => true,
        Ty::Ptr(_) => true,
        Ty::Ref(_) => true,
        Ty::Array(a) => sums_nonempty(a.element),
        Ty::Struct(st) => forall|i: int|
            0 <= i < st.fields@.len() ==> sums_nonempty(#[trigger] st.fields@[i].ty),
        Ty::Enum(e) => e.variants@.len() > 0 && forall|i: int|
            0 <= i < e.variants@.len() ==> sums_nonempty(#[trigger] e.variants@[i].payload),
        Ty::Union(u) => u.variants@.len() > 0 && forall|i: int|
            0 <= i < u.variants@.len() ==> sums_nonempty(#[trigger] u.variants@[i].ty),
    }
}

/// Padding is non-negative, smaller than the alignment, lands on a multiple
/// of the alignment, and vanishes exactly on multiples.
pub proof fn lemma_pad(size: int, align: int)
    requires
        align > 0,
        size >= 0,
    ensures
        0 <= spec_pad(size, align) < align,
        (size + spec_pad(size, align)) % align == 0,
        size % align == 0 ==> spec_pad(size, align) == 0,
        spec_pad(size, align) == 0 ==> size % align == 0,
{
    let m = size % align;
    lemma_mod_bound(size, align);
    if m == 0 {
        lemma_mod_self_0(align);
        assert(spec_pad(size, align) == align % align);
    } else {
        lemma_small_mod((align - m) as nat, align as nat);
        assert(spec_pad(size, align) == align - m);
        lemma_add_mod_noop(size, align - m, align);
        lemma_mod_self_0(align);
        lemma_small_mod(0nat, align as nat);
        assert((size + (align - m)) % align == (m + (align - m)) % align);
    }
}

/// Rounding up from a base that is already a multiple of the alignment
/// shifts through: `align_up(b + s) == b + align_up(s)`.
pub proof fn lemma_align_up_shift(b: int, s: int, a: int)
    requires
        a > 0,
        b >= 0,
        s >= 0,
        b % a == 0,
    ensures
        spec_align_up(b + s, a) == b + spec_align_up(s, a),
{
    lemma_add_mod_noop(b, s, a);
    lemma_mod_bound(s, a);
    lemma_small_mod((s % a) as nat, a as nat);
    lemma_small_mod(0nat, a as nat);
    assert((b % a + s % a) % a == (b + s) % a);
    assert((b + s) % a == s % a);
}

/// The sum of two multiples of `a` is a multiple of `a`.
pub proof fn lemma_sum_aligned(x: int, y: int, a: int)
    requires
        a > 0,
        x % a == 0,
        y % a == 0,
    ensures
        (x + y) % a == 0,
{
    lemma_add_mod_noop(x, y, a);
    lemma_small_mod(0nat, a as nat);
}

/// Among the alignments in use, the smaller always divides the larger.
pub proof fn lemma_align_divides(a: int, b: int)
    requires
        align_ok(a),
        align_ok(b),
        a <= b,
    ensures
        b % a == 0,
{
    if a == 1 {
        lemma_mod_bound(b, 1);
    } else if a == b {
        lemma_mod_self_0(b);
    } else {
        assert(4int % 2int == 0);
        assert(8int % 2int == 0);
        assert(8int % 4int == 0);
    }
}

/// A multiple of `a2` is a multiple of every divisor `a1` of `a2`.
pub proof fn lemma_aligned_coarser(b: int, a1: int, a2: int)
    requires
        b >= 0,
        align_ok(a1),
        align_ok(a2),
        a1 <= a2,
        b % a2 == 0,
    ensures
        b % a1 == 0,
{
    if a1 == 1 {
        lemma_mod_bound(b, 1);
    } else if a1 == a2 {
    } else {
        if a1 == 2 && a2 == 4 {
            lemma_mod_mod(b, 2, 2);
            assert(b % (2int * 2) == 0);
        } else if a1 == 2 && a2 == 8 {
            lemma_mod_mod(b, 2, 4);
            assert(b % (2int * 4) == 0);
        } else {
            lemma_mod_mod(b, 4, 2);
            assert(b % (4int * 2) == 0);
        }
        lemma_small_mod(0nat, a1 as nat);
    }
}

/// The fold over a prefix only reads that prefix.
pub proof fn lemma_fold_fields_prefix(s1: Seq<Field>, s2: Seq<Field>, i: int)
    requires
        0 <= i <= s1.len(),
        i <= s2.len(),
        forall|k: int| 0 <= k < i ==> s1[k] == s2[k],
    ensures
        fold_fields(s1, i) == fold_fields(s2, i),
    decreases i,
{
    if i > 0 {
        lemma_fold_fields_prefix(s1, s2, i - 1);
    }
}

pub proof fn lemma_fold_payloads_prefix(s1: Seq<EnumVariant>, s2: Seq<EnumVariant>, i: int)
    requires
        0 <= i <= s1.len(),
        i <= s2.len(),
        forall|k: int| 0 <= k < i ==> s1[k] == s2[k],
    ensures
        fold_payloads(s1, i) == fold_payloads(s2, i),
    decreases i,
{
    if i > 0 {
        lemma_fold_payloads_prefix(s1, s2, i - 1);
    }
}

pub proof fn lemma_fold_union_prefix(s1: Seq<UnionVariant>, s2: Seq<UnionVariant>, i: int)
    requires
        0 <= i <= s1.len(),
        i <= s2.len(),
        forall|k: int| 0 <= k < i ==> s1[k] == s2[k],
    ensures
        fold_union(s1, i) == fold_union(s2, i),
    decreases i,
{
    if i > 0 {
        lemma_fold_union_prefix(s1, s2, i - 1);
    }
}

/// The pointwise-maximum fold dominates every element it folded.
pub proof fn lemma_fold_payloads_ge(vs: Seq<EnumVariant>, i: int, k: int)
    requires
        0 <= k < i <= vs.len(),
    ensures
        lm_of(vs[k].payload).size <= fold_payloads(vs, i).size,
        lm_of(vs[k].payload).align <= fold_payloads(vs, i).align,
    decreases i,
{
    if k < i - 1 {
        lemma_fold_payloads_ge(vs, i - 1, k);
    }
}

pub proof fn lemma_fold_union_ge(vs: Seq<UnionVariant>, i: int, k: int)
    requires
        0 <= k < i <= vs.len(),
    ensures
        lm_of(vs[k].ty).size <= fold_union(vs, i).size,
        lm_of(vs[k].ty).align <= fold_union(vs, i).align,
    decreases i,
{
    if k < i - 1 {
        lemma_fold_union_ge(vs, i - 1, k);
    }
}

/// A well-formed type's alignment is one of the supported alignments, and
/// its size and alignment are non-negative.
pub proof fn lemma_wf_align_ok(ty: Ty)
    requires
        wf_ty(ty),
    ensures
        align_ok(lm_of(ty).align),
        lm_of(ty).size >= 0,
    decreases ty,
{
    match ty {
        Ty::Array(a) => {
            lemma_wf_align_ok(a.element);
            let e = lm_of(a.element);
            let n = a.count as int;
            assert(align_ok(e.align));
            if n > 0 {
                lemma_pad(e.size, e.align);
                vstd::arithmetic::mul::lemma_mul_nonnegative(n - 1, spec_align_up(e.size, e.align));
            }
        }
        Ty::Struct(st) => {
            assert(wf_struct(st));
            assert(align_ok(st.layout.align as int));
            lemma_pad(st.layout.size as int, st.layout.align as int);
        }
        Ty::Enum(e) => {
            assert(wf_enum(e));
            assert(align_ok(e.tag_layout.align as int));
            assert(lm(e.layout).align == max_i(
                e.tag_layout.align as int,
                e.payload_layout.align as int,
            ));
        }
        Ty::Union(u) => {
            assert(wf_union(u));
        }
        _ => {}
    }
}

/// Extending never shrinks: the result is at least as large as either part.
pub proof fn lemma_extend_ge(a: LayoutModel, b: LayoutModel)
    requires
        a.size >= 0,
        b.size >= 0,
        b.align > 0,
    ensures
        lm_extend(a, b).size >= a.size + b.size,
        lm_extend(a, b).size >= a.size,
        lm_extend(a, b).size >= b.size,
        lm_extend(a, b).align >= a.align,
        lm_extend(a, b).align >= b.align,
{
    lemma_pad(a.size, b.align);
}

/// Bytes of padding that raise `size` to a multiple of `align`.
pub fn pad_needed(size: usize, align: usize) -> (r: usize)
    requires
        align_ok(align as int),
    ensures
        r == spec_pad(size as int, align as int),
        r < align,
{
    proof {
        lemma_pad(size as int, align as int);
    }
    (align - size % align) % align
}

fn max_usize(a: usize, b: usize) -> (r: usize)
    ensures
        r == max_i(a as int, b as int),
{
    if a >= b {
        a
    } else {
        b
    }
}

/// Extend `a` by `b` under the C rule.
pub fn extend_layout(a: Layout, b: Layout) -> (r: Layout)
    requires
        align_ok(b.align as int),
        lm_extend(lm(a), lm(b)).size <= usize::MAX,
    ensures
        lm(r) == lm_extend(lm(a), lm(b)),
{
    let pad = pad_needed(a.size, b.align);
    Layout { size: a.size + pad + b.size, align: max_usize(a.align, b.align) }
}

impl Ty {
    /// Whether rendering this type requires a type name of its own.
    pub fn needs_name(&self) -> (r: bool)
        ensures
            r == (self is Struct || self is Enum || self is Union),
    {
        matches!(self, Ty::Struct(_) | Ty::Enum(_) | Ty::Union(_))
    }
}

/// The layout of a well-formed type.
pub fn layout_of(ty: &Ty) -> (r: Layout)
    requires
        wf_ty(*ty),
    ensures
        lm(r) == lm_of(*ty),
    decreases *ty,
{
    match ty {
        Ty::Void => Layout { size: 0, align: 1 },
        Ty::Bool => Layout { size: 1, align: 1 },
        Ty::Int(size) => {
            let s = *size as usize;
            let align: usize = if s >= 8 {
                8
            } else {
                s
            };
            Layout { size: s, align }
        }
        Ty::Ptr(_) => vstd::pervasive::unreached(),
        Ty::Ref(_) => vstd::pervasive::unreached(),
        Ty::Array(arr) => {
            let el = layout_of(&arr.element);
            proof {
                lemma_wf_align_ok(arr.element);
            }
            if arr.count == 0 {
                Layout { size: 0, align: el.align }
            } else if arr.count == 1 {
                proof {
                    let stride = spec_align_up(el.size as int, el.align as int);
                    assert((1 - 1) * stride == 0) by (nonlinear_arith);
                }
                Layout { size: el.size, align: el.align }
            } else {
                let stride_pad = pad_needed(el.size, el.align);
                proof {
                    let n = arr.count as int;
                    let stride = spec_align_up(el.size as int, el.align as int);
                    lemma_pad(el.size as int, el.align as int);
                    vstd::arithmetic::mul::lemma_mul_nonnegative(n - 1, stride);
                    vstd::arithmetic::mul::lemma_mul_inequality(1, n - 1, stride);
                    assert(1 * stride == stride) by (nonlinear_arith);
                }
                let stride = el.size + stride_pad;
                Layout { size: (arr.count - 1) * stride + el.size, align: el.align }
            }
        }
        Ty::Struct(st) => {
            proof {
                assert(wf_struct(*st));
            }
            let pad = pad_needed(st.layout.size, st.layout.align);
            Layout { size: st.layout.size + pad, align: st.layout.align }
        }
        Ty::Enum(e) => e.layout,
        Ty::Union(u) => {
            proof {
                assert(wf_union(*u));
            }
            let pad = pad_needed(u.layout.size, u.layout.align);
            Layout { size: u.layout.size + pad, align: u.layout.align }
        }
    }
}

impl Struct {
    /// An empty struct: zero size, alignment one, no fields.
    pub fn new(name: &'static str) -> (r: Struct)
        ensures
            wf_struct(r),
            r.fields@.len() == 0,
            r.layout == (Layout { size: 0, align: 1 }),
            r.name == name,
    {
        proof {
            lemma_small_mod(0nat, 1nat);
        }
        Struct { name, layout: Layout { size: 0, align: 1 }, fields: Vec::new() }
    }

    /// Append a field, keeping the stored layout equal to the fold over the
    /// fields.
    pub fn add_field(&mut self, private: bool, ty: Ty)
        requires
            wf_struct(*old(self)),
            wf_ty(ty),
            lm_round(lm_extend(lm(old(self).layout), lm_of(ty))).size <= usize::MAX,
        ensures
            wf_struct(*final(self)),
            final(self).fields@ == old(self).fields@.push(Field { private, ty }),
            final(self).name == old(self).name,
            lm(final(self).layout) == lm_extend(lm(old(self).layout), lm_of(ty)),
    {
        proof {
            lemma_wf_align_ok(ty);
            let ext = lm_extend(lm(self.layout), lm_of(ty));
            lemma_pad(ext.size, ext.align);
            lemma_extend_ge(lm(self.layout), lm_of(ty));
        }
        let l = layout_of(&ty);
        self.layout = extend_layout(self.layout, l);
        self.fields.push(Field { private, ty });
        proof {
            let s = self.fields@;
            let n = s.len() as int;
            lemma_fold_fields_prefix(old(self).fields@, s, n - 1);
            assert(forall|i: int|
                0 <= i < n ==> wf_ty(#[trigger] s[i].ty)) by {
                assert(forall|i: int| 0 <= i < n - 1 ==> s[i] == old(self).fields@[i]);
            }
        }
    }
}

impl Enum {
    /// A tagged sum with a discriminant of `disc_size` bytes and, so far, no
    /// variants.
    pub fn new(name: &'static str, disc_size: u32) -> (r: Enum)
        requires
            disc_size == 1 || disc_size == 2 || disc_size == 4 || disc_size == 8,
        ensures
            wf_enum(r),
            r.variants@.len() == 0,
            r.name == name,
            r.tag_layout == (Layout { size: disc_size as usize, align: disc_size as usize }),
            lm(r.layout) == lm_extend(lm(r.tag_layout), LayoutModel { size: 0, align: 1 }),
    {
        let tag_layout = Layout { size: disc_size as usize, align: disc_size as usize };
        proof {
            lemma_pad(tag_layout.size as int, 1int);
            lemma_mod_self_0(disc_size as int);
            lemma_pad(tag_layout.size as int, tag_layout.align as int);
        }
        Enum {
            name,
            layout: tag_layout,
            tag_layout,
            payload_layout: Layout { size: 0, align: 1 },
            variants: Vec::new(),
        }
    }

    /// Add a variant: the payload layout grows to the pointwise maximum, and
    /// the overall layout is the tag extended by the new payload layout.
    pub fn add_variant(&mut self, disc: u128, payload: Ty)
        requires
            wf_enum(*old(self)),
            wf_ty(payload),
            lm_round(
                lm_extend(
                    lm(old(self).tag_layout),
                    lm_union(lm(old(self).payload_layout), lm_of(payload)),
                ),
            ).size <= usize::MAX,
        ensures
            wf_enum(*final(self)),
            final(self).variants@ == old(self).variants@.push(EnumVariant { disc, payload }),
            final(self).name == old(self).name,
            final(self).tag_layout == old(self).tag_layout,
            lm(final(self).payload_layout) == lm_union(lm(old(self).payload_layout), lm_of(payload)),
            lm(final(self).layout) == lm_round(
                lm_extend(lm(old(self).tag_layout), lm(final(self).payload_layout)),
            ),
    {
        proof {
            lemma_wf_align_ok(payload);
            lemma_extend_ge(
                lm(self.tag_layout),
                lm_union(lm(self.payload_layout), lm_of(payload)),
            );
            let ext = lm_extend(
                lm(self.tag_layout),
                lm_union(lm(self.payload_layout), lm_of(payload)),
            );
            lemma_pad(ext.size, ext.align);
        }
        let ty_layout = layout_of(&payload);
        self.payload_layout = Layout {
            size: max_usize(self.payload_layout.size, ty_layout.size),
            align: max_usize(self.payload_layout.align, ty_layout.align),
        };
        let ext = extend_layout(self.tag_layout, self.payload_layout);
        let round = pad_needed(ext.size, ext.align);
        self.layout = Layout { size: ext.size + round, align: ext.align };
        self.variants.push(EnumVariant { disc, payload });
        proof {
            let s = self.variants@;
            let n = s.len() as int;
            lemma_fold_payloads_prefix(old(self).variants@, s, n - 1);
            assert(forall|i: int|
                0 <= i < n ==> wf_ty(#[trigger] s[i].payload)) by {
                assert(forall|i: int| 0 <= i < n - 1 ==> s[i] == old(self).variants@[i]);
            }
        }
    }
}

impl Union {
    /// An empty union: zero size, alignment one, no variants.
    pub fn new(name: &'static str) -> (r: Union)
        ensures
            wf_union(r),
            r.variants@.len() == 0,
            r.name == name,
            r.layout == (Layout { size: 0, align: 1 }),
    {
        Union { name, layout: Layout { size: 0, align: 1 }, variants: Vec::new() }
    }

    /// Add a variant: the stored layout grows to the pointwise maximum, and
    /// the union's observable layout is that maximum rounded up to a
    /// multiple of its alignment.
    pub fn add_variant(&mut self, private: bool, variant: Ty)
        requires
            wf_union(*old(self)),
            wf_ty(variant),
            lm_round(lm_union(lm(old(self).layout), lm_of(variant))).size <= usize::MAX,
        ensures
            wf_union(*final(self)),
            final(self).variants@ == old(self).variants@.push(
                UnionVariant { private, ty: variant },
            ),
            final(self).name == old(self).name,
            lm(final(self).layout) == lm_union(lm(old(self).layout), lm_of(variant)),
            lm_of(Ty::Union(*final(self))) == lm_round(
                lm_union(lm(old(self).layout), lm_of(variant)),
            ),
    {
        proof {
            lemma_wf_align_ok(variant);
        }
        let ty_layout = layout_of(&variant);
        self.layout = Layout {
            size: max_usize(self.layout.size, ty_layout.size),
            align: max_usize(self.layout.align, ty_layout.align),
        };
        self.variants.push(UnionVariant { private, ty: variant });
        proof {
            let s = self.variants@;
            let n = s.len() as int;
            lemma_fold_union_prefix(old(self).variants@, s, n - 1);
            assert(forall|i: int|
                0 <= i < n ==> wf_ty(#[trigger] s[i].ty)) by {
                assert(forall|i: int| 0 <= i < n - 1 ==> s[i] == old(self).variants@[i]);
            }
        }
    }
}

} // verus!
