//! Layouts, compiled programs, and the walker on concrete types.

use transmute_check::compiler::Compiler;
use transmute_check::derive::InspectTy;
use transmute_check::inst::{Inst, InstByte, InstPtr, RangeInclusive};
use transmute_check::program::{LayoutStep, Program};
use transmute_check::ty::{layout_of, Endian, Enum, Layout, Struct, Ty, Union};

fn struct_of(fields: Vec<(bool, Ty)>) -> Ty {
    let mut st = Struct::new("s");
    for (private, ty) in fields {
        st.add_field(private, ty);
    }
    Ty::Struct(st)
}

/// Walk the in-order path of a program: take every byte step, note every
/// fork without following it, and report the byte offset one past the last
/// byte.
fn in_order_length(prog: &mut Program) -> usize {
    let mut end: usize = 0;
    loop {
        match prog.next() {
            None => break,
            Some(LayoutStep::Byte { pos, .. }) => end = pos + 1,
            Some(LayoutStep::Fork(_)) => {}
        }
    }
    end
}

#[test]
fn scalar_layouts() {
    assert_eq!(layout_of(&Ty::Void), Layout { size: 0, align: 1 });
    assert_eq!(layout_of(&Ty::Bool), Layout { size: 1, align: 1 });
    assert_eq!(layout_of(&Ty::Int(1)), Layout { size: 1, align: 1 });
    assert_eq!(layout_of(&Ty::Int(2)), Layout { size: 2, align: 2 });
    assert_eq!(layout_of(&Ty::Int(4)), Layout { size: 4, align: 4 });
    assert_eq!(layout_of(&Ty::Int(8)), Layout { size: 8, align: 8 });
    // a 16-byte integer aligns to 8
    assert_eq!(layout_of(&Ty::Int(16)), Layout { size: 16, align: 8 });
}

#[test]
fn struct_layout_rounds_up_to_alignment() {
    // { u8, u32 }: field offsets 0 and 4, size rounded to 8
    let a = struct_of(vec![(false, Ty::Int(1)), (false, Ty::Int(4))]);
    assert_eq!(layout_of(&a), Layout { size: 8, align: 4 });
    // { u32, u8 }: 5 bytes of fields rounded to 8
    let b = struct_of(vec![(false, Ty::Int(4)), (false, Ty::Int(1))]);
    assert_eq!(layout_of(&b), Layout { size: 8, align: 4 });
    // the running (unrounded) layout is what the builder stores
    let mut st = Struct::new("s");
    st.add_field(false, Ty::Int(4));
    st.add_field(false, Ty::Int(1));
    assert_eq!(st.layout, Layout { size: 5, align: 4 });
}

#[test]
fn enum_layout_extends_tag_by_payload() {
    // tag u8, payloads bool | u32: payload part aligned to 4 after the tag
    let mut en = Enum::new("e", 1);
    en.add_variant(0, Ty::Bool);
    en.add_variant(1, Ty::Int(4));
    assert_eq!(en.tag_layout, Layout { size: 1, align: 1 });
    assert_eq!(en.payload_layout, Layout { size: 4, align: 4 });
    assert_eq!(layout_of(&Ty::Enum(en)), Layout { size: 8, align: 4 });
}

#[test]
fn enum_layout_rounds_up_to_alignment() {
    // tag u16, payload bool: three bytes of content rounded to the tag's
    // two-byte alignment
    let mut en = Enum::new("e", 2);
    en.add_variant(0, Ty::Bool);
    assert_eq!(en.layout, Layout { size: 4, align: 2 });
    assert_eq!(layout_of(&Ty::Enum(en)), Layout { size: 4, align: 2 });
}

#[test]
fn union_layout_is_pointwise_maximum() {
    let mut un = Union::new("u");
    un.add_variant(false, Ty::Int(4));
    un.add_variant(false, Ty::Bool);
    assert_eq!(layout_of(&Ty::Union(un)), Layout { size: 4, align: 4 });
}

#[test]
fn union_layout_rounds_up_to_alignment() {
    // five bytes of content under a four-byte alignment round to eight
    let mut un = Union::new("u");
    un.add_variant(
        false,
        Ty::Array(Box::new(transmute_check::ty::Array { element: Ty::Int(1), count: 5 })),
    );
    un.add_variant(false, Ty::Int(4));
    assert_eq!(layout_of(&Ty::Union(un)), Layout { size: 8, align: 4 });
}

#[test]
fn array_layout_repeats_with_stride() {
    let arr0 = Ty::Array(Box::new(transmute_check::ty::Array {
        element: Ty::Int(4),
        count: 0,
    }));
    assert_eq!(layout_of(&arr0), Layout { size: 0, align: 4 });
    let arr3 = Ty::Array(Box::new(transmute_check::ty::Array {
        element: Ty::Int(4),
        count: 3,
    }));
    assert_eq!(layout_of(&arr3), Layout { size: 12, align: 4 });
    // elements of a rounded union lie at their full eight-byte stride
    let mut un = Union::new("u");
    un.add_variant(
        false,
        Ty::Array(Box::new(transmute_check::ty::Array { element: Ty::Int(1), count: 5 })),
    );
    un.add_variant(false, Ty::Int(4));
    let arr2 = Ty::Array(Box::new(transmute_check::ty::Array {
        element: Ty::Union(un),
        count: 2,
    }));
    assert_eq!(layout_of(&arr2), Layout { size: 16, align: 4 });
}

#[test]
fn compiler_tracks_the_layout_of_what_it_emits() {
    // the running layout after lowering equals the type's own layout, and
    // the in-order walk ends at exactly that many bytes
    let cases = vec![
        Ty::Bool,
        Ty::Int(8),
        struct_of(vec![(false, Ty::Int(1)), (false, Ty::Int(4))]),
        struct_of(vec![(false, Ty::Int(4)), (false, Ty::Int(1))]),
    ];
    for ty in cases {
        let expected = layout_of(&ty);
        let mut compiler = Compiler::new(Endian::Little);
        compiler.extend_from_ty(&ty);
        assert_eq!(compiler.layout, expected);
        compiler.insts.push(Inst::Accept);
        let mut prog = Program::new(compiler.insts, "t");
        assert_eq!(in_order_length(&mut prog), expected.size);
    }
}

#[test]
fn in_order_walk_of_enum_covers_the_full_size() {
    let mut en = Enum::new("e", 1);
    en.add_variant(0, Ty::Bool);
    en.add_variant(1, Ty::Int(4));
    let ty = Ty::Enum(en);
    let expected = layout_of(&ty);
    let mut prog = Compiler::compile(&ty, Endian::Little, "e");
    assert_eq!(in_order_length(&mut prog), expected.size);
}

#[test]
fn compiled_targets_lie_within_the_program() {
    // nested sums: every branch and join target is patched in bounds and no
    // placeholder remains
    let mut inner = Enum::new("i", 1);
    inner.add_variant(0, Ty::Bool);
    inner.add_variant(1, Ty::Int(2));
    let mut outer = Enum::new("o", 1);
    outer.add_variant(0, Ty::Enum(inner));
    outer.add_variant(1, Ty::Int(4));
    outer.add_variant(2, Ty::Void);
    let prog = Compiler::compile(&Ty::Enum(outer), Endian::Little, "o");
    let len = prog.insts.len() as InstPtr;
    assert_eq!(*prog.insts.last().unwrap(), Inst::Accept);
    for inst in &prog.insts {
        match inst {
            Inst::Split(sp) => {
                assert!(sp.alternate < len);
                assert_ne!(sp.alternate, InstPtr::MAX);
            }
            Inst::JoinGoto(t) => {
                assert!(*t < len);
                assert_ne!(*t, InstPtr::MAX);
            }
            _ => {}
        }
    }
}

#[test]
fn bool_compiles_to_a_binary_range() {
    let prog = Compiler::compile(&Ty::Bool, Endian::Little, "b");
    assert_eq!(prog.insts.len(), 2);
    match prog.insts[0] {
        Inst::ByteRange(r) => {
            assert!(!r.private);
            assert_eq!(r.range, RangeInclusive { start: 0, end: 1 });
            assert_eq!(r.alternate, None);
        }
        _ => panic!("expected a byte range"),
    }
    assert_eq!(prog.insts[1], Inst::Accept);
}

#[test]
fn literal_bytes_follow_the_byte_order() {
    let little = InstByte::for_literal(Endian::Little, 4, 0x0403_0201, false);
    let expect = |b: u8| Inst::Byte(InstByte { private: false, byte: b });
    assert_eq!(little, vec![expect(0x01), expect(0x02), expect(0x03), expect(0x04)]);
    let big = InstByte::for_literal(Endian::Big, 4, 0x0403_0201, false);
    assert_eq!(big, vec![expect(0x04), expect(0x03), expect(0x02), expect(0x01)]);
    let private = InstByte::for_literal(Endian::Little, 1, 0x7f, true);
    assert_eq!(private, vec![Inst::Byte(InstByte { private: true, byte: 0x7f })]);
}

#[test]
fn reflected_types_match_hand_built_ones() {
    assert_eq!(layout_of(&bool::ty_of()), Layout { size: 1, align: 1 });
    assert_eq!(layout_of(&<u64 as InspectTy>::ty_of()), Layout { size: 8, align: 8 });
    assert_eq!(layout_of(&<i16 as InspectTy>::ty_of()), Layout { size: 2, align: 2 });
    assert_eq!(layout_of(&<() as InspectTy>::ty_of()), Layout { size: 0, align: 1 });
    assert_eq!(layout_of(&<[u32; 3] as InspectTy>::ty_of()), Layout { size: 12, align: 4 });
    let value: u16 = 5;
    assert_eq!(layout_of(&value.ty_of_this()), Layout { size: 2, align: 2 });
    assert!(bool::ty_of().needs_name() == false);
    let st = struct_of(vec![(false, Ty::Bool)]);
    assert!(st.needs_name());
}
