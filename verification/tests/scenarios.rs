//! End-to-end transmutability verdicts on concrete type pairs.

use transmute_check::compiler::Compiler;
use transmute_check::engine::{ExecError, Execution, Reject};
use transmute_check::inst::{AcceptState, RangeInclusive};
use transmute_check::ty::{Endian, Enum, Struct, Ty, Union};

const FUEL: u64 = 1_000_000;

fn run_check(dst: Ty, src: Ty) -> Vec<Reject> {
    let prog_dst = Compiler::compile(&dst, Endian::Little, "dst");
    let prog_src = Compiler::compile(&src, Endian::Little, "src");
    let mut execution = Execution::new(prog_dst, prog_src);
    execution.check(FUEL).unwrap();
    execution.reject
}

fn struct_of(fields: Vec<(bool, Ty)>) -> Ty {
    let mut st = Struct::new("s");
    for (private, ty) in fields {
        st.add_field(private, ty);
    }
    Ty::Struct(st)
}

fn enum_of(disc_size: u32, payloads: Vec<Ty>) -> Ty {
    let mut en = Enum::new("e", disc_size);
    let mut disc: u128 = 0;
    for payload in payloads {
        en.add_variant(disc, payload);
        disc += 1;
    }
    Ty::Enum(en)
}

fn union_of(variants: Vec<(bool, Ty)>) -> Ty {
    let mut un = Union::new("u");
    for (private, ty) in variants {
        un.add_variant(private, ty);
    }
    Ty::Union(un)
}

#[test]
fn bool_into_byte_accepts() {
    // a bool inhabits {0, 1}, a subset of what any byte accepts
    let rejects = run_check(Ty::Int(1), Ty::Bool);
    assert!(rejects.is_empty());
}

#[test]
fn byte_into_bool_rejects_out_of_range() {
    // the synthetic fork narrows the overlap away and leaves 2..=255 refused
    let rejects = run_check(Ty::Bool, Ty::Int(1));
    assert_eq!(rejects.len(), 1);
    assert_eq!(
        rejects[0].reason,
        AcceptState::NeverOutOfRange(
            RangeInclusive { start: 0, end: 1 },
            RangeInclusive { start: 2, end: 255 },
        )
    );
}

#[test]
fn widened_leading_field_accepts() {
    // dst: { u8, pad(3), u32 }, src: { u16, pad(2), u32 }: the byte under
    // dst's padding is unconstrained, everything else is range-compatible
    let dst = struct_of(vec![(false, Ty::Int(1)), (false, Ty::Int(4))]);
    let src = struct_of(vec![(false, Ty::Int(2)), (false, Ty::Int(4))]);
    let rejects = run_check(dst, src);
    assert!(rejects.is_empty());
}

#[test]
fn enum_payload_widening_accepts() {
    // every source path (A(bool) | B(bool)) is a sub-path of a destination
    // path (A(bool) | B(u8))
    let dst = enum_of(1, vec![Ty::Bool, Ty::Int(1)]);
    let src = enum_of(1, vec![Ty::Bool, Ty::Bool]);
    let rejects = run_check(dst, src);
    assert!(rejects.is_empty());
}

#[test]
fn enum_payload_narrowing_rejects() {
    // B(u8) in the source feeds B(bool) in the destination: the payload
    // byte range 0..=255 collapses to a refusal of 2..=255
    let dst = enum_of(1, vec![Ty::Bool, Ty::Bool]);
    let src = enum_of(1, vec![Ty::Bool, Ty::Int(1)]);
    let rejects = run_check(dst, src);
    assert_eq!(rejects.len(), 1);
    assert!(rejects[0].src.is_some());
    assert_eq!(
        rejects[0].reason,
        AcceptState::NeverOutOfRange(
            RangeInclusive { start: 0, end: 1 },
            RangeInclusive { start: 2, end: 255 },
        )
    );
}

#[test]
fn swapped_fields_of_binary_bytes_accept() {
    // dst: { bool, enum }, src: { enum, bool }: tags and payloads land on
    // swapped offsets, but every byte either side admits is 0 or 1, so after
    // synthetic splitting each source byte is accepted on some branch
    let dst = struct_of(vec![
        (false, Ty::Bool),
        (false, enum_of(1, vec![Ty::Bool, Ty::Bool])),
    ]);
    let src = struct_of(vec![
        (false, enum_of(1, vec![Ty::Bool, Ty::Bool])),
        (false, Ty::Bool),
    ]);
    let rejects = run_check(dst, src);
    assert!(rejects.is_empty());
}

#[test]
fn swapped_wide_field_rejects() {
    // dst: { bool, enum }, src: { enum, u8 }: the trailing u8 feeds the
    // destination payload byte, whose range it exceeds
    let dst = struct_of(vec![
        (false, Ty::Bool),
        (false, enum_of(1, vec![Ty::Bool, Ty::Bool])),
    ]);
    let src = struct_of(vec![
        (false, enum_of(1, vec![Ty::Bool, Ty::Bool])),
        (false, Ty::Int(1)),
    ]);
    let rejects = run_check(dst, src);
    assert!(!rejects.is_empty());
}

#[test]
fn reflexivity_accepts_scalars() {
    assert!(run_check(Ty::Bool, Ty::Bool).is_empty());
    assert!(run_check(Ty::Int(1), Ty::Int(1)).is_empty());
    assert!(run_check(Ty::Int(4), Ty::Int(4)).is_empty());
    assert!(run_check(Ty::Void, Ty::Void).is_empty());
}

#[test]
fn reflexivity_accepts_padded_struct() {
    // every padding byte is unspecified on both sides, and an unspecified
    // destination byte accepts anything
    let make = || struct_of(vec![(false, Ty::Int(1)), (false, Ty::Int(4))]);
    assert!(run_check(make(), make()).is_empty());
}

#[test]
fn reflexivity_accepts_enum_and_union() {
    let make_enum = || enum_of(2, vec![Ty::Bool, Ty::Int(4), Ty::Void]);
    assert!(run_check(make_enum(), make_enum()).is_empty());
    // a union whose variants share one size has no tail padding, so every
    // byte of every variant is proven acceptable on some branch
    let make_union = || union_of(vec![(false, Ty::Int(4)), (false, Ty::Int(4))]);
    assert!(run_check(make_union(), make_union()).is_empty());
}

#[test]
fn union_tail_padding_can_defeat_reflexivity() {
    // union { u32, bool }: the bool variant carries three padding bytes.
    // walking pairs that variant against the u32 branch first, where padding
    // cannot feed a real byte; the early-accept cut then skips the variant's
    // own branch, so the refusal survives the post-filter
    let make_union = || union_of(vec![(false, Ty::Int(4)), (false, Ty::Bool)]);
    let rejects = run_check(make_union(), make_union());
    assert_eq!(rejects.len(), 1);
    assert_eq!(rejects[0].reason, AcceptState::NeverReadUninit);
}

#[test]
fn reflexivity_accepts_array_of_struct() {
    let make = || {
        let element = struct_of(vec![(false, Ty::Bool), (false, Ty::Int(2))]);
        Ty::Array(Box::new(transmute_check::ty::Array { element, count: 3 }))
    };
    assert!(run_check(make(), make()).is_empty());
}

#[test]
fn private_source_field_rejects() {
    // reading a private source byte is refused
    let dst = struct_of(vec![(false, Ty::Int(1))]);
    let src = struct_of(vec![(true, Ty::Int(1))]);
    let rejects = run_check(dst, src);
    assert_eq!(rejects.len(), 1);
    assert_eq!(rejects[0].reason, AcceptState::NeverReadPrivate);
}

#[test]
fn private_destination_field_rejects() {
    // writing a private destination byte is refused
    let dst = struct_of(vec![(true, Ty::Int(1))]);
    let src = struct_of(vec![(false, Ty::Int(1))]);
    let rejects = run_check(dst, src);
    assert_eq!(rejects.len(), 1);
    assert_eq!(rejects[0].reason, AcceptState::NeverWritePrivate);
}

#[test]
fn uninit_source_byte_rejects() {
    // dst: { u8, u8 } has no padding; src: { u8, pad, u16 } is longer, but
    // already its padding byte at offset 1 cannot feed dst's real byte
    let dst = struct_of(vec![(false, Ty::Int(1)), (false, Ty::Int(1))]);
    let src = struct_of(vec![(false, Ty::Int(1)), (false, Ty::Int(2))]);
    let rejects = run_check(dst, src);
    assert!(rejects
        .iter()
        .any(|r| r.reason == AcceptState::NeverReadUninit));
}

#[test]
fn tag_mismatch_rejects() {
    // single-variant enums with different discriminants: the constant tag
    // bytes differ
    let mut dst_enum = Enum::new("d", 1);
    dst_enum.add_variant(3, Ty::Void);
    let mut src_enum = Enum::new("s", 1);
    src_enum.add_variant(7, Ty::Void);
    let rejects = run_check(Ty::Enum(dst_enum), Ty::Enum(src_enum));
    assert_eq!(rejects.len(), 1);
    assert_eq!(rejects[0].reason, AcceptState::NeverTagMismatch);
}

#[test]
fn exhausted_budget_surfaces_error() {
    let prog_dst = Compiler::compile(&Ty::Bool, Endian::Little, "dst");
    let prog_src = Compiler::compile(&Ty::Bool, Endian::Little, "src");
    let mut execution = Execution::new(prog_dst, prog_src);
    assert_eq!(execution.check(0), Err(ExecError::LimitExceeded));
}

#[test]
fn missing_source_bytes_are_not_blamed() {
    // once the source is exhausted it reads as unspecified and the pairing
    // is refused, but the refusal names no source instruction, so the
    // post-filter drops it: the verdict never blames a byte the source lacks
    let rejects = run_check(Ty::Int(2), Ty::Int(1));
    assert!(rejects.iter().all(|r| r.src.is_some()));
    assert!(rejects.is_empty());
}
