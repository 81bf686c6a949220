//! Reflection from Rust types to the type model.

use vstd::prelude::*;
use crate::ty::{Array, Ty};

verus! {

/// Types that can report their own model tree.  Implementations exist for
/// the supported scalars and for arrays of supported element types; user
/// code implements it for its own composites, typically by driving the
/// struct, enum and union builders.
pub trait InspectTy {
    /// The model tree of `Self`.
    fn ty_of() -> Ty;

    /// The model tree of a value's type.
    fn ty_of_this(&self) -> Ty {
        Self::ty_of()
    }
}

impl InspectTy for () {
    fn ty_of() -> Ty {
        Ty::Void
    }
}

impl InspectTy for bool {
    fn ty_of() -> Ty {
        Ty::Bool
    }
}

impl InspectTy for u8 {
    fn ty_of() -> Ty {
        Ty::Int(1)
    }
}

impl InspectTy for u16 {
    fn ty_of() -> Ty {
        Ty::Int(2)
    }
}

impl InspectTy for u32 {
    fn ty_of() -> Ty {
        Ty::Int(4)
    }
}

impl InspectTy for u64 {
    fn ty_of() -> Ty {
        Ty::Int(8)
    }
}

impl InspectTy for i8 {
    fn ty_of() -> Ty {
        Ty::Int(1)
    }
}

impl InspectTy for i16 {
    fn ty_of() -> Ty {
        Ty::Int(2)
    }
}

impl InspectTy for i32 {
    fn ty_of() -> Ty {
        Ty::Int(4)
    }
}

impl InspectTy for i64 {
    fn ty_of() -> Ty {
        Ty::Int(8)
    }
}

impl<T: InspectTy, const C: usize> InspectTy for [T; C] {
    fn ty_of() -> Ty {
        Ty::Array(Box::new(Array { element: T::ty_of(), count: C }))
    }
}

} // verus!
