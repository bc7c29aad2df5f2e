//! Constants of the debug information format.
use vstd::prelude::*;

verus! {

/// Tag of a structure.
pub open spec fn structure_type() -> u16 {
    0x13
}

/// Tag of a union.
pub open spec fn union_type() -> u16 {
    0x17
}

/// Tag of the part of a structure that depends on a discriminant.
pub open spec fn variant_part() -> u16 {
    0x33
}

/// Tag of a pointer.
pub open spec fn pointer_type() -> u16 {
    0x0f
}

/// Tag of an array.
pub open spec fn array_type() -> u16 {
    0x01
}

/// Flag of a forward declaration.
pub open spec fn fwd_decl() -> i32 {
    4
}

/// Reads `gimli::DW_TAG_structure_type`, which is 0x13.
#[verifier::external_body]
pub(crate) fn dw_tag_structure_type() -> (r: u16)
    ensures
        r == structure_type(),
{
    gimli::DW_TAG_structure_type.0
}

/// Reads `gimli::DW_TAG_union_type`, which is 0x17.
#[verifier::external_body]
pub(crate) fn dw_tag_union_type() -> (r: u16)
    ensures
        r == union_type(),
{
    gimli::DW_TAG_union_type.0
}

/// Reads `gimli::DW_TAG_variant_part`, which is 0x33.
#[verifier::external_body]
pub(crate) fn dw_tag_variant_part() -> (r: u16)
    ensures
        r == variant_part(),
{
    gimli::DW_TAG_variant_part.0
}

/// Reads `gimli::DW_TAG_pointer_type`, which is 0x0f.
#[verifier::external_body]
pub(crate) fn dw_tag_pointer_type() -> (r: u16)
    ensures
        r == pointer_type(),
{
    gimli::DW_TAG_pointer_type.0
}

/// Reads `gimli::DW_TAG_array_type`, which is 0x01.
#[verifier::external_body]
pub(crate) fn dw_tag_array_type() -> (r: u16)
    ensures
        r == array_type(),
{
    gimli::DW_TAG_array_type.0
}

/// Reads `llvm_sys::debuginfo::LLVMDIFlagFwdDecl`, which is `1 << 2`.
#[verifier::external_body]
pub(crate) fn di_flag_fwd_decl() -> (r: i32)
    ensures
        r == fwd_decl(),
{
    llvm_sys::debuginfo::LLVMDIFlagFwdDecl
}

} // verus!
