//! The byte offset of an address computation.
use vstd::prelude::*;

use crate::core_reloc::error::GepOffsetError;

verus! {

/// A field of a structure: its offset in bytes, and its type.
#[derive(Clone, Copy, Debug, PartialEq, Eq, Structural)]
pub struct IrField {
    pub offset: u64,
    pub ty: usize,
}

/// A type that an address computation can step into. Types refer to each other
/// by their index.
pub enum IrTypeKind {
    Struct { fields: Vec<IrField> },
    Array { element: usize },
    Vector { element: usize },
    Other,
}

/// A type with the number of bytes between two values of it in memory.
pub struct IrType {
    pub abi_size: u64,
    pub kind: IrTypeKind,
}

/// An address computation: the type that the base points to, and the indices. An
/// index that is not a constant integer is `None`.
pub struct Gep {
    pub source_type: usize,
    pub indices: Vec<Option<u64>>,
}

/// Every reference of a list of types leads to a type.
pub open spec fn wf_types(types: Seq<IrType>) -> bool {
    forall|i: int|
        0 <= i < types.len() ==> match (#[trigger] types[i]).kind {
            IrTypeKind::Struct { fields } => forall|j: int|
                0 <= j < fields@.len() ==> (#[trigger] fields@[j]).ty < types.len(),
            IrTypeKind::Array { element } => element < types.len(),
            IrTypeKind::Vector { element } => element < types.len(),
            IrTypeKind::Other => true,
        }
}

/// One step of an address computation: where an index into `ty` leads, as a
/// number of bytes and a type. The first index steps over whole values.
pub open spec fn gep_step(types: Seq<IrType>, ty: usize, index: Option<u64>, first: bool) -> Result<
    (nat, usize),
    GepOffsetError,
> {
    match index {
        None => Err(GepOffsetError::NonConstantIndex),
        Some(index) => if first {
            Ok((index as nat * types[ty as int].abi_size as nat, ty))
        } else {
            match types[ty as int].kind {
                IrTypeKind::Struct { fields } => if index >= fields@.len() || index > u32::MAX {
                    Err(GepOffsetError::BadStructIndex)
                } else {
                    let field = fields@[index as int];
                    Ok((field.offset as nat, field.ty))
                },
                IrTypeKind::Array { element } | IrTypeKind::Vector { element } => Ok(
                    (index as nat * types[element as int].abi_size as nat, element),
                ),
                IrTypeKind::Other => Err(GepOffsetError::UnsupportedTypeKind),
            }
        },
    }
}

/// The offset that the indices from `k` on add to `before`; no sum on the way
/// may exceed 64 bits.
pub open spec fn gep_offset_from(
    types: Seq<IrType>,
    ty: usize,
    indices: Seq<Option<u64>>,
    k: nat,
    before: nat,
) -> Result<nat, GepOffsetError>
    decreases indices.len() - k,
{
    if k >= indices.len() {
        Ok(before)
    } else {
        match gep_step(types, ty, indices[k as int], k == 0) {
            Err(e) => Err(e),
            Ok((distance, next)) => if before + distance > u64::MAX {
                Err(GepOffsetError::OffsetOverflow)
            } else {
                gep_offset_from(types, next, indices, k + 1, before + distance)
            },
        }
    }
}

/// The byte offset of an address computation.
pub open spec fn gep_offset(types: Seq<IrType>, gep: Gep) -> Result<nat, GepOffsetError> {
    gep_offset_from(types, gep.source_type, gep.indices@, 0, 0)
}

/// Adds `index` values of `stride` bytes to an offset.
fn advance(offset: u64, index: u64, stride: u64) -> (r: Result<u64, GepOffsetError>)
    ensures
        ({
            let sum = offset as nat + index as nat * stride as nat;
            if sum > u64::MAX {
                r == Err::<u64, GepOffsetError>(GepOffsetError::OffsetOverflow)
            } else {
                r == Ok::<u64, GepOffsetError>(sum as u64)
            }
        }),
{
    match index.checked_mul(stride) {
        None => Err(GepOffsetError::OffsetOverflow),
        Some(distance) => match offset.checked_add(distance) {
            None => Err(GepOffsetError::OffsetOverflow),
            Some(sum) => Ok(sum),
        },
    }
}

/// Computes the byte offset of an address computation with constant indices.
pub fn constant_gep_offset(types: &Vec<IrType>, gep: &Gep) -> (r: Result<u64, GepOffsetError>)
    requires
        wf_types(types@),
        gep.source_type < types@.len(),
    ensures
        match gep_offset(types@, *gep) {
            Ok(offset) => r == Ok::<u64, GepOffsetError>(offset as u64) && offset <= u64::MAX,
            Err(e) => r == Err::<u64, GepOffsetError>(e),
        },
{
    let mut current: usize = gep.source_type;
    let mut offset: u64 = 0;
    let mut k: usize = 0;
    while k < gep.indices.len()
        invariant
            k <= gep.indices@.len(),
            wf_types(types@),
            current < types@.len(),
            gep_offset(types@, *gep) == gep_offset_from(
                types@,
                current,
                gep.indices@,
                k as nat,
                offset as nat,
            ),
        decreases gep.indices@.len() - k,
    {
        let index: u64 = match gep.indices[k] {
            Some(index) => index,
            None => return Err(GepOffsetError::NonConstantIndex),
        };
        if k == 0 {
            offset = advance(offset, index, types[current].abi_size)?;
        } else {
            match &types[current].kind {
                IrTypeKind::Struct { fields } => {
                    if index > u32::MAX as u64 || index as usize >= fields.len() {
                        return Err(GepOffsetError::BadStructIndex);
                    }
                    let field: IrField = fields[index as usize];
                    offset = match offset.checked_add(field.offset) {
                        Some(sum) => sum,
                        None => return Err(GepOffsetError::OffsetOverflow),
                    };
                    current = field.ty;
                },
                IrTypeKind::Array { element } | IrTypeKind::Vector { element } => {
                    offset = advance(offset, index, types[*element].abi_size)?;
                    current = *element;
                },
                IrTypeKind::Other => return Err(GepOffsetError::UnsupportedTypeKind),
            }
        }
        k = k + 1;
    }
    Ok(offset)
}

fn are_fields_in_range(fields: &Vec<IrField>, len: usize) -> (r: bool)
    ensures
        r == (forall|j: int| 0 <= j < fields@.len() ==> (#[trigger] fields@[j]).ty < len),
{
    let mut j: usize = 0;
    while j < fields.len()
        invariant
            j <= fields@.len(),
            forall|k: int| 0 <= k < j ==> (#[trigger] fields@[k]).ty < len,
        decreases fields@.len() - j,
    {
        if fields[j].ty >= len {
            return false;
        }
        j = j + 1;
    }
    true
}

/// Decides whether every reference of a list of types leads to a type.
pub fn are_types_wf(types: &Vec<IrType>) -> (r: bool)
    ensures
        r == wf_types(types@),
{
    let len: usize = types.len();
    let mut i: usize = 0;
    while i < types.len()
        invariant
            i <= types@.len(),
            len == types@.len(),
            forall|k: int|
                0 <= k < i ==> match (#[trigger] types@[k]).kind {
                    IrTypeKind::Struct { fields } => forall|j: int|
                        0 <= j < fields@.len() ==> (#[trigger] fields@[j]).ty < types@.len(),
                    IrTypeKind::Array { element } => element < types@.len(),
                    IrTypeKind::Vector { element } => element < types@.len(),
                    IrTypeKind::Other => true,
                },
        decreases types@.len() - i,
    {
        let ok: bool = match &types[i].kind {
            IrTypeKind::Struct { fields } => are_fields_in_range(fields, len),
            IrTypeKind::Array { element } => *element < len,
            IrTypeKind::Vector { element } => *element < len,
            IrTypeKind::Other => true,
        };
        if !ok {
            return false;
        }
        i = i + 1;
    }
    true
}

/// A list of types is well-formed exactly if the types of all fields and elements are in it.
pub proof fn parts_are_listed_types(types: Seq<IrType>)
    ensures
        wf_types(types) <==> forall|i: int|
            0 <= i < types.len() ==> match (#[trigger] types[i]).kind {
                IrTypeKind::Struct { fields } => forall|j: int|
                    0 <= j < fields@.len() ==> (#[trigger] fields@[j]).ty < types.len(),
                IrTypeKind::Array { element } | IrTypeKind::Vector { element } => element
                    < types.len(),
                IrTypeKind::Other => true,
            },
{
}

} // verus!
