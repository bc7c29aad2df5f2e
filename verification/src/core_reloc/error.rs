use vstd::prelude::*;

verus! {

/// Why the relocation pass gave up.
#[derive(Clone, Copy, Debug, PartialEq, Eq, Structural)]
pub enum CoreRelocError {
    GepOffset(GepOffsetError),
    ArrayAccess(ArrayAccessError),
}

/// Why the byte offset of an address computation is not known.
#[derive(Clone, Copy, Debug, PartialEq, Eq, Structural)]
pub enum GepOffsetError {
    NonConstantIndex,
    BadStructIndex,
    OffsetOverflow,
    UnsupportedTypeKind,
}

/// Why an access to an array element cannot be expressed.
#[derive(Clone, Copy, Debug, PartialEq, Eq, Structural)]
pub enum ArrayAccessError {
    MissingElementType,
    NonByteAlignedElementSize,
    ZeroSizedElement,
    IndexOverflow,
}

/// The text that describes an error.
pub open spec fn gep_offset_error_text(error: GepOffsetError) -> Seq<char> {
    match error {
        GepOffsetError::NonConstantIndex => "index operand is not a constant integer"@,
        GepOffsetError::BadStructIndex => "invalid struct field index"@,
        GepOffsetError::OffsetOverflow => "byte offset overflow"@,
        GepOffsetError::UnsupportedTypeKind => "unsupported indexed type kind"@,
    }
}

pub open spec fn array_access_error_text(error: ArrayAccessError) -> Seq<char> {
    match error {
        ArrayAccessError::MissingElementType => "array element type is missing"@,
        ArrayAccessError::NonByteAlignedElementSize => "array element size is not byte-aligned"@,
        ArrayAccessError::ZeroSizedElement => "array element size is zero"@,
        ArrayAccessError::IndexOverflow => "array index does not fit into u32"@,
    }
}

pub open spec fn core_reloc_error_text(error: CoreRelocError) -> Seq<char> {
    match error {
        CoreRelocError::GepOffset(e) => "failed to compute GEP offset: "@ + gep_offset_error_text(
            e,
        ),
        CoreRelocError::ArrayAccess(e) => "failed to build array access path: "@
            + array_access_error_text(e),
    }
}

impl GepOffsetError {
    /// The text that describes the error.
    pub fn message(&self) -> (r: &'static str)
        ensures
            r@ == gep_offset_error_text(*self),
    {
        match self {
            GepOffsetError::NonConstantIndex => "index operand is not a constant integer",
            GepOffsetError::BadStructIndex => "invalid struct field index",
            GepOffsetError::OffsetOverflow => "byte offset overflow",
            GepOffsetError::UnsupportedTypeKind => "unsupported indexed type kind",
        }
    }
}

impl ArrayAccessError {
    /// The text that describes the error.
    pub fn message(&self) -> (r: &'static str)
        ensures
            r@ == array_access_error_text(*self),
    {
        match self {
            ArrayAccessError::MissingElementType => "array element type is missing",
            ArrayAccessError::NonByteAlignedElementSize => "array element size is not byte-aligned",
            ArrayAccessError::ZeroSizedElement => "array element size is zero",
            ArrayAccessError::IndexOverflow => "array index does not fit into u32",
        }
    }
}

impl CoreRelocError {
    /// The text that describes the error.
    pub fn message(&self) -> (r: String)
        ensures
            r@ == core_reloc_error_text(*self),
    {
        match self {
            CoreRelocError::GepOffset(e) => {
                let mut r = String::from_str("failed to compute GEP offset: ");
                r.append(e.message());
                r
            },
            CoreRelocError::ArrayAccess(e) => {
                let mut r = String::from_str("failed to build array access path: ");
                r.append(e.message());
                r
            },
        }
    }
}

} // verus!
