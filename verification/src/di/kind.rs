//! What a piece of metadata is.
use vstd::prelude::*;

verus! {

/// The kinds of metadata that LLVM has.
#[derive(Clone, Copy, Debug, PartialEq, Eq, Structural)]
pub enum MetadataTag {
    DICompositeType,
    DIDerivedType,
    DISubprogram,
    DIGlobalVariable,
    DICommonBlock,
    MDString,
    ConstantAsMetadata,
    LocalAsMetadata,
    DistinctMDOperandPlaceholder,
    MDTuple,
    DILocation,
    DIExpression,
    DIGlobalVariableExpression,
    GenericDINode,
    DISubrange,
    DIEnumerator,
    DIBasicType,
    DISubroutineType,
    DIFile,
    DICompileUnit,
    DILexicalBlock,
    DILexicalBlockFile,
    DINamespace,
    DIModule,
    DITemplateTypeParameter,
    DITemplateValueParameter,
    DILocalVariable,
    DILabel,
    DIObjCProperty,
    DIImportedEntity,
    DIMacro,
    DIMacroFile,
    DIStringType,
    DIGenericSubrange,
    DIArgList,
    DIAssignID,
    DISubrangeType,
    DIFixedPointType,
}

/// A piece of metadata, referred to by a handle, as the sanitizer tells it apart.
#[derive(Clone, Copy, Debug, PartialEq, Eq, Structural)]
pub enum Metadata {
    DICompositeType(u64),
    DIDerivedType(u64),
    DISubprogram(u64),
    Other(u64),
}

/// A piece of metadata with the kinds that also belong to global values told
/// apart.
#[derive(Clone, Copy, Debug, PartialEq, Eq, Structural)]
pub enum MetadataKind {
    DICompositeType(u64),
    DIGlobalVariable(u64),
    DICommonBlock(u64),
    DIDerivedType(u64),
    DISubprogram(u64),
    Unknown(u64),
}

impl Metadata {
    /// Tells a piece of metadata by its kind.
    pub fn from_value_ref(value: u64, tag: MetadataTag) -> (r: Self)
        ensures
            r == (match tag {
                MetadataTag::DICompositeType => Metadata::DICompositeType(value),
                MetadataTag::DIDerivedType => Metadata::DIDerivedType(value),
                MetadataTag::DISubprogram => Metadata::DISubprogram(value),
                _ => Metadata::Other(value),
            }),
    {
        match tag {
            MetadataTag::DICompositeType => Metadata::DICompositeType(value),
            MetadataTag::DIDerivedType => Metadata::DIDerivedType(value),
            MetadataTag::DISubprogram => Metadata::DISubprogram(value),
            _ => Metadata::Other(value),
        }
    }

    /// Tells a piece of metadata by its kind, in more detail.
    pub fn into_metadata_kind(value: u64, tag: MetadataTag) -> (r: MetadataKind)
        ensures
            r == (match tag {
                MetadataTag::DICompositeType => MetadataKind::DICompositeType(value),
                MetadataTag::DIGlobalVariable => MetadataKind::DIGlobalVariable(value),
                MetadataTag::DICommonBlock => MetadataKind::DICommonBlock(value),
                MetadataTag::DIDerivedType => MetadataKind::DIDerivedType(value),
                MetadataTag::DISubprogram => MetadataKind::DISubprogram(value),
                _ => MetadataKind::Unknown(value),
            }),
    {
        match tag {
            MetadataTag::DICompositeType => MetadataKind::DICompositeType(value),
            MetadataTag::DIGlobalVariable => MetadataKind::DIGlobalVariable(value),
            MetadataTag::DICommonBlock => MetadataKind::DICommonBlock(value),
            MetadataTag::DIDerivedType => MetadataKind::DIDerivedType(value),
            MetadataTag::DISubprogram => MetadataKind::DISubprogram(value),
            _ => MetadataKind::Unknown(value),
        }
    }
}

/// Why a handle is not of the wanted type.
#[derive(Clone, Copy, Debug, PartialEq, Eq, Structural)]
pub enum LLVMTypeError {
    NullPointer,
    InvalidPointerType(WrappedType),
}

/// The types of debug information that handles are turned into.
#[derive(Clone, Copy, Debug, PartialEq, Eq, Structural)]
pub enum WrappedType {
    DIFile,
    DIType,
    DIDerivedType,
    DICompositeType,
    DISubprogram,
}

/// Whether metadata of a kind can stand for a type of debug information. Every
/// kind of type is a `DIType`.
pub open spec fn is_wrapped(wanted: WrappedType, tag: MetadataTag) -> bool {
    match wanted {
        WrappedType::DIFile => tag == MetadataTag::DIFile,
        WrappedType::DIType => tag == MetadataTag::DIBasicType || tag
            == MetadataTag::DICompositeType || tag == MetadataTag::DIDerivedType || tag
            == MetadataTag::DIStringType || tag == MetadataTag::DISubroutineType,
        WrappedType::DIDerivedType => tag == MetadataTag::DIDerivedType,
        WrappedType::DICompositeType => tag == MetadataTag::DICompositeType,
        WrappedType::DISubprogram => tag == MetadataTag::DISubprogram,
    }
}

impl WrappedType {
    /// Turns a handle into one of the wanted type, given the kind of the metadata
    /// behind it, or `None` where it leads to none. Files and composite types are
    /// only looked for where there is metadata.
    pub fn from_ptr(&self, value: u64, tag: Option<MetadataTag>) -> (r: Result<u64, LLVMTypeError>)
        requires
            *self == WrappedType::DIFile || *self == WrappedType::DICompositeType ==> tag is Some,
        ensures
            r == (match tag {
                None => Err::<u64, LLVMTypeError>(LLVMTypeError::NullPointer),
                Some(tag) => if is_wrapped(*self, tag) {
                    Ok::<u64, LLVMTypeError>(value)
                } else {
                    Err::<u64, LLVMTypeError>(LLVMTypeError::InvalidPointerType(*self))
                },
            }),
    {
        let tag: MetadataTag = match tag {
            Some(tag) => tag,
            None => return Err(LLVMTypeError::NullPointer),
        };
        let accepted: bool = match self {
            WrappedType::DIFile => matches!(tag, MetadataTag::DIFile),
            WrappedType::DIType => matches!(
                tag,
                MetadataTag::DIBasicType | MetadataTag::DICompositeType
                    | MetadataTag::DIDerivedType | MetadataTag::DIStringType
                    | MetadataTag::DISubroutineType
            ),
            WrappedType::DIDerivedType => matches!(tag, MetadataTag::DIDerivedType),
            WrappedType::DICompositeType => matches!(tag, MetadataTag::DICompositeType),
            WrappedType::DISubprogram => matches!(tag, MetadataTag::DISubprogram),
        };
        if accepted {
            Ok(value)
        } else {
            Err(LLVMTypeError::InvalidPointerType(*self))
        }
    }
}

/// Files, derived types, composite types and subprograms are each made from metadata of one
/// kind, and types from that of any kind of type: whatever is a derived or a composite type
/// is a type.
pub proof fn handles_are_made_from_their_kind(tag: MetadataTag)
    ensures
        is_wrapped(WrappedType::DIFile, tag) <==> tag == MetadataTag::DIFile,
        is_wrapped(WrappedType::DIDerivedType, tag) <==> tag == MetadataTag::DIDerivedType,
        is_wrapped(WrappedType::DICompositeType, tag) <==> tag == MetadataTag::DICompositeType,
        is_wrapped(WrappedType::DISubprogram, tag) <==> tag == MetadataTag::DISubprogram,
        is_wrapped(WrappedType::DIDerivedType, tag) || is_wrapped(
            WrappedType::DICompositeType,
            tag,
        ) ==> is_wrapped(WrappedType::DIType, tag),
        is_wrapped(WrappedType::DIType, tag) && !is_wrapped(WrappedType::DIDerivedType, tag)
            && !is_wrapped(WrappedType::DICompositeType, tag) <==> tag == MetadataTag::DIBasicType
            || tag == MetadataTag::DIStringType || tag == MetadataTag::DISubroutineType,
{
}

} // verus!
