use std::collections::{HashMap, HashSet};

use bpf_linker::core_reloc::error::{ArrayAccessError, CoreRelocError, GepOffsetError};
use bpf_linker::core_reloc::gep::{constant_gep_offset, Gep, IrField, IrType, IrTypeKind};
use bpf_linker::core_reloc::pass::{is_module_wf, CoreRelocPass, FunctionInfo, ModuleInfo};
use bpf_linker::core_reloc::path::{AccessKind, AccessPath, Action, Emitter, ValueInfo};
use bpf_linker::core_reloc::rewrite::{are_values_wf, ResolvedAccess, RewriteContext};
use bpf_linker::core_reloc::seed::{
    pointer_composite_from_metadata, pointer_composite_from_variable, CallArg, CallInfo, DbgRecord,
    InstructionInfo, Seeds, Variable,
};
use bpf_linker::core_reloc::synthetic::{
    synthetic_array_type, synthetic_llvm_type, synthetic_struct_type, SyntheticType,
};
use bpf_linker::core_reloc::types::{
    are_types_wf, base_type, is_pointer_type, match_containing_member, match_field,
    member_pointee_composite, metadata_matches_llvm_type, metadata_size_in_bits, value_composite,
    DiType, ValueType,
};

const MEMBER: u16 = 0x0d;

fn basic(size_in_bits: u64) -> DiType {
    DiType::Basic { size_in_bits }
}

fn member(offset_in_bits: u64, size_in_bits: u64, base: usize) -> DiType {
    DiType::Derived {
        tag: MEMBER,
        size_in_bits,
        offset_in_bits,
        base: Some(base),
    }
}

fn pointer(base: Option<usize>) -> DiType {
    DiType::Derived {
        tag: gimli::DW_TAG_pointer_type.0,
        size_in_bits: 64,
        offset_in_bits: 0,
        base,
    }
}

fn composite(tag: gimli::DwTag, size_in_bits: u64, elements: &[usize]) -> DiType {
    DiType::Composite {
        tag: tag.0,
        size_in_bits,
        base: None,
        elements: elements.to_vec(),
    }
}

fn array(size_in_bits: u64, base: Option<usize>) -> DiType {
    DiType::Composite {
        tag: gimli::DW_TAG_array_type.0,
        size_in_bits,
        base,
        elements: Vec::new(),
    }
}

/// `struct Inner { c: u32 }`, `struct Outer { a: u32, b: Inner, p: *Outer }`, a
/// pointer to it, and `[Inner; 4]`.
fn types() -> Vec<DiType> {
    vec![
        basic(32),
        member(0, 32, 0),
        composite(gimli::DW_TAG_structure_type, 32, &[1]),
        member(0, 32, 0),
        member(32, 32, 2),
        composite(gimli::DW_TAG_structure_type, 128, &[3, 4, 7]),
        pointer(Some(5)),
        member(64, 64, 6),
        array(128, Some(2)),
        composite(gimli::DW_TAG_union_type, 32, &[3]),
        DiType::Other,
    ]
}

const INNER: usize = 2;
const OUTER: usize = 5;
const POINTER: usize = 6;
const ARRAY: usize = 8;
const UNION: usize = 9;

fn integer(width: u32) -> ValueType {
    ValueType::Integer { width }
}

#[test]
fn types_are_read() {
    let types = types();
    assert!(are_types_wf(&types));
    assert_eq!(metadata_size_in_bits(&types, Some(OUTER)), Some(128));
    assert_eq!(metadata_size_in_bits(&types, Some(10)), None);
    assert_eq!(metadata_size_in_bits(&types, None), None);
    assert!(is_pointer_type(&types, POINTER));
    assert!(!is_pointer_type(&types, 3));
    assert!(metadata_matches_llvm_type(&types, Some(0), integer(32)));
    assert!(!metadata_matches_llvm_type(&types, Some(0), integer(64)));
    assert!(metadata_matches_llvm_type(
        &types,
        Some(POINTER),
        ValueType::Pointer
    ));
    assert!(!metadata_matches_llvm_type(
        &types,
        None,
        ValueType::Pointer
    ));
    assert!(!metadata_matches_llvm_type(
        &types,
        Some(POINTER),
        ValueType::Other
    ));
    assert!(metadata_matches_llvm_type(&types, None, ValueType::Other));
    assert_eq!(value_composite(&types, Some(OUTER)), Some(OUTER));
    assert_eq!(value_composite(&types, Some(0)), None);
    assert_eq!(base_type(&types, 4), Some(INNER));
    assert_eq!(member_pointee_composite(&types, 7), Some(OUTER));
    assert_eq!(member_pointee_composite(&types, 4), None);
}

#[test]
fn members_are_found_by_offset_and_type() {
    let types = types();
    assert_eq!(match_field(&types, OUTER, 0, Some(integer(32))), Some(0));
    assert_eq!(match_field(&types, OUTER, 0, Some(integer(8))), None);
    assert_eq!(match_field(&types, OUTER, 4, None), Some(1));
    assert_eq!(
        match_field(&types, OUTER, 8, Some(ValueType::Pointer)),
        Some(2)
    );
    assert_eq!(match_field(&types, OUTER, 2, None), None);
    assert_eq!(match_field(&types, OUTER, u64::MAX, None), None);
    let inner = match_containing_member(&types, OUTER, 6).unwrap_or_else(|| panic!("in Inner"));
    assert_eq!(
        (
            inner.member_index,
            inner.nested_composite,
            inner.remainder_bytes
        ),
        (1, INNER, 2)
    );
    assert!(match_containing_member(&types, OUTER, 8).is_none());
    assert!(match_containing_member(&types, OUTER, u64::MAX).is_none());
}

#[test]
fn types_that_contain_themselves_are_recognized() {
    let recursive = vec![
        member(0, 32, 1),
        composite(gimli::DW_TAG_structure_type, 32, &[0]),
    ];
    assert!(!are_types_wf(&recursive));
    assert!(!are_types_wf(&vec![pointer(Some(1))]));
    assert!(!are_types_wf(&vec![array(8, Some(0))]));
    assert!(!are_types_wf(&vec![basic(1 << 40)]));
    assert!(are_types_wf(&vec![]));
}

#[test]
fn ir_types_are_made_up() {
    let mut types = types();
    match synthetic_llvm_type(&types, OUTER) {
        Some(SyntheticType::Struct { fields }) => {
            assert_eq!(fields.len(), 3);
            assert!(matches!(fields[0], SyntheticType::Int { width: 32 }));
            assert!(matches!(fields[1], SyntheticType::Struct { .. }));
            assert!(matches!(fields[2], SyntheticType::Pointer));
        }
        _ => panic!("a structure was expected"),
    }
    match synthetic_array_type(&types, ARRAY) {
        Some(SyntheticType::Array { element, count }) => {
            assert_eq!(count, 4);
            assert!(matches!(*element, SyntheticType::Struct { .. }));
        }
        _ => panic!("an array was expected"),
    }
    assert!(synthetic_llvm_type(&types, 3).is_none());
    assert!(synthetic_llvm_type(&types, 10).is_none());
    types.push(member(0, 8, 10));
    types.push(composite(gimli::DW_TAG_structure_type, 8, &[11]));
    assert!(synthetic_struct_type(&types, 12).is_none());
    types.push(array(0, None));
    assert!(synthetic_array_type(&types, 13).is_none());
    types.push(basic(0));
    types.push(array(8, Some(14)));
    assert!(synthetic_array_type(&types, 15).is_none());
}

/// `{ i32, [4 x i16] }`, its parts, and a vector.
fn ir_types() -> Vec<IrType> {
    let ty = |abi_size, kind| IrType { abi_size, kind };
    vec![
        ty(4, IrTypeKind::Other),
        ty(2, IrTypeKind::Other),
        ty(8, IrTypeKind::Array { element: 1 }),
        ty(
            12,
            IrTypeKind::Struct {
                fields: vec![
                    IrField { offset: 0, ty: 0 },
                    IrField { offset: 4, ty: 2 },
                ],
            },
        ),
        ty(8, IrTypeKind::Vector { element: 1 }),
    ]
}

fn gep(source_type: usize, indices: &[u64]) -> Gep {
    Gep {
        source_type,
        indices: indices.iter().map(|i| Some(*i)).collect(),
    }
}

#[test]
fn offsets_of_address_computations() {
    let types = ir_types();
    let offset = |g: Gep| constant_gep_offset(&types, &g);
    assert_eq!(offset(gep(3, &[])), Ok(0));
    assert_eq!(offset(gep(3, &[2])), Ok(24));
    assert_eq!(offset(gep(3, &[0, 1])), Ok(4));
    assert_eq!(offset(gep(3, &[1, 1, 3])), Ok(12 + 4 + 6));
    assert_eq!(offset(gep(4, &[0, 3])), Ok(6));
    assert_eq!(
        offset(Gep {
            source_type: 3,
            indices: vec![Some(0), None]
        }),
        Err(GepOffsetError::NonConstantIndex)
    );
    assert_eq!(
        offset(gep(3, &[0, 2])),
        Err(GepOffsetError::BadStructIndex)
    );
    assert_eq!(
        offset(gep(3, &[0, 1 << 40])),
        Err(GepOffsetError::BadStructIndex)
    );
    assert_eq!(
        offset(gep(3, &[u64::MAX])),
        Err(GepOffsetError::OffsetOverflow)
    );
    assert_eq!(
        offset(gep(3, &[0, 0, 0])),
        Err(GepOffsetError::UnsupportedTypeKind)
    );
}

fn emitter(values: usize) -> Emitter {
    Emitter {
        values: vec![ValueInfo::Other; values],
        actions: Vec::new(),
    }
}

#[test]
fn union_members_are_accessed_through_the_union_intrinsic() {
    let mut emitter = emitter(2);
    assert_eq!(
        emitter.build_preserve_access(&types(), 1, 0, UNION, 0),
        Some(2)
    );
    assert_eq!(
        emitter.actions,
        [
            Action::Declare {
                kind: AccessKind::Union,
                base: 0
            },
            Action::Call {
                kind: AccessKind::Union,
                before: 1,
                base: 0,
                composite: UNION,
                index: 0,
                result: 2
            },
        ]
    );
}

#[test]
fn nested_members_are_gone_through() {
    let mut emitter = emitter(2);
    let types = types();
    assert_eq!(
        emitter.build_access_path(&types, 1, 0, ARRAY, 12, Some(integer(64))),
        Ok(None)
    );
    // Element 3 of the array was accessed, but it is too small.
    assert_eq!(emitter.actions.len(), 2);
    let mut emitter = self::emitter(2);
    assert_eq!(
        emitter.build_access_path(&types, 1, 0, ARRAY, 12, Some(integer(32))),
        Ok(Some(AccessPath {
            ptr: 2,
            nested_composite: Some(INNER)
        }))
    );
    let mut emitter = self::emitter(2);
    assert_eq!(
        emitter.build_access_path(&types, 1, 0, OUTER, 4, Some(integer(32))),
        Ok(Some(AccessPath {
            ptr: 2,
            nested_composite: Some(INNER)
        }))
    );
    let mut emitter = self::emitter(2);
    assert_eq!(
        emitter.build_access_path(&types, 1, 0, OUTER, 8, Some(ValueType::Pointer)),
        Ok(Some(AccessPath {
            ptr: 2,
            nested_composite: Some(OUTER)
        }))
    );
    let mut emitter = self::emitter(2);
    assert_eq!(
        emitter.build_access_path(&types, 1, 0, OUTER, 100, None),
        Ok(None)
    );
    assert!(emitter.actions.is_empty());
}

#[test]
fn accesses_add_up_to_the_offset() {
    // `struct Wide { x: u32, y: u32 }` and `[Wide; 2]`.
    let types = vec![
        basic(32),
        member(0, 32, 0),
        member(32, 32, 0),
        composite(gimli::DW_TAG_structure_type, 64, &[1, 2]),
        array(128, Some(3)),
    ];
    let mut emitter = emitter(1);
    assert_eq!(
        emitter.build_access_path(&types, 0, 0, 4, 12, Some(integer(32))),
        Ok(Some(AccessPath {
            ptr: 2,
            nested_composite: None
        }))
    );
    let calls: Vec<(AccessKind, usize, u32)> = emitter
        .actions
        .iter()
        .filter_map(|a| match a {
            Action::Call {
                kind, base, index, ..
            } => Some((*kind, *base, *index)),
            _ => None,
        })
        .collect();
    // One element of eight bytes, and a member at byte four.
    assert_eq!(
        calls,
        [(AccessKind::Array, 0, 1), (AccessKind::Struct, 1, 1)]
    );
}

#[test]
fn arrays_that_cannot_be_accessed() {
    let types = vec![
        basic(3),
        basic(0),
        basic(8),
        array(8, None),
        array(8, Some(0)),
        array(8, Some(1)),
        array(8, Some(2)),
    ];
    let access = |composite, offset| {
        emitter(1).build_access_path(&types, 0, 0, composite, offset, None)
    };
    let failed = |e| Err(CoreRelocError::ArrayAccess(e));
    assert_eq!(access(3, 0), failed(ArrayAccessError::MissingElementType));
    assert_eq!(
        access(4, 0),
        failed(ArrayAccessError::NonByteAlignedElementSize)
    );
    assert_eq!(access(5, 0), failed(ArrayAccessError::ZeroSizedElement));
    assert_eq!(
        access(6, 1 << 32),
        failed(ArrayAccessError::IndexOverflow)
    );
    assert_eq!(
        access(6, 5),
        Ok(Some(AccessPath {
            ptr: 1,
            nested_composite: None
        }))
    );
}

#[test]
fn pointers_are_followed_back() {
    let types = types();
    let ir_types = ir_types();
    let geps = vec![gep(3, &[0, 1]), gep(3, &[u64::MAX])];
    let context = RewriteContext {
        types: &types,
        ir_types: &ir_types,
        geps: &geps,
    };
    let values = vec![
        ValueInfo::Other,
        ValueInfo::Gep { base: 0, gep: 0 },
        ValueInfo::Cast { operand: 1 },
        ValueInfo::Gep { base: 2, gep: 0 },
        ValueInfo::Other,
        ValueInfo::Gep { base: 0, gep: 1 },
    ];
    assert!(are_values_wf(&ir_types, &geps, &values));
    let pointers = HashMap::from([(0usize, OUTER)]);
    let resolve = |id| context.resolve_access(&values, &pointers, id);
    assert_eq!(
        resolve(3),
        Ok(Some(ResolvedAccess {
            base: 0,
            composite_type: OUTER,
            offset_bytes: 8
        }))
    );
    assert_eq!(resolve(4), Ok(None));
    assert_eq!(
        resolve(5),
        Err(CoreRelocError::GepOffset(GepOffsetError::OffsetOverflow))
    );
    assert!(!are_values_wf(
        &ir_types,
        &geps,
        &vec![ValueInfo::Cast { operand: 0 }]
    ));
    assert!(!are_values_wf(
        &ir_types,
        &geps,
        &vec![ValueInfo::Other, ValueInfo::Gep { base: 0, gep: 2 }]
    ));
}

#[test]
fn pointer_types_are_seeded_where_accesses_are_preserved() {
    let types = types();
    let preserve = HashSet::from([OUTER]);
    assert_eq!(
        pointer_composite_from_metadata(&types, &preserve, Some(POINTER)),
        Some(OUTER)
    );
    assert_eq!(
        pointer_composite_from_metadata(&types, &HashSet::new(), Some(POINTER)),
        None
    );
    assert_eq!(
        pointer_composite_from_metadata(&types, &preserve, Some(OUTER)),
        None
    );
    assert_eq!(
        pointer_composite_from_metadata(&types, &preserve, None),
        None
    );
    let variable = |is_local_variable| {
        Some(Variable {
            is_local_variable,
            ty: Some(POINTER),
        })
    };
    assert_eq!(
        pointer_composite_from_variable(&types, &preserve, variable(true)),
        Some(OUTER)
    );
    assert_eq!(
        pointer_composite_from_variable(&types, &preserve, variable(false)),
        None
    );
    assert_eq!(
        pointer_composite_from_variable(&types, &preserve, None),
        None
    );
}

fn instruction(value: usize, records: &[DbgRecord], call: Option<CallInfo>) -> InstructionInfo {
    InstructionInfo {
        value,
        records: records.to_vec(),
        call,
    }
}

#[test]
fn debug_records_calls_and_stores_make_pointers_known() {
    let types = types();
    let preserve = HashSet::from([OUTER]);
    let variable = Some(Variable {
        is_local_variable: true,
        ty: Some(POINTER),
    });
    let store = |value, pointer| ValueInfo::Store {
        value,
        pointer,
        ty: ValueType::Pointer,
    };
    // Values 0 to 5 are pointers, 6 is a slot; 7 and 8 store to the slot before
    // and after it is declared, and 9 is a call.
    let mut values = vec![ValueInfo::Other; 7];
    values.push(store(2, 6));
    values.push(store(3, 6));
    values.push(ValueInfo::Other);
    let argument = |value, variable| CallArg { value, variable };
    let instructions = vec![
        instruction(
            7,
            &[DbgRecord::Value {
                value: Some(1),
                variable,
            }],
            None,
        ),
        instruction(
            8,
            &[
                DbgRecord::Declare {
                    slot: Some(6),
                    variable,
                },
                DbgRecord::Value {
                    value: None,
                    variable,
                },
                DbgRecord::Other,
            ],
            None,
        ),
        instruction(
            9,
            &[],
            Some(CallInfo {
                intrinsic: Some(77),
                args: vec![argument(Some(4), None), argument(Some(0), variable)],
            }),
        ),
        instruction(
            9,
            &[],
            Some(CallInfo {
                intrinsic: Some(78),
                args: vec![argument(Some(5), None), argument(Some(0), variable)],
            }),
        ),
    ];
    let mut seeds = Seeds::new();
    seeds.seed_params(
        &types,
        &preserve,
        &vec![0, 5],
        &vec![None, Some(POINTER), Some(0)],
    );
    assert_eq!(seeds.pointers, HashMap::from([(0, OUTER)]));
    seeds.seed_instructions(&types, &preserve, 77, &values, &instructions);
    assert_eq!(
        seeds.pointers,
        HashMap::from([(0, OUTER), (1, OUTER), (2, OUTER), (3, OUTER), (4, OUTER)])
    );
    assert_eq!(seeds.declared, HashMap::from([(6, OUTER)]));
    assert!(seeds.pending.is_empty());
}

/// A function that takes a pointer to `Outer` and reads `b.c` through an address
/// computation.
fn module() -> (ModuleInfo, Vec<ValueInfo>) {
    let values = vec![
        ValueInfo::Other,
        ValueInfo::Gep { base: 0, gep: 0 },
        ValueInfo::Load {
            pointer: 1,
            ty: integer(32),
        },
    ];
    let module = ModuleInfo {
        types: types(),
        ir_types: ir_types(),
        geps: vec![gep(3, &[0, 1])],
        preserve_access_types: HashSet::from([OUTER]),
        dbg_value_intrinsic_id: 77,
        functions: vec![FunctionInfo {
            subroutine_types: Some(vec![None, Some(POINTER)]),
            params: vec![0],
            instructions: vec![instruction(1, &[], None), instruction(2, &[], None)],
        }],
    };
    (module, values)
}

#[test]
fn accesses_through_known_pointers_are_rewritten() {
    let (module, values) = module();
    assert!(is_module_wf(&module, &values));
    let mut pass = CoreRelocPass::new(&module, values);
    assert_eq!(pass.run(), Ok(()));
    assert_eq!(
        pass.emitter.actions,
        [
            Action::Declare {
                kind: AccessKind::Struct,
                base: 0
            },
            Action::Call {
                kind: AccessKind::Struct,
                before: 1,
                base: 0,
                composite: OUTER,
                index: 1,
                result: 3
            },
            Action::ReplaceGep { gep: 1, pointer: 3 },
            Action::Declare {
                kind: AccessKind::Struct,
                base: 3
            },
            Action::Call {
                kind: AccessKind::Struct,
                before: 2,
                base: 3,
                composite: INNER,
                index: 0,
                result: 4
            },
            Action::SetLoadPointer {
                load: 2,
                pointer: 4
            },
        ]
    );
    assert_eq!(
        pass.emitter.values[2],
        ValueInfo::Load {
            pointer: 4,
            ty: integer(32)
        }
    );
}

#[test]
fn loaded_pointers_and_stores_are_rewritten() {
    let (mut module, _) = module();
    // Loads `p` at byte eight and stores to `a` behind it.
    module.geps = vec![gep(0, &[2])];
    let values = vec![
        ValueInfo::Other,
        ValueInfo::Gep { base: 0, gep: 0 },
        ValueInfo::Load {
            pointer: 1,
            ty: ValueType::Pointer,
        },
        ValueInfo::Store {
            value: 0,
            pointer: 2,
            ty: integer(32),
        },
    ];
    module.functions[0].instructions = vec![
        instruction(2, &[], None),
        instruction(3, &[], None),
    ];
    assert!(is_module_wf(&module, &values));
    let mut pass = CoreRelocPass::new(&module, values);
    assert_eq!(pass.run(), Ok(()));
    let changed: Vec<Action> = pass
        .emitter
        .actions
        .iter()
        .filter(|a| {
            matches!(
                a,
                Action::SetLoadPointer { .. } | Action::SetStorePointer { .. }
            )
        })
        .copied()
        .collect();
    assert_eq!(
        changed,
        [
            Action::SetLoadPointer {
                load: 2,
                pointer: 4
            },
            Action::SetStorePointer {
                store: 3,
                pointer: 5
            },
        ]
    );
}

#[test]
fn pass_stops_at_the_first_error() {
    let (mut module, values) = module();
    module.geps = vec![Gep {
        source_type: 3,
        indices: vec![None],
    }];
    let mut pass = CoreRelocPass::new(&module, values);
    assert_eq!(
        pass.run(),
        Err(CoreRelocError::GepOffset(GepOffsetError::NonConstantIndex))
    );
    assert!(pass.emitter.actions.is_empty());
}

#[test]
fn unknown_pointers_are_left_alone() {
    let (mut module, values) = module();
    module.preserve_access_types = HashSet::new();
    let before = values.clone();
    let mut pass = CoreRelocPass::new(&module, values);
    assert_eq!(pass.run(), Ok(()));
    assert!(pass.emitter.actions.is_empty());
    assert_eq!(pass.emitter.values, before);
}

#[test]
fn modules_with_dangling_references_are_recognized() {
    let (mut module, values) = module();
    module.functions[0].subroutine_types = Some(vec![Some(99)]);
    assert!(!is_module_wf(&module, &values));
    module.functions[0].subroutine_types = None;
    assert!(is_module_wf(&module, &values));
    module.functions[0].instructions[0].value = 3;
    assert!(!is_module_wf(&module, &values));
}

#[test]
fn relocation_error_messages() {
    let gep = |e| CoreRelocError::GepOffset(e).message();
    assert_eq!(
        gep(GepOffsetError::NonConstantIndex),
        "failed to compute GEP offset: index operand is not a constant integer"
    );
    assert_eq!(
        gep(GepOffsetError::BadStructIndex),
        "failed to compute GEP offset: invalid struct field index"
    );
    assert_eq!(
        gep(GepOffsetError::OffsetOverflow),
        "failed to compute GEP offset: byte offset overflow"
    );
    assert_eq!(
        gep(GepOffsetError::UnsupportedTypeKind),
        "failed to compute GEP offset: unsupported indexed type kind"
    );
    let array = |e| CoreRelocError::ArrayAccess(e).message();
    assert_eq!(
        array(ArrayAccessError::MissingElementType),
        "failed to build array access path: array element type is missing"
    );
    assert_eq!(
        array(ArrayAccessError::NonByteAlignedElementSize),
        "failed to build array access path: array element size is not byte-aligned"
    );
    assert_eq!(
        array(ArrayAccessError::ZeroSizedElement),
        "failed to build array access path: array element size is zero"
    );
    assert_eq!(
        array(ArrayAccessError::IndexOverflow),
        "failed to build array access path: array index does not fit into u32"
    );
}
