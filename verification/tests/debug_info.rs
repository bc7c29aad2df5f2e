use bpf_linker::di::edit::visit_mdnode;
use bpf_linker::di::graph::{are_refs_in_range, ids_in_range, is_closed_graph, Node, NodeKind};
use bpf_linker::di::kind::{LLVMTypeError, Metadata, MetadataKind, MetadataTag, WrappedType};
use bpf_linker::di::linkage::{
    can_fix_linkage, fix_subprogram_linkage, linkage_edits, plan_linkage, FunctionInfo,
    LinkageEdit, Subprogram,
};
use bpf_linker::di::module::{
    is_module_wf, replace_operands, sanitize_module, walk_roots, ModuleGraph,
};
use bpf_linker::di::sanitizer::{DISanitizer, Edit};
use bpf_linker::options::{Cpu, LinkerOptions, OptLevel};
use bpf_linker::symbols::export_symbols;

const MEMBER: u16 = 0x0d;

fn node(kind: NodeKind, name: Option<&str>, operands: &[Option<usize>]) -> Node {
    Node {
        kind,
        name: name.map(|n| n.as_bytes().to_vec()),
        operands: operands.to_vec(),
        items: Vec::new(),
    }
}

fn structure(name: Option<&str>, tuple: Option<usize>) -> Node {
    node(
        NodeKind::Composite {
            tag: gimli::DW_TAG_structure_type.0,
            flags: 0,
        },
        name,
        &[None, None, None, None, tuple],
    )
}

fn tuple(elements: &[usize]) -> Node {
    let operands: Vec<Option<usize>> = elements.iter().map(|e| Some(*e)).collect();
    node(NodeKind::Other, None, &operands)
}

fn member(name: &str, offset_in_bits: u64, base: Option<usize>) -> Node {
    node(
        NodeKind::Derived {
            tag: MEMBER,
            offset_in_bits,
        },
        Some(name),
        &[None, None, None, base],
    )
}

#[test]
fn members_are_sorted_by_offset_and_names_are_sanitized() {
    let nodes = vec![
        structure(Some("Foo<u8>"), Some(1)),
        tuple(&[2, 3, 4]),
        member("a", 64, Some(5)),
        member("b", 0, Some(5)),
        member("c", 0, Some(5)),
        node(NodeKind::Other, None, &[]),
    ];
    assert!(is_closed_graph(&nodes));
    let edit = visit_mdnode(&nodes, 0);
    assert_eq!(edit.elements, Some(vec![3, 4, 2]));
    assert_eq!(edit.name, Some(b"Foo_3C_u8_3E_".to_vec()));
    assert_eq!(edit.skipped, None);
}

#[test]
fn unions_are_sanitized_like_structures() {
    let nodes = vec![
        node(
            NodeKind::Composite {
                tag: gimli::DW_TAG_union_type.0,
                flags: 0,
            },
            Some("U<1>"),
            &[],
        ),
    ];
    let edit = visit_mdnode(&nodes, 0);
    assert_eq!(edit.elements, None);
    assert_eq!(edit.name, Some(b"U_3C_1_3E_".to_vec()));
}

#[test]
fn forward_declarations_are_left_alone() {
    let nodes = vec![
        node(
            NodeKind::Composite {
                tag: gimli::DW_TAG_structure_type.0,
                flags: llvm_sys::debuginfo::LLVMDIFlagFwdDecl,
            },
            Some("Fwd<u8>"),
            &[],
        ),
    ];
    let edit = visit_mdnode(&nodes, 0);
    assert!(edit.elements.is_none() && edit.name.is_none() && edit.skipped.is_none());
}

#[test]
fn data_carrying_enumeration_is_emptied_and_reported() {
    let nodes = vec![
        structure(Some("Option<u8>"), Some(1)),
        tuple(&[3, 2]),
        node(
            NodeKind::Composite {
                tag: gimli::DW_TAG_variant_part.0,
                flags: 0,
            },
            None,
            &[],
        ),
        member("x", 0, None),
    ];
    let edit = visit_mdnode(&nodes, 0);
    assert_eq!(edit.elements, Some(vec![]));
    assert_eq!(edit.name, Some(b"Option_3C_u8_3E_".to_vec()));
    assert_eq!(edit.skipped, Some("Option<u8>".to_string()));
}

#[test]
fn name_of_a_skipped_type_is_decoded_with_replacements() {
    let mut nodes = vec![
        structure(None, Some(1)),
        tuple(&[2]),
        node(
            NodeKind::Composite {
                tag: gimli::DW_TAG_variant_part.0,
                flags: 0,
            },
            None,
            &[],
        ),
    ];
    assert_eq!(visit_mdnode(&nodes, 0).skipped, None);
    nodes[0].name = Some(vec![b'E', 0xc0]);
    assert_eq!(
        visit_mdnode(&nodes, 0).skipped,
        Some("E\u{fffd}".to_string())
    );
}

#[test]
fn map_structure_loses_its_name_and_its_marker() {
    let nodes = vec![
        structure(Some("MyMap"), Some(1)),
        tuple(&[2, 3]),
        member("_marker", 0, Some(4)),
        member("value", 8, None),
        structure(Some("AyaBtfMapMarker"), None),
    ];
    let edit = visit_mdnode(&nodes, 0);
    assert_eq!(edit.elements, Some(vec![3]));
    assert_eq!(edit.name, Some(vec![]));
}

#[test]
fn pointers_lose_their_names_and_functions_get_c_names() {
    let nodes = vec![
        node(
            NodeKind::Derived {
                tag: gimli::DW_TAG_pointer_type.0,
                offset_in_bits: 0,
            },
            Some("*const T"),
            &[],
        ),
        node(NodeKind::Subprogram, Some("f<T>"), &[]),
        node(NodeKind::Subprogram, None, &[]),
        member("m<T>", 0, None),
        node(NodeKind::Other, Some("o<T>"), &[]),
    ];
    assert_eq!(visit_mdnode(&nodes, 0).name, Some(vec![]));
    assert_eq!(visit_mdnode(&nodes, 1).name, Some(b"f_3C_T_3E_".to_vec()));
    assert_eq!(visit_mdnode(&nodes, 2).name, None);
    assert_eq!(visit_mdnode(&nodes, 3).name, None);
    assert_eq!(visit_mdnode(&nodes, 4).name, None);
}

#[test]
fn walk_visits_what_can_be_reached_in_depth_first_order() {
    // A function (0) with debug information (1), which refers to a structure (2)
    // and back to itself; node 6 cannot be reached.
    let mut nodes = vec![
        node(NodeKind::Other, None, &[Some(1)]),
        node(NodeKind::Subprogram, Some("f<T>"), &[Some(2), Some(1)]),
        structure(Some("S<T>"), Some(3)),
        tuple(&[4, 5]),
        member("b", 8, None),
        member("a", 0, None),
        node(NodeKind::Subprogram, Some("g<T>"), &[]),
        structure(Some("A<T>"), None),
    ];
    nodes[0].items = vec![7];
    let replace = vec![None; nodes.len()];
    assert!(is_closed_graph(&nodes));
    assert!(are_refs_in_range(&replace, nodes.len()));
    assert!(ids_in_range(&vec![0], nodes.len()));
    let out = DISanitizer::new(nodes, replace).run(vec![0]);
    let visited: Vec<usize> = out
        .edits
        .iter()
        .map(|e| match e {
            Edit::Node { node, .. } => *node,
            Edit::Operand { .. } => panic!("nothing is replaced"),
        })
        .collect();
    assert_eq!(visited, [1, 2, 7]);
    assert_eq!(out.nodes[1].name, Some(b"f_3C_T_3E_".to_vec()));
    assert_eq!(out.nodes[2].name, Some(b"S_3C_T_3E_".to_vec()));
    assert_eq!(out.nodes[2].operands[4], Some(8));
    assert_eq!(out.nodes[8].operands, [Some(5), Some(4)]);
    assert_eq!(out.nodes[6].name, Some(b"g<T>".to_vec()));
    assert!(out.skipped.is_empty());
}

#[test]
fn replaced_operands_are_replaced_everywhere() {
    // Nodes 0 and 1 both refer to subprogram 2, which node 3 replaces.
    let nodes = vec![
        node(NodeKind::Other, None, &[Some(2), Some(1)]),
        node(NodeKind::Other, None, &[None, Some(2)]),
        node(NodeKind::Subprogram, Some("old"), &[]),
        node(NodeKind::Subprogram, Some("new"), &[]),
    ];
    let replace = vec![None, None, Some(3), None];
    let out = DISanitizer::new(nodes, replace).run(vec![0]);
    let replaced: Vec<(usize, usize, usize)> = out
        .edits
        .iter()
        .filter_map(|e| match e {
            Edit::Operand {
                parent,
                index,
                node,
            } => Some((*parent, *index, *node)),
            Edit::Node { .. } => None,
        })
        .collect();
    assert_eq!(replaced, [(0, 0, 3), (1, 1, 3)]);
    assert_eq!(out.nodes[0].operands, [Some(3), Some(1)]);
    assert_eq!(out.nodes[1].operands, [None, Some(3)]);
}

#[test]
fn skipped_types_are_collected() {
    let nodes = vec![
        structure(Some("E"), Some(1)),
        tuple(&[2]),
        node(
            NodeKind::Composite {
                tag: gimli::DW_TAG_variant_part.0,
                flags: 0,
            },
            None,
            &[],
        ),
    ];
    let out = DISanitizer::new(nodes, Vec::new()).run(vec![0]);
    assert_eq!(out.skipped, ["E"]);
    assert!(out.nodes[3].operands.is_empty());
}

#[test]
fn graphs_with_dangling_references_are_recognized() {
    assert!(!is_closed_graph(&vec![node(
        NodeKind::Other,
        None,
        &[Some(1)]
    )]));
    let mut loose = node(NodeKind::Other, None, &[]);
    loose.items = vec![4];
    assert!(!is_closed_graph(&vec![loose]));
    assert!(!ids_in_range(&vec![0, 2], 2));
    assert!(!are_refs_in_range(&vec![None, Some(2)], 2));
}

fn subprogram(id: u64) -> Subprogram {
    Subprogram {
        id,
        scope: Some(100 + id),
        name: Some(b"name".to_vec()),
        linkage_name: None,
        file: 7,
        line: 42,
        ty: 8,
        type_flags: 3,
        unit: Some(9),
        retained_nodes: Some(10),
    }
}

fn function(name: &str, num_blocks: u32, subprogram: Option<Subprogram>) -> FunctionInfo {
    FunctionInfo {
        name: name.as_bytes().to_vec(),
        num_blocks,
        subprogram,
    }
}

#[test]
fn only_exported_functions_keep_global_linkage() {
    let exports = export_symbols(&vec![b"prog".to_vec()], true);
    let functions = vec![
        function("prog", 1, Some(subprogram(1))),
        function("helper", 2, Some(subprogram(2))),
        function("declared", 0, Some(subprogram(3))),
        function("plain", 1, None),
        function("memcpy", 1, Some(subprogram(4))),
    ];
    assert!(can_fix_linkage(&functions, &exports));
    let fixes = fix_subprogram_linkage(&functions, &exports);
    let fixed: Vec<(usize, u64)> = fixes.iter().map(|f| (f.function, f.old)).collect();
    assert_eq!(fixed, [(1, 2), (4, 4)]);
    let new = &fixes[0].new;
    assert_eq!(new.scope, 102);
    assert_eq!(new.name, Some(b"name".to_vec()));
    assert_eq!(new.linkage_name, None);
    assert_eq!(
        (new.file, new.line, new.ty, new.scope_line, new.flags),
        (7, 42, 8, 42, 3)
    );
    assert!(new.is_local_to_unit && new.is_definition && new.is_optimized);
    assert_eq!((new.unit, new.retained_nodes), (Some(9), Some(10)));
}

#[test]
fn linkage_of_shared_or_unscoped_subprograms_cannot_be_fixed() {
    let exports = export_symbols(&vec![b"prog".to_vec()], true);
    let shared = vec![
        function("a", 1, Some(subprogram(1))),
        function("b", 1, Some(subprogram(1))),
    ];
    assert!(!can_fix_linkage(&shared, &exports));
    let exported = vec![
        function("prog", 1, Some(subprogram(1))),
        function("b", 1, Some(subprogram(1))),
    ];
    assert!(can_fix_linkage(&exported, &exports));
    let mut unscoped = subprogram(2);
    unscoped.scope = None;
    assert!(!can_fix_linkage(
        &vec![function("a", 1, Some(unscoped))],
        &exports
    ));
}

#[test]
fn metadata_is_told_by_its_kind() {
    assert_eq!(
        Metadata::from_value_ref(1, MetadataTag::DICompositeType),
        Metadata::DICompositeType(1)
    );
    assert_eq!(
        Metadata::from_value_ref(2, MetadataTag::DIDerivedType),
        Metadata::DIDerivedType(2)
    );
    assert_eq!(
        Metadata::from_value_ref(3, MetadataTag::DISubprogram),
        Metadata::DISubprogram(3)
    );
    assert_eq!(
        Metadata::from_value_ref(4, MetadataTag::DIGlobalVariable),
        Metadata::Other(4)
    );
    assert_eq!(
        Metadata::into_metadata_kind(4, MetadataTag::DIGlobalVariable),
        MetadataKind::DIGlobalVariable(4)
    );
    assert_eq!(
        Metadata::into_metadata_kind(5, MetadataTag::DICommonBlock),
        MetadataKind::DICommonBlock(5)
    );
    assert_eq!(
        Metadata::into_metadata_kind(6, MetadataTag::MDTuple),
        MetadataKind::Unknown(6)
    );
}

#[test]
fn handles_are_checked_against_the_wanted_type() {
    assert_eq!(
        WrappedType::DIType.from_ptr(1, Some(MetadataTag::DIStringType)),
        Ok(1)
    );
    assert_eq!(
        WrappedType::DIType.from_ptr(1, Some(MetadataTag::DIFile)),
        Err(LLVMTypeError::InvalidPointerType(WrappedType::DIType))
    );
    assert_eq!(
        WrappedType::DIFile.from_ptr(1, Some(MetadataTag::DIFile)),
        Ok(1)
    );
    assert_eq!(
        WrappedType::DISubprogram.from_ptr(1, None),
        Err(LLVMTypeError::NullPointer)
    );
    assert_eq!(
        WrappedType::DIDerivedType.from_ptr(2, Some(MetadataTag::DICompositeType)),
        Err(LLVMTypeError::InvalidPointerType(
            WrappedType::DIDerivedType
        ))
    );
    assert_eq!(
        WrappedType::DICompositeType.from_ptr(2, Some(MetadataTag::DICompositeType)),
        Ok(2)
    );
}

fn options(disable_memory_builtins: bool) -> LinkerOptions {
    LinkerOptions {
        target: None,
        cpu: Cpu::Generic,
        cpu_features: Vec::new(),
        optimize: OptLevel::Default,
        unroll_loops: false,
        ignore_inline_never: false,
        llvm_args: Vec::new(),
        disable_expand_memcpy_in_order: false,
        disable_memory_builtins,
        btf: true,
        allow_bpf_trap: false,
    }
}

#[test]
fn linkage_is_planned_with_the_names_and_the_builtins() {
    let functions = vec![
        function("prog", 1, Some(subprogram(1))),
        function("memcpy", 1, Some(subprogram(2))),
        function("helper", 1, Some(subprogram(3))),
    ];
    let exported = vec![b"prog".to_vec()];
    let planned = |disable: bool| -> Vec<(usize, u64)> {
        plan_linkage(&options(disable), &exported, &functions)
            .unwrap()
            .iter()
            .map(|fix| (fix.function, fix.old))
            .collect()
    };
    assert_eq!(planned(false), [(2, 3)]);
    assert_eq!(planned(true), [(1, 2), (2, 3)]);
    let shared = vec![
        function("a", 1, Some(subprogram(1))),
        function("b", 1, Some(subprogram(1))),
    ];
    assert!(plan_linkage(&options(false), &exported, &shared).is_none());
}

#[test]
fn fix_points_the_function_to_the_new_subprogram_and_empties_the_old() {
    let mut program = subprogram(7);
    program.unit = Some(11);
    program.retained_nodes = Some(13);
    let functions = vec![
        function("skipped", 0, Some(subprogram(1))),
        function("f", 1, Some(program)),
    ];
    let exports = export_symbols(&Vec::new(), true);
    let fixes = fix_subprogram_linkage(&functions, &exports);
    assert_eq!(fixes.len(), 1);
    assert_eq!(
        linkage_edits(&fixes[0]),
        [
            LinkageEdit::SetSubprogram { function: 1 },
            LinkageEdit::SetUnit { unit: 11 },
            LinkageEdit::SetRetainedNodes { nodes: 13 },
            LinkageEdit::ClearRetainedNodes { subprogram: 7 },
        ]
    );
    let mut bare = subprogram(8);
    bare.unit = None;
    bare.retained_nodes = None;
    let fixes = fix_subprogram_linkage(&vec![function("g", 1, Some(bare))], &exports);
    assert_eq!(
        linkage_edits(&fixes[0]),
        [
            LinkageEdit::SetSubprogram { function: 0 },
            LinkageEdit::ClearRetainedNodes { subprogram: 8 },
        ]
    );
}

#[test]
fn module_is_walked_from_globals_over_aliases_to_functions() {
    assert_eq!(
        walk_roots(&vec![4, 1], &vec![2], &vec![0, 3]),
        [4, 1, 2, 0, 3]
    );
    let functions = vec![function("f", 1, Some(subprogram(50)))];
    let fixes = fix_subprogram_linkage(&functions, &export_symbols(&Vec::new(), true));
    let handles = vec![None, None, None, Some(50), Some(51)];
    assert_eq!(
        replace_operands(&handles, &fixes, &vec![4]),
        [None, None, None, Some(4), None]
    );
    // A global, an alias and a function that all have the old subprogram as an
    // operand.
    let user = || node(NodeKind::Other, None, &[Some(3)]);
    let graph = ModuleGraph {
        nodes: vec![
            user(),
            user(),
            user(),
            node(NodeKind::Subprogram, Some("f<u8>"), &[]),
            node(NodeKind::Subprogram, Some("f<u8>"), &[]),
        ],
        handles,
        globals: vec![2],
        aliases: vec![1],
        functions: vec![0],
    };
    assert!(is_module_wf(&graph, &vec![4]));
    assert!(!is_module_wf(&graph, &vec![5]));
    let sanitized = sanitize_module(graph, &fixes, &vec![4]);
    let replaced: Vec<(usize, usize)> = sanitized
        .edits
        .iter()
        .filter_map(|edit| match edit {
            Edit::Operand { parent, node, .. } => Some((*parent, *node)),
            Edit::Node { .. } => None,
        })
        .collect();
    assert_eq!(replaced, [(2, 4), (1, 4), (0, 4)]);
    assert_eq!(sanitized.nodes[0].operands, [Some(4)]);
}
