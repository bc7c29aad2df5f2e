use bpf_linker::options::{Cpu, LinkerOptions, OptLevel};
use bpf_linker::symbols::{
    export_symbols, internalize, module_asm_is_probestack, optimize, passes, plan_optimization,
    ExportSymbols, FunctionAction, ModuleSymbols, Symbol, SymbolAction, SymbolKind,
};

fn names(list: &[&str]) -> Vec<Vec<u8>> {
    list.iter().map(|s| s.as_bytes().to_vec()).collect()
}

fn symbol(name: &str, kind: SymbolKind) -> Symbol {
    Symbol {
        name: name.as_bytes().to_vec(),
        kind,
    }
}

#[test]
fn a_set_of_names_holds_what_was_inserted() {
    let mut set = ExportSymbols::new();
    assert!(!set.contains(b"a"));
    set.insert(b"a");
    set.insert(b"a");
    set.insert(b"");
    assert!(set.contains(b"a"));
    assert!(set.contains(b""));
    assert!(!set.contains(b"ab"));
}

#[test]
fn memory_builtins_are_exported_unless_disabled() {
    let builtins = ["memcpy", "memmove", "memset", "memcmp", "bcmp"];
    let with = export_symbols(&names(&["prog"]), false);
    let without = export_symbols(&names(&["prog"]), true);
    assert!(with.contains(b"prog") && without.contains(b"prog"));
    for name in builtins {
        assert!(with.contains(name.as_bytes()));
        assert!(!without.contains(name.as_bytes()));
    }
    assert!(!with.contains(b"strlen"));
}

#[test]
fn exported_symbols_are_kept() {
    let exports = export_symbols(&names(&["prog"]), true);
    for kind in [
        SymbolKind::Function { num_blocks: 3 },
        SymbolKind::Function { num_blocks: 0 },
        SymbolKind::GlobalVariable {
            is_declaration: true,
        },
        SymbolKind::Alias,
    ] {
        assert_eq!(
            internalize(&symbol("prog", kind), &exports),
            SymbolAction::Keep
        );
        assert_eq!(
            internalize(&symbol("llvm.used", kind), &exports),
            SymbolAction::Keep
        );
    }
}

#[test]
fn hidden_symbols_are_internalized_where_they_are_defined() {
    let exports = ExportSymbols::new();
    let action = |name: &str, kind| internalize(&symbol(name, kind), &exports);
    assert_eq!(
        action("f", SymbolKind::Function { num_blocks: 1 }),
        SymbolAction::Internalize
    );
    assert_eq!(
        action("f", SymbolKind::Function { num_blocks: 0 }),
        SymbolAction::MoveToKsyms
    );
    assert_eq!(
        action(
            "g",
            SymbolKind::GlobalVariable {
                is_declaration: false
            }
        ),
        SymbolAction::Internalize
    );
    assert_eq!(
        action(
            "g",
            SymbolKind::GlobalVariable {
                is_declaration: true
            }
        ),
        SymbolAction::MoveToKsyms
    );
    assert_eq!(action("llvm", SymbolKind::Alias), SymbolAction::Internalize);
}

#[test]
fn stack_probe_is_recognized() {
    assert!(!module_asm_is_probestack(None));
    assert!(!module_asm_is_probestack(Some(&Vec::new())));
    assert!(!module_asm_is_probestack(Some(
        &b"__rust_probestac".to_vec()
    )));
    assert!(module_asm_is_probestack(Some(
        &b"__rust_probestack".to_vec()
    )));
    assert!(module_asm_is_probestack(Some(
        &b".globl __rust_probestack\nret\n".to_vec()
    )));
    assert!(module_asm_is_probestack(Some(
        &b"x__rust_probestack".to_vec()
    )));
}

#[test]
fn default_pipeline_comes_first() {
    assert_eq!(passes(OptLevel::No), "default<O0>");
    assert_eq!(passes(OptLevel::Less), "default<O1>,dce");
    assert_eq!(passes(OptLevel::Default), "default<O2>,dce");
    assert_eq!(passes(OptLevel::Aggressive), "default<O3>,dce");
    assert_eq!(passes(OptLevel::Size), "default<Os>,dce");
    assert_eq!(passes(OptLevel::SizeMin), "default<Oz>,dce");
}

fn module() -> ModuleSymbols {
    ModuleSymbols {
        inline_asm: Some(b"__rust_probestack:".to_vec()),
        globals: vec![
            symbol(
                "MAP",
                SymbolKind::GlobalVariable {
                    is_declaration: false,
                },
            ),
            symbol(
                "extern_map",
                SymbolKind::GlobalVariable {
                    is_declaration: true,
                },
            ),
        ],
        aliases: vec![symbol("alias", SymbolKind::Alias)],
        functions: vec![
            symbol("prog", SymbolKind::Function { num_blocks: 2 }),
            symbol("helper", SymbolKind::Function { num_blocks: 1 }),
            symbol("llvm.memcpy", SymbolKind::Function { num_blocks: 0 }),
            symbol("bpf_ksym", SymbolKind::Function { num_blocks: 0 }),
        ],
    }
}

#[test]
fn plan_covers_the_whole_module() {
    let exports = export_symbols(&names(&["prog", "MAP"]), false);
    let plan = optimize(&module(), OptLevel::Aggressive, true, &exports);
    assert!(plan.clear_inline_asm);
    assert_eq!(
        plan.globals,
        [SymbolAction::Keep, SymbolAction::MoveToKsyms]
    );
    assert_eq!(plan.aliases, [SymbolAction::Internalize]);
    let function = |remove_noinline, action| FunctionAction {
        remove_noinline,
        action,
    };
    assert_eq!(
        plan.functions,
        [
            function(true, SymbolAction::Keep),
            function(true, SymbolAction::Internalize),
            function(false, SymbolAction::Keep),
            function(true, SymbolAction::MoveToKsyms),
        ]
    );
    assert_eq!(plan.passes, "default<O3>,dce");
}

#[test]
fn inlining_attributes_stay_unless_they_are_ignored() {
    let mut module = module();
    module.inline_asm = None;
    let plan = optimize(&module, OptLevel::No, false, &ExportSymbols::new());
    assert!(!plan.clear_inline_asm);
    assert!(plan.functions.iter().all(|f| !f.remove_noinline));
}

#[test]
fn plan_follows_the_options() {
    let mut module = module();
    module.functions = vec![
        symbol("memcpy", SymbolKind::Function { num_blocks: 1 }),
        symbol("prog", SymbolKind::Function { num_blocks: 1 }),
    ];
    let mut options = LinkerOptions {
        target: None,
        cpu: Cpu::Generic,
        cpu_features: Vec::new(),
        optimize: OptLevel::SizeMin,
        unroll_loops: false,
        ignore_inline_never: true,
        llvm_args: Vec::new(),
        disable_expand_memcpy_in_order: false,
        disable_memory_builtins: false,
        btf: false,
        allow_bpf_trap: false,
    };
    let function = |remove_noinline, action| FunctionAction {
        remove_noinline,
        action,
    };
    let plan = plan_optimization(&options, &names(&["prog"]), &module);
    assert_eq!(plan.passes, "default<Oz>,dce");
    assert_eq!(
        plan.functions,
        [
            function(true, SymbolAction::Keep),
            function(true, SymbolAction::Keep)
        ]
    );
    options.disable_memory_builtins = true;
    options.ignore_inline_never = false;
    options.optimize = OptLevel::No;
    let plan = plan_optimization(&options, &names(&["prog"]), &module);
    assert_eq!(plan.passes, "default<O0>");
    assert_eq!(
        plan.functions,
        [
            function(false, SymbolAction::Internalize),
            function(false, SymbolAction::Keep)
        ]
    );
}
