use std::str::FromStr;

use bpf_linker::cli::{
    chosen_opt_level, chosen_output_type, exported_names, normalized_arg, CliError, CliOptLevel,
    CliOutputType,
};
use bpf_linker::diagnostics::{DiagnosticHandler, LogLevel, LogLine, Prefix, Severity};
use bpf_linker::error::LinkerError;
use bpf_linker::lib_path::{
    collect_possible_directories, find_lib_path, find_library_in_directory, LibPathError,
    SearchStep,
};
use bpf_linker::native::{
    all_entry_points, arch2backend, entry_point_name, get_native_arch, get_native_backend,
    is_known_arch, NativeArch,
};
use bpf_linker::object::{find_embedded_bitcode, message_text};
use bpf_linker::options::{
    llvm_command_line, Codegen, Cpu, LinkerOptions, OptLevel, OutputType,
};
use bpf_linker::text::{decimal_text, same};

fn strings(list: &[&str]) -> Vec<Vec<u8>> {
    list.iter().map(|s| s.as_bytes().to_vec()).collect()
}

fn options() -> LinkerOptions {
    LinkerOptions {
        target: None,
        cpu: Cpu::Generic,
        cpu_features: Vec::new(),
        optimize: OptLevel::Default,
        unroll_loops: false,
        ignore_inline_never: false,
        llvm_args: Vec::new(),
        disable_expand_memcpy_in_order: false,
        disable_memory_builtins: false,
        btf: false,
        allow_bpf_trap: false,
    }
}

#[test]
fn cpu_names_round_trip() {
    for (cpu, name) in [
        (Cpu::Generic, "generic"),
        (Cpu::Probe, "probe"),
        (Cpu::V1, "v1"),
        (Cpu::V2, "v2"),
        (Cpu::V3, "v3"),
    ] {
        assert_eq!(cpu.as_str(), name);
        assert_eq!(Cpu::from_str(name).ok(), Some(cpu));
    }
    match Cpu::from_str("v4") {
        Err(LinkerError::InvalidCpu(name)) => assert_eq!(name, "v4"),
        _ => panic!("there is no such CPU"),
    }
}

#[test]
fn optimization_levels_are_read() {
    for (name, level) in [
        ("0", OptLevel::No),
        ("1", OptLevel::Less),
        ("2", OptLevel::Default),
        ("3", OptLevel::Aggressive),
        ("s", OptLevel::Size),
        ("z", OptLevel::SizeMin),
    ] {
        assert_eq!(CliOptLevel::from_str(name).ok(), Some(CliOptLevel(level)));
    }
    match CliOptLevel::from_name("4") {
        Err(e @ CliError::InvalidOptimization(_)) => assert_eq!(
            e.message(),
            "optimization level needs to be between 0-3, s or z (instead was `4`)"
        ),
        _ => panic!("there is no such level"),
    }
}

#[test]
fn output_types_are_read() {
    for (name, output_type) in [
        ("llvm-bc", OutputType::Bitcode),
        ("asm", OutputType::Assembly),
        ("llvm-ir", OutputType::LlvmAssembly),
        ("obj", OutputType::Object),
    ] {
        assert_eq!(
            CliOutputType::from_str(name).ok(),
            Some(CliOutputType(output_type))
        );
    }
    match CliOutputType::from_name("elf") {
        Err(e @ CliError::InvalidOutputType(_)) => assert_eq!(
            e.message(),
            "unknown emission type: `elf` - expected one of: `llvm-bc`, `asm`, `llvm-ir`, `obj`"
        ),
        _ => panic!("there is no such output type"),
    }
}

#[test]
fn first_output_type_and_last_optimization_level_count() {
    assert_eq!(
        chosen_output_type(&vec![
            CliOutputType(OutputType::Assembly),
            CliOutputType(OutputType::Object)
        ]),
        OutputType::Assembly
    );
    assert_eq!(
        chosen_opt_level(&vec![
            CliOptLevel(OptLevel::No),
            CliOptLevel(OptLevel::SizeMin)
        ]),
        OptLevel::SizeMin
    );
}

#[test]
fn exported_names_come_from_the_file_and_then_from_the_arguments() {
    assert_eq!(
        exported_names(Some(b"foo\nbar\r\n\nbaz"), &strings(&["ayy", "lmao"])),
        strings(&["foo", "bar", "", "baz", "ayy", "lmao"])
    );
    assert_eq!(exported_names(Some(b"foo\n"), &vec![]), strings(&["foo"]));
    assert_eq!(exported_names(Some(b""), &vec![]), strings(&[]));
    assert_eq!(exported_names(None, &strings(&["x"])), strings(&["x"]));
    assert_eq!(exported_names(Some(b"a\r"), &vec![]), strings(&["a\r"]));
}

#[test]
fn flavor_gets_a_second_dash() {
    assert_eq!(normalized_arg("-flavor"), "--flavor");
    assert_eq!(normalized_arg("--flavor"), "--flavor");
    assert_eq!(normalized_arg("-L"), "-L");
}

#[test]
fn command_line_follows_the_options() {
    assert_eq!(
        llvm_command_line(&options()),
        strings(&[
            "bpf-linker",
            "--cold-callsite-rel-freq=0",
            "--bpf-expand-memcpy-in-order",
            "--bpf-disable-trap-unreachable",
        ])
    );
    let mut all = options();
    all.unroll_loops = true;
    all.disable_expand_memcpy_in_order = true;
    all.allow_bpf_trap = true;
    all.llvm_args = strings(&["--a", "--b=c"]);
    assert_eq!(
        llvm_command_line(&all),
        strings(&[
            "bpf-linker",
            "--cold-callsite-rel-freq=0",
            "--unroll-runtime",
            "--unroll-runtime-multi-exit",
            &format!("--unroll-max-upperbound={}", u32::MAX),
            &format!("--unroll-threshold={}", u32::MAX),
            "--a",
            "--b=c",
        ])
    );
}

#[test]
fn output_types_are_generated_and_fail_in_their_own_way() {
    let cases = [
        (
            OutputType::Bitcode,
            Codegen::WriteBitcode,
            "LLVMWriteBitcodeToFile failed: why",
        ),
        (
            OutputType::LlvmAssembly,
            Codegen::WriteIr,
            "LLVMPrintModuleToFile failed: why",
        ),
        (
            OutputType::Assembly,
            Codegen::EmitAssembly,
            "LLVMTargetMachineEmitToFile failed: why",
        ),
        (
            OutputType::Object,
            Codegen::EmitObject,
            "LLVMTargetMachineEmitToFile failed: why",
        ),
    ];
    for (output_type, codegen, text) in cases {
        assert_eq!(output_type.codegen(), codegen);
        assert_eq!(output_type.codegen_error("why".to_string()).message(), text);
    }
}

#[test]
fn linker_error_messages() {
    let path = || b"a.o".to_vec();
    let why = || "why".to_string();
    let texts = [
        (LinkerError::InvalidCpu(why()), "invalid CPU why"),
        (LinkerError::InvalidTarget(why()), "invalid LLVM target why"),
        (LinkerError::IoError(path(), why()), "`a.o`: why"),
        (
            LinkerError::InvalidInputType(path()),
            "invalid input file `a.o`",
        ),
        (
            LinkerError::LinkModuleError(path()),
            "failure linking module a.o",
        ),
        (
            LinkerError::IRParseError(path(), why()),
            "failure parsing IR module `a.o`: why",
        ),
        (
            LinkerError::LinkArchiveModuleError(b"l.a".to_vec(), path()),
            "failure linking module a.o from l.a",
        ),
        (
            LinkerError::OptimizeError(why()),
            "LLVMRunPasses failed: why",
        ),
        (
            LinkerError::EmitCodeError(why()),
            "LLVMTargetMachineEmitToFile failed: why",
        ),
        (
            LinkerError::WriteBitcodeError(why()),
            "LLVMWriteBitcodeToFile failed: why",
        ),
        (
            LinkerError::WriteIRError(why()),
            "LLVMPrintModuleToFile failed: why",
        ),
        (
            LinkerError::EmbeddedBitcodeError(why()),
            "error reading embedded bitcode: why",
        ),
        (
            LinkerError::MissingBitcodeSection(path()),
            "no bitcode section found in a.o",
        ),
        (LinkerError::CreateModuleError, "failed to create module"),
    ];
    for (error, text) in texts {
        assert_eq!(error.message(), text);
    }
    assert_eq!(
        LinkerError::LinkModuleError(vec![0xff]).message(),
        "failure linking module \u{fffd}"
    );
}

#[test]
fn errors_are_logged_and_remembered() {
    let mut handler = DiagnosticHandler::new();
    let line = |level, prefix| Some(LogLine { level, prefix });
    assert_eq!(
        handler.handle_diagnostic(Severity::Warning, b"w"),
        line(LogLevel::Warn, Prefix::Llvm)
    );
    assert_eq!(
        handler.handle_diagnostic(Severity::Remark, b"r"),
        line(LogLevel::Debug, Prefix::Remark)
    );
    assert_eq!(
        handler.handle_diagnostic(Severity::Note, b"n"),
        line(LogLevel::Debug, Prefix::Note)
    );
    assert!(!handler.has_errors);
    assert_eq!(
        handler.handle_diagnostic(Severity::Error, b"e"),
        line(LogLevel::Error, Prefix::Llvm)
    );
    assert!(handler.has_errors);
    handler.handle_diagnostic(Severity::Note, b"n");
    assert!(handler.has_errors);
}

#[test]
fn complaints_about_builtins_are_no_errors() {
    for name in ["memcpy", "memmove", "memset", "memcmp", "bcmp", "strlen"] {
        let mut handler = DiagnosticHandler::new();
        let text = format!("in f: A call to built-in function '{name}' is not supported.\n");
        assert_eq!(
            handler.handle_diagnostic(Severity::Error, text.as_bytes()),
            None
        );
        assert!(!handler.has_errors);
        assert!(handler
            .handle_diagnostic(Severity::Warning, text.as_bytes())
            .is_some());
        assert!(handler
            .handle_diagnostic(Severity::Error, text.trim_end().as_bytes())
            .is_some());
        assert!(handler.has_errors);
    }
    let mut handler = DiagnosticHandler::new();
    assert!(handler
        .handle_diagnostic(
            Severity::Error,
            b"A call to built-in function 'strcpy' is not supported.\n"
        )
        .is_some());
}

#[test]
fn native_architecture_is_found() {
    let found = |output: &[u8]| match get_native_arch(output) {
        NativeArch::Found(arch) => Some(arch),
        _ => None,
    };
    let output = b"debug_assertions\ntarget_abi=\"\"\ntarget_arch=\"x86_64\"\ntarget_os=\"linux\"\n";
    assert_eq!(found(output), Some(b"x86_64".to_vec()));
    assert_eq!(get_native_backend(output), Some("X86".to_string()));
    assert!(matches!(get_native_arch(b"a\nb\n"), NativeArch::Missing));
    assert!(matches!(
        get_native_arch(b"target_arch\n"),
        NativeArch::NotQuoted
    ));
    assert!(matches!(
        get_native_arch(b"\xff\ntarget_arch=\"arm\"\n"),
        NativeArch::NotText
    ));
    assert_eq!(get_native_backend(b"target_arch=\"riscv64\"\n"), None);
    assert_eq!(get_native_backend(b""), None);
}

#[test]
fn architectures_have_backends() {
    for (arch, backend) in [
        ("aarch64", "AArch64"),
        ("arm", "ARM"),
        ("mips", "Mips"),
        ("mips64", "Mips"),
        ("powerpc", "PowerPC"),
        ("powerpc64", "PowerPC"),
        ("sparc", "Sparc"),
        ("sparc64", "Sparc"),
        ("x86", "X86"),
        ("x86_64", "X86"),
    ] {
        assert!(is_known_arch(arch));
        assert_eq!(arch2backend(arch), backend);
    }
    assert!(!is_known_arch("bpf"));
}

#[test]
fn entry_points_are_named_after_backend_and_part() {
    assert_eq!(
        entry_point_name("BPF", "AsmParser"),
        "LLVMInitializeBPFAsmParser"
    );
    let all = all_entry_points("Target");
    assert_eq!(all.len(), 14);
    assert_eq!(all[0], "LLVMInitializeAArch64Target");
    assert_eq!(all[3], "LLVMInitializeBPFTarget");
    assert_eq!(all[13], "LLVMInitializeXCoreTarget");
}

#[test]
fn directories_come_from_the_environment() {
    assert_eq!(
        collect_possible_directories(
            Some(b"/a:/b"),
            Some(b"/c"),
            Some(b"/usr/bin:bin:/opt/x/bin/:"),
            b':'
        ),
        strings(&["/a", "/b", "/c", "/usr/lib", "lib", "/opt/x/lib", "lib"])
    );
    assert_eq!(
        collect_possible_directories(Some(b""), None, None, b':'),
        strings(&[""])
    );
    assert!(collect_possible_directories(None, None, None, b';').is_empty());
}

#[test]
fn library_is_told_by_its_name() {
    let listing = Some(strings(&["libc.so", "libLLVM-20.so", "libLLVM.so"]));
    assert_eq!(
        find_library_in_directory(b"/usr/lib", &listing),
        Some(b"/usr/lib/libLLVM-20.so".to_vec())
    );
    assert_eq!(
        find_library_in_directory(b"/usr/lib/", &Some(strings(&["libLLVM"]))),
        Some(b"/usr/lib/libLLVM".to_vec())
    );
    assert_eq!(
        find_library_in_directory(b"/x", &Some(strings(&["xlibLLVM", "liblLVM"]))),
        None
    );
    assert_eq!(find_library_in_directory(b"/x", &None), None);
    let odd = Some(vec![b"libLLVM\xff".to_vec()]);
    assert_eq!(
        find_library_in_directory(b"/x", &odd),
        Some(b"/x/libLLVM\xff".to_vec())
    );
}

#[test]
fn first_directory_with_the_library_decides() {
    let directories = strings(&["/a", "/b", "/c"]);
    let mut listings = Vec::new();
    assert!(matches!(
        find_lib_path(&directories, &listings),
        SearchStep::List(0)
    ));
    listings.push(None);
    assert!(matches!(
        find_lib_path(&directories, &listings),
        SearchStep::List(1)
    ));
    listings.push(Some(strings(&["libLLVM.so"])));
    listings.push(Some(strings(&["libLLVM.so"])));
    match find_lib_path(&directories, &listings) {
        SearchStep::Found(path) => assert_eq!(path, b"/b/libLLVM.so"),
        _ => panic!("the library is there"),
    }
}

#[test]
fn missing_library_is_reported() {
    match find_lib_path(&Vec::new(), &Vec::new()) {
        SearchStep::Failed(e @ LibPathError::NoDirectories) => assert_eq!(
            e.message(),
            "Unable to find possible LLVM shared lib locations."
        ),
        _ => panic!("there is nothing to search"),
    }
    match find_lib_path(&strings(&["/a", "/b"]), &vec![None, Some(Vec::new())]) {
        SearchStep::Failed(e @ LibPathError::NotFound(_)) => assert_eq!(
            e.message(),
            "Unable to find LLVM shared lib in possible locations:\n- /a\n- /b"
        ),
        _ => panic!("there is no library"),
    }
}

#[test]
fn bitcode_section_is_found_by_name() {
    let section = |name: &str| Some(name.as_bytes().to_vec());
    assert_eq!(
        find_embedded_bitcode(&vec![
            section(".text"),
            None,
            section(".llvmbc"),
            section(".llvmbc")
        ]),
        Some(2)
    );
    assert_eq!(
        find_embedded_bitcode(&vec![section(".llvmbc.x"), section("llvmbc")]),
        None
    );
    assert_eq!(find_embedded_bitcode(&Vec::new()), None);
}

#[test]
fn messages_of_llvm_can_be_missing() {
    assert_eq!(message_text(None), "<null>");
    assert_eq!(message_text(Some(b"no such target")), "no such target");
    assert_eq!(message_text(Some(b"\xf0x")), "\u{fffd}x");
}

#[test]
fn numbers_are_written_in_decimal() {
    assert_eq!(decimal_text(0), "0");
    assert_eq!(decimal_text(9), "9");
    assert_eq!(decimal_text(10), "10");
    assert_eq!(decimal_text(u64::MAX), u64::MAX.to_string());
    assert!(same("é", "é") && !same("e", "é"));
}
