use ar::{Builder, GnuBuilder, Header};
use bpf_linker::archive::read_entries;
use bpf_linker::error::LinkerError;
use bpf_linker::input::{detect_input_type, is_llvm_ir, InputType, LinkerInput};
use bpf_linker::link::{contains_nul, LinkAction, LinkEvent, LinkModules, Unsupported};
use bpf_linker::options::{Cpu, LinkerOptions, OptLevel};
use bpf_linker::pipeline::{Action, Event, Pipeline};

const RAW: &[u8] = b"BC\xc0\xde\x01\x02\x03\x04";
const ELF: &[u8] = b"\x7fELF\x02\x01\x01\x00";
const MACHO: &[u8] = b"\xcf\xfa\xed\xfe\x00\x00\x00\x00";
const IR: &[u8] = b"; ModuleID = 'valid'\n";

fn common_archive(entries: &[(&str, &[u8])]) -> Vec<u8> {
    let mut builder = Builder::new(Vec::new());
    for (name, data) in entries {
        let header = Header::new(name.as_bytes().to_vec(), data.len() as u64);
        builder.append(&header, *data).unwrap();
    }
    builder.into_inner().unwrap()
}

fn gnu_archive(entries: &[(&str, &[u8])]) -> Vec<u8> {
    let names = entries
        .iter()
        .map(|(name, _)| name.as_bytes().to_vec())
        .collect();
    let mut builder = GnuBuilder::new(Vec::new(), names);
    for (name, data) in entries {
        let header = Header::new(name.as_bytes().to_vec(), data.len() as u64);
        builder.append(&header, *data).unwrap();
    }
    builder.into_inner().unwrap()
}

/// An entry whose name is number `index` of a table that is not there.
fn nameless_entry(index: u32) -> Vec<u8> {
    format!(
        "{:<16}{:<12}{:<6}{:<6}{:<8}{:<10}`\n",
        format!("/{index}"),
        0,
        0,
        0,
        644,
        0
    )
    .into_bytes()
}

fn entries_of(data: &[u8]) -> Vec<(Vec<u8>, Vec<u8>)> {
    let (entries, complete) = read_entries(data);
    assert!(complete);
    entries
        .into_iter()
        .map(|e| {
            let item = e.unwrap_or_else(|m| panic!("{m}"));
            (item.identifier, item.data.unwrap_or_else(|m| panic!("{m}")))
        })
        .collect()
}

#[test]
fn archives_are_read_back() {
    let long = "a-name-that-is-longer-than-sixteen-bytes.o";
    let list: Vec<(&str, &[u8])> = vec![("a.o", b"odd"), (long, b"even"), ("e", b"")];
    let expected: Vec<(Vec<u8>, Vec<u8>)> = list
        .iter()
        .map(|(n, d)| (n.as_bytes().to_vec(), d.to_vec()))
        .collect();
    assert_eq!(entries_of(&common_archive(&list)), expected);
    assert_eq!(entries_of(&gnu_archive(&list)), expected);
    assert!(entries_of(b"!<arch>\n").is_empty());
}

#[test]
fn entries_in_front_of_a_nameless_one_are_read() {
    let mut archive = common_archive(&[("a.o", b"odd"), ("b.o", b"even")]);
    archive.extend(nameless_entry(5));
    let (entries, complete) = read_entries(&archive);
    assert!(!complete);
    let names: Vec<Vec<u8>> = entries
        .into_iter()
        .map(|e| e.unwrap_or_else(|m| panic!("{m}")).identifier)
        .collect();
    assert_eq!(names, [b"a.o", b"b.o"]);
}

#[test]
fn damaged_archives_yield_errors() {
    let (entries, complete) = read_entries(b"!<arch>\nthis is no header of an entry, though it is as long as one is");
    assert!(complete);
    assert_eq!(entries.len(), 1);
    assert!(entries[0].is_err());
    let (entries, complete) = read_entries(b"not an archive at all");
    assert!(complete);
    assert_eq!(entries.len(), 1);
    assert!(entries[0].is_err());
}

#[test]
fn input_types_are_told_by_their_first_bytes() {
    assert_eq!(detect_input_type(RAW), Some(InputType::Bitcode));
    assert_eq!(
        detect_input_type(b"\xde\xc0\x17\x0b\x00\x00\x00\x00"),
        Some(InputType::Bitcode)
    );
    assert_eq!(detect_input_type(ELF), Some(InputType::Elf));
    assert_eq!(detect_input_type(MACHO), Some(InputType::MachO));
    assert_eq!(detect_input_type(b"!<arch>\n"), Some(InputType::Archive));
    assert_eq!(detect_input_type(IR), Some(InputType::Ir));
    assert_eq!(detect_input_type(b"!<arch>x"), None);
    assert_eq!(detect_input_type(&RAW[..7]), None);
    assert_eq!(detect_input_type(b""), None);
    assert_eq!(detect_input_type(b": ModuleXX = 'corrupted'\n"), None);
}

#[test]
fn ir_starts_with_one_of_the_known_words() {
    for text in [
        "; ModuleID = 'x'",
        "source_filename = \"x\"",
        "target datalayout = \"e\"",
        "target triple = \"bpf\"",
        "define void @f() {",
        "declare void @f()",
        "!llvm.module.flags = !{}",
    ] {
        assert!(is_llvm_ir(text.as_bytes()));
        assert!(is_llvm_ir(format!(" \t\r\n\x0c{text}").as_bytes()));
        assert!(!is_llvm_ir(format!("\x0b{text}").as_bytes()));
        assert!(!is_llvm_ir(&text.as_bytes()[1..]));
    }
    assert!(!is_llvm_ir(b"define"));
    assert!(!is_llvm_ir(b""));
}

#[test]
fn input_types_have_names() {
    for (ty, name) in [
        (InputType::Bitcode, "bitcode"),
        (InputType::Elf, "elf"),
        (InputType::MachO, "Mach-O"),
        (InputType::Archive, "archive"),
        (InputType::Ir, "ir"),
    ] {
        assert_eq!(ty.as_str(), name);
    }
}

#[test]
fn nul_bytes_are_found() {
    assert!(contains_nul(&b"a\0b".to_vec()));
    assert!(!contains_nul(&b"ab".to_vec()));
    assert!(!contains_nul(&Vec::new()));
}

/// Links inputs with a linker whose every action succeeds, and writes down the
/// actions.
fn link_all(inputs: Vec<LinkerInput>, files: &[(&str, &[u8])]) -> (Vec<String>, LinkAction) {
    let mut modules = LinkModules::new(inputs);
    let mut log = Vec::new();
    let mut event = LinkEvent::Start;
    loop {
        event = match modules.step(event) {
            LinkAction::CreateModule => {
                log.push("module".to_string());
                LinkEvent::ModuleCreated(true)
            }
            LinkAction::ReadFile(path) => {
                let path = String::from_utf8(path).unwrap();
                log.push(format!("read {path}"));
                match files.iter().find(|(name, _)| *name == path) {
                    Some((_, data)) => LinkEvent::FileRead(Ok(data.to_vec())),
                    None => LinkEvent::FileRead(Err("no such file".to_string())),
                }
            }
            LinkAction::LinkIr(data) => {
                assert_eq!(data.last(), Some(&0));
                log.push(format!("ir {}", data.len()));
                LinkEvent::IrLinked(Ok(true))
            }
            LinkAction::FindBitcode(data) => {
                log.push(format!("find {}", data.len()));
                LinkEvent::BitcodeFound(Ok(Some(b"bitcode".to_vec())))
            }
            LinkAction::LinkBitcode(data) => {
                log.push(format!("bitcode {}", data.len()));
                LinkEvent::BitcodeLinked(true)
            }
            end => return (log, end),
        };
    }
}

fn started(inputs: Vec<LinkerInput>) -> LinkModules {
    let mut modules = LinkModules::new(inputs);
    assert!(matches!(
        modules.step(LinkEvent::Start),
        LinkAction::CreateModule
    ));
    modules
}

#[test]
fn inputs_are_linked_in_order() {
    let archive = common_archive(&[
        ("lib.rmeta", MACHO),
        ("notes.txt", b"nothing to link"),
        ("a.o", ELF),
        ("b.bc", RAW),
    ]);
    let (log, end) = link_all(
        vec![
            LinkerInput::new_from_file(b"lib.a"),
            LinkerInput::new_from_buffer("ir", IR),
            LinkerInput::new_from_buffer("macho", MACHO),
            LinkerInput::new_from_file(b"c.bc"),
        ],
        &[("lib.a", &archive), ("c.bc", RAW)],
    );
    assert!(matches!(end, LinkAction::Done));
    assert_eq!(
        log,
        [
            "module",
            "read lib.a",
            "find 8",
            "bitcode 7",
            "bitcode 8",
            "ir 22",
            "read c.bc",
            "bitcode 8",
        ]
    );
}

#[test]
fn nothing_to_link_is_linked_at_once() {
    let (log, end) = link_all(Vec::new(), &[]);
    assert!(matches!(end, LinkAction::Done));
    assert_eq!(log, ["module"]);
}

fn create_test_ir_content(name: &str) -> String {
    format!(
        r#"; ModuleID = '{name}'
source_filename = "{name}"
target datalayout = "e-m:e-p:64:64-i64:64-i128:128-n32:64-S128"
target triple = "bpf"

define i32 @test_{name}(i32 %x) #0 {{
entry:
  %result = add i32 %x, 1
  ret i32 %result
}}

attributes #0 = {{ noinline nounwind optnone }}

!llvm.module.flags = !{{!0}}
!0 = !{{i32 1, !"wchar_size", i32 4}}
"#
    )
}

#[test]
fn test_invalid_ir_file() {
    let valid_content = create_test_ir_content("alessandro");
    let invalid_content =
        valid_content.replace("; ModuleID = 'alessandro'", ": ModuleXX = 'corrupted'");
    let (_, end) = link_all(
        vec![LinkerInput::new_from_buffer(
            "corrupted.ll",
            invalid_content.as_bytes(),
        )],
        &[],
    );
    assert!(
        matches!(end, LinkAction::Fail(_)),
        "Linking corrupted IR should fail"
    );
}

#[test]
fn corrupted_ir_is_an_invalid_input() {
    let valid = create_test_ir_content("valid");
    let (log, end) = link_all(
        vec![LinkerInput::new_from_buffer("valid.ll", valid.as_bytes())],
        &[],
    );
    assert!(matches!(end, LinkAction::Done));
    assert_eq!(log, ["module".to_string(), format!("ir {}", valid.len() + 1)]);
    let corrupted = create_test_ir_content("invalid")
        .replace("; ModuleID = 'invalid'", ": ModuleXX = 'corrupted'");
    let (_, end) = link_all(
        vec![LinkerInput::new_from_buffer(
            "corrupted.ll",
            corrupted.as_bytes(),
        )],
        &[],
    );
    match end {
        LinkAction::Fail(LinkerError::InvalidInputType(path)) => {
            assert_eq!(path, b"in_memory::corrupted.ll")
        }
        _ => panic!("the input should be refused"),
    }
}

#[test]
fn missing_module_fails() {
    let mut modules = started(Vec::new());
    assert!(matches!(
        modules.step(LinkEvent::ModuleCreated(false)),
        LinkAction::Fail(LinkerError::CreateModuleError)
    ));
}

#[test]
fn unreadable_file_fails_with_its_path() {
    let (_, end) = link_all(vec![LinkerInput::new_from_file(b"gone.o")], &[]);
    match end {
        LinkAction::Fail(LinkerError::IoError(path, message)) => {
            assert_eq!(path, b"gone.o");
            assert_eq!(message, "no such file");
        }
        _ => panic!("the file is not there"),
    }
}

#[test]
fn object_without_bitcode_is_passed_over() {
    let mut modules = started(vec![
        LinkerInput::new_from_buffer("a.o", ELF),
        LinkerInput::new_from_buffer("b.o", ELF),
    ]);
    assert!(matches!(
        modules.step(LinkEvent::ModuleCreated(true)),
        LinkAction::FindBitcode(_)
    ));
    assert!(matches!(
        modules.step(LinkEvent::BitcodeFound(Ok(None))),
        LinkAction::FindBitcode(_)
    ));
    match modules.step(LinkEvent::BitcodeFound(Err("bad".to_string()))) {
        LinkAction::Fail(LinkerError::EmbeddedBitcodeError(message)) => assert_eq!(message, "bad"),
        _ => panic!("the object cannot be read"),
    }
}

#[test]
fn failures_name_the_input() {
    let mut modules = started(vec![LinkerInput::new_from_buffer("a.ll", IR)]);
    modules.step(LinkEvent::ModuleCreated(true));
    match modules.step(LinkEvent::IrLinked(Err("syntax".to_string()))) {
        LinkAction::Fail(LinkerError::IRParseError(path, message)) => {
            assert_eq!(path, b"in_memory::a.ll");
            assert_eq!(message, "syntax");
        }
        _ => panic!("the IR cannot be parsed"),
    }
    let mut modules = started(vec![LinkerInput::new_from_buffer("a.ll", IR)]);
    modules.step(LinkEvent::ModuleCreated(true));
    match modules.step(LinkEvent::IrLinked(Ok(false))) {
        LinkAction::Fail(LinkerError::LinkModuleError(path)) => {
            assert_eq!(path, b"in_memory::a.ll")
        }
        _ => panic!("the IR cannot be linked"),
    }
    let mut modules = started(vec![LinkerInput::new_from_buffer("a.bc", RAW)]);
    modules.step(LinkEvent::ModuleCreated(true));
    match modules.step(LinkEvent::BitcodeLinked(false)) {
        LinkAction::Fail(LinkerError::LinkModuleError(path)) => {
            assert_eq!(path, b"in_memory::a.bc")
        }
        _ => panic!("the bitcode cannot be linked"),
    }
}

#[test]
fn failures_in_archives_name_archive_and_entry() {
    let archive = gnu_archive(&[("good.bc", RAW), ("bad.bc", RAW)]);
    let mut modules = started(vec![LinkerInput::new_from_file(b"lib.a")]);
    modules.step(LinkEvent::ModuleCreated(true));
    modules.step(LinkEvent::FileRead(Ok(archive)));
    modules.step(LinkEvent::BitcodeLinked(true));
    match modules.step(LinkEvent::BitcodeLinked(false)) {
        LinkAction::Fail(LinkerError::LinkArchiveModuleError(archive, entry)) => {
            assert_eq!(archive, b"lib.a");
            assert_eq!(entry, b"bad.bc");
        }
        _ => panic!("the entry cannot be linked"),
    }
}

#[test]
fn damaged_archive_fails_with_its_path() {
    let (_, end) = link_all(
        vec![LinkerInput::new_from_buffer(
            "lib.a",
            b"!<arch>\nthis is no header of an entry, though it is as long as one is",
        )],
        &[],
    );
    match end {
        LinkAction::Fail(LinkerError::IoError(path, _)) => assert_eq!(path, b"in_memory::lib.a"),
        _ => panic!("the archive is damaged"),
    }
}

#[test]
fn unsupported_inputs_end_the_program() {
    let nested = common_archive(&[("inner.a", b"!<arch>\n")]);
    let (_, end) = link_all(vec![LinkerInput::new_from_buffer("n", &nested)], &[]);
    assert!(matches!(
        end,
        LinkAction::Panic(Unsupported::NestedArchive)
    ));
    let (_, end) = link_all(
        vec![LinkerInput::new_from_buffer("i", b"define \0 void @f()")],
        &[],
    );
    assert!(matches!(end, LinkAction::Panic(Unsupported::NulInIr)));
    let mut nameless = common_archive(&[("a.bc", RAW)]);
    nameless.extend(nameless_entry(1));
    let (log, end) = link_all(vec![LinkerInput::new_from_buffer("a", &nameless)], &[]);
    assert_eq!(log, ["module", "bitcode 8"]);
    assert!(matches!(end, LinkAction::Panic(Unsupported::ArchiveName)));
}

fn options() -> LinkerOptions {
    LinkerOptions {
        target: None,
        cpu: Cpu::V2,
        cpu_features: b"+alu32".to_vec(),
        optimize: OptLevel::Default,
        unroll_loops: false,
        ignore_inline_never: false,
        llvm_args: Vec::new(),
        disable_expand_memcpy_in_order: false,
        disable_memory_builtins: false,
        btf: false,
        allow_bpf_trap: false,
    }
}

/// A pipeline that has linked its inputs, and what it asks for then.
fn linked<'a>(options: &'a LinkerOptions, dump: Option<&str>) -> (Pipeline<'a>, Action) {
    let mut pipeline = Pipeline::new(options, dump.map(|d| d.as_bytes().to_vec()), Vec::new());
    assert!(matches!(
        pipeline.step(Event::Link(LinkEvent::Start)),
        Action::Link(LinkAction::CreateModule)
    ));
    let action = pipeline.step(Event::Link(LinkEvent::ModuleCreated(true)));
    (pipeline, action)
}

#[test]
fn target_is_inferred_from_the_module() {
    let options = options();
    for (module, triple) in [
        ("bpfeb-unknown-none", "bpfeb-unknown-none"),
        ("bpf", "bpf"),
        ("x86_64-unknown-linux-gnu", "bpf"),
        ("", "bpf"),
    ] {
        let (mut pipeline, action) = linked(&options, None);
        assert!(matches!(action, Action::GetTarget));
        match pipeline.step(Event::Target(module.as_bytes().to_vec())) {
            Action::ResolveTarget(resolved) => assert_eq!(resolved, triple.as_bytes()),
            _ => panic!("a target should be resolved"),
        }
    }
}

#[test]
fn wanted_target_is_used_as_it_is() {
    let mut options = options();
    options.target = Some(b"bpfel-unknown-none".to_vec());
    let (mut pipeline, action) = linked(&options, None);
    match action {
        Action::ResolveTarget(triple) => assert_eq!(triple, b"bpfel-unknown-none"),
        _ => panic!("a target should be resolved"),
    }
    match pipeline.step(Event::TargetResolved(true)) {
        Action::CreateMachine {
            triple,
            cpu,
            features,
        } => {
            assert_eq!(triple, b"bpfel-unknown-none");
            assert_eq!(cpu, Cpu::V2);
            assert_eq!(features, b"+alu32");
        }
        _ => panic!("a machine should be created"),
    }
    match pipeline.step(Event::MachineCreated(false)) {
        Action::Fail(LinkerError::InvalidTarget(triple)) => {
            assert_eq!(triple, "bpfel-unknown-none")
        }
        _ => panic!("there is no machine"),
    }
}

#[test]
fn unknown_target_fails() {
    let mut options = options();
    options.target = Some(b"n\xffne".to_vec());
    let (mut pipeline, _) = linked(&options, None);
    match pipeline.step(Event::TargetResolved(false)) {
        Action::Fail(LinkerError::InvalidTarget(triple)) => assert_eq!(triple, "n\u{fffd}ne"),
        _ => panic!("there is no such target"),
    }
}

/// A pipeline that has its machine, and what it asks for then.
fn with_machine<'a>(options: &'a LinkerOptions, dump: Option<&str>) -> (Pipeline<'a>, Action) {
    let (mut pipeline, _) = linked(options, dump);
    pipeline.step(Event::Target(b"bpf".to_vec()));
    pipeline.step(Event::TargetResolved(true));
    let action = pipeline.step(Event::MachineCreated(true));
    (pipeline, action)
}

#[test]
fn debug_information_is_sanitized_or_stripped() {
    let plain = options();
    let (mut pipeline, action) = with_machine(&plain, None);
    assert!(matches!(action, Action::StripDebugInfo));
    assert!(matches!(
        pipeline.step(Event::DebugInfoReady),
        Action::Optimize
    ));
    assert!(matches!(
        pipeline.step(Event::Optimized(Ok(()))),
        Action::Done
    ));
    let mut btf = options();
    btf.btf = true;
    let (mut pipeline, action) = with_machine(&btf, None);
    assert!(matches!(action, Action::SanitizeDebugInfo));
    assert!(matches!(
        pipeline.step(Event::DebugInfoReady),
        Action::Optimize
    ));
    match pipeline.step(Event::Optimized(Err("pass".to_string()))) {
        Action::Fail(LinkerError::OptimizeError(message)) => assert_eq!(message, "pass"),
        _ => panic!("the optimizer failed"),
    }
}

#[test]
fn module_is_dumped_before_and_after_optimization() {
    let options = options();
    let (mut pipeline, action) = with_machine(&options, Some("/tmp/dump"));
    match action {
        Action::CreateDirectory(path) => assert_eq!(path, b"/tmp/dump"),
        _ => panic!("a directory should be created"),
    }
    match pipeline.step(Event::DirectoryCreated(Ok(()))) {
        Action::WriteIr(path) => assert_eq!(path, b"/tmp/dump/pre-opt.ll"),
        _ => panic!("the module should be dumped"),
    }
    assert!(matches!(
        pipeline.step(Event::IrWritten(Ok(()))),
        Action::StripDebugInfo
    ));
    assert!(matches!(
        pipeline.step(Event::DebugInfoReady),
        Action::Optimize
    ));
    match pipeline.step(Event::Optimized(Ok(()))) {
        Action::WriteIr(path) => assert_eq!(path, b"/tmp/dump/post-opt.ll"),
        _ => panic!("the module should be dumped"),
    }
    assert!(matches!(
        pipeline.step(Event::IrWritten(Ok(()))),
        Action::Done
    ));
}

#[test]
fn dumps_can_fail() {
    let options = options();
    let (mut pipeline, _) = with_machine(&options, Some("/d/"));
    match pipeline.step(Event::DirectoryCreated(Err("denied".to_string()))) {
        Action::Fail(LinkerError::IoError(path, message)) => {
            assert_eq!(path, b"/d/");
            assert_eq!(message, "denied");
        }
        _ => panic!("the directory cannot be created"),
    }
    let (mut pipeline, _) = with_machine(&options, Some("/d/"));
    match pipeline.step(Event::DirectoryCreated(Ok(()))) {
        Action::WriteIr(path) => assert_eq!(path, b"/d/pre-opt.ll"),
        _ => panic!("the module should be dumped"),
    }
    match pipeline.step(Event::IrWritten(Err("full".to_string()))) {
        Action::Fail(LinkerError::WriteIRError(message)) => assert_eq!(message, "full"),
        _ => panic!("the module cannot be dumped"),
    }
    let (mut pipeline, _) = with_machine(&options, Some("a\0b"));
    assert!(matches!(
        pipeline.step(Event::DirectoryCreated(Ok(()))),
        Action::Panic(Unsupported::NulInPath)
    ));
}

#[test]
fn failures_while_linking_end_the_pipeline() {
    let options = options();
    let inputs = vec![LinkerInput::new_from_buffer("x", b"whatever")];
    let mut pipeline = Pipeline::new(&options, None, inputs);
    pipeline.step(Event::Link(LinkEvent::Start));
    match pipeline.step(Event::Link(LinkEvent::ModuleCreated(true))) {
        Action::Fail(LinkerError::InvalidInputType(path)) => assert_eq!(path, b"in_memory::x"),
        _ => panic!("the input should be refused"),
    }
}

#[test]
fn ignored_inputs_do_not_matter() {
    let corrupted: &[u8] = b"no module";
    for tail in [None, Some(corrupted)] {
        let mut plain = vec![
            LinkerInput::new_from_buffer("a", IR),
            LinkerInput::new_from_buffer("b", RAW),
        ];
        let mut mixed = vec![
            LinkerInput::new_from_buffer("x", MACHO),
            LinkerInput::new_from_buffer("a", IR),
            LinkerInput::new_from_buffer("y", MACHO),
            LinkerInput::new_from_buffer("b", RAW),
        ];
        if let Some(bytes) = tail {
            plain.push(LinkerInput::new_from_buffer("bad", bytes));
            plain.push(LinkerInput::new_from_buffer("worse", bytes));
            mixed.push(LinkerInput::new_from_buffer("bad", bytes));
        }
        let (plain_log, plain_end) = link_all(plain, &[]);
        let (mixed_log, mixed_end) = link_all(mixed, &[]);
        assert_eq!(plain_log, ["module", "ir 22", "bitcode 8"]);
        assert_eq!(plain_log, mixed_log);
        for end in [plain_end, mixed_end] {
            match (end, tail) {
                (LinkAction::Done, None) => {}
                (LinkAction::Fail(LinkerError::InvalidInputType(path)), Some(_)) => {
                    assert_eq!(path, b"in_memory::bad")
                }
                _ => panic!("the first input of unknown type decides"),
            }
        }
    }
}

#[test]
fn numbers_in_archive_headers_can_have_a_sign() {
    let mut archive = b"!<arch>\n".to_vec();
    archive.extend(
        format!(
            "{:<16}{:<12}{:<6}{:<6}{:<8}{:<10}`\n",
            "a.o/", 0, 0, 0, 644, "+4"
        )
        .into_bytes(),
    );
    archive.extend(b"data");
    assert_eq!(entries_of(&archive), [(b"a.o".to_vec(), b"data".to_vec())]);
    let damaged = String::from_utf8(archive).unwrap().replace("+4", "4_");
    let (entries, _) = read_entries(damaged.as_bytes());
    assert!(entries[0].is_err());
}
