//! Options of the linker.
use vstd::prelude::*;

use crate::bytes;
use crate::error::{LinkerError, LinkerErrorModel};
use crate::text;

verus! {

/// BPF Cpu type.
#[derive(Clone, Copy, Debug, PartialEq, Eq, Structural)]
pub enum Cpu {
    Generic,
    Probe,
    V1,
    V2,
    V3,
}

/// What a CPU is called.
pub open spec fn cpu_name(cpu: Cpu) -> Seq<char> {
    match cpu {
        Cpu::Generic => "generic"@,
        Cpu::Probe => "probe"@,
        Cpu::V1 => "v1"@,
        Cpu::V2 => "v2"@,
        Cpu::V3 => "v3"@,
    }
}

impl Cpu {
    pub fn as_str(&self) -> (r: &'static str)
        ensures
            r@ == cpu_name(*self),
    {
        match self {
            Cpu::Generic => "generic",
            Cpu::Probe => "probe",
            Cpu::V1 => "v1",
            Cpu::V2 => "v2",
            Cpu::V3 => "v3",
        }
    }

    /// The CPU that is called `name`.
    pub fn from_name(name: &str) -> (r: Result<Cpu, LinkerError>)
        ensures
            match r {
                Ok(cpu) => name@ == cpu_name(cpu),
                Err(e) => (forall|cpu: Cpu| name@ != #[trigger] cpu_name(cpu)) && e@
                    == LinkerErrorModel::InvalidCpu(name@),
            },
    {
        if text::same(name, "generic") {
            Ok(Cpu::Generic)
        } else if text::same(name, "probe") {
            Ok(Cpu::Probe)
        } else if text::same(name, "v1") {
            Ok(Cpu::V1)
        } else if text::same(name, "v2") {
            Ok(Cpu::V2)
        } else if text::same(name, "v3") {
            Ok(Cpu::V3)
        } else {
            assert forall|cpu: Cpu| name@ != #[trigger] cpu_name(cpu) by {
                match cpu {
                    Cpu::Generic => {},
                    Cpu::Probe => {},
                    Cpu::V1 => {},
                    Cpu::V2 => {},
                    Cpu::V3 => {},
                }
            }
            Err(LinkerError::InvalidCpu(String::from_str(name)))
        }
    }
}

impl std::str::FromStr for Cpu {
    type Err = LinkerError;

    fn from_str(s: &str) -> (r: Result<Self, Self::Err>)
        ensures
            match r {
                Ok(cpu) => s@ == cpu_name(cpu),
                Err(e) => (forall|cpu: Cpu| s@ != #[trigger] cpu_name(cpu)) && e@
                    == LinkerErrorModel::InvalidCpu(s@),
            },
    {
        Cpu::from_name(s)
    }
}

/// Different CPUs have different names.
pub proof fn cpu_names_are_distinct(a: Cpu, b: Cpu)
    requires
        cpu_name(a) == cpu_name(b),
    ensures
        a == b,
{
    reveal_strlit("generic");
    reveal_strlit("probe");
    reveal_strlit("v1");
    reveal_strlit("v2");
    reveal_strlit("v3");
    assert("generic"@.len() == 7 && "probe"@.len() == 5);
    assert("v1"@.len() == 2 && "v2"@.len() == 2 && "v3"@.len() == 2);
    assert("v1"@[1] == '1');
    assert("v2"@[1] == '2');
    assert("v3"@[1] == '3');
    match a {
        Cpu::Generic => {},
        Cpu::Probe => {},
        Cpu::V1 => {},
        Cpu::V2 => {},
        Cpu::V3 => {},
    }
    match b {
        Cpu::Generic => {},
        Cpu::Probe => {},
        Cpu::V1 => {},
        Cpu::V2 => {},
        Cpu::V3 => {},
    }
}

/// Optimization level.
#[derive(Clone, Copy, Debug, PartialEq, Eq, Structural)]
pub enum OptLevel {
    /// No optimizations. Equivalent to -O0.
    No,
    /// Less than the default optimizations. Equivalent to -O1.
    Less,
    /// Default level of optimizations. Equivalent to -O2.
    Default,
    /// Aggressive optimizations. Equivalent to -O3.
    Aggressive,
    /// Optimize for size. Equivalent to -Os.
    Size,
    /// Aggressively optimize for size. Equivalent to -Oz.
    SizeMin,
}

/// Output type.
#[derive(Clone, Copy, Debug, PartialEq, Eq, Structural)]
pub enum OutputType {
    /// LLVM bitcode.
    Bitcode,
    /// Assembly.
    Assembly,
    /// LLVM IR.
    LlvmAssembly,
    /// ELF object file.
    Object,
}

/// Options to configure the linker.
#[derive(Debug)]
pub struct LinkerOptions {
    /// The LLVM target to generate code for. If None, the target will be inferred
    /// from the input modules.
    pub target: Option<Vec<u8>>,
    /// Cpu type.
    pub cpu: Cpu,
    /// Cpu features.
    pub cpu_features: Vec<u8>,
    /// Optimization level.
    pub optimize: OptLevel,
    /// Whether to aggressively unroll loops. Useful for older kernels that don't
    /// support loops.
    pub unroll_loops: bool,
    /// Remove `noinline` attributes from functions. Useful for kernels before 5.8
    /// that don't support function calls.
    pub ignore_inline_never: bool,
    /// More command line args to pass to LLVM.
    pub llvm_args: Vec<Vec<u8>>,
    /// Disable passing --bpf-expand-memcpy-in-order to LLVM.
    pub disable_expand_memcpy_in_order: bool,
    /// Disable exporting memcpy, memmove, memset, memcmp and bcmp. Exporting
    /// those is commonly needed when LLVM does not manage to expand memory
    /// intrinsics to a sequence of loads and stores.
    pub disable_memory_builtins: bool,
    /// Emit BTF information.
    pub btf: bool,
    /// Permit automatic insertion of __bpf_trap calls.
    pub allow_bpf_trap: bool,
}

/// The command line that LLVM is started with. Cold call sites are not detected:
/// accessors that are to be inlined would not be.
pub open spec fn command_line(options: LinkerOptions) -> Seq<Seq<u8>> {
    let start = seq![bytes::ascii("bpf-linker"@), bytes::ascii("--cold-callsite-rel-freq=0"@)];
    let unroll = if options.unroll_loops {
        seq![
            bytes::ascii("--unroll-runtime"@),
            bytes::ascii("--unroll-runtime-multi-exit"@),
            bytes::ascii("--unroll-max-upperbound=4294967295"@),
            bytes::ascii("--unroll-threshold=4294967295"@),
        ]
    } else {
        Seq::empty()
    };
    let expand = if options.disable_expand_memcpy_in_order {
        Seq::empty()
    } else {
        seq![bytes::ascii("--bpf-expand-memcpy-in-order"@)]
    };
    let trap = if options.allow_bpf_trap {
        Seq::empty()
    } else {
        seq![bytes::ascii("--bpf-disable-trap-unreachable"@)]
    };
    start + unroll + expand + trap + bytes::views(options.llvm_args@)
}

fn push_arg(args: &mut Vec<Vec<u8>>, arg: &str)
    requires
        arg.is_ascii(),
    ensures
        bytes::views(final(args)@) == bytes::views(old(args)@).push(bytes::ascii(arg@)),
{
    args.push(bytes::copy(bytes::literal(arg)));
    assert(bytes::views(args@) =~= bytes::views(old(args)@).push(bytes::ascii(arg@)));
}

/// Builds the command line that LLVM is started with.
pub fn llvm_command_line(options: &LinkerOptions) -> (r: Vec<Vec<u8>>)
    ensures
        bytes::views(r@) == command_line(*options),
{
    proof {
        reveal_strlit("bpf-linker");
        reveal_strlit("--cold-callsite-rel-freq=0");
        reveal_strlit("--unroll-runtime");
        reveal_strlit("--unroll-runtime-multi-exit");
        reveal_strlit("--unroll-max-upperbound=4294967295");
        reveal_strlit("--unroll-threshold=4294967295");
        reveal_strlit("--bpf-expand-memcpy-in-order");
        reveal_strlit("--bpf-disable-trap-unreachable");
    }
    let mut args: Vec<Vec<u8>> = Vec::new();
    push_arg(&mut args, "bpf-linker");
    push_arg(&mut args, "--cold-callsite-rel-freq=0");
    if options.unroll_loops {
        push_arg(&mut args, "--unroll-runtime");
        push_arg(&mut args, "--unroll-runtime-multi-exit");
        push_arg(&mut args, "--unroll-max-upperbound=4294967295");
        push_arg(&mut args, "--unroll-threshold=4294967295");
    }
    if !options.disable_expand_memcpy_in_order {
        push_arg(&mut args, "--bpf-expand-memcpy-in-order");
    }
    if !options.allow_bpf_trap {
        push_arg(&mut args, "--bpf-disable-trap-unreachable");
    }
    let ghost fixed = bytes::views(args@);
    let ghost more = bytes::views(options.llvm_args@);
    assert(fixed + more =~= command_line(*options));
    let mut i: usize = 0;
    while i < options.llvm_args.len()
        invariant
            i <= options.llvm_args@.len(),
            more == bytes::views(options.llvm_args@),
            bytes::views(args@) =~= fixed + more.take(i as int),
        decreases options.llvm_args@.len() - i,
    {
        let ghost before = args@;
        let arg = bytes::copy(options.llvm_args[i].as_slice());
        assert(arg@ == more[i as int]);
        args.push(arg);
        assert(bytes::views(args@) =~= bytes::views(before).push(arg@));
        i = i + 1;
    }
    assert(more.take(more.len() as int) =~= more);
    args
}

/// How the output is generated.
#[derive(Clone, Copy, Debug, PartialEq, Eq, Structural)]
pub enum Codegen {
    /// The module is written as bitcode.
    WriteBitcode,
    /// The module is written as IR.
    WriteIr,
    /// The target machine emits assembly.
    EmitAssembly,
    /// The target machine emits an object file.
    EmitObject,
}

/// How an output type is generated.
pub open spec fn codegen_of(output_type: OutputType) -> Codegen {
    match output_type {
        OutputType::Bitcode => Codegen::WriteBitcode,
        OutputType::LlvmAssembly => Codegen::WriteIr,
        OutputType::Assembly => Codegen::EmitAssembly,
        OutputType::Object => Codegen::EmitObject,
    }
}

impl OutputType {
    /// How this output type is generated.
    pub fn codegen(&self) -> (r: Codegen)
        ensures
            r == codegen_of(*self),
    {
        match self {
            OutputType::Bitcode => Codegen::WriteBitcode,
            OutputType::LlvmAssembly => Codegen::WriteIr,
            OutputType::Assembly => Codegen::EmitAssembly,
            OutputType::Object => Codegen::EmitObject,
        }
    }

    /// The error that reports why generating this output type failed.
    pub fn codegen_error(&self, message: String) -> (r: LinkerError)
        ensures
            r@ == (match codegen_of(*self) {
                Codegen::WriteBitcode => LinkerErrorModel::WriteBitcodeError(message@),
                Codegen::WriteIr => LinkerErrorModel::WriteIRError(message@),
                Codegen::EmitAssembly => LinkerErrorModel::EmitCodeError(message@),
                Codegen::EmitObject => LinkerErrorModel::EmitCodeError(message@),
            }),
    {
        match self.codegen() {
            Codegen::WriteBitcode => LinkerError::WriteBitcodeError(message),
            Codegen::WriteIr => LinkerError::WriteIRError(message),
            Codegen::EmitAssembly => LinkerError::EmitCodeError(message),
            Codegen::EmitObject => LinkerError::EmitCodeError(message),
        }
    }
}

/// LLVM is started with the name of the program and without the detection of cold call
/// sites. Then come the arguments for unrolling exactly if loops are to be unrolled, the
/// one that expands memory copies in order unless that is disabled, the one that disables
/// traps unless they are allowed, and at last all arguments that were passed on.
pub proof fn arguments_follow_the_options(options: LinkerOptions)
    ensures
        ({
            let line = command_line(options);
            let more = bytes::views(options.llvm_args@);
            let unroll: int = if options.unroll_loops {
                4
            } else {
                0
            };
            let expand: int = if options.disable_expand_memcpy_in_order {
                0
            } else {
                1
            };
            let trap: int = if options.allow_bpf_trap {
                0
            } else {
                1
            };
            &&& line.len() == 2 + unroll + expand + trap + more.len()
            &&& line[0] == bytes::ascii("bpf-linker"@)
            &&& line[1] == bytes::ascii("--cold-callsite-rel-freq=0"@)
            &&& options.unroll_loops ==> {
                &&& line[2] == bytes::ascii("--unroll-runtime"@)
                &&& line[3] == bytes::ascii("--unroll-runtime-multi-exit"@)
                &&& line[4] == bytes::ascii("--unroll-max-upperbound=4294967295"@)
                &&& line[5] == bytes::ascii("--unroll-threshold=4294967295"@)
            }
            &&& !options.disable_expand_memcpy_in_order ==> line[2 + unroll] == bytes::ascii(
                "--bpf-expand-memcpy-in-order"@,
            )
            &&& !options.allow_bpf_trap ==> line[2 + unroll + expand] == bytes::ascii(
                "--bpf-disable-trap-unreachable"@,
            )
            &&& line.skip(2 + unroll + expand + trap) == more
        }),
{
    let line = command_line(options);
    let more = bytes::views(options.llvm_args@);
    assert(line.skip(line.len() - more.len()) =~= more);
}

/// Bitcode and IR are written as they are; assembly and object files are emitted for the
/// target.
pub proof fn output_is_generated_by_its_type(output_type: OutputType)
    ensures
        codegen_of(output_type) == Codegen::WriteBitcode <==> output_type == OutputType::Bitcode,
        codegen_of(output_type) == Codegen::WriteIr <==> output_type == OutputType::LlvmAssembly,
        codegen_of(output_type) == Codegen::EmitAssembly <==> output_type == OutputType::Assembly,
        codegen_of(output_type) == Codegen::EmitObject <==> output_type == OutputType::Object,
{
}

} // verus!
