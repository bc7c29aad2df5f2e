//! Entry points of the backends in the LLVM library.
use vstd::prelude::*;
use vstd::utf8::*;

use crate::bytes;
use crate::text;

verus! {

/// The backends that a library can have.
pub open spec fn possible_backends() -> Seq<Seq<char>> {
    seq![
        "AArch64"@,
        "AMDGPU"@,
        "ARM"@,
        "BPF"@,
        "Hexagon"@,
        "Lanai"@,
        "Mips"@,
        "MSP430"@,
        "NVPTX"@,
        "PowerPC"@,
        "Sparc"@,
        "SystemZ"@,
        "X86"@,
        "XCore"@,
    ]
}

/// The backend of an architecture.
pub open spec fn backend_of(arch: Seq<char>) -> Option<Seq<char>> {
    if arch == "aarch64"@ {
        Some("AArch64"@)
    } else if arch == "arm"@ {
        Some("ARM"@)
    } else if arch == "mips"@ || arch == "mips64"@ {
        Some("Mips"@)
    } else if arch == "powerpc"@ || arch == "powerpc64"@ {
        Some("PowerPC"@)
    } else if arch == "sparc"@ || arch == "sparc64"@ {
        Some("Sparc"@)
    } else if arch == "x86"@ || arch == "x86_64"@ {
        Some("X86"@)
    } else {
        None
    }
}

/// Whether an architecture has a backend.
pub fn is_known_arch(arch: &str) -> (r: bool)
    ensures
        r == (backend_of(arch@) is Some),
{
    text::same(arch, "aarch64") || text::same(arch, "arm") || text::same(arch, "mips")
        || text::same(arch, "mips64") || text::same(arch, "powerpc") || text::same(
        arch,
        "powerpc64",
    ) || text::same(arch, "sparc") || text::same(arch, "sparc64") || text::same(arch, "x86")
        || text::same(arch, "x86_64")
}

/// The backend of an architecture.
pub fn arch2backend(arch: &str) -> (r: String)
    requires
        backend_of(arch@) is Some,
    ensures
        r@ == backend_of(arch@)->Some_0,
{
    let backend: &str = if text::same(arch, "aarch64") {
        "AArch64"
    } else if text::same(arch, "arm") {
        "ARM"
    } else if text::same(arch, "mips") || text::same(arch, "mips64") {
        "Mips"
    } else if text::same(arch, "powerpc") || text::same(arch, "powerpc64") {
        "PowerPC"
    } else if text::same(arch, "sparc") || text::same(arch, "sparc64") {
        "Sparc"
    } else {
        "X86"
    };
    String::from_str(backend)
}

/// What the compiler says about the architecture it compiles for.
pub enum NativeArch {
    Found(Vec<u8>),
    /// A line in front of the one that names the architecture is not text.
    NotText,
    /// The line that names the architecture has no quotation mark.
    NotQuoted,
    /// No line names the architecture.
    Missing,
}

/// The mathematical content of a `NativeArch`.
pub enum NativeArchModel {
    Found(Seq<u8>),
    NotText,
    NotQuoted,
    Missing,
}

impl View for NativeArch {
    type V = NativeArchModel;

    open spec fn view(&self) -> NativeArchModel {
        match *self {
            NativeArch::Found(arch) => NativeArchModel::Found(arch@),
            NativeArch::NotText => NativeArchModel::NotText,
            NativeArch::NotQuoted => NativeArchModel::NotQuoted,
            NativeArch::Missing => NativeArchModel::Missing,
        }
    }
}

/// The architecture that the lines from `k` on name. The line looks like
/// `target_arch="x86_64"`.
pub open spec fn arch_in_lines(lines: Seq<Seq<u8>>, k: nat) -> NativeArchModel
    decreases lines.len() - k,
{
    if k >= lines.len() {
        NativeArchModel::Missing
    } else if !valid_utf8(lines[k as int]) {
        NativeArchModel::NotText
    } else if !bytes::begins_with(lines[k as int], bytes::ascii("target_arch"@)) {
        arch_in_lines(lines, k + 1)
    } else {
        let quoted = bytes::parts(lines[k as int], 0x22);
        if quoted.len() < 2 {
            NativeArchModel::NotQuoted
        } else {
            NativeArchModel::Found(quoted[1])
        }
    }
}

/// Finds the architecture in the output of `rustc --print cfg`.
pub fn get_native_arch(output: &[u8]) -> (r: NativeArch)
    ensures
        r@ == arch_in_lines(bytes::lines(output@), 0),
{
    let lines = bytes::split_lines(output);
    let ghost all = bytes::views(lines@);
    proof {
        reveal_strlit("target_arch");
    }
    let mut k: usize = 0;
    while k < lines.len()
        invariant
            k <= lines@.len(),
            all == bytes::views(lines@),
            all == bytes::lines(output@),
            arch_in_lines(all, 0) == arch_in_lines(all, k as nat),
            "target_arch".is_ascii(),
        decreases lines@.len() - k,
    {
        assert(all[k as int] == lines@[k as int]@);
        let line: &[u8] = lines[k].as_slice();
        if text::str_from_utf8(line).is_none() {
            return NativeArch::NotText;
        }
        if bytes::starts_with(line, bytes::literal("target_arch")) {
            let quoted = bytes::split(line, 0x22);
            assert(bytes::views(quoted@).len() == quoted@.len());
            if quoted.len() < 2 {
                return NativeArch::NotQuoted;
            }
            assert(bytes::views(quoted@)[1] == quoted@[1]@);
            return NativeArch::Found(bytes::copy(quoted[1].as_slice()));
        }
        k = k + 1;
    }
    NativeArch::Missing
}

/// The backend of the architecture that the compiler names, or `None` where it
/// names none that has a backend.
pub fn get_native_backend(output: &[u8]) -> (r: Option<String>)
    ensures
        match arch_in_lines(bytes::lines(output@), 0) {
            NativeArchModel::Found(arch) => if valid_utf8(arch) && backend_of(decode_utf8(arch))
                is Some {
                r is Some && r->Some_0@ == backend_of(decode_utf8(arch))->Some_0
            } else {
                r is None
            },
            _ => r is None,
        },
{
    match get_native_arch(output) {
        NativeArch::Found(arch) => match text::str_from_utf8(arch.as_slice()) {
            Some(name) => if is_known_arch(name) {
                Some(arch2backend(name))
            } else {
                None
            },
            None => None,
        },
        _ => None,
    }
}

/// The entry point that initializes a part of a backend.
pub open spec fn entry_point(backend: Seq<char>, postfix: Seq<char>) -> Seq<char> {
    "LLVMInitialize"@ + backend + postfix
}

/// The name of the entry point that initializes a part of a backend.
pub fn entry_point_name(backend: &str, postfix: &str) -> (r: String)
    ensures
        r@ == entry_point(backend@, postfix@),
{
    let mut name = String::from_str("LLVMInitialize");
    name.append(backend);
    name.append(postfix);
    name
}

/// The names of the entry points that initialize a part of all backends.
pub fn all_entry_points(postfix: &str) -> (r: Vec<String>)
    ensures
        r@.map_values(|s: String| s@) == possible_backends().map_values(
            |backend: Seq<char>| entry_point(backend, postfix@),
        ),
{
    let backends: [&str; 14] = [
        "AArch64",
        "AMDGPU",
        "ARM",
        "BPF",
        "Hexagon",
        "Lanai",
        "Mips",
        "MSP430",
        "NVPTX",
        "PowerPC",
        "Sparc",
        "SystemZ",
        "X86",
        "XCore",
    ];
    let ghost expected = possible_backends().map_values(
        |backend: Seq<char>| entry_point(backend, postfix@),
    );
    assert(forall|j: int| 0 <= j < 14 ==> (#[trigger] backends@[j])@ == possible_backends()[j]);
    let mut names: Vec<String> = Vec::new();
    let mut i: usize = 0;
    while i < 14
        invariant
            i <= 14,
            expected == possible_backends().map_values(
                |backend: Seq<char>| entry_point(backend, postfix@),
            ),
            forall|j: int| 0 <= j < 14 ==> (#[trigger] backends@[j])@ == possible_backends()[j],
            names@.len() == i,
            forall|j: int| 0 <= j < i ==> (#[trigger] names@[j])@ == expected[j],
        decreases 14 - i,
    {
        names.push(entry_point_name(backends[i], postfix));
        i = i + 1;
    }
    assert(names@.map_values(|s: String| s@) =~= expected);
    names
}

proof fn lemma_arch_line(lines: Seq<Seq<u8>>, from: nat, k: nat)
    requires
        from <= k <= lines.len(),
        forall|i: int|
            from <= i < k ==> valid_utf8(#[trigger] lines[i]) && !bytes::begins_with(
                lines[i],
                bytes::ascii("target_arch"@),
            ),
    ensures
        arch_in_lines(lines, from) == arch_in_lines(lines, k),
    decreases k - from,
{
    if from < k {
        assert(valid_utf8(lines[from as int]));
        lemma_arch_line(lines, from + 1, k);
    }
}

/// The first line that begins with `target_arch` names the architecture, between its
/// first two quotation marks, or behind the first if there is only one. Lines in front of
/// it do not matter as long as they are text.
pub proof fn first_line_names_the_architecture(
    lines: Seq<Seq<u8>>,
    k: nat,
    before: Seq<u8>,
    arch: Seq<u8>,
    after: Seq<u8>,
)
    requires
        k < lines.len(),
        forall|i: int|
            0 <= i < k ==> valid_utf8(#[trigger] lines[i]) && !bytes::begins_with(
                lines[i],
                bytes::ascii("target_arch"@),
            ),
        valid_utf8(lines[k as int]),
        bytes::begins_with(lines[k as int], bytes::ascii("target_arch"@)),
        forall|i: int| 0 <= i < before.len() ==> #[trigger] before[i] != 0x22,
        forall|i: int| 0 <= i < arch.len() ==> #[trigger] arch[i] != 0x22,
    ensures
        lines[k as int] == before ==> arch_in_lines(lines, 0) is NotQuoted,
        lines[k as int] == before + seq![0x22u8] + arch ==> arch_in_lines(lines, 0)
            == NativeArchModel::Found(arch),
        lines[k as int] == before + seq![0x22u8] + (arch + seq![0x22u8] + after) ==> arch_in_lines(
            lines,
            0,
        ) == NativeArchModel::Found(arch),
{
    lemma_arch_line(lines, 0, k);
    bytes::parts_stand_between_separators(before, 0x22, arch);
    bytes::parts_stand_between_separators(arch, 0x22, after);
    bytes::parts_stand_between_separators(before, 0x22, arch + seq![0x22u8] + after);
    let a = seq![before] + bytes::parts(arch, 0x22);
    let b = seq![before] + bytes::parts(arch + seq![0x22u8] + after, 0x22);
    assert(a.len() == 2 && a[1] == arch);
    assert(b.len() >= 2 && b[1] == arch);
}

/// Where no line begins with `target_arch` the architecture is missing, and where one in
/// front of that line is no text, it is not looked for any further.
pub proof fn architecture_can_be_missing(lines: Seq<Seq<u8>>, k: nat)
    requires
        k <= lines.len(),
        forall|i: int|
            0 <= i < k ==> valid_utf8(#[trigger] lines[i]) && !bytes::begins_with(
                lines[i],
                bytes::ascii("target_arch"@),
            ),
        k < lines.len() ==> !valid_utf8(lines[k as int]),
    ensures
        arch_in_lines(lines, 0) == (if k < lines.len() {
            NativeArchModel::NotText
        } else {
            NativeArchModel::Missing
        }),
{
    lemma_arch_line(lines, 0, k);
}

/// The backend of every architecture that has one is a backend that a library can have,
/// and so is the one for BPF. Variants of an architecture share its backend.
pub proof fn backends_of_architectures_are_possible(arch: Seq<char>)
    ensures
        backend_of(arch) is Some ==> possible_backends().contains(backend_of(arch)->Some_0),
        possible_backends().contains("BPF"@),
        possible_backends().len() == 14,
        backend_of("aarch64"@) == Some("AArch64"@),
        backend_of("arm"@) == Some("ARM"@),
        backend_of("mips"@) == Some("Mips"@) && backend_of("mips64"@) == backend_of("mips"@),
        backend_of("powerpc"@) == Some("PowerPC"@) && backend_of("powerpc64"@) == backend_of(
            "powerpc"@,
        ),
        backend_of("sparc"@) == Some("Sparc"@) && backend_of("sparc64"@) == backend_of("sparc"@),
        backend_of("x86"@) == Some("X86"@) && backend_of("x86_64"@) == backend_of("x86"@),
        backend_of(arch) is Some ==> arch == "aarch64"@ || arch == "arm"@ || arch == "mips"@ || arch
            == "mips64"@ || arch == "powerpc"@ || arch == "powerpc64"@ || arch == "sparc"@ || arch
            == "sparc64"@ || arch == "x86"@ || arch == "x86_64"@,
{
    let all = possible_backends();
    assert(all[0] == "AArch64"@ && all[2] == "ARM"@ && all[3] == "BPF"@ && all[6] == "Mips"@
        && all[9] == "PowerPC"@ && all[10] == "Sparc"@ && all[12] == "X86"@);
    reveal_strlit("aarch64");
    reveal_strlit("arm");
    reveal_strlit("mips");
    reveal_strlit("mips64");
    reveal_strlit("powerpc");
    reveal_strlit("powerpc64");
    reveal_strlit("sparc");
    reveal_strlit("sparc64");
    reveal_strlit("x86");
    reveal_strlit("x86_64");
    assert("aarch64"@.len() == 7 && "powerpc"@.len() == 7 && "sparc64"@.len() == 7);
    assert("arm"@.len() == 3 && "x86"@.len() == 3);
    assert("mips64"@.len() == 6 && "x86_64"@.len() == 6);
    assert("mips"@.len() == 4 && "sparc"@.len() == 5 && "powerpc64"@.len() == 9);
    assert("aarch64"@[0] == 'a' && "powerpc"@[0] == 'p' && "sparc64"@[0] == 's');
    assert("arm"@[0] == 'a' && "x86"@[0] == 'x');
    assert("mips64"@[0] == 'm' && "x86_64"@[0] == 'x');
}

/// The entry point of a part of a backend is called by both, and there is one for every
/// backend that a library can have, in this order.
pub proof fn entry_points_are_called_by_their_backends(backend: Seq<char>, postfix: Seq<char>)
    ensures
        entry_point(backend, postfix) == "LLVMInitialize"@ + backend + postfix,
        possible_backends().take(7) == seq![
            "AArch64"@,
            "AMDGPU"@,
            "ARM"@,
            "BPF"@,
            "Hexagon"@,
            "Lanai"@,
            "Mips"@,
        ],
        possible_backends().skip(7) == seq![
            "MSP430"@,
            "NVPTX"@,
            "PowerPC"@,
            "Sparc"@,
            "SystemZ"@,
            "X86"@,
            "XCore"@,
        ],
{
    assert(possible_backends().take(7) =~= seq![
        "AArch64"@,
        "AMDGPU"@,
        "ARM"@,
        "BPF"@,
        "Hexagon"@,
        "Lanai"@,
        "Mips"@,
    ]);
    assert(possible_backends().skip(7) =~= seq![
        "MSP430"@,
        "NVPTX"@,
        "PowerPC"@,
        "Sparc"@,
        "SystemZ"@,
        "X86"@,
        "XCore"@,
    ]);
}

} // verus!
