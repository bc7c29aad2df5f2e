//! Inputs of the linker.
use vstd::prelude::*;

use crate::bytes;

verus! {

/// Something to link: a file, or bytes in memory with a name.
pub enum LinkerInput<'a> {
    File { path: &'a [u8] },
    Buffer { name: &'a str, bytes: &'a [u8] },
}

impl<'a> LinkerInput<'a> {
    pub fn new_from_file(path: &'a [u8]) -> (r: Self)
        ensures
            r == (LinkerInput::File { path }),
    {
        LinkerInput::File { path }
    }

    pub fn new_from_buffer(name: &'a str, bytes: &'a [u8]) -> (r: Self)
        ensures
            r == (LinkerInput::Buffer { name, bytes }),
    {
        LinkerInput::Buffer { name, bytes }
    }
}

/// Linker input type.
#[derive(Clone, Copy, Debug, PartialEq, Eq, Structural)]
pub enum InputType {
    /// LLVM bitcode.
    Bitcode,
    /// ELF object file.
    Elf,
    /// Mach-O object file.
    MachO,
    /// Archive file. (.a)
    Archive,
    /// IR file (.ll)
    Ir,
}

/// How an input type is called.
pub open spec fn input_type_name(ty: InputType) -> Seq<char> {
    match ty {
        InputType::Bitcode => "bitcode"@,
        InputType::Elf => "elf"@,
        InputType::MachO => "Mach-O"@,
        InputType::Archive => "archive"@,
        InputType::Ir => "ir"@,
    }
}

impl InputType {
    pub fn as_str(&self) -> (r: &'static str)
        ensures
            r@ == input_type_name(*self),
    {
        match self {
            InputType::Bitcode => "bitcode",
            InputType::Elf => "elf",
            InputType::MachO => "Mach-O",
            InputType::Archive => "archive",
            InputType::Ir => "ir",
        }
    }
}

/// White space in ASCII.
pub open spec fn is_ascii_space(b: u8) -> bool {
    b == 0x20 || b == 0x09 || b == 0x0a || b == 0x0c || b == 0x0d
}

/// A byte string without the white space at its start.
pub open spec fn trimmed_start(data: Seq<u8>) -> Seq<u8>
    decreases data.len(),
{
    if data.len() > 0 && is_ascii_space(data[0]) {
        trimmed_start(data.skip(1))
    } else {
        data
    }
}

/// Whether a text looks like LLVM IR: it starts, after white space, with one of
/// the words that begin a module.
pub open spec fn looks_like_ir(data: Seq<u8>) -> bool {
    let trimmed = trimmed_start(data);
    ||| bytes::begins_with(trimmed, bytes::ascii("; ModuleID"@))
    ||| bytes::begins_with(trimmed, bytes::ascii("source_filename"@))
    ||| bytes::begins_with(trimmed, bytes::ascii("target datalayout"@))
    ||| bytes::begins_with(trimmed, bytes::ascii("target triple"@))
    ||| bytes::begins_with(trimmed, bytes::ascii("define "@))
    ||| bytes::begins_with(trimmed, bytes::ascii("declare "@))
    ||| bytes::begins_with(trimmed, bytes::ascii("!llvm"@))
}

/// The type of an input, told by its first bytes. Nothing shorter than eight
/// bytes is an input.
pub open spec fn input_type(data: Seq<u8>) -> Option<InputType> {
    if data.len() < 8 {
        None
    } else if bytes::begins_with(data, seq![0x42u8, 0x43, 0xc0, 0xde]) || bytes::begins_with(
        data,
        seq![0xdeu8, 0xc0, 0x17, 0x0b],
    ) {
        Some(InputType::Bitcode)
    } else if bytes::begins_with(data, seq![0x7fu8, 0x45, 0x4c, 0x46]) {
        Some(InputType::Elf)
    } else if bytes::begins_with(data, seq![0xcfu8, 0xfa, 0xed, 0xfe]) {
        Some(InputType::MachO)
    } else if bytes::begins_with(data, crate::archive::global_header()) {
        Some(InputType::Archive)
    } else if looks_like_ir(data) {
        Some(InputType::Ir)
    } else {
        None
    }
}

fn trim_ascii_start<'a>(data: &'a [u8]) -> (r: &'a [u8])
    ensures
        r@ == trimmed_start(data@),
{
    let mut start: usize = 0;
    assert(data@.skip(0) =~= data@);
    while start < data.len() && (data[start] == 0x20 || data[start] == 0x09 || data[start] == 0x0a
        || data[start] == 0x0c || data[start] == 0x0d)
        invariant
            start <= data@.len(),
            trimmed_start(data@) == trimmed_start(data@.skip(start as int)),
        decreases data@.len() - start,
    {
        assert(data@.skip(start as int).skip(1) =~= data@.skip(start + 1));
        start = start + 1;
    }
    let r = vstd::slice::slice_subrange(data, start, data.len());
    assert(r@ =~= data@.skip(start as int));
    r
}

/// Whether a text looks like LLVM IR.
pub fn is_llvm_ir(data: &[u8]) -> (r: bool)
    ensures
        r == looks_like_ir(data@),
{
    let trimmed = trim_ascii_start(data);
    proof {
        reveal_strlit("; ModuleID");
        reveal_strlit("source_filename");
        reveal_strlit("target datalayout");
        reveal_strlit("target triple");
        reveal_strlit("define ");
        reveal_strlit("declare ");
        reveal_strlit("!llvm");
    }
    bytes::starts_with(trimmed, bytes::literal("; ModuleID")) || bytes::starts_with(
        trimmed,
        bytes::literal("source_filename"),
    ) || bytes::starts_with(trimmed, bytes::literal("target datalayout")) || bytes::starts_with(
        trimmed,
        bytes::literal("target triple"),
    ) || bytes::starts_with(trimmed, bytes::literal("define ")) || bytes::starts_with(
        trimmed,
        bytes::literal("declare "),
    ) || bytes::starts_with(trimmed, bytes::literal("!llvm"))
}

fn has_magic(data: &[u8], magic: [u8; 4]) -> (r: bool)
    ensures
        r == bytes::begins_with(data@, magic@),
{
    bytes::starts_with(data, magic.as_slice())
}

/// Tells the type of an input by its first bytes.
pub fn detect_input_type(data: &[u8]) -> (r: Option<InputType>)
    ensures
        r == input_type(data@),
{
    if data.len() < 8 {
        return None;
    }
    let wrapped: [u8; 4] = [0xde, 0xc0, 0x17, 0x0b];
    let raw: [u8; 4] = [0x42, 0x43, 0xc0, 0xde];
    let elf: [u8; 4] = [0x7f, 0x45, 0x4c, 0x46];
    let macho: [u8; 4] = [0xcf, 0xfa, 0xed, 0xfe];
    let archive: [u8; 8] = [0x21, 0x3c, 0x61, 0x72, 0x63, 0x68, 0x3e, 0x0a];
    assert(wrapped@ =~= seq![0xdeu8, 0xc0, 0x17, 0x0b]);
    assert(raw@ =~= seq![0x42u8, 0x43, 0xc0, 0xde]);
    assert(elf@ =~= seq![0x7fu8, 0x45, 0x4c, 0x46]);
    assert(macho@ =~= seq![0xcfu8, 0xfa, 0xed, 0xfe]);
    assert(archive@ =~= crate::archive::global_header());
    if has_magic(data, raw) || has_magic(data, wrapped) {
        Some(InputType::Bitcode)
    } else if has_magic(data, elf) {
        Some(InputType::Elf)
    } else if has_magic(data, macho) {
        Some(InputType::MachO)
    } else if bytes::starts_with(data, archive.as_slice()) {
        Some(InputType::Archive)
    } else if is_llvm_ir(data) {
        Some(InputType::Ir)
    } else {
        None
    }
}

proof fn lemma_begins(data: Seq<u8>, prefix: Seq<u8>)
    ensures
        bytes::begins_with(data, prefix) <==> prefix.len() <= data.len() && data.take(
            prefix.len() as int,
        ) == prefix,
{
    if prefix.len() <= data.len() {
        assert(data.subrange(0, prefix.len() as int) =~= data.take(prefix.len() as int));
    }
}

proof fn lemma_trimmed(data: Seq<u8>, k: int)
    requires
        0 <= k <= data.len(),
        forall|i: int|
            0 <= i < k ==> (#[trigger] data[i] == 0x20 || 0x09 <= data[i] <= 0x0a || 0x0c <= data[i]
                <= 0x0d),
        k < data.len() ==> !(data[k] == 0x20 || 0x09 <= data[k] <= 0x0a || 0x0c <= data[k] <= 0x0d),
    ensures
        trimmed_start(data) == data.skip(k),
    decreases k,
{
    if k == 0 {
        assert(data.skip(0) =~= data);
    } else {
        let rest = data.skip(1);
        assert(data[0] == 0x20 || 0x09 <= data[0] <= 0x0a || 0x0c <= data[0] <= 0x0d);
        assert forall|i: int| 0 <= i < k - 1 implies (#[trigger] rest[i] == 0x20 || 0x09 <= rest[i]
            <= 0x0a || 0x0c <= rest[i] <= 0x0d) by {
            assert(rest[i] == data[i + 1]);
        }
        lemma_trimmed(rest, k - 1);
        assert(rest.skip(k - 1) =~= data.skip(k));
    }
}

/// An input of at least eight bytes is told by the first of them: the two signatures of
/// bitcode, those of ELF and of Mach-O for 64 bits, and that of an archive.
pub proof fn signatures_tell_the_type(data: Seq<u8>)
    ensures
        data.len() < 8 ==> input_type(data) is None,
        input_type(data) == Some(InputType::Bitcode) <==> data.len() >= 8 && (data.take(4) == seq![
            0x42u8,
            0x43,
            0xc0,
            0xde,
        ] || data.take(4) == seq![0xdeu8, 0xc0, 0x17, 0x0b]),
        input_type(data) == Some(InputType::Elf) <==> data.len() >= 8 && data.take(4) == seq![
            0x7fu8,
            0x45,
            0x4c,
            0x46,
        ],
        input_type(data) == Some(InputType::MachO) <==> data.len() >= 8 && data.take(4) == seq![
            0xcfu8,
            0xfa,
            0xed,
            0xfe,
        ],
        input_type(data) == Some(InputType::Archive) <==> data.len() >= 8 && data.take(8) == seq![
            0x21u8,
            0x3c,
            0x61,
            0x72,
            0x63,
            0x68,
            0x3e,
            0x0a,
        ],
{
    let bitcode = seq![0x42u8, 0x43, 0xc0, 0xde];
    let wrapper = seq![0xdeu8, 0xc0, 0x17, 0x0b];
    let elf = seq![0x7fu8, 0x45, 0x4c, 0x46];
    let macho = seq![0xcfu8, 0xfa, 0xed, 0xfe];
    let archive = seq![0x21u8, 0x3c, 0x61, 0x72, 0x63, 0x68, 0x3e, 0x0a];
    lemma_begins(data, bitcode);
    lemma_begins(data, wrapper);
    lemma_begins(data, elf);
    lemma_begins(data, macho);
    lemma_begins(data, archive);
    if data.len() >= 8 {
        assert(data.take(8)[0] == data[0] && data.take(4)[0] == data[0]);
        assert(bitcode[0] == 0x42 && wrapper[0] == 0xde && elf[0] == 0x7f && macho[0] == 0xcf
            && archive[0] == 0x21);
    }
}

/// An input of at least eight bytes without a signature is IR exactly if, behind any
/// white space, it starts with one of the words that begin a module.
pub proof fn words_tell_ir(data: Seq<u8>, k: int)
    requires
        0 <= k <= data.len(),
        forall|i: int|
            0 <= i < k ==> (#[trigger] data[i] == 0x20 || 0x09 <= data[i] <= 0x0a || 0x0c <= data[i]
                <= 0x0d),
        k < data.len() ==> !(data[k] == 0x20 || 0x09 <= data[k] <= 0x0a || 0x0c <= data[k] <= 0x0d),
        data.len() >= 8,
        input_type(data) != Some(InputType::Bitcode),
        input_type(data) != Some(InputType::Elf),
        input_type(data) != Some(InputType::MachO),
        input_type(data) != Some(InputType::Archive),
    ensures
        input_type(data) == (if bytes::begins_with(data.skip(k), bytes::ascii("; ModuleID"@))
            || bytes::begins_with(data.skip(k), bytes::ascii("source_filename"@))
            || bytes::begins_with(data.skip(k), bytes::ascii("target datalayout"@))
            || bytes::begins_with(data.skip(k), bytes::ascii("target triple"@))
            || bytes::begins_with(data.skip(k), bytes::ascii("define "@)) || bytes::begins_with(
            data.skip(k),
            bytes::ascii("declare "@),
        ) || bytes::begins_with(data.skip(k), bytes::ascii("!llvm"@)) {
            Some(InputType::Ir)
        } else {
            None
        }),
{
    lemma_trimmed(data, k);
}

/// Every type of input is called by a name of its own.
pub proof fn input_types_have_names(ty: InputType)
    ensures
        input_type_name(ty) == (match ty {
            InputType::Bitcode => "bitcode"@,
            InputType::Elf => "elf"@,
            InputType::MachO => "Mach-O"@,
            InputType::Archive => "archive"@,
            InputType::Ir => "ir"@,
        }),
{
}

} // verus!
