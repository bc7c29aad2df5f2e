//! Errors of the linker.
use vstd::prelude::*;

use crate::text;

verus! {

/// Linker error. Paths are byte strings, and errors of the system are kept as
/// their messages.
#[derive(Debug)]
pub enum LinkerError {
    /// Invalid Cpu.
    InvalidCpu(String),
    /// Invalid LLVM target.
    InvalidTarget(String),
    /// An IO Error occurred while linking a module.
    IoError(Vec<u8>, String),
    /// The file is not bitcode, an object file containing bitcode or an archive
    /// file.
    InvalidInputType(Vec<u8>),
    /// Linking a module failed.
    LinkModuleError(Vec<u8>),
    /// Parsing an IR module failed.
    IRParseError(Vec<u8>, String),
    /// Linking a module included in an archive failed.
    LinkArchiveModuleError(Vec<u8>, Vec<u8>),
    /// Optimizing the BPF code failed.
    OptimizeError(String),
    /// Generating the BPF code failed.
    EmitCodeError(String),
    /// Writing the bitcode failed.
    WriteBitcodeError(String),
    /// Writing the LLVM IR failed.
    WriteIRError(String),
    /// There was an error extracting the bitcode embedded in an object file.
    EmbeddedBitcodeError(String),
    /// The input object file does not have embedded bitcode.
    MissingBitcodeSection(Vec<u8>),
    /// LLVM cannot create a module for linking.
    CreateModuleError,
}

/// The mathematical content of a `LinkerError`.
pub enum LinkerErrorModel {
    InvalidCpu(Seq<char>),
    InvalidTarget(Seq<char>),
    IoError(Seq<u8>, Seq<char>),
    InvalidInputType(Seq<u8>),
    LinkModuleError(Seq<u8>),
    IRParseError(Seq<u8>, Seq<char>),
    LinkArchiveModuleError(Seq<u8>, Seq<u8>),
    OptimizeError(Seq<char>),
    EmitCodeError(Seq<char>),
    WriteBitcodeError(Seq<char>),
    WriteIRError(Seq<char>),
    EmbeddedBitcodeError(Seq<char>),
    MissingBitcodeSection(Seq<u8>),
    CreateModuleError,
}

impl View for LinkerError {
    type V = LinkerErrorModel;

    open spec fn view(&self) -> LinkerErrorModel {
        match *self {
            LinkerError::InvalidCpu(s) => LinkerErrorModel::InvalidCpu(s@),
            LinkerError::InvalidTarget(s) => LinkerErrorModel::InvalidTarget(s@),
            LinkerError::IoError(p, s) => LinkerErrorModel::IoError(p@, s@),
            LinkerError::InvalidInputType(p) => LinkerErrorModel::InvalidInputType(p@),
            LinkerError::LinkModuleError(p) => LinkerErrorModel::LinkModuleError(p@),
            LinkerError::IRParseError(p, s) => LinkerErrorModel::IRParseError(p@, s@),
            LinkerError::LinkArchiveModuleError(a, p) => LinkerErrorModel::LinkArchiveModuleError(
                a@,
                p@,
            ),
            LinkerError::OptimizeError(s) => LinkerErrorModel::OptimizeError(s@),
            LinkerError::EmitCodeError(s) => LinkerErrorModel::EmitCodeError(s@),
            LinkerError::WriteBitcodeError(s) => LinkerErrorModel::WriteBitcodeError(s@),
            LinkerError::WriteIRError(s) => LinkerErrorModel::WriteIRError(s@),
            LinkerError::EmbeddedBitcodeError(s) => LinkerErrorModel::EmbeddedBitcodeError(s@),
            LinkerError::MissingBitcodeSection(p) => LinkerErrorModel::MissingBitcodeSection(p@),
            LinkerError::CreateModuleError => LinkerErrorModel::CreateModuleError,
        }
    }
}

/// The text that describes an error.
pub open spec fn error_text(error: LinkerErrorModel) -> Seq<char> {
    match error {
        LinkerErrorModel::InvalidCpu(s) => "invalid CPU "@ + s,
        LinkerErrorModel::InvalidTarget(s) => "invalid LLVM target "@ + s,
        LinkerErrorModel::IoError(p, s) => "`"@ + text::lossy_utf8(p) + "`: "@ + s,
        LinkerErrorModel::InvalidInputType(p) => "invalid input file `"@ + text::lossy_utf8(p)
            + "`"@,
        LinkerErrorModel::LinkModuleError(p) => "failure linking module "@ + text::lossy_utf8(p),
        LinkerErrorModel::IRParseError(p, s) => "failure parsing IR module `"@ + text::lossy_utf8(p)
            + "`: "@ + s,
        LinkerErrorModel::LinkArchiveModuleError(a, p) => "failure linking module "@
            + text::lossy_utf8(p) + " from "@ + text::lossy_utf8(a),
        LinkerErrorModel::OptimizeError(s) => "LLVMRunPasses failed: "@ + s,
        LinkerErrorModel::EmitCodeError(s) => "LLVMTargetMachineEmitToFile failed: "@ + s,
        LinkerErrorModel::WriteBitcodeError(s) => "LLVMWriteBitcodeToFile failed: "@ + s,
        LinkerErrorModel::WriteIRError(s) => "LLVMPrintModuleToFile failed: "@ + s,
        LinkerErrorModel::EmbeddedBitcodeError(s) => "error reading embedded bitcode: "@ + s,
        LinkerErrorModel::MissingBitcodeSection(p) => "no bitcode section found in "@
            + text::lossy_utf8(p),
        LinkerErrorModel::CreateModuleError => "failed to create module"@,
    }
}

/// Two texts in a row.
fn joined(first: &str, second: &str) -> (r: String)
    ensures
        r@ == first@ + second@,
{
    let mut r = String::from_str(first);
    r.append(second);
    r
}

/// A text and a path.
fn joined_path(first: &str, path: &Vec<u8>) -> (r: String)
    ensures
        r@ == first@ + text::lossy_utf8(path@),
{
    let shown = text::string_from_utf8_lossy(path.as_slice());
    joined(first, shown.as_str())
}

impl LinkerError {
    /// The text that describes the error.
    pub fn message(&self) -> (r: String)
        ensures
            r@ == error_text(self@),
    {
        match self {
            LinkerError::InvalidCpu(s) => joined("invalid CPU ", s.as_str()),
            LinkerError::InvalidTarget(s) => joined("invalid LLVM target ", s.as_str()),
            LinkerError::IoError(p, s) => {
                let mut r = joined_path("`", p);
                r.append("`: ");
                r.append(s.as_str());
                r
            },
            LinkerError::InvalidInputType(p) => {
                let mut r = joined_path("invalid input file `", p);
                r.append("`");
                r
            },
            LinkerError::LinkModuleError(p) => joined_path("failure linking module ", p),
            LinkerError::IRParseError(p, s) => {
                let mut r = joined_path("failure parsing IR module `", p);
                r.append("`: ");
                r.append(s.as_str());
                r
            },
            LinkerError::LinkArchiveModuleError(a, p) => {
                let mut r = joined_path("failure linking module ", p);
                r.append(" from ");
                let shown = text::string_from_utf8_lossy(a.as_slice());
                r.append(shown.as_str());
                r
            },
            LinkerError::OptimizeError(s) => joined("LLVMRunPasses failed: ", s.as_str()),
            LinkerError::EmitCodeError(s) => joined(
                "LLVMTargetMachineEmitToFile failed: ",
                s.as_str(),
            ),
            LinkerError::WriteBitcodeError(s) => joined(
                "LLVMWriteBitcodeToFile failed: ",
                s.as_str(),
            ),
            LinkerError::WriteIRError(s) => joined("LLVMPrintModuleToFile failed: ", s.as_str()),
            LinkerError::EmbeddedBitcodeError(s) => joined(
                "error reading embedded bitcode: ",
                s.as_str(),
            ),
            LinkerError::MissingBitcodeSection(p) => joined_path("no bitcode section found in ", p),
            LinkerError::CreateModuleError => String::from_str("failed to create module"),
        }
    }
}

/// The text of an error says what went wrong, and holds whatever path and message the error
/// has, as they are; of an entry of an archive it names the entry first.
pub proof fn texts_hold_what_errors_name(s: Seq<char>, p: Seq<u8>, a: Seq<u8>)
    ensures
        error_text(LinkerErrorModel::InvalidCpu(s)) == "invalid CPU "@ + s,
        error_text(LinkerErrorModel::InvalidTarget(s)) == "invalid LLVM target "@ + s,
        error_text(LinkerErrorModel::IoError(p, s)) == "`"@ + text::lossy_utf8(p) + "`: "@ + s,
        error_text(LinkerErrorModel::InvalidInputType(p)) == "invalid input file `"@
            + text::lossy_utf8(p) + "`"@,
        error_text(LinkerErrorModel::LinkModuleError(p)) == "failure linking module "@
            + text::lossy_utf8(p),
        error_text(LinkerErrorModel::IRParseError(p, s)) == "failure parsing IR module `"@
            + text::lossy_utf8(p) + "`: "@ + s,
        error_text(LinkerErrorModel::LinkArchiveModuleError(a, p)) == error_text(
            LinkerErrorModel::LinkModuleError(p),
        ) + " from "@ + text::lossy_utf8(a),
        error_text(LinkerErrorModel::OptimizeError(s)) == "LLVMRunPasses failed: "@ + s,
        error_text(LinkerErrorModel::EmitCodeError(s)) == "LLVMTargetMachineEmitToFile failed: "@
            + s,
        error_text(LinkerErrorModel::WriteBitcodeError(s)) == "LLVMWriteBitcodeToFile failed: "@ + s,
        error_text(LinkerErrorModel::WriteIRError(s)) == "LLVMPrintModuleToFile failed: "@ + s,
        error_text(LinkerErrorModel::EmbeddedBitcodeError(s)) == "error reading embedded bitcode: "@
            + s,
        error_text(LinkerErrorModel::MissingBitcodeSection(p)) == "no bitcode section found in "@
            + text::lossy_utf8(p),
        error_text(LinkerErrorModel::CreateModuleError) == "failed to create module"@,
{
}

} // verus!
