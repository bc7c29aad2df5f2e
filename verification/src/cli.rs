//! Values of the command line.
use vstd::prelude::*;

use crate::bytes;
use crate::options::{OptLevel, OutputType};
use crate::text;

verus! {

/// A value of the command line that is not valid.
#[derive(Debug)]
pub enum CliError {
    InvalidOptimization(String),
    InvalidOutputType(String),
}

/// The text that describes an error.
pub open spec fn cli_error_text(error: CliError) -> Seq<char> {
    match error {
        CliError::InvalidOptimization(s) =>
        "optimization level needs to be between 0-3, s or z (instead was `"@ + s@ + "`)"@,
        CliError::InvalidOutputType(s) => "unknown emission type: `"@ + s@
            + "` - expected one of: `llvm-bc`, `asm`, `llvm-ir`, `obj`"@,
    }
}

impl CliError {
    /// The text that describes the error.
    pub fn message(&self) -> (r: String)
        ensures
            r@ == cli_error_text(*self),
    {
        match self {
            CliError::InvalidOptimization(s) => {
                let mut r = String::from_str(
                    "optimization level needs to be between 0-3, s or z (instead was `",
                );
                r.append(s.as_str());
                r.append("`)");
                r
            },
            CliError::InvalidOutputType(s) => {
                let mut r = String::from_str("unknown emission type: `");
                r.append(s.as_str());
                r.append("` - expected one of: `llvm-bc`, `asm`, `llvm-ir`, `obj`");
                r
            },
        }
    }
}

/// How an optimization level is written on the command line.
pub open spec fn opt_level_name(level: OptLevel) -> Seq<char> {
    match level {
        OptLevel::No => "0"@,
        OptLevel::Less => "1"@,
        OptLevel::Default => "2"@,
        OptLevel::Aggressive => "3"@,
        OptLevel::Size => "s"@,
        OptLevel::SizeMin => "z"@,
    }
}

/// How an output type is written on the command line.
pub open spec fn output_type_name(output_type: OutputType) -> Seq<char> {
    match output_type {
        OutputType::Bitcode => "llvm-bc"@,
        OutputType::Assembly => "asm"@,
        OutputType::LlvmAssembly => "llvm-ir"@,
        OutputType::Object => "obj"@,
    }
}

/// An optimization level on the command line.
#[derive(Clone, Copy, Debug, PartialEq, Eq, Structural)]
pub struct CliOptLevel(pub OptLevel);

impl CliOptLevel {
    /// Reads an optimization level.
    pub fn from_name(s: &str) -> (r: Result<Self, CliError>)
        ensures
            match r {
                Ok(level) => s@ == opt_level_name(level.0),
                Err(e) => (forall|level: OptLevel| s@ != #[trigger] opt_level_name(level)) && (e
                    matches CliError::InvalidOptimization(t) && t@ == s@),
            },
    {
        let level: OptLevel = if text::same(s, "0") {
            OptLevel::No
        } else if text::same(s, "1") {
            OptLevel::Less
        } else if text::same(s, "2") {
            OptLevel::Default
        } else if text::same(s, "3") {
            OptLevel::Aggressive
        } else if text::same(s, "s") {
            OptLevel::Size
        } else if text::same(s, "z") {
            OptLevel::SizeMin
        } else {
            assert forall|level: OptLevel| s@ != #[trigger] opt_level_name(level) by {
                match level {
                    OptLevel::No => {},
                    OptLevel::Less => {},
                    OptLevel::Default => {},
                    OptLevel::Aggressive => {},
                    OptLevel::Size => {},
                    OptLevel::SizeMin => {},
                }
            }
            return Err(CliError::InvalidOptimization(String::from_str(s)));
        };
        Ok(CliOptLevel(level))
    }
}

/// An output type on the command line.
#[derive(Clone, Copy, Debug, PartialEq, Eq, Structural)]
pub struct CliOutputType(pub OutputType);

impl CliOutputType {
    /// Reads an output type.
    pub fn from_name(s: &str) -> (r: Result<Self, CliError>)
        ensures
            match r {
                Ok(output_type) => s@ == output_type_name(output_type.0),
                Err(e) => (forall|output_type: OutputType|
                    s@ != #[trigger] output_type_name(output_type)) && (e
                    matches CliError::InvalidOutputType(t) && t@ == s@),
            },
    {
        let output_type: OutputType = if text::same(s, "llvm-bc") {
            OutputType::Bitcode
        } else if text::same(s, "asm") {
            OutputType::Assembly
        } else if text::same(s, "llvm-ir") {
            OutputType::LlvmAssembly
        } else if text::same(s, "obj") {
            OutputType::Object
        } else {
            assert forall|output_type: OutputType|
                s@ != #[trigger] output_type_name(output_type) by {
                match output_type {
                    OutputType::Bitcode => {},
                    OutputType::Assembly => {},
                    OutputType::LlvmAssembly => {},
                    OutputType::Object => {},
                }
            }
            return Err(CliError::InvalidOutputType(String::from_str(s)));
        };
        Ok(CliOutputType(output_type))
    }
}

impl std::str::FromStr for CliOptLevel {
    type Err = CliError;

    fn from_str(s: &str) -> (r: Result<Self, Self::Err>)
        ensures
            match r {
                Ok(level) => s@ == opt_level_name(level.0),
                Err(e) => (forall|level: OptLevel| s@ != #[trigger] opt_level_name(level)) && (e
                    matches CliError::InvalidOptimization(t) && t@ == s@),
            },
    {
        CliOptLevel::from_name(s)
    }
}

impl std::str::FromStr for CliOutputType {
    type Err = CliError;

    fn from_str(s: &str) -> (r: Result<Self, Self::Err>)
        ensures
            match r {
                Ok(output_type) => s@ == output_type_name(output_type.0),
                Err(e) => (forall|output_type: OutputType|
                    s@ != #[trigger] output_type_name(output_type)) && (e
                    matches CliError::InvalidOutputType(t) && t@ == s@),
            },
    {
        CliOutputType::from_name(s)
    }
}

/// The output type that counts: the first one that was given.
pub fn chosen_output_type(emit: &Vec<CliOutputType>) -> (r: OutputType)
    requires
        emit@.len() > 0,
    ensures
        r == emit@[0].0,
{
    emit[0].0
}

/// The optimization level that counts: the last one that was given.
pub fn chosen_opt_level(optimize: &Vec<CliOptLevel>) -> (r: OptLevel)
    requires
        optimize@.len() > 0,
    ensures
        r == optimize@.last().0,
{
    optimize[optimize.len() - 1].0
}

/// The symbols to export: the lines of the file that lists them, and then those
/// that were given one by one.
pub fn exported_names(file: Option<&[u8]>, export: &Vec<Vec<u8>>) -> (r: Vec<Vec<u8>>)
    ensures
        bytes::views(r@) == (match file {
            Some(contents) => bytes::lines(contents@),
            None => Seq::empty(),
        }) + bytes::views(export@),
{
    let mut names: Vec<Vec<u8>> = match file {
        Some(contents) => bytes::split_lines(contents),
        None => Vec::new(),
    };
    let ghost listed = bytes::views(names@);
    let ghost more = bytes::views(export@);
    proof {
        if file is None {
            assert(listed =~= Seq::<Seq<u8>>::empty());
        }
    }
    let mut i: usize = 0;
    while i < export.len()
        invariant
            i <= export@.len(),
            more == bytes::views(export@),
            bytes::views(names@) =~= listed + more.take(i as int),
        decreases export@.len() - i,
    {
        let ghost before = names@;
        let name = bytes::copy(export[i].as_slice());
        assert(name@ == more[i as int]);
        names.push(name);
        assert(bytes::views(names@) =~= bytes::views(before).push(name@));
        i = i + 1;
    }
    assert(more.take(more.len() as int) =~= more);
    names
}

/// An argument as the parser of the command line takes it: the flavor of the
/// linker is given with a single dash.
pub fn normalized_arg(arg: &str) -> (r: String)
    ensures
        r@ == (if arg@ == "-flavor"@ {
            "--flavor"@
        } else {
            arg@
        }),
{
    if text::same(arg, "-flavor") {
        String::from_str("--flavor")
    } else {
        String::from_str(arg)
    }
}

/// The text of an error names the value that was not accepted, whatever it is.
pub proof fn texts_hold_the_values(optimization: String, output_type: String)
    ensures
        cli_error_text(CliError::InvalidOptimization(optimization))
            == "optimization level needs to be between 0-3, s or z (instead was `"@ + optimization@
            + "`)"@,
        cli_error_text(CliError::InvalidOutputType(output_type)) == "unknown emission type: `"@
            + output_type@ + "` - expected one of: `llvm-bc`, `asm`, `llvm-ir`, `obj`"@,
{
}

/// Optimization levels are called `0` to `3`, `s` and `z`, and output types `llvm-bc`, `asm`,
/// `llvm-ir` and `obj`; no two of them have the same name.
pub proof fn names_are_distinct(a: OptLevel, b: OptLevel, c: OutputType, d: OutputType)
    ensures
        opt_level_name(OptLevel::No) == "0"@ && opt_level_name(OptLevel::Less) == "1"@
            && opt_level_name(OptLevel::Default) == "2"@ && opt_level_name(OptLevel::Aggressive)
            == "3"@ && opt_level_name(OptLevel::Size) == "s"@ && opt_level_name(OptLevel::SizeMin)
            == "z"@,
        output_type_name(OutputType::Bitcode) == "llvm-bc"@ && output_type_name(
            OutputType::Assembly,
        ) == "asm"@ && output_type_name(OutputType::LlvmAssembly) == "llvm-ir"@
            && output_type_name(OutputType::Object) == "obj"@,
        opt_level_name(a) == opt_level_name(b) ==> a == b,
        output_type_name(c) == output_type_name(d) ==> c == d,
{
    reveal_strlit("0");
    reveal_strlit("1");
    reveal_strlit("2");
    reveal_strlit("3");
    reveal_strlit("s");
    reveal_strlit("z");
    assert("0"@[0] == '0' && "1"@[0] == '1' && "2"@[0] == '2');
    assert("3"@[0] == '3' && "s"@[0] == 's' && "z"@[0] == 'z');
    reveal_strlit("llvm-bc");
    reveal_strlit("asm");
    reveal_strlit("llvm-ir");
    reveal_strlit("obj");
    assert("llvm-bc"@[5] == 'b' && "llvm-ir"@[5] == 'i');
    assert("llvm-bc"@.len() == 7 && "llvm-ir"@.len() == 7);
    assert("asm"@[0] == 'a' && "obj"@[0] == 'o');
    assert("asm"@.len() == 3 && "obj"@.len() == 3);
    match a {
        OptLevel::No => {},
        OptLevel::Less => {},
        OptLevel::Default => {},
        OptLevel::Aggressive => {},
        OptLevel::Size => {},
        OptLevel::SizeMin => {},
    }
    match b {
        OptLevel::No => {},
        OptLevel::Less => {},
        OptLevel::Default => {},
        OptLevel::Aggressive => {},
        OptLevel::Size => {},
        OptLevel::SizeMin => {},
    }
    match c {
        OutputType::Bitcode => {},
        OutputType::Assembly => {},
        OutputType::LlvmAssembly => {},
        OutputType::Object => {},
    }
    match d {
        OutputType::Bitcode => {},
        OutputType::Assembly => {},
        OutputType::LlvmAssembly => {},
        OutputType::Object => {},
    }
}

} // verus!
