//! Diagnostics that LLVM reports.
use vstd::prelude::*;

use crate::bytes;

verus! {

/// How serious a diagnostic is.
#[derive(Clone, Copy, Debug, PartialEq, Eq, Structural)]
pub enum Severity {
    Error,
    Warning,
    Remark,
    Note,
}

/// Where a diagnostic is written to.
#[derive(Clone, Copy, Debug, PartialEq, Eq, Structural)]
pub enum LogLevel {
    Error,
    Warn,
    Debug,
}

/// A line of the log: its level, and what stands in front of the message.
#[derive(Clone, Copy, Debug, PartialEq, Eq, Structural)]
pub struct LogLine {
    pub level: LogLevel,
    pub prefix: Prefix,
}

/// What stands in front of a logged message.
#[derive(Clone, Copy, Debug, PartialEq, Eq, Structural)]
pub enum Prefix {
    Llvm,
    Remark,
    Note,
}

/// A complaint about a call of a builtin that is defined by the program. LLVM
/// raises it although the call can be linked.
pub open spec fn is_builtin_complaint(message: Seq<u8>) -> bool {
    ||| bytes::finishes_with(
        message,
        bytes::ascii("A call to built-in function 'memcpy' is not supported.\n"@),
    )
    ||| bytes::finishes_with(
        message,
        bytes::ascii("A call to built-in function 'memmove' is not supported.\n"@),
    )
    ||| bytes::finishes_with(
        message,
        bytes::ascii("A call to built-in function 'memset' is not supported.\n"@),
    )
    ||| bytes::finishes_with(
        message,
        bytes::ascii("A call to built-in function 'memcmp' is not supported.\n"@),
    )
    ||| bytes::finishes_with(
        message,
        bytes::ascii("A call to built-in function 'bcmp' is not supported.\n"@),
    )
    ||| bytes::finishes_with(
        message,
        bytes::ascii("A call to built-in function 'strlen' is not supported.\n"@),
    )
}

/// Whether a diagnostic counts as an error.
pub open spec fn counts_as_error(severity: Severity, message: Seq<u8>) -> bool {
    severity == Severity::Error && !is_builtin_complaint(message)
}

/// How a diagnostic is logged.
pub open spec fn log_line(severity: Severity, message: Seq<u8>) -> Option<LogLine> {
    match severity {
        Severity::Error => if is_builtin_complaint(message) {
            None
        } else {
            Some(LogLine { level: LogLevel::Error, prefix: Prefix::Llvm })
        },
        Severity::Warning => Some(LogLine { level: LogLevel::Warn, prefix: Prefix::Llvm }),
        Severity::Remark => Some(LogLine { level: LogLevel::Debug, prefix: Prefix::Remark }),
        Severity::Note => Some(LogLine { level: LogLevel::Debug, prefix: Prefix::Note }),
    }
}

/// Remembers whether LLVM has reported an error.
pub struct DiagnosticHandler {
    pub has_errors: bool,
}

fn is_complaint(message: &[u8]) -> (r: bool)
    ensures
        r == is_builtin_complaint(message@),
{
    proof {
        reveal_strlit("A call to built-in function 'memcpy' is not supported.\n");
        reveal_strlit("A call to built-in function 'memmove' is not supported.\n");
        reveal_strlit("A call to built-in function 'memset' is not supported.\n");
        reveal_strlit("A call to built-in function 'memcmp' is not supported.\n");
        reveal_strlit("A call to built-in function 'bcmp' is not supported.\n");
        reveal_strlit("A call to built-in function 'strlen' is not supported.\n");
    }
    bytes::ends_with(
        message,
        bytes::literal("A call to built-in function 'memcpy' is not supported.\n"),
    ) || bytes::ends_with(
        message,
        bytes::literal("A call to built-in function 'memmove' is not supported.\n"),
    ) || bytes::ends_with(
        message,
        bytes::literal("A call to built-in function 'memset' is not supported.\n"),
    ) || bytes::ends_with(
        message,
        bytes::literal("A call to built-in function 'memcmp' is not supported.\n"),
    ) || bytes::ends_with(
        message,
        bytes::literal("A call to built-in function 'bcmp' is not supported.\n"),
    ) || bytes::ends_with(
        message,
        bytes::literal("A call to built-in function 'strlen' is not supported.\n"),
    )
}

impl DiagnosticHandler {
    pub fn new() -> (r: Self)
        ensures
            !r.has_errors,
    {
        DiagnosticHandler { has_errors: false }
    }

    /// Takes note of a diagnostic, and says how it is logged.
    pub fn handle_diagnostic(&mut self, severity: Severity, message: &[u8]) -> (r: Option<LogLine>)
        ensures
            final(self).has_errors == (old(self).has_errors || counts_as_error(
                severity,
                message@,
            )),
            r == log_line(severity, message@),
    {
        match severity {
            Severity::Error => {
                if is_complaint(message) {
                    return None;
                }
                self.has_errors = true;
                Some(LogLine { level: LogLevel::Error, prefix: Prefix::Llvm })
            },
            Severity::Warning => Some(LogLine { level: LogLevel::Warn, prefix: Prefix::Llvm }),
            Severity::Remark => Some(LogLine { level: LogLevel::Debug, prefix: Prefix::Remark }),
            Severity::Note => Some(LogLine { level: LogLevel::Debug, prefix: Prefix::Note }),
        }
    }
}

/// Whether a list of diagnostics has left an error behind.
pub open spec fn errors_after(diagnostics: Seq<(Severity, Seq<u8>)>, n: nat) -> bool
    decreases n,
{
    n > 0 && (errors_after(diagnostics, (n - 1) as nat) || counts_as_error(
        diagnostics[n - 1].0,
        diagnostics[n - 1].1,
    ))
}

/// An error is remembered for good: there is one after a list of diagnostics
/// exactly when one of them counts as an error.
pub proof fn errors_are_remembered(diagnostics: Seq<(Severity, Seq<u8>)>, n: nat)
    requires
        n <= diagnostics.len(),
    ensures
        errors_after(diagnostics, n) <==> exists|i: int|
            0 <= i < n && counts_as_error(
                (#[trigger] diagnostics[i]).0,
                diagnostics[i].1,
            ),
    decreases n,
{
    if n > 0 {
        errors_are_remembered(diagnostics, (n - 1) as nat);
        if counts_as_error(diagnostics[n - 1].0, diagnostics[n - 1].1) {
            assert(counts_as_error(diagnostics[n - 1].0, diagnostics[n - 1].1));
        }
    }
}

/// An error counts unless it is the complaint about a call of one of six builtins, and is
/// logged as one exactly if it counts. Nothing else counts; warnings are logged as such,
/// and the rest for debugging.
pub proof fn errors_count_but_for_complaints(severity: Severity, message: Seq<u8>, builtin: int)
    requires
        0 <= builtin < 6,
    ensures
        ({
            let complaints = seq![
                "A call to built-in function 'memcpy' is not supported.\n"@,
                "A call to built-in function 'memmove' is not supported.\n"@,
                "A call to built-in function 'memset' is not supported.\n"@,
                "A call to built-in function 'memcmp' is not supported.\n"@,
                "A call to built-in function 'bcmp' is not supported.\n"@,
                "A call to built-in function 'strlen' is not supported.\n"@,
            ];
            let complains = |i: int|
                exists|before: Seq<u8>|
                    message == #[trigger] (before + bytes::ascii(complaints[i]));
            &&& complains(builtin) ==> !counts_as_error(severity, message)
            &&& severity == Severity::Error && !complains(0) && !complains(1) && !complains(2)
                && !complains(3) && !complains(4) && !complains(5) ==> counts_as_error(
                severity,
                message,
            )
            &&& severity != Severity::Error ==> !counts_as_error(severity, message)
            &&& match severity {
                Severity::Error => {
                    &&& log_line(severity, message) is Some <==> counts_as_error(severity, message)
                    &&& log_line(severity, message) is Some ==> log_line(severity, message) == Some(
                        LogLine { level: LogLevel::Error, prefix: Prefix::Llvm },
                    )
                },
                Severity::Warning => log_line(severity, message) == Some(
                    LogLine { level: LogLevel::Warn, prefix: Prefix::Llvm },
                ),
                Severity::Remark => log_line(severity, message) == Some(
                    LogLine { level: LogLevel::Debug, prefix: Prefix::Remark },
                ),
                Severity::Note => log_line(severity, message) == Some(
                    LogLine { level: LogLevel::Debug, prefix: Prefix::Note },
                ),
            }
        }),
{
    let complaints = seq![
        "A call to built-in function 'memcpy' is not supported.\n"@,
        "A call to built-in function 'memmove' is not supported.\n"@,
        "A call to built-in function 'memset' is not supported.\n"@,
        "A call to built-in function 'memcmp' is not supported.\n"@,
        "A call to built-in function 'bcmp' is not supported.\n"@,
        "A call to built-in function 'strlen' is not supported.\n"@,
    ];
    bytes::ending_is_preceded_by_the_rest(message, bytes::ascii(complaints[0]));
    bytes::ending_is_preceded_by_the_rest(message, bytes::ascii(complaints[1]));
    bytes::ending_is_preceded_by_the_rest(message, bytes::ascii(complaints[2]));
    bytes::ending_is_preceded_by_the_rest(message, bytes::ascii(complaints[3]));
    bytes::ending_is_preceded_by_the_rest(message, bytes::ascii(complaints[4]));
    bytes::ending_is_preceded_by_the_rest(message, bytes::ascii(complaints[5]));
}

} // verus!
