use vstd::prelude::*;

use crate::text;

verus! {

/// Why a bitcode buffer was rejected.
#[derive(Clone, Copy, Debug, PartialEq, Eq, Structural)]
pub enum BitcodeError {
    InvalidSize(usize),
    Misaligned,
    MissingMagicHeader,
    CursorOutOfBounds,
    UnexpectedEnd,
    UnsupportedAbbreviationEncoding(usize),
    UnsupportedAbbreviatedRecordID(usize),
    UnknownAbbreviation(usize),
    MissingArrayElementEncoding,
    InvalidArrayElementEncoding,
    MissingIdentificationString,
    ValueOutOfRangeU8 { value: u64 },
    ValueOutOfRangeU32 { value: u64 },
    ValueOutOfRangeUsize { value: u64 },
}

/// Why a read from a bit stream stopped: the stream is not valid bitcode, or a
/// field is so wide that it does not fit the machine arithmetic that decodes it.
#[derive(Clone, Copy, Debug, PartialEq, Eq, Structural)]
pub enum ReadError {
    Malformed(BitcodeError),
    Overflow,
}

/// The text that describes an error.
pub open spec fn bitcode_error_text(error: BitcodeError) -> Seq<char> {
    match error {
        BitcodeError::InvalidSize(n) => "bitcode has invalid size, expected at least 8 bytes, got "@
            + text::decimal(n as nat),
        BitcodeError::Misaligned => "bitcode is not 32-bit aligned"@,
        BitcodeError::MissingMagicHeader => "missing bitcode magic header"@,
        BitcodeError::CursorOutOfBounds => "bitcode cursor seek out of bounds"@,
        BitcodeError::UnexpectedEnd => "unexpected end of bitcode"@,
        BitcodeError::UnsupportedAbbreviationEncoding(n) =>
        "unsupported abbreviation encoding: "@ + text::decimal(n as nat),
        BitcodeError::UnsupportedAbbreviatedRecordID(n) => "unsupported abbreviated record ID: "@
            + text::decimal(n as nat),
        BitcodeError::UnknownAbbreviation(n) => "abbreviation "@ + text::decimal(n as nat)
            + " referenced before definition"@,
        BitcodeError::MissingArrayElementEncoding => "array abbreviation missing element encoding"@,
        BitcodeError::InvalidArrayElementEncoding => "array element encoding must be non-literal"@,
        BitcodeError::MissingIdentificationString => "mising identification string"@,
        BitcodeError::ValueOutOfRangeU8 { value } => "value "@ + text::decimal(value as nat)
            + " exceeds supported range for u8"@,
        BitcodeError::ValueOutOfRangeU32 { value } => "value "@ + text::decimal(value as nat)
            + " exceeds supported range for u32"@,
        BitcodeError::ValueOutOfRangeUsize { value } => "value "@ + text::decimal(value as nat)
            + " exceeds supported range for usize"@,
    }
}

impl BitcodeError {
    /// The text that describes the error.
    pub fn message(&self) -> (r: String)
        ensures
            r@ == bitcode_error_text(*self),
    {
        match self {
            BitcodeError::InvalidSize(n) => text::with_number(
                "bitcode has invalid size, expected at least 8 bytes, got ",
                *n as u64,
            ),
            BitcodeError::Misaligned => String::from_str("bitcode is not 32-bit aligned"),
            BitcodeError::MissingMagicHeader => String::from_str("missing bitcode magic header"),
            BitcodeError::CursorOutOfBounds => String::from_str(
                "bitcode cursor seek out of bounds",
            ),
            BitcodeError::UnexpectedEnd => String::from_str("unexpected end of bitcode"),
            BitcodeError::UnsupportedAbbreviationEncoding(n) => text::with_number(
                "unsupported abbreviation encoding: ",
                *n as u64,
            ),
            BitcodeError::UnsupportedAbbreviatedRecordID(n) => text::with_number(
                "unsupported abbreviated record ID: ",
                *n as u64,
            ),
            BitcodeError::UnknownAbbreviation(n) => text::around_number(
                "abbreviation ",
                *n as u64,
                " referenced before definition",
            ),
            BitcodeError::MissingArrayElementEncoding => String::from_str(
                "array abbreviation missing element encoding",
            ),
            BitcodeError::InvalidArrayElementEncoding => String::from_str(
                "array element encoding must be non-literal",
            ),
            BitcodeError::MissingIdentificationString => String::from_str(
                "mising identification string",
            ),
            BitcodeError::ValueOutOfRangeU8 { value } => text::around_number(
                "value ",
                *value,
                " exceeds supported range for u8",
            ),
            BitcodeError::ValueOutOfRangeU32 { value } => text::around_number(
                "value ",
                *value,
                " exceeds supported range for u32",
            ),
            BitcodeError::ValueOutOfRangeUsize { value } => text::around_number(
                "value ",
                *value,
                " exceeds supported range for usize",
            ),
        }
    }
}

/// The text of an error names the number that was not accepted, in decimal, whatever it is.
pub proof fn texts_hold_the_numbers(n: usize, value: u64)
    ensures
        bitcode_error_text(BitcodeError::InvalidSize(n))
            == "bitcode has invalid size, expected at least 8 bytes, got "@ + text::decimal(
            n as nat,
        ),
        bitcode_error_text(BitcodeError::UnsupportedAbbreviationEncoding(n))
            == "unsupported abbreviation encoding: "@ + text::decimal(n as nat),
        bitcode_error_text(BitcodeError::UnsupportedAbbreviatedRecordID(n))
            == "unsupported abbreviated record ID: "@ + text::decimal(n as nat),
        bitcode_error_text(BitcodeError::UnknownAbbreviation(n)) == "abbreviation "@
            + text::decimal(n as nat) + " referenced before definition"@,
        bitcode_error_text(BitcodeError::ValueOutOfRangeU8 { value }) == "value "@ + text::decimal(
            value as nat,
        ) + " exceeds supported range for u8"@,
        bitcode_error_text(BitcodeError::ValueOutOfRangeU32 { value }) == "value "@ + text::decimal(
            value as nat,
        ) + " exceeds supported range for u32"@,
        bitcode_error_text(BitcodeError::ValueOutOfRangeUsize { value }) == "value "@
            + text::decimal(value as nat) + " exceeds supported range for usize"@,
{
}

} // verus!
