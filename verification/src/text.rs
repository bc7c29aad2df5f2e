//! Conversions between bytes and text that the standard library provides.
use vstd::prelude::*;
use vstd::utf8::*;

verus! {

/// The text that `bytes` stand for once every ill-formed part has been replaced.
pub uninterp spec fn lossy_utf8(bytes: Seq<u8>) -> Seq<char>;

/// Calls `String::from_utf8_lossy`. The text depends on the bytes alone, and
/// well-formed UTF-8 is decoded as it stands.
#[verifier::external_body]
pub(crate) fn string_from_utf8_lossy(bytes: &[u8]) -> (r: String)
    ensures
        r@ == lossy_utf8(bytes@),
        valid_utf8(bytes@) ==> r@ == decode_utf8(bytes@),
{
    String::from_utf8_lossy(bytes).into_owned()
}

/// The characters that Unicode counts as white space.
pub open spec fn is_white_space(c: char) -> bool {
    let code = c as u32;
    ||| 0x9 <= code <= 0xd
    ||| code == 0x20 || code == 0x85 || code == 0xa0 || code == 0x1680
    ||| 0x2000 <= code <= 0x200a
    ||| code == 0x2028 || code == 0x2029 || code == 0x202f || code == 0x205f || code == 0x3000
}

/// A text without the white space at its end.
pub open spec fn trimmed_end(text: Seq<char>) -> Seq<char>
    decreases text.len(),
{
    if text.len() > 0 && is_white_space(text.last()) {
        trimmed_end(text.drop_last())
    } else {
        text
    }
}

/// What a digit counts. Letters of either case follow the decimal digits.
pub open spec fn digit_value(c: char) -> Option<nat> {
    if '0' <= c <= '9' {
        Some((c as u32 - '0' as u32) as nat)
    } else if 'a' <= c <= 'z' {
        Some((c as u32 - 'a' as u32 + 10) as nat)
    } else if 'A' <= c <= 'Z' {
        Some((c as u32 - 'A' as u32 + 10) as nat)
    } else {
        None
    }
}

/// The number that digits stand for, or `None` where one is not a digit of the
/// radix.
pub open spec fn digits_value(digits: Seq<char>, radix: u32) -> Option<nat>
    decreases digits.len(),
{
    if digits.len() == 0 {
        Some(0)
    } else {
        match (digits_value(digits.drop_last(), radix), digit_value(digits.last())) {
            (Some(high), Some(digit)) => if digit < radix {
                Some(high * radix as nat + digit)
            } else {
                None
            },
            _ => None,
        }
    }
}

/// The number that a text stands for: digits, at least one, with a plus sign in
/// front of them or none. A number beyond 64 bits is refused.
pub open spec fn radix_value(text: Seq<char>, radix: u32) -> Option<u64> {
    let digits = if text.len() > 0 && text[0] == '+' {
        text.skip(1)
    } else {
        text
    };
    if digits.len() == 0 {
        None
    } else {
        match digits_value(digits, radix) {
            Some(value) => if value <= u64::MAX {
                Some(value as u64)
            } else {
                None
            },
            None => None,
        }
    }
}

/// Calls `std::str::from_utf8`: well-formed UTF-8 is decoded, anything else is
/// refused.
#[verifier::external_body]
pub(crate) fn str_from_utf8<'a>(bytes: &'a [u8]) -> (r: Option<&'a str>)
    ensures
        r is Some <==> valid_utf8(bytes@),
        r is Some ==> r->Some_0@ == decode_utf8(bytes@),
{
    std::str::from_utf8(bytes).ok()
}

/// Calls `str::trim_end`, which removes all white space at the end of a text.
#[verifier::external_body]
pub(crate) fn trim_end<'a>(text: &'a str) -> (r: &'a str)
    ensures
        r@ == trimmed_end(text@),
{
    text.trim_end()
}

/// Calls `u64::from_str_radix`, which panics on a radix outside 2 to 36. It reads
/// an optional plus sign and digits of the radix, and refuses everything else.
#[verifier::external_body]
pub(crate) fn u64_from_str_radix(text: &str, radix: u32) -> (r: Option<u64>)
    requires
        2 <= radix <= 36,
    ensures
        r == radix_value(text@, radix),
{
    u64::from_str_radix(text, radix).ok()
}

/// Whether two texts are the same.
pub fn same(a: &str, b: &str) -> (r: bool)
    ensures
        r == (a@ == b@),
{
    proof {
        encode_utf8_decode_utf8(a@);
        encode_utf8_decode_utf8(b@);
    }
    crate::bytes::equal(a.as_bytes(), b.as_bytes())
}

/// A decimal digit.
pub open spec fn digit(d: nat) -> char {
    (0x30 + d) as char
}

/// The decimal digits of a number.
pub open spec fn decimal(n: nat) -> Seq<char>
    decreases n,
{
    if n < 10 {
        seq![digit(n)]
    } else {
        decimal(n / 10).push(digit(n % 10))
    }
}

fn digit_text(d: u64) -> (r: &'static str)
    requires
        d < 10,
    ensures
        r@ == seq![digit(d as nat)],
{
    proof {
        reveal_strlit("0");
        reveal_strlit("1");
        reveal_strlit("2");
        reveal_strlit("3");
        reveal_strlit("4");
        reveal_strlit("5");
        reveal_strlit("6");
        reveal_strlit("7");
        reveal_strlit("8");
        reveal_strlit("9");
    }
    let r: &'static str = if d == 0 {
        "0"
    } else if d == 1 {
        "1"
    } else if d == 2 {
        "2"
    } else if d == 3 {
        "3"
    } else if d == 4 {
        "4"
    } else if d == 5 {
        "5"
    } else if d == 6 {
        "6"
    } else if d == 7 {
        "7"
    } else if d == 8 {
        "8"
    } else {
        "9"
    };
    assert(r@ =~= seq![digit(d as nat)]);
    r
}

/// Writes a number in decimal.
pub fn decimal_text(n: u64) -> (r: String)
    ensures
        r@ == decimal(n as nat),
    decreases n,
{
    if n < 10 {
        String::from_str(digit_text(n))
    } else {
        let mut r = decimal_text(n / 10);
        r.append(digit_text(n % 10));
        assert(r@ =~= decimal(n as nat));
        r
    }
}

/// A text with a number at its end.
pub fn with_number(before: &str, n: u64) -> (r: String)
    ensures
        r@ == before@ + decimal(n as nat),
{
    let mut r = String::from_str(before);
    r.append(decimal_text(n).as_str());
    r
}

/// A number between two texts.
pub fn around_number(before: &str, n: u64, after: &str) -> (r: String)
    ensures
        r@ == before@ + decimal(n as nat) + after@,
{
    let mut r = String::from_str(before);
    r.append(decimal_text(n).as_str());
    r.append(after);
    r
}

proof fn lemma_digit(d: nat)
    requires
        d < 10,
    ensures
        '0' <= digit(d) <= '9',
        digit_value(digit(d)) == Some(d),
        !is_white_space(digit(d)),
        digit(d) != '+',
{
    assert(d == 0 || d == 1 || d == 2 || d == 3 || d == 4 || d == 5 || d == 6 || d == 7 || d == 8
        || d == 9);
}

/// A number in decimal is read back, and has no zero in front of other digits.
pub proof fn decimal_reads_back(n: nat)
    ensures
        digits_value(decimal(n), 10) == Some(n),
        decimal(n).len() > 0,
        forall|i: int| 0 <= i < decimal(n).len() ==> '0' <= #[trigger] decimal(n)[i] <= '9',
        decimal(n)[0] == '0' ==> n == 0,
        n <= u64::MAX ==> radix_value(decimal(n), 10) == Some(n as u64),
    decreases n,
{
    reveal_with_fuel(digits_value, 2);
    lemma_digit(n % 10);
    if n < 10 {
        assert(decimal(n).drop_last() =~= Seq::<char>::empty());
        assert(n == 0 || n == 1 || n == 2 || n == 3 || n == 4 || n == 5 || n == 6 || n == 7 || n
            == 8 || n == 9);
    } else {
        decimal_reads_back(n / 10);
        assert(decimal(n).drop_last() =~= decimal(n / 10));
        assert(decimal(n)[0] == decimal(n / 10)[0]);
        assert forall|i: int| 0 <= i < decimal(n).len() implies '0' <= #[trigger] decimal(n)[i]
            <= '9' by {
            if i < decimal(n / 10).len() {
                assert(decimal(n)[i] == decimal(n / 10)[i]);
            }
        }
    }
    assert('0' <= decimal(n)[0] <= '9');
}

/// White space at the end of a text is trimmed, and nothing else.
pub proof fn trimming_removes_white_space(text: Seq<char>, space: Seq<char>)
    requires
        text.len() > 0 ==> !is_white_space(text.last()),
        forall|i: int| 0 <= i < space.len() ==> is_white_space(#[trigger] space[i]),
    ensures
        trimmed_end(text + space) == text,
    decreases space.len(),
{
    if space.len() == 0 {
        assert(text + space =~= text);
    } else {
        let front = space.drop_last();
        assert forall|i: int| 0 <= i < front.len() implies is_white_space(#[trigger] front[i]) by {
            assert(front[i] == space[i]);
        }
        assert((text + space).drop_last() =~= text + front);
        assert((text + space).last() == space[space.len() - 1]);
        trimming_removes_white_space(text, front);
    }
}

} // verus!
