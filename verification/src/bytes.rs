//! Operations on byte strings.
use vstd::prelude::*;

verus! {

/// The bytes of an ASCII string.
pub open spec fn ascii(s: Seq<char>) -> Seq<u8> {
    s.map_values(|c: char| c as u8)
}

/// Whether `s` begins with `prefix`.
pub open spec fn begins_with(s: Seq<u8>, prefix: Seq<u8>) -> bool {
    prefix.len() <= s.len() && s.subrange(0, prefix.len() as int) == prefix
}

/// Whether `s` ends with `suffix`.
pub open spec fn finishes_with(s: Seq<u8>, suffix: Seq<u8>) -> bool {
    suffix.len() <= s.len() && s.subrange(s.len() - suffix.len(), s.len() as int) == suffix
}

/// A byte string begins with another exactly if it is that and something behind it.
pub proof fn beginning_is_followed_by_the_rest(s: Seq<u8>, prefix: Seq<u8>)
    ensures
        begins_with(s, prefix) <==> exists|rest: Seq<u8>| s == #[trigger] (prefix + rest),
{
    if begins_with(s, prefix) {
        let rest = s.skip(prefix.len() as int);
        assert(s =~= prefix + rest);
    }
    if exists|rest: Seq<u8>| s == #[trigger] (prefix + rest) {
        let rest = choose|rest: Seq<u8>| s == #[trigger] (prefix + rest);
        assert((prefix + rest).subrange(0, prefix.len() as int) =~= prefix);
    }
}

/// A byte string ends with another exactly if it is something and that behind it.
pub proof fn ending_is_preceded_by_the_rest(s: Seq<u8>, suffix: Seq<u8>)
    ensures
        finishes_with(s, suffix) <==> exists|rest: Seq<u8>| s == #[trigger] (rest + suffix),
{
    if finishes_with(s, suffix) {
        let rest = s.take(s.len() - suffix.len());
        assert(s =~= rest + suffix);
    }
    if exists|rest: Seq<u8>| s == #[trigger] (rest + suffix) {
        let rest = choose|rest: Seq<u8>| s == #[trigger] (rest + suffix);
        assert((rest + suffix).subrange(s.len() - suffix.len(), s.len() as int) =~= suffix);
    }
}

/// The bytes of an ASCII string.
pub fn literal<'a>(s: &'a str) -> (r: &'a [u8])
    requires
        s.is_ascii(),
    ensures
        r@ == ascii(s@),
{
    let r = s.as_bytes();
    proof {
        vstd::string::is_ascii_spec_bytes(s);
        assert(r@ =~= ascii(s@));
    }
    r
}

/// Appends a slice to a byte vector.
pub fn append(to: &mut Vec<u8>, from: &[u8])
    ensures
        final(to)@ == old(to)@ + from@,
{
    let mut i: usize = 0;
    while i < from.len()
        invariant
            i <= from@.len(),
            to@ == old(to)@ + from@.subrange(0, i as int),
        decreases from@.len() - i,
    {
        to.push(from[i]);
        i = i + 1;
        assert(from@.subrange(0, i as int) =~= from@.subrange(0, i - 1).push(from@[i - 1]));
        assert(to@ =~= old(to)@ + from@.subrange(0, i as int));
    }
    assert(from@.subrange(0, from@.len() as int) =~= from@);
}

/// A copy of a slice.
pub fn copy(from: &[u8]) -> (r: Vec<u8>)
    ensures
        r@ == from@,
{
    let mut r: Vec<u8> = Vec::new();
    append(&mut r, from);
    assert(Seq::<u8>::empty() + from@ =~= from@);
    r
}

pub fn equal(a: &[u8], b: &[u8]) -> (r: bool)
    ensures
        r == (a@ == b@),
{
    if a.len() != b.len() {
        return false;
    }
    let mut i: usize = 0;
    while i < a.len()
        invariant
            i <= a@.len(),
            a@.len() == b@.len(),
            a@.subrange(0, i as int) =~= b@.subrange(0, i as int),
        decreases a@.len() - i,
    {
        if a[i] != b[i] {
            return false;
        }
        i = i + 1;
    }
    assert(a@ =~= a@.subrange(0, i as int));
    assert(b@ =~= b@.subrange(0, i as int));
    true
}

pub fn starts_with(s: &[u8], prefix: &[u8]) -> (r: bool)
    ensures
        r == begins_with(s@, prefix@),
{
    if prefix.len() > s.len() {
        return false;
    }
    equal(vstd::slice::slice_subrange(s, 0, prefix.len()), prefix)
}

pub fn ends_with(s: &[u8], suffix: &[u8]) -> (r: bool)
    ensures
        r == finishes_with(s@, suffix@),
{
    if suffix.len() > s.len() {
        return false;
    }
    equal(vstd::slice::slice_subrange(s, s.len() - suffix.len(), s.len()), suffix)
}

/// Hexadecimal digit `d`, with letters that start at `ten`.
pub open spec fn hex_digit(d: nat, ten: u8) -> u8 {
    if d < 10 {
        (0x30 + d) as u8
    } else {
        (ten + (d - 10)) as u8
    }
}

/// The hexadecimal digits of `n` without leading zeros.
pub open spec fn hex(n: nat, ten: u8) -> Seq<u8>
    decreases n,
{
    if n < 16 {
        seq![hex_digit(n, ten)]
    } else {
        hex(n / 16, ten).push(hex_digit(n % 16, ten))
    }
}

/// A number below `16^k` has at most `k` hexadecimal digits.
pub proof fn hex_length(n: nat, ten: u8, k: nat)
    requires
        k > 0,
        n < vstd::arithmetic::power::pow(16, k),
    ensures
        1 <= hex(n, ten).len() <= k,
    decreases k,
{
    reveal(vstd::arithmetic::power::pow);
    if n >= 16 {
        if k == 1 {
            assert(vstd::arithmetic::power::pow(16, 1) == 16) by {
                vstd::arithmetic::power::lemma_pow1(16);
            }
        } else {
            assert(n / 16 < vstd::arithmetic::power::pow(16, (k - 1) as nat)) by (nonlinear_arith)
                requires
                    n < 16 * vstd::arithmetic::power::pow(16, (k - 1) as nat),
            ;
            hex_length(n / 16, ten, (k - 1) as nat);
        }
    }
}

/// Every hexadecimal digit is a decimal digit or one of the six letters from
/// `ten` on.
pub proof fn hex_digits(n: nat, ten: u8)
    requires
        ten <= 249,
    ensures
        forall|i: int|
            0 <= i < hex(n, ten).len() ==> {
                let d = #[trigger] hex(n, ten)[i];
                0x30 <= d <= 0x39 || ten <= d < ten + 6
            },
    decreases n,
{
    if n >= 16 {
        hex_digits(n / 16, ten);
        let high = hex(n / 16, ten);
        assert forall|i: int| 0 <= i < hex(n, ten).len() implies {
            let d = #[trigger] hex(n, ten)[i];
            0x30 <= d <= 0x39 || ten <= d < ten + 6
        } by {
            if i < high.len() {
                assert(hex(n, ten)[i] == high[i]);
            }
        }
    }
}

/// What a hexadecimal digit of either case counts.
pub open spec fn hex_digit_value(d: u8) -> nat {
    if 0x30 <= d <= 0x39 {
        (d - 0x30) as nat
    } else if 0x41 <= d <= 0x46 {
        (d - 0x41 + 10) as nat
    } else {
        (d - 0x61 + 10) as nat
    }
}

/// The number that hexadecimal digits stand for.
pub open spec fn hex_value(digits: Seq<u8>) -> nat
    decreases digits.len(),
{
    if digits.len() == 0 {
        0
    } else {
        16 * hex_value(digits.drop_last()) + hex_digit_value(digits.last())
    }
}

/// The digits of a number stand for that number, in the case that was asked for
/// and without a zero in front of others.
pub proof fn hex_reads_back(n: nat, ten: u8)
    requires
        ten == 0x41 || ten == 0x61,
    ensures
        hex_value(hex(n, ten)) == n,
        hex(n, ten).len() > 0,
        hex(n, ten)[0] == 0x30 ==> n == 0 && hex(n, ten).len() == 1,
        forall|i: int|
            0 <= i < hex(n, ten).len() ==> {
                let d = #[trigger] hex(n, ten)[i];
                0x30 <= d <= 0x39 || ten <= d <= ten + 5
            },
    decreases n,
{
    hex_digits(n, ten);
    let digits = hex(n, ten);
    if n >= 16 {
        hex_reads_back(n / 16, ten);
        assert(digits.drop_last() =~= hex(n / 16, ten));
        assert(digits[0] == hex(n / 16, ten)[0]);
    } else {
        assert(digits.drop_last() =~= Seq::<u8>::empty());
        assert(hex_value(digits.drop_last()) == 0);
    }
}

/// Appends the hexadecimal digits of `n`.
pub fn append_hex(to: &mut Vec<u8>, n: u64, ten: u8)
    requires
        ten <= 249,
    ensures
        final(to)@ == old(to)@ + hex(n as nat, ten),
    decreases n,
{
    if n >= 16 {
        append_hex(to, n / 16, ten);
    }
    let d: u8 = (n % 16) as u8;
    let digit: u8 = if d < 10 { 0x30 + d } else { ten + (d - 10) };
    to.push(digit);
    assert(to@ =~= old(to)@ + hex(n as nat, ten));
}

/// The lines of a text. A line ends in a line feed, or in a carriage return and a
/// line feed; the last line may have no end.
pub open spec fn lines(s: Seq<u8>) -> Seq<Seq<u8>> {
    lines_from(s, 0, 0)
}

/// The lines of `s` from `start` on, when there is no line feed before `at`.
pub open spec fn lines_from(s: Seq<u8>, start: nat, at: nat) -> Seq<Seq<u8>>
    decreases s.len() - at,
{
    if at >= s.len() {
        if start < s.len() {
            seq![s.subrange(start as int, s.len() as int)]
        } else {
            Seq::empty()
        }
    } else if s[at as int] == 0x0a {
        seq![without_return(s.subrange(start as int, at as int))] + lines_from(s, at + 1, at + 1)
    } else {
        lines_from(s, start, at + 1)
    }
}

/// A line without the carriage return at its end.
pub open spec fn without_return(line: Seq<u8>) -> Seq<u8> {
    if line.len() > 0 && line.last() == 0x0d {
        line.drop_last()
    } else {
        line
    }
}

/// The contents of a list of byte strings.
pub open spec fn views(list: Seq<Vec<u8>>) -> Seq<Seq<u8>> {
    list.map_values(|v: Vec<u8>| v@)
}

/// Splits a text into lines.
pub fn split_lines(s: &[u8]) -> (r: Vec<Vec<u8>>)
    ensures
        views(r@) == lines(s@),
{
    let mut out: Vec<Vec<u8>> = Vec::new();
    let mut start: usize = 0;
    let mut at: usize = 0;
    assert(views(out@) + lines(s@) =~= lines(s@));
    while at < s.len()
        invariant
            start <= at <= s@.len(),
            views(out@) + lines_from(s@, start as nat, at as nat) == lines(s@),
        decreases s@.len() - at,
    {
        let ghost before = out@;
        if s[at] == 0x0a {
            let mut end: usize = at;
            if end > start && s[end - 1] == 0x0d {
                end = end - 1;
            }
            let line = copy(vstd::slice::slice_subrange(s, start, end));
            proof {
                let whole = s@.subrange(start as int, at as int);
                assert(whole.len() > 0 ==> whole.last() == s@[at - 1]);
                assert(line@ =~= without_return(whole));
                let rest = lines_from(s@, (at + 1) as nat, (at + 1) as nat);
                assert(views(before.push(line)) =~= views(before).push(line@));
                assert(views(before) + (seq![line@] + rest) =~= views(before.push(line)) + rest);
            }
            out.push(line);
            start = at + 1;
        }
        at = at + 1;
    }
    if start < s.len() {
        let ghost before = out@;
        let line = copy(vstd::slice::slice_subrange(s, start, s.len()));
        out.push(line);
        assert(views(out@) =~= views(before) + seq![line@]);
    } else {
        assert(views(out@) + Seq::<Seq<u8>>::empty() =~= views(out@));
    }
    out
}

/// The parts of a text between separators; two separators in a row have an empty
/// part between them.
pub open spec fn parts_from(s: Seq<u8>, separator: u8, start: nat, at: nat) -> Seq<Seq<u8>>
    decreases s.len() - at,
{
    if at >= s.len() {
        seq![s.subrange(start as int, s.len() as int)]
    } else if s[at as int] == separator {
        seq![s.subrange(start as int, at as int)] + parts_from(s, separator, at + 1, at + 1)
    } else {
        parts_from(s, separator, start, at + 1)
    }
}

pub open spec fn parts(s: Seq<u8>, separator: u8) -> Seq<Seq<u8>> {
    parts_from(s, separator, 0, 0)
}

/// Splits a text at every separator.
pub fn split(s: &[u8], separator: u8) -> (r: Vec<Vec<u8>>)
    ensures
        views(r@) == parts(s@, separator),
{
    let mut out: Vec<Vec<u8>> = Vec::new();
    let mut start: usize = 0;
    let mut at: usize = 0;
    assert(views(out@) + parts(s@, separator) =~= parts(s@, separator));
    while at < s.len()
        invariant
            start <= at <= s@.len(),
            views(out@) + parts_from(s@, separator, start as nat, at as nat) == parts(
                s@,
                separator,
            ),
        decreases s@.len() - at,
    {
        let ghost before = out@;
        if s[at] == separator {
            let part = copy(vstd::slice::slice_subrange(s, start, at));
            proof {
                let rest = parts_from(s@, separator, (at + 1) as nat, (at + 1) as nat);
                assert(views(before.push(part)) =~= views(before).push(part@));
                assert(views(before) + (seq![part@] + rest) =~= views(before.push(part)) + rest);
            }
            out.push(part);
            start = at + 1;
        }
        at = at + 1;
    }
    let ghost before = out@;
    let part = copy(vstd::slice::slice_subrange(s, start, s.len()));
    out.push(part);
    assert(views(out@) =~= views(before) + seq![part@]);
    out
}

/// A path below a directory.
pub open spec fn joined(directory: Seq<u8>, name: Seq<u8>) -> Seq<u8> {
    if directory.len() == 0 || directory.last() == 0x2f {
        directory + name
    } else {
        directory.push(0x2f) + name
    }
}

/// Appends a relative path to a directory.
pub fn join(directory: &[u8], name: &[u8]) -> (r: Vec<u8>)
    ensures
        r@ == joined(directory@, name@),
{
    let mut path = copy(directory);
    if path.len() > 0 && path[path.len() - 1] != 0x2f {
        path.push(0x2f);
    }
    append(&mut path, name);
    path
}

proof fn lemma_parts_shift(s: Seq<u8>, separator: u8, start: nat, at: nat, k: nat)
    requires
        k <= start <= at,
        k <= s.len(),
        start <= s.len(),
    ensures
        parts_from(s, separator, start, at) == parts_from(
            s.skip(k as int),
            separator,
            (start - k) as nat,
            (at - k) as nat,
        ),
    decreases s.len() - at,
{
    let t = s.skip(k as int);
    if at >= s.len() {
        assert(s.subrange(start as int, s.len() as int) =~= t.subrange(
            start - k,
            t.len() as int,
        ));
    } else if s[at as int] == separator {
        assert(s.subrange(start as int, at as int) =~= t.subrange(start - k, at - k));
        lemma_parts_shift(s, separator, at + 1, at + 1, k);
    } else {
        lemma_parts_shift(s, separator, start, at + 1, k);
    }
}

proof fn lemma_parts_run(s: Seq<u8>, separator: u8, at: nat, to: nat)
    requires
        at <= to <= s.len(),
        forall|i: int| at <= i < to ==> #[trigger] s[i] != separator,
    ensures
        parts_from(s, separator, 0, at) == parts_from(s, separator, 0, to),
    decreases to - at,
{
    if at < to {
        lemma_parts_run(s, separator, at + 1, to);
    }
}

/// A text without separators is one part. One with a separator in it has the part in
/// front of the first, and then the parts of what stands behind that.
pub proof fn parts_stand_between_separators(a: Seq<u8>, separator: u8, b: Seq<u8>)
    requires
        forall|i: int| 0 <= i < a.len() ==> #[trigger] a[i] != separator,
    ensures
        parts(a, separator) == seq![a],
        parts(a + seq![separator] + b, separator) == seq![a] + parts(b, separator),
{
    lemma_parts_run(a, separator, 0, a.len());
    assert(a.subrange(0, a.len() as int) =~= a);
    let s = a + seq![separator] + b;
    let n = a.len();
    assert forall|i: int| 0 <= i < n implies #[trigger] s[i] != separator by {
        assert(s[i] == a[i]);
    }
    lemma_parts_run(s, separator, 0, n);
    assert(s[n as int] == separator);
    assert(s.subrange(0, n as int) =~= a);
    lemma_parts_shift(s, separator, n + 1, n + 1, n + 1);
    assert(s.skip((n + 1) as int) =~= b);
}

proof fn lemma_lines_shift(s: Seq<u8>, start: nat, at: nat, k: nat)
    requires
        k <= start <= at,
        k <= s.len(),
        start <= s.len(),
    ensures
        lines_from(s, start, at) == lines_from(
            s.skip(k as int),
            (start - k) as nat,
            (at - k) as nat,
        ),
    decreases s.len() - at,
{
    let t = s.skip(k as int);
    if at >= s.len() {
        assert(s.subrange(start as int, s.len() as int) =~= t.subrange(
            start - k,
            t.len() as int,
        ));
    } else if s[at as int] == 0x0a {
        assert(s.subrange(start as int, at as int) =~= t.subrange(start - k, at - k));
        lemma_lines_shift(s, at + 1, at + 1, k);
    } else {
        lemma_lines_shift(s, start, at + 1, k);
    }
}

proof fn lemma_lines_run(s: Seq<u8>, at: nat, to: nat)
    requires
        at <= to <= s.len(),
        forall|i: int| at <= i < to ==> #[trigger] s[i] != 0x0a,
    ensures
        lines_from(s, 0, at) == lines_from(s, 0, to),
    decreases to - at,
{
    if at < to {
        lemma_lines_run(s, at + 1, to);
    }
}

/// A text without line feeds is one line, or none if it is empty. One with a line feed in
/// it has the line in front of the first, without a carriage return at its end, and then
/// the lines of what stands behind that.
pub proof fn lines_end_in_line_feeds(a: Seq<u8>, b: Seq<u8>)
    requires
        forall|i: int| 0 <= i < a.len() ==> #[trigger] a[i] != 0x0a,
    ensures
        lines(a) == (if a.len() == 0 {
            Seq::empty()
        } else {
            seq![a]
        }),
        a.len() == 0 || a.last() != 0x0d ==> lines(a + seq![0x0au8] + b) == seq![a] + lines(b),
        lines(a + seq![0x0du8, 0x0au8] + b) == seq![a] + lines(b),
{
    lemma_lines_run(a, 0, a.len());
    assert(a.subrange(0, a.len() as int) =~= a);
    lemma_line_in_front(a, b);
    let c = a.push(0x0d);
    assert forall|i: int| 0 <= i < c.len() implies #[trigger] c[i] != 0x0a by {
        if i < a.len() {
            assert(c[i] == a[i]);
        }
    }
    lemma_line_in_front(c, b);
    assert(c + seq![0x0au8] + b =~= a + seq![0x0du8, 0x0au8] + b);
    assert(c.drop_last() =~= a);
}

proof fn lemma_line_in_front(a: Seq<u8>, b: Seq<u8>)
    requires
        forall|i: int| 0 <= i < a.len() ==> #[trigger] a[i] != 0x0a,
    ensures
        lines(a + seq![0x0au8] + b) == seq![without_return(a)] + lines(b),
{
    let s = a + seq![0x0au8] + b;
    let n = a.len();
    assert forall|i: int| 0 <= i < n implies #[trigger] s[i] != 0x0a by {
        assert(s[i] == a[i]);
    }
    lemma_lines_run(s, 0, n);
    assert(s[n as int] == 0x0a);
    assert(s.subrange(0, n as int) =~= a);
    lemma_lines_shift(s, n + 1, n + 1, n + 1);
    assert(s.skip((n + 1) as int) =~= b);
}

/// A path below a directory is the directory and the name, with a slash between them unless
/// the directory ends in one; below no directory it is the name.
pub proof fn paths_are_joined_with_a_slash(directory: Seq<u8>, name: Seq<u8>)
    ensures
        directory.len() > 0 && directory.last() != 0x2f ==> joined(directory, name) == directory
            + seq![0x2fu8] + name,
        directory.len() > 0 && directory.last() == 0x2f ==> joined(directory, name) == directory
            + name,
        directory.len() == 0 ==> joined(directory, name) == name,
        joined(directory, name).len() >= name.len(),
        joined(directory, name).skip(joined(directory, name).len() - name.len()) == name,
{
    assert(directory.push(0x2f) =~= directory + seq![0x2fu8]);
    if directory.len() == 0 {
        assert(directory + name =~= name);
    }
    assert(joined(directory, name).skip(joined(directory, name).len() - name.len()) =~= name);
}

} // verus!
