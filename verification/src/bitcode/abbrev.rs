//! Abbreviation definitions and the records that use them.
use vstd::prelude::*;

use crate::bitcode::cursor;
use crate::bitcode::cursor::{BitCursor, Parsed};
use crate::bitcode::error::{BitcodeError, ReadError};

verus! {

/// Width of the literal values inside an abbreviation definition.
pub const LITERAL_VBR_WIDTH: usize = 8;

/// Width of the data attached to an operand encoding.
pub const ABBREV_ENCODING_DATA_VBR_WIDTH: usize = 5;

/// Width of the number of operands of an abbreviation definition.
pub const ABBREV_NUM_OPERANDS_VBR_WIDTH: usize = 5;

/// Width of the length of an array or a blob.
pub const LENGTH_VBR_WIDTH: usize = 6;

/// How one operand of an abbreviated record is stored.
pub enum AbbrevEncoding {
    Fixed(usize),
    Vbr(usize),
    Char6,
    Array(Box<AbbrevEncoding>),
    Blob,
}

/// One operand of an abbreviation. A literal takes no space in the record.
pub enum AbbrevOp {
    Literal,
    Encoding(AbbrevEncoding),
}

/// The operands of the records that use one abbreviation.
pub struct Abbrev {
    pub ops: Vec<AbbrevOp>,
}

impl View for Abbrev {
    type V = Seq<AbbrevOp>;

    open spec fn view(&self) -> Seq<AbbrevOp> {
        self.ops@
    }
}

/// Reads one operand definition when `remaining` of them are announced: the
/// operand, and how many definitions are left after it. An array takes the
/// definition that follows as its element.
pub open spec fn abbrev_op_at(words: Seq<u32>, pos: nat, remaining: nat) -> Parsed<(AbbrevOp, nat)>
    decreases remaining, 0nat,
{
    if remaining == 0 {
        Err((ReadError::Overflow, pos))
    } else {
        match cursor::bits_at(words, pos, 1) {
            Err(e) => Err(e),
            Ok((literal, p1)) => if literal != 0 {
                match cursor::vbr_at(words, p1, LITERAL_VBR_WIDTH as nat) {
                    Err(e) => Err(e),
                    Ok((_, p2)) => Ok(((AbbrevOp::Literal, (remaining - 1) as nat), p2)),
                }
            } else {
                match abbrev_encoding_at(words, p1, (remaining - 1) as nat) {
                    Err(e) => Err(e),
                    Ok(((encoding, left), p2)) => Ok(((AbbrevOp::Encoding(encoding), left), p2)),
                }
            },
        }
    }
}

/// Reads one operand encoding when `remaining` further definitions follow.
pub open spec fn abbrev_encoding_at(words: Seq<u32>, pos: nat, remaining: nat) -> Parsed<
    (AbbrevEncoding, nat),
>
    decreases remaining, 1nat,
{
    match cursor::bits_at(words, pos, 3) {
        Err(e) => Err(e),
        Ok((kind, p1)) => if kind == 1 || kind == 2 {
            match cursor::vbr_usize_at(words, p1, ABBREV_ENCODING_DATA_VBR_WIDTH as nat) {
                Err(e) => Err(e),
                Ok((width, p2)) => if kind == 1 {
                    Ok(((AbbrevEncoding::Fixed(width), remaining), p2))
                } else {
                    Ok(((AbbrevEncoding::Vbr(width), remaining), p2))
                },
            }
        } else if kind == 3 {
            if remaining == 0 {
                Err((ReadError::Malformed(BitcodeError::MissingArrayElementEncoding), p1))
            } else {
                match abbrev_op_at(words, p1, remaining) {
                    Err(e) => Err(e),
                    Ok(((AbbrevOp::Literal, _), p2)) => Err(
                        (ReadError::Malformed(BitcodeError::InvalidArrayElementEncoding), p2),
                    ),
                    Ok(((AbbrevOp::Encoding(element), left), p2)) => Ok(
                        ((AbbrevEncoding::Array(Box::new(element)), left), p2),
                    ),
                }
            }
        } else if kind == 4 {
            Ok(((AbbrevEncoding::Char6, remaining), p1))
        } else if kind == 5 {
            Ok(((AbbrevEncoding::Blob, remaining), p1))
        } else {
            Err(
                (
                    ReadError::Malformed(
                        BitcodeError::UnsupportedAbbreviationEncoding(kind as usize),
                    ),
                    p1,
                ),
            )
        },
    }
}

/// How many definitions are left after one operand definition was read, or could
/// not be read, when `remaining` of them are announced.
pub open spec fn abbrev_op_left(words: Seq<u32>, pos: nat, remaining: nat) -> nat
    decreases remaining, 0nat,
{
    if remaining == 0 {
        0
    } else {
        match cursor::bits_at(words, pos, 1) {
            Ok((literal, p1)) => if literal != 0 {
                (remaining - 1) as nat
            } else {
                abbrev_encoding_left(words, p1, (remaining - 1) as nat)
            },
            Err(_) => (remaining - 1) as nat,
        }
    }
}

/// How many of `remaining` definitions are left after one operand encoding was
/// read, or could not be read: all of them, but for those that the element of an
/// array takes.
pub open spec fn abbrev_encoding_left(words: Seq<u32>, pos: nat, remaining: nat) -> nat
    decreases remaining, 1nat,
{
    match cursor::bits_at(words, pos, 3) {
        Ok((kind, p1)) => if kind == 3 && remaining > 0 {
            abbrev_op_left(words, p1, remaining)
        } else {
            remaining
        },
        Err(_) => remaining,
    }
}

/// Reads operand definitions until `remaining` of them are used up.
pub open spec fn abbrev_ops_at(words: Seq<u32>, pos: nat, remaining: nat) -> Parsed<Seq<AbbrevOp>>
    decreases remaining,
{
    if remaining == 0 {
        Ok((Seq::empty(), pos))
    } else {
        match abbrev_op_at(words, pos, remaining) {
            Err(e) => Err(e),
            Ok(((op, left), p1)) => if left >= remaining {
                Err((ReadError::Overflow, p1))
            } else {
                match abbrev_ops_at(words, p1, left) {
                    Err(e) => Err(e),
                    Ok((rest, end)) => Ok((seq![op] + rest, end)),
                }
            },
        }
    }
}

/// Reads a whole abbreviation definition.
pub open spec fn abbrev_at(words: Seq<u32>, pos: nat) -> Parsed<Seq<AbbrevOp>> {
    match cursor::vbr_usize_at(words, pos, ABBREV_NUM_OPERANDS_VBR_WIDTH as nat) {
        Err(e) => Err(e),
        Ok((count, p1)) => abbrev_ops_at(words, p1, count as nat),
    }
}

/// Skips `count` words.
pub open spec fn skip_words_at(words: Seq<u32>, pos: nat, count: nat) -> Parsed<()>
    decreases count,
{
    if count == 0 {
        Ok(((), pos))
    } else {
        match cursor::bits_at(words, pos, 32) {
            Err(e) => Err(e),
            Ok((_, next)) => skip_words_at(words, next, (count - 1) as nat),
        }
    }
}

/// Skips a value stored with `encoding`.
pub open spec fn skip_encoding_at(words: Seq<u32>, pos: nat, encoding: AbbrevEncoding) -> Parsed<()>
    decreases encoding, 0nat,
{
    match encoding {
        AbbrevEncoding::Fixed(width) => match cursor::bits_at(words, pos, width as nat) {
            Err(e) => Err(e),
            Ok((_, next)) => Ok(((), next)),
        },
        AbbrevEncoding::Vbr(width) => match cursor::vbr_at(words, pos, width as nat) {
            Err(e) => Err(e),
            Ok((_, next)) => Ok(((), next)),
        },
        AbbrevEncoding::Char6 => match cursor::bits_at(words, pos, 6) {
            Err(e) => Err(e),
            Ok((_, next)) => Ok(((), next)),
        },
        AbbrevEncoding::Array(element) => match cursor::vbr_usize_at(
            words,
            pos,
            LENGTH_VBR_WIDTH as nat,
        ) {
            Err(e) => Err(e),
            Ok((len, next)) => skip_elements_at(words, next, *element, len as nat),
        },
        AbbrevEncoding::Blob => match cursor::vbr_usize_at(words, pos, LENGTH_VBR_WIDTH as nat) {
            Err(e) => Err(e),
            Ok((len, next)) => match cursor::align32_at(words, next) {
                Err(e) => Err(e),
                Ok((_, aligned)) => skip_words_at(words, aligned, ((len + 3) / 4) as nat),
            },
        },
    }
}

/// Skips `count` values stored with `encoding`.
pub open spec fn skip_elements_at(
    words: Seq<u32>,
    pos: nat,
    encoding: AbbrevEncoding,
    count: nat,
) -> Parsed<()>
    decreases encoding, count + 1,
{
    if count == 0 {
        Ok(((), pos))
    } else {
        match skip_encoding_at(words, pos, encoding) {
            Err(e) => Err(e),
            Ok((_, next)) => skip_elements_at(words, next, encoding, (count - 1) as nat),
        }
    }
}

/// Skips the operands of a record that was written with the operands `ops`.
pub open spec fn skip_ops_at(words: Seq<u32>, pos: nat, ops: Seq<AbbrevOp>) -> Parsed<()>
    decreases ops.len(),
{
    if ops.len() == 0 {
        Ok(((), pos))
    } else {
        let rest = ops.subrange(1, ops.len() as int);
        match ops[0] {
            AbbrevOp::Literal => skip_ops_at(words, pos, rest),
            AbbrevOp::Encoding(encoding) => match skip_encoding_at(words, pos, encoding) {
                Err(e) => Err(e),
                Ok((_, next)) => skip_ops_at(words, next, rest),
            },
        }
    }
}

/// Reads one operand of an abbreviation definition. `remaining` counts the
/// definitions that are left.
pub fn read_abbrev_op(cursor: &mut BitCursor<'_>, remaining: &mut usize) -> (r: Result<
    AbbrevOp,
    ReadError,
>)
    requires
        old(cursor).wf(),
        *old(remaining) > 0,
    ensures
        final(cursor).wf(),
        final(cursor).words() == old(cursor).words(),
        old(cursor).pos() <= final(cursor).pos(),
        *final(remaining) < *old(remaining),
        *final(remaining) == abbrev_op_left(
            old(cursor).words(),
            old(cursor).pos(),
            *old(remaining) as nat,
        ),
        match abbrev_op_at(old(cursor).words(), old(cursor).pos(), *old(remaining) as nat) {
            Ok(((op, left), next)) => r == Ok::<AbbrevOp, ReadError>(op) && *final(remaining)
                == left && final(cursor).pos() == next,
            Err((e, stop)) => r == Err::<AbbrevOp, ReadError>(e) && final(cursor).pos() == stop,
        },
    decreases *old(remaining), 0nat,
{
    *remaining = *remaining - 1;
    let is_literal: bool = cursor.read_bits(1)? != 0;
    if is_literal {
        cursor.read_vbr(LITERAL_VBR_WIDTH)?;
        Ok(AbbrevOp::Literal)
    } else {
        let encoding = read_abbrev_encoding(cursor, remaining)?;
        Ok(AbbrevOp::Encoding(encoding))
    }
}

/// Reads one operand encoding.
pub fn read_abbrev_encoding(cursor: &mut BitCursor<'_>, remaining: &mut usize) -> (r: Result<
    AbbrevEncoding,
    ReadError,
>)
    requires
        old(cursor).wf(),
    ensures
        final(cursor).wf(),
        final(cursor).words() == old(cursor).words(),
        old(cursor).pos() <= final(cursor).pos(),
        *final(remaining) <= *old(remaining),
        *final(remaining) == abbrev_encoding_left(
            old(cursor).words(),
            old(cursor).pos(),
            *old(remaining) as nat,
        ),
        match abbrev_encoding_at(old(cursor).words(), old(cursor).pos(), *old(remaining) as nat) {
            Ok(((encoding, left), next)) => r == Ok::<AbbrevEncoding, ReadError>(encoding)
                && *final(remaining) == left && final(cursor).pos() == next,
            Err((e, stop)) => r == Err::<AbbrevEncoding, ReadError>(e) && final(cursor).pos() == stop,
        },
    decreases *old(remaining), 1nat,
{
    let kind: usize = cursor.read_bits(3)?;
    if kind == 1 {
        let width: usize = cursor.read_vbr_usize(ABBREV_ENCODING_DATA_VBR_WIDTH)?;
        Ok(AbbrevEncoding::Fixed(width))
    } else if kind == 2 {
        let width: usize = cursor.read_vbr_usize(ABBREV_ENCODING_DATA_VBR_WIDTH)?;
        Ok(AbbrevEncoding::Vbr(width))
    } else if kind == 3 {
        if *remaining == 0 {
            return Err(ReadError::Malformed(BitcodeError::MissingArrayElementEncoding));
        }
        match read_abbrev_op(cursor, remaining)? {
            AbbrevOp::Literal => Err(
                ReadError::Malformed(BitcodeError::InvalidArrayElementEncoding),
            ),
            AbbrevOp::Encoding(element) => Ok(AbbrevEncoding::Array(Box::new(element))),
        }
    } else if kind == 4 {
        Ok(AbbrevEncoding::Char6)
    } else if kind == 5 {
        Ok(AbbrevEncoding::Blob)
    } else {
        Err(ReadError::Malformed(BitcodeError::UnsupportedAbbreviationEncoding(kind)))
    }
}

/// Reads an abbreviation definition.
pub fn read_abbrev(cursor: &mut BitCursor<'_>) -> (r: Result<Abbrev, ReadError>)
    requires
        old(cursor).wf(),
    ensures
        final(cursor).wf(),
        final(cursor).words() == old(cursor).words(),
        old(cursor).pos() <= final(cursor).pos(),
        match abbrev_at(old(cursor).words(), old(cursor).pos()) {
            Ok((ops, next)) => r is Ok && r->Ok_0@ == ops && final(cursor).pos() == next,
            Err((e, stop)) => r == Err::<Abbrev, ReadError>(e) && final(cursor).pos() == stop,
        },
{
    let mut remaining: usize = cursor.read_vbr_usize(ABBREV_NUM_OPERANDS_VBR_WIDTH)?;
    let ghost count = remaining as nat;
    let ghost start = cursor.pos();
    let ghost words = cursor.words();
    let mut ops: Vec<AbbrevOp> = Vec::new();
    while remaining > 0
        invariant
            cursor.wf(),
            cursor.words() == words,
            words == old(cursor).words(),
            old(cursor).pos() <= cursor.pos(),
            abbrev_at(words, old(cursor).pos()) == abbrev_ops_at(words, start, count),
            match abbrev_ops_at(words, cursor.pos(), remaining as nat) {
                Ok((rest, end)) => abbrev_ops_at(words, start, count) == Ok::<
                    (Seq<AbbrevOp>, nat),
                    (ReadError, nat),
                >((ops@ + rest, end)),
                Err(e) => abbrev_ops_at(words, start, count) == Err::<
                    (Seq<AbbrevOp>, nat),
                    (ReadError, nat),
                >(e),
            },
        decreases remaining,
    {
        let ghost before = ops@;
        let op = read_abbrev_op(cursor, &mut remaining)?;
        ops.push(op);
        proof {
            if let Ok((rest, end)) = abbrev_ops_at(words, cursor.pos(), remaining as nat) {
                assert(before + (seq![op] + rest) =~= ops@ + rest);
            }
        }
    }
    assert(ops@ + Seq::<AbbrevOp>::empty() =~= ops@);
    Ok(Abbrev { ops })
}

/// Skips a value stored with `encoding`.
pub fn skip_encoding(cursor: &mut BitCursor<'_>, encoding: &AbbrevEncoding) -> (r: Result<
    (),
    ReadError,
>)
    requires
        old(cursor).wf(),
    ensures
        final(cursor).wf(),
        final(cursor).words() == old(cursor).words(),
        old(cursor).pos() <= final(cursor).pos(),
        match skip_encoding_at(old(cursor).words(), old(cursor).pos(), *encoding) {
            Ok((_, next)) => r is Ok && final(cursor).pos() == next,
            Err((e, stop)) => r == Err::<(), ReadError>(e) && final(cursor).pos() == stop,
        },
    decreases encoding,
{
    match encoding {
        AbbrevEncoding::Fixed(width) => {
            cursor.read_bits(*width)?;
        },
        AbbrevEncoding::Vbr(width) => {
            cursor.read_vbr(*width)?;
        },
        AbbrevEncoding::Char6 => {
            cursor.read_bits(6)?;
        },
        AbbrevEncoding::Array(element) => {
            let len: usize = cursor.read_vbr_usize(LENGTH_VBR_WIDTH)?;
            let ghost start = cursor.pos();
            let ghost words = cursor.words();
            let mut i: usize = 0;
            while i < len
                invariant
                    i <= len,
                    cursor.wf(),
                    cursor.words() == words,
                    words == old(cursor).words(),
                    old(cursor).pos() <= cursor.pos(),
                    *encoding == AbbrevEncoding::Array(*element),
                    skip_encoding_at(words, old(cursor).pos(), *encoding) == skip_elements_at(
                        words,
                        start,
                        **element,
                        len as nat,
                    ),
                    skip_elements_at(words, start, **element, len as nat) == skip_elements_at(
                        words,
                        cursor.pos(),
                        **element,
                        (len - i) as nat,
                    ),
                decreases len - i,
            {
                skip_encoding(cursor, element)?;
                i = i + 1;
            }
        },
        AbbrevEncoding::Blob => {
            let len: usize = cursor.read_vbr_usize(LENGTH_VBR_WIDTH)?;
            cursor.align32()?;
            let count: usize = len / 4 + (if len % 4 == 0 { 0 } else { 1 });
            let ghost start = cursor.pos();
            let ghost words = cursor.words();
            let mut i: usize = 0;
            while i < count
                invariant
                    i <= count,
                    cursor.wf(),
                    cursor.words() == words,
                    words == old(cursor).words(),
                    old(cursor).pos() <= cursor.pos(),
                    skip_encoding_at(words, old(cursor).pos(), *encoding) == skip_words_at(
                        words,
                        start,
                        count as nat,
                    ),
                    skip_words_at(words, start, count as nat) == skip_words_at(
                        words,
                        cursor.pos(),
                        (count - i) as nat,
                    ),
                decreases count - i,
            {
                cursor.read_bits(32)?;
                i = i + 1;
            }
        },
    }
    Ok(())
}

/// Skips the operands of a record that was written with `abbrev`.
pub fn skip_abbrev_record(cursor: &mut BitCursor<'_>, abbrev: &Abbrev) -> (r: Result<
    (),
    ReadError,
>)
    requires
        old(cursor).wf(),
    ensures
        final(cursor).wf(),
        final(cursor).words() == old(cursor).words(),
        old(cursor).pos() <= final(cursor).pos(),
        match skip_ops_at(old(cursor).words(), old(cursor).pos(), abbrev@) {
            Ok((_, next)) => r is Ok && final(cursor).pos() == next,
            Err((e, stop)) => r == Err::<(), ReadError>(e) && final(cursor).pos() == stop,
        },
{
    let ghost words = cursor.words();
    let ghost start = cursor.pos();
    let mut i: usize = 0;
    assert(abbrev@.subrange(0, abbrev@.len() as int) =~= abbrev@);
    while i < abbrev.ops.len()
        invariant
            i <= abbrev.ops.len(),
            cursor.wf(),
            cursor.words() == words,
            words == old(cursor).words(),
            start == old(cursor).pos(),
            start <= cursor.pos(),
            skip_ops_at(words, start, abbrev@) == skip_ops_at(
                words,
                cursor.pos(),
                abbrev@.subrange(i as int, abbrev@.len() as int),
            ),
        decreases abbrev.ops.len() - i,
    {
        let ghost todo = abbrev@.subrange(i as int, abbrev@.len() as int);
        assert(todo.subrange(1, todo.len() as int) =~= abbrev@.subrange(
            i + 1,
            abbrev@.len() as int,
        ));
        match &abbrev.ops[i] {
            AbbrevOp::Literal => {},
            AbbrevOp::Encoding(encoding) => {
                skip_encoding(cursor, encoding)?;
            },
        }
        i = i + 1;
    }
    Ok(())
}

/// Skipping values one after the other, each from where the one before it ended,
/// is skipping them at once.
proof fn lemma_elements_one_by_one(
    words: Seq<u32>,
    element: AbbrevEncoding,
    stops: Seq<nat>,
    k: nat,
)
    requires
        k < stops.len(),
        forall|i: int|
            0 <= i < stops.len() - 1 ==> #[trigger] skip_encoding_at(words, stops[i], element)
                == Ok::<((), nat), (ReadError, nat)>(((), stops[i + 1])),
    ensures
        skip_elements_at(words, stops[k as int], element, (stops.len() - 1 - k) as nat) == Ok::<
            ((), nat),
            (ReadError, nat),
        >(((), stops.last())),
    decreases stops.len() - k,
{
    if k + 1 < stops.len() {
        assert(skip_encoding_at(words, stops[k as int], element) == Ok::<
            ((), nat),
            (ReadError, nat),
        >(((), stops[k as int + 1])));
        lemma_elements_one_by_one(words, element, stops, k + 1);
    }
}

/// Skipping an array is reading its length and skipping that many elements one
/// by one. `stops` are the positions between the elements, from behind the length
/// to the end.
pub proof fn array_is_skipped_by_elements(
    words: Seq<u32>,
    pos: nat,
    element: AbbrevEncoding,
    len: usize,
    stops: Seq<nat>,
)
    requires
        stops.len() == len + 1,
        cursor::vbr_at(words, pos, LENGTH_VBR_WIDTH as nat) == Ok::<(u64, nat), (ReadError, nat)>(
            (len as u64, stops[0]),
        ),
        forall|i: int|
            0 <= i < len ==> #[trigger] skip_encoding_at(words, stops[i], element) == Ok::<
                ((), nat),
                (ReadError, nat),
            >(((), stops[i + 1])),
    ensures
        skip_encoding_at(words, pos, AbbrevEncoding::Array(Box::new(element))) == Ok::<
            ((), nat),
            (ReadError, nat),
        >(((), stops.last())),
{
    lemma_elements_one_by_one(words, element, stops, 0);
}

proof fn lemma_fields_end(words: Seq<u32>, pos: nat, element: AbbrevEncoding, width: nat, n: nat)
    requires
        skip_elements_at(words, pos, element, n) is Ok,
        element == AbbrevEncoding::Char6 && width == 6 || (element matches AbbrevEncoding::Fixed(w)
            && w == width),
    ensures
        skip_elements_at(words, pos, element, n)->Ok_0.1 == pos + n * width,
    decreases n,
{
    if n > 0 {
        let next = skip_encoding_at(words, pos, element)->Ok_0.1;
        assert(next == pos + width);
        lemma_fields_end(words, next, element, width, (n - 1) as nat);
        assert(n * width == width + (n - 1) * width) by (nonlinear_arith);
    } else {
        assert(n * width == 0) by (nonlinear_arith)
            requires
                n == 0,
        ;
    }
}

/// The elements of an array of fields stand side by side: an array of fields of
/// `width` bits ends `width` bits for each element behind its length. A character
/// takes six bits.
pub proof fn array_of_fields_is_packed(
    words: Seq<u32>,
    pos: nat,
    element: AbbrevEncoding,
    width: nat,
)
    requires
        element == AbbrevEncoding::Char6 && width == 6 || (element matches AbbrevEncoding::Fixed(w)
            && w == width),
        skip_encoding_at(words, pos, AbbrevEncoding::Array(Box::new(element))) is Ok,
    ensures
        ({
            let (len, start) = cursor::vbr_usize_at(words, pos, LENGTH_VBR_WIDTH as nat)->Ok_0;
            &&& cursor::vbr_usize_at(words, pos, LENGTH_VBR_WIDTH as nat) is Ok
            &&& skip_encoding_at(
                words,
                pos,
                AbbrevEncoding::Array(Box::new(element)),
            )->Ok_0.1 == start + len * width
        }),
{
    let (len, start) = cursor::vbr_usize_at(words, pos, LENGTH_VBR_WIDTH as nat)->Ok_0;
    lemma_fields_end(words, start, element, width, len as nat);
}

} // verus!
