//! Streams as they are written, and that they are read back.
use vstd::arithmetic::div_mod::*;
use vstd::arithmetic::mul::*;
use vstd::arithmetic::power2::*;
use vstd::bits::*;
use vstd::prelude::*;

use crate::bitcode::abbrev;
use crate::bitcode::abbrev::{AbbrevEncoding, AbbrevOp};
use crate::bitcode::cursor;
use crate::bitcode::error::{BitcodeError, ReadError};
use crate::bitcode::identification;
use crate::bitcode::identification::{BlockModel, ScanStep};

verus! {

/// A number in `n` bits, the least significant one first.
pub open spec fn fixed(value: nat, n: nat) -> Seq<bool>
    decreases n,
{
    if n == 0 {
        Seq::empty()
    } else {
        seq![value % 2 == 1] + fixed(value / 2, (n - 1) as nat)
    }
}

/// A number at a variable bit rate, in chunks of `width` bits. Each chunk holds as many
/// bits of the number as fit beside its highest bit, which says whether more follow.
pub open spec fn vbr(value: nat, width: nat) -> Seq<bool>
    decreases value,
    via vbr_ends
{
    if value < pow2((width - 1) as nat) || width < 2 {
        fixed(value, width)
    } else {
        fixed(pow2((width - 1) as nat) + value % pow2((width - 1) as nat), width) + vbr(
            value / pow2((width - 1) as nat),
            width,
        )
    }
}

#[via_fn]
proof fn vbr_ends(value: nat, width: nat) {
    if !(value < pow2((width - 1) as nat) || width < 2) {
        let h = pow2((width - 1) as nat);
        lemma_pow2_unfold((width - 1) as nat);
        lemma_pow2_pos((width - 2) as nat);
        assert(h >= 2);
        lemma_div_decreases(value as int, h as int);
    }
}

/// Whether words hold some bits from a position on. The first bit of a word is its least
/// significant one.
pub open spec fn holds(words: Seq<u32>, pos: nat, bits: Seq<bool>) -> bool {
    &&& pos + bits.len() <= words.len() * 32
    &&& forall|i: int|
        0 <= i < bits.len() ==> ((words[(pos + i) / 32] as nat / pow2(((pos + i) % 32) as nat)) % 2
            == 1) == #[trigger] bits[i]
}

proof fn lemma_holds_parts(words: Seq<u32>, pos: nat, a: Seq<bool>, b: Seq<bool>)
    requires
        holds(words, pos, a + b),
    ensures
        holds(words, pos, a),
        holds(words, pos + a.len(), b),
{
    let all = a + b;
    assert forall|i: int| 0 <= i < a.len() implies ((words[(pos + i) / 32] as nat / pow2(
        ((pos + i) % 32) as nat,
    )) % 2 == 1) == #[trigger] a[i] by {
        assert(all[i] == a[i]);
    }
    let mid = pos + a.len();
    assert forall|i: int| 0 <= i < b.len() implies ((words[(mid + i) / 32] as nat / pow2(
        ((mid + i) % 32) as nat,
    )) % 2 == 1) == #[trigger] b[i] by {
        assert(all[a.len() + i] == b[i]);
        assert(pos + (a.len() + i) == mid + i);
    }
}

proof fn lemma_fixed(words: Seq<u32>, pos: nat, value: nat, n: nat)
    requires
        holds(words, pos, fixed(value, n)),
        value < pow2(n),
    ensures
        cursor::field(words, pos, n) == value,
        fixed(value, n).len() == n,
    decreases n,
{
    lemma2_to64();
    if n > 0 {
        let rest = fixed(value / 2, (n - 1) as nat);
        lemma_pow2_unfold(n);
        lemma_holds_parts(words, pos, seq![value % 2 == 1], rest);
        lemma_fixed(words, pos + 1, value / 2, (n - 1) as nat);
        assert(fixed(value, n)[0] == (value % 2 == 1));
        assert(((words[(pos + 0int) / 32] as nat / pow2(((pos + 0int) % 32) as nat)) % 2 == 1) == (
        value % 2 == 1));
    }
}

proof fn lemma_fixed_len(value: nat, n: nat)
    ensures
        fixed(value, n).len() == n,
    decreases n,
{
    if n > 0 {
        lemma_fixed_len(value / 2, (n - 1) as nat);
    }
}

/// A number that was written in some bits is read back from them, and reading goes on
/// behind them.
pub proof fn fixed_number_reads_back(words: Seq<u32>, pos: nat, value: nat, n: nat)
    requires
        cursor::bit_count(words) <= usize::MAX,
        0 < n <= usize::BITS,
        value < pow2(n),
        holds(words, pos, fixed(value, n)),
    ensures
        cursor::bits_at(words, pos, n) == Ok::<(nat, nat), (ReadError, nat)>((value, pos + n)),
{
    lemma_fixed(words, pos, value, n);
}

#[verifier::rlimit(40)]
#[verifier::spinoff_prover]
proof fn lemma_chunks(words: Seq<u32>, pos: nat, value: nat, width: nat, shift: nat)
    requires
        cursor::bit_count(words) <= usize::MAX,
        2 <= width <= 32,
        value * pow2(shift) < pow2(64),
        value > 0 || shift < 64,
        holds(words, pos, vbr(value, width)),
    ensures
        cursor::vbr_chunks(words, pos, width, shift) == Ok::<(nat, nat), (ReadError, nat)>(
            (value * pow2(shift), pos + vbr(value, width).len()),
        ),
    decreases value,
{
    let h = pow2((width - 1) as nat);
    lemma_pow2_unfold(width);
    lemma_pow2_pos((width - 1) as nat);
    lemma_pow2_pos(shift);
    assert(shift < 64) by {
        if shift >= 64 {
            if shift > 64 {
                lemma_pow2_strictly_increases(64, shift);
            }
            assert(value * pow2(shift) >= pow2(shift)) by (nonlinear_arith)
                requires
                    value > 0,
            ;
        }
    }
    if value < h {
        lemma_fixed_len(value, width);
        fixed_number_reads_back(words, pos, value, width);
        lemma_small_mod(value, h);
    } else {
        lemma_pow2_unfold((width - 1) as nat);
        lemma_pow2_pos((width - 2) as nat);
        let low = value % h;
        let high = value / h;
        let first = h + low;
        let rest = vbr(high, width);
        lemma_mod_bound(value as int, h as int);
        lemma_fundamental_div_mod(value as int, h as int);
        lemma_fixed_len(first, width);
        lemma_holds_parts(words, pos, fixed(first, width), rest);
        fixed_number_reads_back(words, pos, first, width);
        assert(first % h == low) by {
            lemma_mod_add_multiples_vanish(low as int, h as int);
            lemma_small_mod(low, h);
        }
        lemma_div_decreases(value as int, h as int);
        let further = (shift + width - 1) as nat;
        lemma_pow2_adds((width - 1) as nat, shift);
        assert(pow2(further) == h * pow2(shift));
        assert(high * (h * pow2(shift)) == (h * high) * pow2(shift)) by (nonlinear_arith);
        assert(low * pow2(shift) + (h * high) * pow2(shift) == value * pow2(shift))
            by (nonlinear_arith)
            requires
                value == h * high + low,
        ;
        assert(low * pow2(shift) >= 0) by (nonlinear_arith);
        assert(high > 0) by {
            lemma_div_non_zero(value as int, h as int);
        }
        lemma_chunks(words, pos + width, high, width, further);
    }
}

/// A number that was written at a variable bit rate is read back, and reading goes on
/// behind its last chunk.
pub proof fn vbr_number_reads_back(words: Seq<u32>, pos: nat, value: u64, width: nat)
    requires
        cursor::bit_count(words) <= usize::MAX,
        2 <= width <= 32,
        holds(words, pos, vbr(value as nat, width)),
    ensures
        cursor::vbr_at(words, pos, width) == Ok::<(u64, nat), (ReadError, nat)>(
            (value, pos + vbr(value as nat, width).len()),
        ),
{
    lemma2_to64();
    lemma2_to64_rest();
    assert(value as nat * pow2(0) == value) by (nonlinear_arith)
        requires
            pow2(0) == 1,
    ;
    lemma_chunks(words, pos, value as nat, width, 0);
    lemma_small_mod(value as nat, pow2(64));
}

/// The operands of a record, each at a variable bit rate.
pub open spec fn operand_bits(operands: Seq<u8>) -> Seq<bool>
    decreases operands.len(),
{
    if operands.len() == 0 {
        Seq::empty()
    } else {
        vbr(operands[0] as nat, 6) + operand_bits(operands.skip(1))
    }
}

/// A record without an abbreviation: its code, the number of its operands, and those.
pub open spec fn record_bits(code: u32, operands: Seq<u8>) -> Seq<bool> {
    vbr(code as nat, 6) + (vbr(operands.len(), 6) + operand_bits(operands))
}

proof fn lemma_operands(words: Seq<u32>, pos: nat, operands: Seq<u8>)
    requires
        cursor::bit_count(words) <= usize::MAX,
        holds(words, pos, operand_bits(operands)),
    ensures
        identification::operands_at(words, pos, operands.len()) == Ok::<
            (Seq<u8>, nat),
            (ReadError, nat),
        >((operands, pos + operand_bits(operands).len())),
    decreases operands.len(),
{
    if operands.len() > 0 {
        let first = vbr(operands[0] as nat, 6);
        let rest = operand_bits(operands.skip(1));
        lemma_holds_parts(words, pos, first, rest);
        vbr_number_reads_back(words, pos, operands[0] as u64, 6);
        lemma_operands(words, pos + first.len(), operands.skip(1));
        assert(seq![operands[0]] + operands.skip(1) =~= operands);
    } else {
        assert(operands =~= Seq::<u8>::empty());
    }
}

/// A record that was written without an abbreviation is read back.
pub proof fn record_reads_back(words: Seq<u32>, pos: nat, code: u32, operands: Seq<u8>)
    requires
        cursor::bit_count(words) <= usize::MAX,
        operands.len() <= usize::MAX,
        holds(words, pos, record_bits(code, operands)),
    ensures
        identification::record_at(words, pos) == Ok::<((u32, Seq<u8>), nat), (ReadError, nat)>(
            ((code, operands), pos + record_bits(code, operands).len()),
        ),
{
    let first = vbr(code as nat, 6);
    let second = vbr(operands.len(), 6);
    let third = operand_bits(operands);
    lemma_holds_parts(words, pos, first, second + third);
    lemma_holds_parts(words, pos + first.len(), second, third);
    vbr_number_reads_back(words, pos, code as u64, 6);
    vbr_number_reads_back(words, pos + first.len(), operands.len() as u64, 6);
    lemma_operands(words, pos + first.len() + second.len(), operands);
}

/// The header of a block: its number, the width of its abbreviation numbers, padding up to
/// a word, and a word with its length.
pub open spec fn block_bits(
    block_id: u32,
    code_size: usize,
    padding: Seq<bool>,
    length: Seq<bool>,
) -> Seq<bool> {
    vbr(block_id as nat, 8) + (vbr(code_size as nat, 4) + (padding + length))
}

/// Whether bits are what stands in front of the next word.
pub open spec fn pads(pos: nat, padding: Seq<bool>) -> bool {
    (pos + padding.len()) % 32 == 0 && padding.len() < 32
}

proof fn lemma_any_bits(words: Seq<u32>, pos: nat, bits: Seq<bool>)
    requires
        cursor::bit_count(words) <= usize::MAX,
        0 < bits.len() <= 32,
        holds(words, pos, bits),
    ensures
        cursor::bits_at(words, pos, bits.len()) is Ok,
        cursor::bits_at(words, pos, bits.len())->Ok_0.1 == pos + bits.len(),
{
}

/// The header of a block is read back, whatever its padding and its length are.
pub proof fn block_header_reads_back(
    words: Seq<u32>,
    pos: nat,
    block_id: u32,
    code_size: usize,
    padding: Seq<bool>,
    length: Seq<bool>,
)
    requires
        cursor::bit_count(words) <= usize::MAX,
        length.len() == 32,
        pads(pos + vbr(block_id as nat, 8).len() + vbr(code_size as nat, 4).len(), padding),
        holds(words, pos, block_bits(block_id, code_size, padding, length)),
    ensures
        identification::subblock_at(words, pos) == Ok::<(BlockModel, nat), (ReadError, nat)>(
            (
                BlockModel {
                    block_id: Some(block_id),
                    code_size: code_size as nat,
                    abbrevs: Seq::empty(),
                },
                pos + block_bits(block_id, code_size, padding, length).len(),
            ),
        ),
{
    let first = vbr(block_id as nat, 8);
    let second = vbr(code_size as nat, 4);
    lemma_holds_parts(words, pos, first, second + (padding + length));
    let p1 = pos + first.len();
    lemma_holds_parts(words, p1, second, padding + length);
    let p2 = p1 + second.len();
    lemma_holds_parts(words, p2, padding, length);
    let p3 = p2 + padding.len();
    vbr_number_reads_back(words, pos, block_id as u64, 8);
    vbr_number_reads_back(words, p1, code_size as u64, 4);
    lemma_aligned(words, p2, padding);
    lemma_any_bits(words, p3, length);
}

/// Reading goes on at the next word behind padding.
proof fn lemma_aligned(words: Seq<u32>, pos: nat, padding: Seq<bool>)
    requires
        cursor::bit_count(words) <= usize::MAX,
        pads(pos, padding),
        holds(words, pos, padding),
    ensures
        cursor::align32_at(words, pos) == Ok::<((), nat), (ReadError, nat)>(
            ((), pos + padding.len()),
        ),
{
    if pos % 32 == 0 {
        assert(padding.len() == 0);
    } else {
        assert(padding.len() == 32 - pos % 32);
        lemma_any_bits(words, pos, padding);
    }
}

/// What the search for the string does with an entry of the innermost open block. The
/// number in front of it says what it is: an end of the block, which is followed by
/// padding; a block in it; a new abbreviation, which counts for this block only; or a
/// record without an abbreviation. The string is the record with code 1 of block 13, and
/// the search goes on behind any other.
pub proof fn entry_is_told_by_its_number(
    words: Seq<u32>,
    pos: nat,
    blocks: Seq<BlockModel>,
    id: nat,
    rest: nat,
)
    requires
        blocks.len() > 0,
        cursor::bits_at(words, pos, blocks.last().code_size) == Ok::<(nat, nat), (ReadError, nat)>(
            (id, rest),
        ),
    ensures
        ({
            let top = blocks.last();
            let step = identification::scan_step(words, pos, blocks);
            let failed = |e: (ReadError, nat)| step == ScanStep::Stop(Err(e.0));
            if id == 0 {
                match cursor::align32_at(words, rest) {
                    Ok((_, next)) => step == ScanStep::Go(next, blocks.drop_last()),
                    Err(e) => failed(e),
                }
            } else if id == 1 {
                match identification::subblock_at(words, rest) {
                    Ok((block, next)) => step == ScanStep::Go(next, blocks.push(block)),
                    Err(e) => failed(e),
                }
            } else if id == 2 {
                match abbrev::abbrev_at(words, rest) {
                    Ok((ops, next)) => {
                        let changed = BlockModel { abbrevs: top.abbrevs.push(ops), ..top };
                        step == ScanStep::Go(next, blocks.update(blocks.len() - 1, changed))
                    },
                    Err(e) => failed(e),
                }
            } else if id == 3 {
                match identification::record_at(words, rest) {
                    Ok(((code, operands), next)) => if top.block_id == Some(13u32) && code == 1 {
                        step == ScanStep::Stop(Ok(operands))
                    } else {
                        step == ScanStep::Go(next, blocks)
                    },
                    Err(e) => failed(e),
                }
            } else if id < 4 + top.abbrevs.len() {
                match abbrev::skip_ops_at(words, rest, top.abbrevs[id - 4]) {
                    Ok((_, next)) => step == ScanStep::Go(next, blocks),
                    Err(e) => failed(e),
                }
            } else {
                step == ScanStep::Stop(
                    Err(ReadError::Malformed(BitcodeError::UnknownAbbreviation(id as usize))),
                )
            }
        }),
{
    if id == 2 {
        if let Ok((ops, next)) = abbrev::abbrev_at(words, rest) {
            let top = blocks.last();
            let changed = BlockModel { abbrevs: top.abbrevs.push(ops), ..top };
            assert(blocks.drop_last().push(changed) =~= blocks.update(blocks.len() - 1, changed));
        }
    }
}

/// The definition of an operand: a literal with its value, or an encoding by its number,
/// with a width where it has one. The element of an array is defined behind it.
pub open spec fn encoding_bits(encoding: AbbrevEncoding) -> Seq<bool>
    decreases encoding,
{
    match encoding {
        AbbrevEncoding::Fixed(width) => fixed(1, 3) + vbr(width as nat, 5),
        AbbrevEncoding::Vbr(width) => fixed(2, 3) + vbr(width as nat, 5),
        AbbrevEncoding::Array(element) => fixed(3, 3) + (fixed(0, 1) + encoding_bits(*element)),
        AbbrevEncoding::Char6 => fixed(4, 3),
        AbbrevEncoding::Blob => fixed(5, 3),
    }
}

/// How many definitions an encoding takes: its own, and that of the element of an array.
pub open spec fn encoding_count(encoding: AbbrevEncoding) -> nat
    decreases encoding,
{
    match encoding {
        AbbrevEncoding::Array(element) => 1 + encoding_count(*element),
        _ => 1,
    }
}

/// The definitions of operands, each with the value of its literal where it is one.
pub open spec fn ops_bits(ops: Seq<AbbrevOp>, literals: Seq<u64>) -> Seq<bool>
    decreases ops.len(),
{
    if ops.len() == 0 {
        Seq::empty()
    } else {
        (match ops[0] {
            AbbrevOp::Literal => fixed(1, 1) + vbr(literals[0] as nat, 8),
            AbbrevOp::Encoding(encoding) => fixed(0, 1) + encoding_bits(encoding),
        }) + ops_bits(ops.skip(1), literals.skip(1))
    }
}

/// How many definitions some operands take.
pub open spec fn ops_count(ops: Seq<AbbrevOp>) -> nat
    decreases ops.len(),
{
    if ops.len() == 0 {
        0
    } else {
        (match ops[0] {
            AbbrevOp::Literal => 1,
            AbbrevOp::Encoding(encoding) => encoding_count(encoding),
        }) + ops_count(ops.skip(1))
    }
}

proof fn lemma_small_fixed(words: Seq<u32>, pos: nat, value: nat, n: nat)
    requires
        cursor::bit_count(words) <= usize::MAX,
        n == 1 && value < 2 || n == 3 && value < 8,
        holds(words, pos, fixed(value, n)),
    ensures
        cursor::bits_at(words, pos, n) == Ok::<(nat, nat), (ReadError, nat)>((value, pos + n)),
        fixed(value, n).len() == n,
{
    lemma2_to64();
    lemma_fixed_len(value, n);
    fixed_number_reads_back(words, pos, value, n);
}

proof fn lemma_encoding(
    words: Seq<u32>,
    pos: nat,
    encoding: AbbrevEncoding,
    remaining: nat,
)
    requires
        cursor::bit_count(words) <= usize::MAX,
        remaining + 1 >= encoding_count(encoding),
        holds(words, pos, encoding_bits(encoding)),
    ensures
        abbrev::abbrev_encoding_at(words, pos, remaining) == Ok::<
            ((AbbrevEncoding, nat), nat),
            (ReadError, nat),
        >(
            (
                (encoding, (remaining + 1 - encoding_count(encoding)) as nat),
                pos + encoding_bits(encoding).len(),
            ),
        ),
    decreases encoding,
{
    match encoding {
        AbbrevEncoding::Fixed(width) => {
            lemma_holds_parts(words, pos, fixed(1, 3), vbr(width as nat, 5));
            lemma_small_fixed(words, pos, 1, 3);
            vbr_number_reads_back(words, pos + 3, width as u64, 5);
        },
        AbbrevEncoding::Vbr(width) => {
            lemma_holds_parts(words, pos, fixed(2, 3), vbr(width as nat, 5));
            lemma_small_fixed(words, pos, 2, 3);
            vbr_number_reads_back(words, pos + 3, width as u64, 5);
        },
        AbbrevEncoding::Array(element) => {
            let inner = encoding_bits(*element);
            lemma_holds_parts(words, pos, fixed(3, 3), fixed(0, 1) + inner);
            lemma_small_fixed(words, pos, 3, 3);
            lemma_holds_parts(words, pos + 3, fixed(0, 1), inner);
            lemma_small_fixed(words, pos + 3, 0, 1);
            lemma_count_positive(*element);
            lemma_encoding(words, pos + 4, *element, (remaining - 1) as nat);
            assert(abbrev::abbrev_op_at(words, pos + 3, remaining) == Ok::<
                ((AbbrevOp, nat), nat),
                (ReadError, nat),
            >(
                (
                    (
                        AbbrevOp::Encoding(*element),
                        (remaining - encoding_count(*element)) as nat,
                    ),
                    pos + 4 + inner.len(),
                ),
            ));
        },
        AbbrevEncoding::Char6 => {
            lemma_small_fixed(words, pos, 4, 3);
        },
        AbbrevEncoding::Blob => {
            lemma_small_fixed(words, pos, 5, 3);
        },
    }
}

proof fn lemma_count_positive(encoding: AbbrevEncoding)
    ensures
        encoding_count(encoding) >= 1,
{
}

proof fn lemma_ops(words: Seq<u32>, pos: nat, ops: Seq<AbbrevOp>, literals: Seq<u64>)
    requires
        cursor::bit_count(words) <= usize::MAX,
        literals.len() == ops.len(),
        holds(words, pos, ops_bits(ops, literals)),
    ensures
        abbrev::abbrev_ops_at(words, pos, ops_count(ops)) == Ok::<
            (Seq<AbbrevOp>, nat),
            (ReadError, nat),
        >((ops, pos + ops_bits(ops, literals).len())),
    decreases ops.len(),
{
    let remaining = ops_count(ops);
    if ops.len() > 0 {
        let rest = ops_bits(ops.skip(1), literals.skip(1));
        match ops[0] {
            AbbrevOp::Literal => {
                let value = vbr(literals[0] as nat, 8);
                lemma_holds_parts(words, pos, fixed(1, 1) + value, rest);
                lemma_holds_parts(words, pos, fixed(1, 1), value);
                lemma_small_fixed(words, pos, 1, 1);
                vbr_number_reads_back(words, pos + 1, literals[0], 8);
                lemma_ops(words, pos + 1 + value.len(), ops.skip(1), literals.skip(1));
            },
            AbbrevOp::Encoding(encoding) => {
                let inner = encoding_bits(encoding);
                lemma_holds_parts(words, pos, fixed(0, 1) + inner, rest);
                lemma_holds_parts(words, pos, fixed(0, 1), inner);
                lemma_small_fixed(words, pos, 0, 1);
                lemma_count_positive(encoding);
                lemma_encoding(words, pos + 1, encoding, (remaining - 1) as nat);
                lemma_ops(words, pos + 1 + inner.len(), ops.skip(1), literals.skip(1));
            },
        }
        assert(seq![ops[0]] + ops.skip(1) =~= ops);
    } else {
        assert(ops =~= Seq::<AbbrevOp>::empty());
    }
}

/// An abbreviation that was written, with the number of its definitions in front, is read
/// back.
pub proof fn abbreviation_reads_back(
    words: Seq<u32>,
    pos: nat,
    ops: Seq<AbbrevOp>,
    literals: Seq<u64>,
)
    requires
        cursor::bit_count(words) <= usize::MAX,
        literals.len() == ops.len(),
        ops_count(ops) <= usize::MAX,
        holds(words, pos, vbr(ops_count(ops), 5) + ops_bits(ops, literals)),
    ensures
        abbrev::abbrev_at(words, pos) == Ok::<(Seq<AbbrevOp>, nat), (ReadError, nat)>(
            (ops, pos + (vbr(ops_count(ops), 5) + ops_bits(ops, literals)).len()),
        ),
{
    let count = vbr(ops_count(ops), 5);
    lemma_holds_parts(words, pos, count, ops_bits(ops, literals));
    vbr_number_reads_back(words, pos, ops_count(ops) as u64, 5);
    lemma_ops(words, pos + count.len(), ops, literals);
}

/// A field and a character are skipped by their width, a number at a variable bit rate by
/// its chunks.
pub proof fn plain_value_is_skipped(words: Seq<u32>, pos: nat, width: usize, value: u64)
    requires
        cursor::bit_count(words) <= usize::MAX,
    ensures
        width <= usize::BITS && pos + width <= words.len() * 32 ==> abbrev::skip_encoding_at(
            words,
            pos,
            AbbrevEncoding::Fixed(width),
        ) == Ok::<((), nat), (ReadError, nat)>(((), pos + width as nat)),
        pos + 6 <= words.len() * 32 ==> abbrev::skip_encoding_at(words, pos, AbbrevEncoding::Char6)
            == Ok::<((), nat), (ReadError, nat)>(((), pos + 6)),
        2 <= width <= 32 && holds(words, pos, vbr(value as nat, width as nat))
            ==> abbrev::skip_encoding_at(words, pos, AbbrevEncoding::Vbr(width)) == Ok::<
            ((), nat),
            (ReadError, nat),
        >(((), pos + vbr(value as nat, width as nat).len())),
{
    if 2 <= width <= 32 && holds(words, pos, vbr(value as nat, width as nat)) {
        vbr_number_reads_back(words, pos, value, width as nat);
    }
}

/// An array is skipped by its length and as many elements, one behind the other.
pub proof fn array_is_skipped_by_its_length(
    words: Seq<u32>,
    pos: nat,
    element: AbbrevEncoding,
    len: usize,
    count: nat,
)
    requires
        cursor::bit_count(words) <= usize::MAX,
        holds(words, pos, vbr(len as nat, 6)),
    ensures
        abbrev::skip_encoding_at(words, pos, AbbrevEncoding::Array(Box::new(element)))
            == abbrev::skip_elements_at(
            words,
            pos + vbr(len as nat, 6).len(),
            element,
            len as nat,
        ),
        abbrev::skip_elements_at(words, pos, element, 0) == Ok::<((), nat), (ReadError, nat)>(
            ((), pos),
        ),
        abbrev::skip_elements_at(words, pos, element, count + 1) == (
        match abbrev::skip_encoding_at(words, pos, element) {
            Ok((_, next)) => abbrev::skip_elements_at(words, next, element, count),
            Err(e) => Err(e),
        }),
{
    vbr_number_reads_back(words, pos, len as u64, 6);
}

proof fn lemma_words_are_skipped(words: Seq<u32>, pos: nat, count: nat)
    requires
        cursor::bit_count(words) <= usize::MAX,
        pos + 32 * count <= words.len() * 32,
    ensures
        abbrev::skip_words_at(words, pos, count) == Ok::<((), nat), (ReadError, nat)>(
            ((), pos + 32 * count),
        ),
    decreases count,
{
    if count > 0 {
        lemma_words_are_skipped(words, pos + 32, (count - 1) as nat);
    }
}

/// A blob is skipped by its length in bytes, padding up to a word, and the words that its
/// bytes fill.
pub proof fn blob_is_skipped_by_words(
    words: Seq<u32>,
    pos: nat,
    len: usize,
    padding: Seq<bool>,
    count: nat,
)
    requires
        cursor::bit_count(words) <= usize::MAX,
        pads(pos + vbr(len as nat, 6).len(), padding),
        holds(words, pos, vbr(len as nat, 6) + padding),
        len <= 4 * count < len + 4,
        pos + (vbr(len as nat, 6) + padding).len() + 32 * count <= words.len() * 32,
    ensures
        abbrev::skip_encoding_at(words, pos, AbbrevEncoding::Blob) == Ok::<
            ((), nat),
            (ReadError, nat),
        >(((), pos + (vbr(len as nat, 6) + padding).len() + 32 * count)),
{
    let size = vbr(len as nat, 6);
    lemma_holds_parts(words, pos, size, padding);
    vbr_number_reads_back(words, pos, len as u64, 6);
    lemma_aligned(words, pos + size.len(), padding);
    lemma_words_are_skipped(words, pos + size.len() + padding.len(), count);
    assert((len + 3) / 4 == count);
}

/// The operands of a record are skipped one after the other. A literal takes no space.
pub proof fn operands_are_skipped_in_order(words: Seq<u32>, pos: nat, ops: Seq<AbbrevOp>)
    ensures
        ops.len() == 0 ==> abbrev::skip_ops_at(words, pos, ops) == Ok::<
            ((), nat),
            (ReadError, nat),
        >(((), pos)),
        ops.len() > 0 && ops[0] is Literal ==> abbrev::skip_ops_at(words, pos, ops)
            == abbrev::skip_ops_at(words, pos, ops.skip(1)),
        ops.len() > 0 && ops[0] is Encoding ==> abbrev::skip_ops_at(words, pos, ops) == (
        match abbrev::skip_encoding_at(words, pos, ops[0]->Encoding_0) {
            Ok((_, next)) => abbrev::skip_ops_at(words, next, ops.skip(1)),
            Err(e) => Err(e),
        }),
{
    if ops.len() > 0 {
        assert(ops.subrange(1, ops.len() as int) =~= ops.skip(1));
    }
}

/// Whether bytes hold some bits from a position on. The first bit of a byte is its least
/// significant one.
pub open spec fn bytes_hold(buffer: Seq<u8>, pos: nat, bits: Seq<bool>) -> bool {
    &&& pos + bits.len() <= buffer.len() * 8
    &&& forall|i: int|
        0 <= i < bits.len() ==> ((buffer[(pos + i) / 8] as nat / pow2(((pos + i) % 8) as nat)) % 2
            == 1) == #[trigger] bits[i]
}

proof fn lemma_word_bit(b0: u8, b1: u8, b2: u8, b3: u8, w: u32, q: u32)
    requires
        q < 32,
        w == b0 + 0x100 * b1 + 0x1_0000 * b2 + 0x100_0000 * b3,
    ensures
        ({
            let b = if q < 8 {
                b0
            } else if q < 16 {
                b1
            } else if q < 24 {
                b2
            } else {
                b3
            };
            (w as nat / pow2(q as nat)) % 2 == (b as nat / pow2((q % 8) as nat)) % 2
        }),
{
    let b: u8 = if q < 8 {
        b0
    } else if q < 16 {
        b1
    } else if q < 24 {
        b2
    } else {
        b3
    };
    let r: u32 = q % 8;
    let wide: u32 = b as u32;
    assert((w >> q) % 2 == (wide >> r) % 2) by (bit_vector)
        requires
            q < 32,
            r == q % 8,
            w == b0 + 0x100 * b1 + 0x1_0000 * b2 + 0x100_0000 * b3,
            wide == b as u32,
            b == (if q < 8 {
                b0
            } else if q < 16 {
                b1
            } else if q < 24 {
                b2
            } else {
                b3
            }),
    ;
    lemma_u32_shr_is_div(w, q);
    lemma_u32_shr_is_div(wide, r);
}

/// The words of a buffer hold the bits that its bytes do.
pub proof fn words_hold_the_bits_of_the_bytes(buffer: Seq<u8>, pos: nat, bits: Seq<bool>)
    requires
        buffer.len() % 4 == 0,
        bytes_hold(buffer, pos, bits),
    ensures
        holds(identification::words_of(buffer), pos, bits),
{
    let words = identification::words_of(buffer);
    assert(words.len() * 32 == buffer.len() * 8);
    assert forall|i: int| 0 <= i < bits.len() implies ((words[(pos + i) / 32] as nat / pow2(
        ((pos + i) % 32) as nat,
    )) % 2 == 1) == #[trigger] bits[i] by {
        let p = pos + i;
        let k = p / 32;
        let q = (p % 32) as u32;
        assert(0 <= k < words.len());
        let (b0, b1, b2, b3) = (
            buffer[4 * k],
            buffer[4 * k + 1],
            buffer[4 * k + 2],
            buffer[4 * k + 3],
        );
        lemma_word_bit(b0, b1, b2, b3, words[k], q);
        assert(p / 8 == 4 * k + q as int / 8);
        assert(p % 8 == q as int % 8);
        assert(((buffer[p / 8] as nat / pow2((p % 8) as nat)) % 2 == 1) == bits[i]);
    }
}

/// A buffer that starts with the signature of bitcode, and then with a block of producers
/// whose first record is a string, yields the bytes of that string, whatever stands behind
/// it.
#[verifier::rlimit(40)]
#[verifier::spinoff_prover]
pub proof fn identification_reads_back(
    buffer: Seq<u8>,
    code_size: usize,
    padding: Seq<bool>,
    length: Seq<bool>,
    string: Seq<u8>,
)
    requires
        buffer.len() >= 8,
        buffer.len() % 4 == 0,
        buffer.len() * 8 <= usize::MAX,
        buffer.take(4) == seq![0x42u8, 0x43, 0xc0, 0xde],
        2 <= code_size <= 32,
        string.len() <= usize::MAX,
        length.len() == 32,
        pads(34 + vbr(13, 8).len() + vbr(code_size as nat, 4).len(), padding),
        bytes_hold(
            buffer,
            32,
            fixed(1, 2) + (block_bits(13, code_size, padding, length) + (fixed(
                3,
                code_size as nat,
            ) + record_bits(1, string))),
        ),
    ensures
        identification::identification_bytes(buffer) == Ok::<Seq<u8>, ReadError>(string),
{
    let words = identification::words_of(buffer);
    let block = block_bits(13, code_size, padding, length);
    let record = record_bits(1, string);
    let tail = fixed(3, code_size as nat) + record;
    words_hold_the_bits_of_the_bytes(buffer, 32, fixed(1, 2) + (block + tail));
    lemma2_to64();
    lemma_fixed_len(1, 2);
    lemma_fixed_len(3, code_size as nat);
    lemma_holds_parts(words, 32, fixed(1, 2), block + tail);
    fixed_number_reads_back(words, 32, 1, 2);
    lemma_holds_parts(words, 34, block, tail);
    block_header_reads_back(words, 34, 13, code_size, padding, length);
    let p = 34 + block.len();
    lemma_holds_parts(words, p, fixed(3, code_size as nat), record);
    assert(3 < pow2(code_size as nat)) by {
        if code_size > 2 {
            lemma_pow2_strictly_increases(2, code_size as nat);
        }
    }
    fixed_number_reads_back(words, p, 3, code_size as nat);
    record_reads_back(words, p + code_size as nat, 1, string);
    assert(buffer.take(4)[0] == buffer[0] && buffer.take(4)[1] == buffer[1] && buffer.take(4)[2]
        == buffer[2] && buffer.take(4)[3] == buffer[3]);
    assert(words[0] == 0xdec0_4342);
    let root = identification::root_block();
    let open = BlockModel {
        block_id: Some(13u32),
        code_size: code_size as nat,
        abbrevs: Seq::empty(),
    };
    let outer = seq![root];
    entry_is_told_by_its_number(words, 32, outer, 1, 34);
    let inner = outer.push(open);
    assert(identification::scan_step(words, 32, outer) == ScanStep::Go(p, inner));
    assert(inner.last() == open);
    entry_is_told_by_its_number(words, p, inner, 3, p + code_size as nat);
    assert(identification::scan_step(words, p, inner) == ScanStep::Stop(Ok(string)));
    assert(identification::scan(words, p, inner) == Ok::<Seq<u8>, ReadError>(string));
    assert(identification::scan(words, 32, outer) == identification::scan(words, p, inner));
}

/// A buffer without the signature of bitcode is refused, and so is one that is too short or
/// not made up of whole words.
pub proof fn other_buffers_are_refused(buffer: Seq<u8>)
    ensures
        buffer.len() < 8 ==> identification::identification_bytes(buffer) == Err::<
            Seq<u8>,
            ReadError,
        >(ReadError::Malformed(BitcodeError::InvalidSize(buffer.len() as usize))),
        buffer.len() >= 8 && buffer.len() % 4 != 0 ==> identification::identification_bytes(buffer)
            == Err::<Seq<u8>, ReadError>(ReadError::Malformed(BitcodeError::Misaligned)),
        buffer.len() >= 8 && buffer.len() % 4 == 0 && buffer.take(4) != seq![
            0x42u8,
            0x43,
            0xc0,
            0xde,
        ] ==> identification::identification_bytes(buffer) == Err::<Seq<u8>, ReadError>(
            ReadError::Malformed(BitcodeError::MissingMagicHeader),
        ),
{
    if buffer.len() >= 8 && buffer.len() % 4 == 0 {
        let w = identification::words_of(buffer)[0];
        let (b0, b1, b2, b3) = (buffer[0], buffer[1], buffer[2], buffer[3]);
        assert(w == b0 + 0x100 * b1 + 0x1_0000 * b2 + 0x100_0000 * b3);
        if w == 0xdec0_4342 {
            assert(b0 == 0x42 && b1 == 0x43 && b2 == 0xc0 && b3 == 0xde);
            assert(buffer.take(4) =~= seq![0x42u8, 0x43, 0xc0, 0xde]);
        }
    }
}

/// Where the stream or the outermost block ends without the string, it is missing.
pub proof fn string_can_be_missing(words: Seq<u32>, pos: nat, blocks: Seq<BlockModel>)
    requires
        blocks.len() == 0 || pos >= words.len() * 32,
    ensures
        identification::scan(words, pos, blocks) == Err::<Seq<u8>, ReadError>(
            ReadError::Malformed(BitcodeError::MissingIdentificationString),
        ),
{
}

/// Numbers that do not fit their type are refused with their value, and reading goes on
/// behind them; a field that goes beyond the stream is refused where it starts.
pub proof fn numbers_have_to_fit(words: Seq<u32>, pos: nat, value: u64, width: nat, n: nat)
    requires
        cursor::bit_count(words) <= usize::MAX,
        2 <= width <= 32,
        holds(words, pos, vbr(value as nat, width)),
        0 < n,
        pos + n <= usize::MAX,
        pos + n > words.len() * 32,
    ensures
        ({
            let next = pos + vbr(value as nat, width).len();
            &&& cursor::vbr_u8_at(words, pos, width) == (if value <= 0xff {
                Ok::<(u8, nat), (ReadError, nat)>((value as u8, next))
            } else {
                Err::<(u8, nat), (ReadError, nat)>(
                    (ReadError::Malformed(BitcodeError::ValueOutOfRangeU8 { value }), next),
                )
            })
            &&& cursor::vbr_u32_at(words, pos, width) == (if value <= 0xffff_ffff {
                Ok::<(u32, nat), (ReadError, nat)>((value as u32, next))
            } else {
                Err::<(u32, nat), (ReadError, nat)>(
                    (ReadError::Malformed(BitcodeError::ValueOutOfRangeU32 { value }), next),
                )
            })
        }),
        cursor::bits_at(words, pos, n) == Err::<(nat, nat), (ReadError, nat)>(
            (ReadError::Malformed(BitcodeError::UnexpectedEnd), pos),
        ),
{
    vbr_number_reads_back(words, pos, value, width);
}

/// Each definition of an operand counts once, whether or not it can be read to its end; the
/// element of an array counts as well, once it is begun.
pub proof fn definitions_are_counted(words: Seq<u32>, pos: nat, remaining: nat, p: nat)
    requires
        remaining > 0,
    ensures
        cursor::bits_at(words, pos, 1) is Err ==> abbrev::abbrev_op_left(words, pos, remaining)
            == remaining - 1,
        cursor::bits_at(words, pos, 1) == Ok::<(nat, nat), (ReadError, nat)>((1, p))
            ==> abbrev::abbrev_op_left(words, pos, remaining) == remaining - 1,
        cursor::bits_at(words, pos, 1) == Ok::<(nat, nat), (ReadError, nat)>((0, p)) && (
        cursor::bits_at(words, p, 3) is Err || cursor::bits_at(words, p, 3)->Ok_0.0 != 3)
            ==> abbrev::abbrev_op_left(words, pos, remaining) == remaining - 1,
        cursor::bits_at(words, pos, 1) == Ok::<(nat, nat), (ReadError, nat)>((0, p))
            && cursor::bits_at(words, p, 3) == Ok::<(nat, nat), (ReadError, nat)>((3, p + 3))
            ==> abbrev::abbrev_op_left(words, pos, remaining) == (if remaining == 1 {
            0
        } else {
            abbrev::abbrev_op_left(words, p + 3, (remaining - 1) as nat)
        }),
        abbrev::abbrev_op_at(words, pos, remaining) is Ok ==> abbrev::abbrev_op_at(
            words,
            pos,
            remaining,
        )->Ok_0.0.1 == abbrev::abbrev_op_left(words, pos, remaining),
    decreases remaining,
{
    reveal_with_fuel(abbrev::abbrev_op_left, 2);
    reveal_with_fuel(abbrev::abbrev_encoding_left, 2);
    reveal_with_fuel(abbrev::abbrev_op_at, 2);
    reveal_with_fuel(abbrev::abbrev_encoding_at, 2);
    if let Ok((literal, p1)) = cursor::bits_at(words, pos, 1) {
        if let Ok((kind, p2)) = cursor::bits_at(words, p1, 3) {
            if remaining > 1 {
                definitions_are_counted(words, p2, (remaining - 1) as nat, p);
            }
        }
    }
}

/// What is not understood in the definition of an operand is refused: an encoding with
/// another number, an array without an element, and one whose element is a literal.
pub proof fn odd_definitions_are_refused(words: Seq<u32>, pos: nat, kind: nat, remaining: nat)
    requires
        cursor::bits_at(words, pos, 3) == Ok::<(nat, nat), (ReadError, nat)>((kind, pos + 3)),
    ensures
        kind == 0 || kind > 5 ==> abbrev::abbrev_encoding_at(words, pos, remaining) == Err::<
            ((AbbrevEncoding, nat), nat),
            (ReadError, nat),
        >(
            (
                ReadError::Malformed(BitcodeError::UnsupportedAbbreviationEncoding(kind as usize)),
                pos + 3,
            ),
        ),
        kind == 3 && remaining == 0 ==> abbrev::abbrev_encoding_at(words, pos, remaining) == Err::<
            ((AbbrevEncoding, nat), nat),
            (ReadError, nat),
        >((ReadError::Malformed(BitcodeError::MissingArrayElementEncoding), pos + 3)),
        kind == 3 && remaining > 0 && abbrev::abbrev_op_at(words, pos + 3, remaining) is Ok
            && abbrev::abbrev_op_at(words, pos + 3, remaining)->Ok_0.0.0 is Literal
            ==> abbrev::abbrev_encoding_at(words, pos, remaining) == Err::<
            ((AbbrevEncoding, nat), nat),
            (ReadError, nat),
        >(
            (
                ReadError::Malformed(BitcodeError::InvalidArrayElementEncoding),
                abbrev::abbrev_op_at(words, pos + 3, remaining)->Ok_0.1,
            ),
        ),
{
}

/// A field without bits is zero. One that goes beyond the stream, or whose position or words
/// do not fit a machine word, cannot be read, and is not entered. One that is wider than a
/// machine word keeps its low bits.
pub proof fn fields_are_read_where_they_can_be(words: Seq<u32>, pos: nat, n: nat, value: nat)
    requires
        cursor::bit_count(words) <= usize::MAX,
        value < pow2(usize::BITS as nat),
    ensures
        ({
            let read = cursor::bits_at(words, pos, n);
            let overflow = Err::<(nat, nat), (ReadError, nat)>((ReadError::Overflow, pos));
            let limit = usize::BITS + (if pos % 32 == 0 {
                0
            } else {
                32 - pos % 32
            });
            &&& n == 0 ==> read == Ok::<(nat, nat), (ReadError, nat)>((0, pos))
            &&& n > 0 && pos + n > usize::MAX ==> read == overflow
            &&& n > 0 && pos + n <= usize::MAX && pos + n > words.len() * 32 ==> read == Err::<
                (nat, nat),
                (ReadError, nat),
            >((ReadError::Malformed(BitcodeError::UnexpectedEnd), pos))
            &&& pos + n <= words.len() * 32 && n > limit ==> read == overflow
            &&& pos + n <= words.len() * 32 && usize::BITS < n <= limit && holds(
                words,
                pos,
                fixed(value, usize::BITS as nat),
            ) ==> read == Ok::<(nat, nat), (ReadError, nat)>((value, pos + n))
        }),
{
    if holds(words, pos, fixed(value, usize::BITS as nat)) {
        lemma_fixed(words, pos, value, usize::BITS as nat);
    }
}

/// The parts of a record and of the header of a block are read in their order, and the first
/// one that cannot be read decides what is reported, and where reading stops.
pub proof fn first_unreadable_part_is_reported(
    words: Seq<u32>,
    pos: nat,
    e: (ReadError, nat),
    count: nat,
)
    ensures
        cursor::vbr_u32_at(words, pos, 6) == Err::<(u32, nat), (ReadError, nat)>(e)
            ==> identification::record_at(words, pos) == Err::<
            ((u32, Seq<u8>), nat),
            (ReadError, nat),
        >(e),
        cursor::vbr_u32_at(words, pos, 6) is Ok ==> {
            let p = cursor::vbr_u32_at(words, pos, 6)->Ok_0.1;
            &&& cursor::vbr_usize_at(words, p, 6) == Err::<(usize, nat), (ReadError, nat)>(e)
                ==> identification::record_at(words, pos) == Err::<
                ((u32, Seq<u8>), nat),
                (ReadError, nat),
            >(e)
            &&& cursor::vbr_usize_at(words, p, 6) is Ok && identification::operands_at(
                words,
                cursor::vbr_usize_at(words, p, 6)->Ok_0.1,
                cursor::vbr_usize_at(words, p, 6)->Ok_0.0 as nat,
            ) == Err::<(Seq<u8>, nat), (ReadError, nat)>(e) ==> identification::record_at(
                words,
                pos,
            ) == Err::<((u32, Seq<u8>), nat), (ReadError, nat)>(e)
        },
        cursor::vbr_u8_at(words, pos, 6) == Err::<(u8, nat), (ReadError, nat)>(e)
            ==> identification::operands_at(words, pos, count + 1) == Err::<
            (Seq<u8>, nat),
            (ReadError, nat),
        >(e),
        cursor::vbr_u8_at(words, pos, 6) is Ok && identification::operands_at(
            words,
            cursor::vbr_u8_at(words, pos, 6)->Ok_0.1,
            count,
        ) == Err::<(Seq<u8>, nat), (ReadError, nat)>(e) ==> identification::operands_at(
            words,
            pos,
            count + 1,
        ) == Err::<(Seq<u8>, nat), (ReadError, nat)>(e),
        cursor::vbr_u32_at(words, pos, 8) == Err::<(u32, nat), (ReadError, nat)>(e)
            ==> identification::subblock_at(words, pos) == Err::<
            (BlockModel, nat),
            (ReadError, nat),
        >(e),
        cursor::vbr_u32_at(words, pos, 8) is Ok && cursor::vbr_usize_at(
            words,
            cursor::vbr_u32_at(words, pos, 8)->Ok_0.1,
            4,
        ) == Err::<(usize, nat), (ReadError, nat)>(e) ==> identification::subblock_at(words, pos)
            == Err::<(BlockModel, nat), (ReadError, nat)>(e),
{
}

/// The search for the string goes on entry by entry, as long as there are bits and open
/// blocks.
pub proof fn search_goes_on_entry_by_entry(words: Seq<u32>, pos: nat, blocks: Seq<BlockModel>)
    requires
        blocks.len() > 0,
        pos < words.len() * 32,
    ensures
        match identification::scan_step(words, pos, blocks) {
            ScanStep::Stop(result) => identification::scan(words, pos, blocks) == result,
            ScanStep::Go(next, open) => pos < next <= words.len() * 32 ==> identification::scan(
                words,
                pos,
                blocks,
            ) == identification::scan(words, next, open),
        },
        identification::root_block() == (BlockModel {
            block_id: None,
            code_size: 2,
            abbrevs: Seq::empty(),
        }),
{
}

} // verus!
