//! What was read from a stream stays as it is when the stream goes on.
use vstd::prelude::*;

use crate::bitcode::abbrev;
use crate::bitcode::abbrev::{
    AbbrevEncoding, AbbrevOp, ABBREV_ENCODING_DATA_VBR_WIDTH, ABBREV_NUM_OPERANDS_VBR_WIDTH,
    LENGTH_VBR_WIDTH, LITERAL_VBR_WIDTH,
};
use crate::bitcode::cursor;
use crate::bitcode::identification;
use crate::bitcode::identification::{
    BlockModel, ScanStep, ABBREV_ID_DEFINE_ABBREV, ABBREV_ID_END_BLOCK, ABBREV_ID_ENTER_SUBBLOCK,
    ABBREV_ID_UNABBREV_RECORD, RECORD_CODE_VBR_WIDTH, RECORD_NUM_OPERANDS_VBR_WIDTH,
    RECORD_OPERAND_VBR_WIDTH, SUBBLOCK_CODE_SIZE_VBR_WIDTH, SUBBLOCK_ID_VBR_WIDTH,
};

verus! {

proof fn lemma_field(words: Seq<u32>, more: Seq<u32>, pos: nat, n: nat)
    requires
        pos + n <= cursor::bit_count(words),
    ensures
        cursor::field(words + more, pos, n) == cursor::field(words, pos, n),
    decreases n,
{
    if n > 0 {
        assert((words + more)[(pos / 32) as int] == words[(pos / 32) as int]);
        lemma_field(words, more, pos + 1, (n - 1) as nat);
    }
}

proof fn lemma_bits(words: Seq<u32>, more: Seq<u32>, pos: nat, n: nat)
    requires
        cursor::bits_at(words, pos, n) is Ok,
    ensures
        cursor::bits_at(words + more, pos, n) == cursor::bits_at(words, pos, n),
{
    if n > 0 {
        lemma_field(words, more, pos, n);
        if n > usize::BITS {
            lemma_field(words, more, pos, usize::BITS as nat);
        }
    }
}

proof fn lemma_vbr_chunks(words: Seq<u32>, more: Seq<u32>, pos: nat, width: nat, shift: nat)
    requires
        cursor::vbr_chunks(words, pos, width, shift) is Ok,
    ensures
        cursor::vbr_chunks(words + more, pos, width, shift) == cursor::vbr_chunks(
            words,
            pos,
            width,
            shift,
        ),
    decreases cursor::bit_count(words) - pos,
{
    lemma_bits(words, more, pos, width);
    let (piece, next) = cursor::bits_at(words, pos, width)->Ok_0;
    if piece >= vstd::arithmetic::power2::pow2((width - 1) as nat) {
        lemma_vbr_chunks(words, more, next, width, (shift + width - 1) as nat);
    }
}

proof fn lemma_vbr(words: Seq<u32>, more: Seq<u32>, pos: nat, width: nat)
    requires
        cursor::vbr_at(words, pos, width) is Ok,
    ensures
        cursor::vbr_at(words + more, pos, width) == cursor::vbr_at(words, pos, width),
{
    lemma_vbr_chunks(words, more, pos, width, 0);
}

proof fn lemma_align32(words: Seq<u32>, more: Seq<u32>, pos: nat)
    requires
        cursor::align32_at(words, pos) is Ok,
    ensures
        cursor::align32_at(words + more, pos) == cursor::align32_at(words, pos),
{
    if pos % 32 != 0 {
        lemma_bits(words, more, pos, (32 - pos % 32) as nat);
    }
}

proof fn lemma_abbrev_op(words: Seq<u32>, more: Seq<u32>, pos: nat, remaining: nat)
    requires
        abbrev::abbrev_op_at(words, pos, remaining) is Ok,
    ensures
        abbrev::abbrev_op_at(words + more, pos, remaining) == abbrev::abbrev_op_at(
            words,
            pos,
            remaining,
        ),
    decreases remaining, 0nat,
{
    lemma_bits(words, more, pos, 1);
    let (literal, p1) = cursor::bits_at(words, pos, 1)->Ok_0;
    if literal != 0 {
        lemma_vbr(words, more, p1, LITERAL_VBR_WIDTH as nat);
    } else {
        lemma_abbrev_encoding(words, more, p1, (remaining - 1) as nat);
    }
}

proof fn lemma_abbrev_encoding(words: Seq<u32>, more: Seq<u32>, pos: nat, remaining: nat)
    requires
        abbrev::abbrev_encoding_at(words, pos, remaining) is Ok,
    ensures
        abbrev::abbrev_encoding_at(words + more, pos, remaining) == abbrev::abbrev_encoding_at(
            words,
            pos,
            remaining,
        ),
    decreases remaining, 1nat,
{
    lemma_bits(words, more, pos, 3);
    let (kind, p1) = cursor::bits_at(words, pos, 3)->Ok_0;
    if kind == 1 || kind == 2 {
        lemma_vbr(words, more, p1, ABBREV_ENCODING_DATA_VBR_WIDTH as nat);
    } else if kind == 3 {
        lemma_abbrev_op(words, more, p1, remaining);
    }
}

proof fn lemma_abbrev_ops(words: Seq<u32>, more: Seq<u32>, pos: nat, remaining: nat)
    requires
        abbrev::abbrev_ops_at(words, pos, remaining) is Ok,
    ensures
        abbrev::abbrev_ops_at(words + more, pos, remaining) == abbrev::abbrev_ops_at(
            words,
            pos,
            remaining,
        ),
    decreases remaining,
{
    if remaining > 0 {
        lemma_abbrev_op(words, more, pos, remaining);
        let ((op, left), p1) = abbrev::abbrev_op_at(words, pos, remaining)->Ok_0;
        lemma_abbrev_ops(words, more, p1, left);
    }
}

proof fn lemma_abbrev(words: Seq<u32>, more: Seq<u32>, pos: nat)
    requires
        abbrev::abbrev_at(words, pos) is Ok,
    ensures
        abbrev::abbrev_at(words + more, pos) == abbrev::abbrev_at(words, pos),
{
    lemma_vbr(words, more, pos, ABBREV_NUM_OPERANDS_VBR_WIDTH as nat);
    let (count, p1) = cursor::vbr_usize_at(
        words,
        pos,
        ABBREV_NUM_OPERANDS_VBR_WIDTH as nat,
    )->Ok_0;
    lemma_abbrev_ops(words, more, p1, count as nat);
}

proof fn lemma_skip_words(words: Seq<u32>, more: Seq<u32>, pos: nat, count: nat)
    requires
        abbrev::skip_words_at(words, pos, count) is Ok,
    ensures
        abbrev::skip_words_at(words + more, pos, count) == abbrev::skip_words_at(words, pos, count),
    decreases count,
{
    if count > 0 {
        lemma_bits(words, more, pos, 32);
        lemma_skip_words(
            words,
            more,
            cursor::bits_at(words, pos, 32)->Ok_0.1,
            (count - 1) as nat,
        );
    }
}

proof fn lemma_skip_encoding(
    words: Seq<u32>,
    more: Seq<u32>,
    pos: nat,
    encoding: AbbrevEncoding,
)
    requires
        abbrev::skip_encoding_at(words, pos, encoding) is Ok,
    ensures
        abbrev::skip_encoding_at(words + more, pos, encoding) == abbrev::skip_encoding_at(
            words,
            pos,
            encoding,
        ),
    decreases encoding, 0nat,
{
    match encoding {
        AbbrevEncoding::Fixed(width) => lemma_bits(words, more, pos, width as nat),
        AbbrevEncoding::Vbr(width) => lemma_vbr(words, more, pos, width as nat),
        AbbrevEncoding::Char6 => lemma_bits(words, more, pos, 6),
        AbbrevEncoding::Array(element) => {
            lemma_vbr(words, more, pos, LENGTH_VBR_WIDTH as nat);
            let (len, next) = cursor::vbr_usize_at(words, pos, LENGTH_VBR_WIDTH as nat)->Ok_0;
            lemma_skip_elements(words, more, next, *element, len as nat);
        },
        AbbrevEncoding::Blob => {
            lemma_vbr(words, more, pos, LENGTH_VBR_WIDTH as nat);
            let (len, next) = cursor::vbr_usize_at(words, pos, LENGTH_VBR_WIDTH as nat)->Ok_0;
            lemma_align32(words, more, next);
            let aligned = cursor::align32_at(words, next)->Ok_0.1;
            lemma_skip_words(words, more, aligned, ((len + 3) / 4) as nat);
        },
    }
}

proof fn lemma_skip_elements(
    words: Seq<u32>,
    more: Seq<u32>,
    pos: nat,
    encoding: AbbrevEncoding,
    count: nat,
)
    requires
        abbrev::skip_elements_at(words, pos, encoding, count) is Ok,
    ensures
        abbrev::skip_elements_at(words + more, pos, encoding, count) == abbrev::skip_elements_at(
            words,
            pos,
            encoding,
            count,
        ),
    decreases encoding, count + 1,
{
    if count > 0 {
        lemma_skip_encoding(words, more, pos, encoding);
        let next = abbrev::skip_encoding_at(words, pos, encoding)->Ok_0.1;
        lemma_skip_elements(words, more, next, encoding, (count - 1) as nat);
    }
}

proof fn lemma_skip_ops(words: Seq<u32>, more: Seq<u32>, pos: nat, ops: Seq<AbbrevOp>)
    requires
        abbrev::skip_ops_at(words, pos, ops) is Ok,
    ensures
        abbrev::skip_ops_at(words + more, pos, ops) == abbrev::skip_ops_at(words, pos, ops),
    decreases ops.len(),
{
    if ops.len() > 0 {
        let rest = ops.subrange(1, ops.len() as int);
        match ops[0] {
            AbbrevOp::Literal => lemma_skip_ops(words, more, pos, rest),
            AbbrevOp::Encoding(encoding) => {
                lemma_skip_encoding(words, more, pos, encoding);
                let next = abbrev::skip_encoding_at(words, pos, encoding)->Ok_0.1;
                lemma_skip_ops(words, more, next, rest);
            },
        }
    }
}

proof fn lemma_operands(words: Seq<u32>, more: Seq<u32>, pos: nat, count: nat)
    requires
        identification::operands_at(words, pos, count) is Ok,
    ensures
        identification::operands_at(words + more, pos, count) == identification::operands_at(
            words,
            pos,
            count,
        ),
    decreases count,
{
    if count > 0 {
        lemma_vbr(words, more, pos, RECORD_OPERAND_VBR_WIDTH as nat);
        let next = cursor::vbr_u8_at(words, pos, RECORD_OPERAND_VBR_WIDTH as nat)->Ok_0.1;
        lemma_operands(words, more, next, (count - 1) as nat);
    }
}

proof fn lemma_record(words: Seq<u32>, more: Seq<u32>, pos: nat)
    requires
        identification::record_at(words, pos) is Ok,
    ensures
        identification::record_at(words + more, pos) == identification::record_at(words, pos),
{
    lemma_vbr(words, more, pos, RECORD_CODE_VBR_WIDTH as nat);
    let p1 = cursor::vbr_u32_at(words, pos, RECORD_CODE_VBR_WIDTH as nat)->Ok_0.1;
    lemma_vbr(words, more, p1, RECORD_NUM_OPERANDS_VBR_WIDTH as nat);
    let (count, p2) = cursor::vbr_usize_at(
        words,
        p1,
        RECORD_NUM_OPERANDS_VBR_WIDTH as nat,
    )->Ok_0;
    lemma_operands(words, more, p2, count as nat);
}

proof fn lemma_subblock(words: Seq<u32>, more: Seq<u32>, pos: nat)
    requires
        identification::subblock_at(words, pos) is Ok,
    ensures
        identification::subblock_at(words + more, pos) == identification::subblock_at(words, pos),
{
    lemma_vbr(words, more, pos, SUBBLOCK_ID_VBR_WIDTH as nat);
    let p1 = cursor::vbr_u32_at(words, pos, SUBBLOCK_ID_VBR_WIDTH as nat)->Ok_0.1;
    lemma_vbr(words, more, p1, SUBBLOCK_CODE_SIZE_VBR_WIDTH as nat);
    let p2 = cursor::vbr_usize_at(words, p1, SUBBLOCK_CODE_SIZE_VBR_WIDTH as nat)->Ok_0.1;
    lemma_align32(words, more, p2);
    lemma_bits(words, more, cursor::align32_at(words, p2)->Ok_0.1, 32);
}

proof fn lemma_scan_step(words: Seq<u32>, more: Seq<u32>, pos: nat, blocks: Seq<BlockModel>)
    requires
        match identification::scan_step(words, pos, blocks) {
            ScanStep::Stop(result) => result is Ok,
            ScanStep::Go(_, _) => true,
        },
    ensures
        identification::scan_step(words + more, pos, blocks) == identification::scan_step(
            words,
            pos,
            blocks,
        ),
{
    let top = blocks.last();
    lemma_bits(words, more, pos, top.code_size);
    let (id, p1) = cursor::bits_at(words, pos, top.code_size)->Ok_0;
    if id == ABBREV_ID_END_BLOCK {
        lemma_align32(words, more, p1);
    } else if id == ABBREV_ID_ENTER_SUBBLOCK {
        lemma_subblock(words, more, p1);
    } else if id == ABBREV_ID_DEFINE_ABBREV {
        lemma_abbrev(words, more, p1);
    } else if id == ABBREV_ID_UNABBREV_RECORD {
        lemma_record(words, more, p1);
    } else {
        lemma_skip_ops(words, more, p1, top.abbrevs[id - 4]);
    }
}

proof fn lemma_scan(words: Seq<u32>, more: Seq<u32>, pos: nat, blocks: Seq<BlockModel>)
    requires
        identification::scan(words, pos, blocks) is Ok,
    ensures
        identification::scan(words + more, pos, blocks) == identification::scan(
            words,
            pos,
            blocks,
        ),
    decreases cursor::bit_count(words) - pos, blocks.len(),
{
    lemma_scan_step(words, more, pos, blocks);
    if let ScanStep::Go(next, open) = identification::scan_step(words, pos, blocks) {
        lemma_scan(words, more, next, open);
    }
}

/// The first identification string counts: whole words that are appended to a
/// buffer, whatever they hold, leave a string that was found as it is.
pub proof fn appended_words_change_nothing(buffer: Seq<u8>, more: Seq<u8>)
    requires
        identification::identification_bytes(buffer) is Ok,
        more.len() % 4 == 0,
    ensures
        identification::identification_bytes(buffer + more)
            == identification::identification_bytes(buffer),
{
    let words = identification::words_of(buffer);
    let rest = identification::words_of(more);
    let all = identification::words_of(buffer + more);
    assert(all =~= words + rest) by {
        assert forall|i: int| 0 <= i < all.len() implies all[i] == (words + rest)[i] by {
            if i < words.len() {
                assert((buffer + more)[4 * i] == buffer[4 * i]);
            } else {
                let k = i - words.len();
                assert(4 * i == buffer.len() + 4 * k);
                assert((buffer + more)[4 * i] == more[4 * k]);
                assert((buffer + more)[4 * i + 1] == more[4 * k + 1]);
                assert((buffer + more)[4 * i + 2] == more[4 * k + 2]);
                assert((buffer + more)[4 * i + 3] == more[4 * k + 3]);
            }
        }
    }
    lemma_scan(words, rest, 32, seq![identification::root_block()]);
}

} // verus!
