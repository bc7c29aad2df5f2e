//! The producer string of a bitcode buffer.
use vstd::prelude::*;

use crate::bitcode::abbrev;
use crate::bitcode::abbrev::{read_abbrev, skip_abbrev_record, Abbrev, AbbrevOp};
use crate::bitcode::cursor;
use crate::bitcode::cursor::{BitCursor, Parsed};
use crate::bitcode::error::{BitcodeError, ReadError};
use crate::text;

verus! {

pub const BITCODE_MAGIC: u32 = 0xdec0_4342;

pub const ABBREV_ID_END_BLOCK: usize = 0;

pub const ABBREV_ID_ENTER_SUBBLOCK: usize = 1;

pub const ABBREV_ID_DEFINE_ABBREV: usize = 2;

pub const ABBREV_ID_UNABBREV_RECORD: usize = 3;

pub const IDENTIFICATION_BLOCK_ID: u32 = 13;

pub const IDENTIFICATION_CODE_STRING: u32 = 1;

/// Width of the block id in an `ENTER_SUBBLOCK` record.
pub const SUBBLOCK_ID_VBR_WIDTH: usize = 8;

/// Width of the size of a subblock's abbreviation ids.
pub const SUBBLOCK_CODE_SIZE_VBR_WIDTH: usize = 4;

/// Width of the code of an unabbreviated record.
pub const RECORD_CODE_VBR_WIDTH: usize = 6;

/// Width of the number of operands of an unabbreviated record.
pub const RECORD_NUM_OPERANDS_VBR_WIDTH: usize = 6;

/// Width of each operand of an unabbreviated record.
pub const RECORD_OPERAND_VBR_WIDTH: usize = 6;

/// An open block: its id, the width of its abbreviation ids, and the
/// abbreviations defined in it so far.
pub struct BlockState {
    pub block_id: Option<u32>,
    pub code_size: usize,
    pub abbrevs: Vec<Abbrev>,
}

/// The mathematical content of a `BlockState`.
pub struct BlockModel {
    pub block_id: Option<u32>,
    pub code_size: nat,
    pub abbrevs: Seq<Seq<AbbrevOp>>,
}

impl View for BlockState {
    type V = BlockModel;

    open spec fn view(&self) -> BlockModel {
        BlockModel {
            block_id: self.block_id,
            code_size: self.code_size as nat,
            abbrevs: Seq::new(self.abbrevs@.len(), |i: int| self.abbrevs@[i]@),
        }
    }
}

/// The outermost block, in which a stream starts.
pub open spec fn root_block() -> BlockModel {
    BlockModel { block_id: None, code_size: 2, abbrevs: Seq::empty() }
}

impl BlockState {
    pub fn root() -> (r: Self)
        ensures
            r@ == root_block(),
    {
        let r = BlockState { block_id: None, code_size: 2, abbrevs: Vec::new() };
        assert(r@.abbrevs =~= root_block().abbrevs);
        r
    }

    pub fn new(block_id: u32, code_size: usize) -> (r: Self)
        ensures
            r@ == (BlockModel {
                block_id: Some(block_id),
                code_size: code_size as nat,
                abbrevs: Seq::empty(),
            }),
    {
        let r = BlockState { block_id: Some(block_id), code_size, abbrevs: Vec::new() };
        assert(r@.abbrevs =~= Seq::<Seq<AbbrevOp>>::empty());
        r
    }
}

/// A record that was written without an abbreviation.
pub struct Record {
    pub code: u32,
    pub operands: Vec<u8>,
}

/// Reads `count` operands of an unabbreviated record.
pub open spec fn operands_at(words: Seq<u32>, pos: nat, count: nat) -> Parsed<Seq<u8>>
    decreases count,
{
    if count == 0 {
        Ok((Seq::empty(), pos))
    } else {
        match cursor::vbr_u8_at(words, pos, RECORD_OPERAND_VBR_WIDTH as nat) {
            Err(e) => Err(e),
            Ok((operand, next)) => match operands_at(words, next, (count - 1) as nat) {
                Err(e) => Err(e),
                Ok((rest, end)) => Ok((seq![operand] + rest, end)),
            },
        }
    }
}

/// Reads the code and the operands of an unabbreviated record.
pub open spec fn record_at(words: Seq<u32>, pos: nat) -> Parsed<(u32, Seq<u8>)> {
    match cursor::vbr_u32_at(words, pos, RECORD_CODE_VBR_WIDTH as nat) {
        Err(e) => Err(e),
        Ok((code, p1)) => match cursor::vbr_usize_at(
            words,
            p1,
            RECORD_NUM_OPERANDS_VBR_WIDTH as nat,
        ) {
            Err(e) => Err(e),
            Ok((count, p2)) => match operands_at(words, p2, count as nat) {
                Err(e) => Err(e),
                Ok((operands, p3)) => Ok(((code, operands), p3)),
            },
        },
    }
}

pub fn read_unabbrev_record(cursor: &mut BitCursor<'_>) -> (r: Result<Record, ReadError>)
    requires
        old(cursor).wf(),
    ensures
        final(cursor).wf(),
        final(cursor).words() == old(cursor).words(),
        old(cursor).pos() <= final(cursor).pos(),
        match record_at(old(cursor).words(), old(cursor).pos()) {
            Ok(((code, operands), next)) => r is Ok && r->Ok_0.code == code && r->Ok_0.operands@
                == operands && final(cursor).pos() == next,
            Err((e, stop)) => r == Err::<Record, ReadError>(e) && final(cursor).pos() == stop,
        },
{
    let code: u32 = cursor.read_vbr_u32(RECORD_CODE_VBR_WIDTH)?;
    let num_ops: usize = cursor.read_vbr_usize(RECORD_NUM_OPERANDS_VBR_WIDTH)?;
    let ghost start = cursor.pos();
    let ghost words = cursor.words();
    let mut operands: Vec<u8> = Vec::new();
    let mut i: usize = 0;
    while i < num_ops
        invariant
            i <= num_ops,
            cursor.wf(),
            cursor.words() == words,
            words == old(cursor).words(),
            old(cursor).pos() <= cursor.pos(),
            cursor::vbr_u32_at(words, old(cursor).pos(), RECORD_CODE_VBR_WIDTH as nat) is Ok,
            ({
                let p1 = cursor::vbr_u32_at(
                    words,
                    old(cursor).pos(),
                    RECORD_CODE_VBR_WIDTH as nat,
                )->Ok_0.1;
                cursor::vbr_usize_at(words, p1, RECORD_NUM_OPERANDS_VBR_WIDTH as nat) == Ok::<
                    (usize, nat),
                    (ReadError, nat),
                >((num_ops, start))
            }),
            match operands_at(words, cursor.pos(), (num_ops - i) as nat) {
                Ok((rest, end)) => operands_at(words, start, num_ops as nat) == Ok::<
                    (Seq<u8>, nat),
                    (ReadError, nat),
                >((operands@ + rest, end)),
                Err(e) => operands_at(words, start, num_ops as nat) == Err::<
                    (Seq<u8>, nat),
                    (ReadError, nat),
                >(e),
            },
        decreases num_ops - i,
    {
        let ghost before = operands@;
        let operand: u8 = cursor.read_vbr_u8(RECORD_OPERAND_VBR_WIDTH)?;
        operands.push(operand);
        i = i + 1;
        proof {
            if let Ok((rest, end)) = operands_at(words, cursor.pos(), (num_ops - i) as nat) {
                assert(before + (seq![operand] + rest) =~= operands@ + rest);
            }
        }
    }
    assert(operands@ + Seq::<u8>::empty() =~= operands@);
    Ok(Record { code, operands })
}

/// Reads an abbreviation definition and appends it to the block.
pub fn define_abbrev(cursor: &mut BitCursor<'_>, state: &mut BlockState) -> (r: Result<
    (),
    ReadError,
>)
    requires
        old(cursor).wf(),
    ensures
        final(cursor).wf(),
        final(cursor).words() == old(cursor).words(),
        old(cursor).pos() <= final(cursor).pos(),
        match abbrev::abbrev_at(old(cursor).words(), old(cursor).pos()) {
            Ok((ops, next)) => r is Ok && final(cursor).pos() == next && final(state)@ == (
            BlockModel { abbrevs: old(state)@.abbrevs.push(ops), ..old(state)@ }),
            Err((e, stop)) => r == Err::<(), ReadError>(e) && final(cursor).pos() == stop
                && final(state)@ == old(state)@,
        },
{
    let abbrev = read_abbrev(cursor)?;
    state.abbrevs.push(abbrev);
    assert(state@.abbrevs =~= old(state)@.abbrevs.push(abbrev@));
    Ok(())
}

/// What one entry of the stream leads to: the end of the search, or a new
/// position with the blocks that are open there.
pub enum ScanStep {
    Stop(Result<Seq<u8>, ReadError>),
    Go(nat, Seq<BlockModel>),
}

/// Reads one entry of the innermost open block.
pub open spec fn scan_step(words: Seq<u32>, pos: nat, blocks: Seq<BlockModel>) -> ScanStep
    recommends
        blocks.len() > 0,
{
    let top = blocks.last();
    match cursor::bits_at(words, pos, top.code_size) {
        Err((e, _)) => ScanStep::Stop(Err(e)),
        Ok((id, p1)) => if id == ABBREV_ID_END_BLOCK {
            match cursor::align32_at(words, p1) {
                Err((e, _)) => ScanStep::Stop(Err(e)),
                Ok((_, p2)) => ScanStep::Go(p2, blocks.drop_last()),
            }
        } else if id == ABBREV_ID_ENTER_SUBBLOCK {
            match subblock_at(words, p1) {
                Err((e, _)) => ScanStep::Stop(Err(e)),
                Ok((block, p2)) => ScanStep::Go(p2, blocks.push(block)),
            }
        } else if id == ABBREV_ID_DEFINE_ABBREV {
            match abbrev::abbrev_at(words, p1) {
                Err((e, _)) => ScanStep::Stop(Err(e)),
                Ok((ops, p2)) => ScanStep::Go(
                    p2,
                    blocks.drop_last().push(
                        BlockModel { abbrevs: top.abbrevs.push(ops), ..top },
                    ),
                ),
            }
        } else if id == ABBREV_ID_UNABBREV_RECORD {
            match record_at(words, p1) {
                Err((e, _)) => ScanStep::Stop(Err(e)),
                Ok(((code, operands), p2)) => if top.block_id == Some(IDENTIFICATION_BLOCK_ID)
                    && code == IDENTIFICATION_CODE_STRING {
                    ScanStep::Stop(Ok(operands))
                } else {
                    ScanStep::Go(p2, blocks)
                },
            }
        } else if id - 4 >= top.abbrevs.len() {
            ScanStep::Stop(
                Err(ReadError::Malformed(BitcodeError::UnknownAbbreviation(id as usize))),
            )
        } else {
            match abbrev::skip_ops_at(words, p1, top.abbrevs[id - 4]) {
                Err((e, _)) => ScanStep::Stop(Err(e)),
                Ok((_, p2)) => ScanStep::Go(p2, blocks),
            }
        },
    }
}

/// Reads the header of a subblock: its id, the width of its abbreviation ids,
/// and a length that is not used.
pub open spec fn subblock_at(words: Seq<u32>, pos: nat) -> Parsed<BlockModel> {
    match cursor::vbr_u32_at(words, pos, SUBBLOCK_ID_VBR_WIDTH as nat) {
        Err(e) => Err(e),
        Ok((block_id, p1)) => match cursor::vbr_usize_at(
            words,
            p1,
            SUBBLOCK_CODE_SIZE_VBR_WIDTH as nat,
        ) {
            Err(e) => Err(e),
            Ok((code_size, p2)) => match cursor::align32_at(words, p2) {
                Err(e) => Err(e),
                Ok((_, p3)) => match cursor::bits_at(words, p3, 32) {
                    Err(e) => Err(e),
                    Ok((_, p4)) => Ok(
                        (
                            BlockModel {
                                block_id: Some(block_id),
                                code_size: code_size as nat,
                                abbrevs: Seq::empty(),
                            },
                            p4,
                        ),
                    ),
                },
            },
        },
    }
}

/// Searches the stream for the operands of the identification string record.
pub open spec fn scan(words: Seq<u32>, pos: nat, blocks: Seq<BlockModel>) -> Result<
    Seq<u8>,
    ReadError,
>
    decreases cursor::bit_count(words) - pos, blocks.len(),
{
    if blocks.len() == 0 || pos >= cursor::bit_count(words) {
        Err(ReadError::Malformed(BitcodeError::MissingIdentificationString))
    } else {
        match scan_step(words, pos, blocks) {
            ScanStep::Stop(result) => result,
            ScanStep::Go(next, open) => if next > cursor::bit_count(words) || next < pos || (next
                == pos && open.len() >= blocks.len()) {
                Err(ReadError::Overflow)
            } else {
                scan(words, next, open)
            },
        }
    }
}

/// The little-endian words of a buffer.
pub open spec fn words_of(bytes: Seq<u8>) -> Seq<u32> {
    Seq::new(
        bytes.len() / 4,
        |i: int|
            (bytes[4 * i] + 0x100 * bytes[4 * i + 1] + 0x1_0000 * bytes[4 * i + 2] + 0x100_0000
                * bytes[4 * i + 3]) as u32,
    )
}

/// The bytes of the identification string of a bitcode buffer.
pub open spec fn identification_bytes(buffer: Seq<u8>) -> Result<Seq<u8>, ReadError> {
    if buffer.len() < 8 {
        Err(ReadError::Malformed(BitcodeError::InvalidSize(buffer.len() as usize)))
    } else if buffer.len() % 4 != 0 {
        Err(ReadError::Malformed(BitcodeError::Misaligned))
    } else if words_of(buffer)[0] != BITCODE_MAGIC {
        Err(ReadError::Malformed(BitcodeError::MissingMagicHeader))
    } else {
        scan(words_of(buffer), 32, seq![root_block()])
    }
}

/// Whether `len` is a whole number of words.
fn is_word_aligned(len: usize) -> (r: bool)
    ensures
        r == (len % 4 == 0),
{
    len % 4 == 0
}

fn read_words(buffer: &[u8]) -> (r: Vec<u32>)
    ensures
        r@ == words_of(buffer@),
{
    let mut words: Vec<u32> = Vec::new();
    let count: usize = buffer.len() / 4;
    let mut i: usize = 0;
    while i < count
        invariant
            i <= count,
            count == buffer@.len() / 4,
            buffer@.len() <= usize::MAX,
            words@ =~= words_of(buffer@).subrange(0, i as int),
        decreases count - i,
    {
        assert(4 * i + 3 < buffer@.len());
        let word: u32 = buffer[4 * i] as u32 + 0x100 * buffer[4 * i + 1] as u32 + 0x1_0000
            * buffer[4 * i + 2] as u32 + 0x100_0000 * buffer[4 * i + 3] as u32;
        words.push(word);
        i = i + 1;
    }
    assert(words@ =~= words_of(buffer@));
    words
}

/// The open blocks as the specification sees them.
pub open spec fn models(blocks: Seq<BlockState>) -> Seq<BlockModel> {
    blocks.map_values(|b: BlockState| b@)
}

/// Reads one entry of the innermost open block; returns the operands of the
/// identification string record when the entry is one.
fn scan_entry(cursor: &mut BitCursor<'_>, blocks: &mut Vec<BlockState>) -> (r: Result<
    Option<Vec<u8>>,
    ReadError,
>)
    requires
        old(cursor).wf(),
        old(blocks)@.len() > 0,
    ensures
        final(cursor).wf(),
        final(cursor).words() == old(cursor).words(),
        match scan_step(old(cursor).words(), old(cursor).pos(), models(old(blocks)@)) {
            ScanStep::Stop(Ok(operands)) => r is Ok && r->Ok_0 is Some && r->Ok_0->Some_0@
                == operands,
            ScanStep::Stop(Err(e)) => r == Err::<Option<Vec<u8>>, ReadError>(e),
            ScanStep::Go(next, open) => {
                &&& r == Ok::<Option<Vec<u8>>, ReadError>(None)
                &&& final(cursor).pos() == next
                &&& models(final(blocks)@) == open
                &&& old(cursor).pos() <= next
                &&& old(cursor).pos() == next ==> open.len() < old(blocks)@.len()
            },
        },
{
    let ghost stack = blocks@;
    let mut state = match blocks.pop() {
        Some(state) => state,
        None => return Ok(None),
    };
    assert(models(stack).last() == state@);
    assert(models(stack).drop_last() =~= models(blocks@));
    assert(models(stack).drop_last().push(state@) =~= models(stack));
    let id: usize = cursor.read_bits(state.code_size)?;
    if id == ABBREV_ID_END_BLOCK {
        cursor.align32()?;
    } else if id == ABBREV_ID_ENTER_SUBBLOCK {
        let block = enter_subblock(cursor)?;
        blocks.push(state);
        blocks.push(block);
        assert(models(blocks@) =~= models(stack).push(block@));
    } else if id == ABBREV_ID_DEFINE_ABBREV {
        define_abbrev(cursor, &mut state)?;
        blocks.push(state);
        assert(models(blocks@) =~= models(stack).drop_last().push(state@));
    } else if id == ABBREV_ID_UNABBREV_RECORD {
        let record = read_unabbrev_record(cursor)?;
        let in_identification: bool = match state.block_id {
            Some(block_id) => block_id == IDENTIFICATION_BLOCK_ID,
            None => false,
        };
        if in_identification && record.code == IDENTIFICATION_CODE_STRING {
            return Ok(Some(record.operands));
        }
        blocks.push(state);
        assert(models(blocks@) =~= models(stack));
    } else {
        let index: usize = id - (ABBREV_ID_UNABBREV_RECORD + 1);
        if index >= state.abbrevs.len() {
            return Err(ReadError::Malformed(BitcodeError::UnknownAbbreviation(id)));
        }
        skip_abbrev_record(cursor, &state.abbrevs[index])?;
        blocks.push(state);
        assert(models(blocks@) =~= models(stack));
    }
    Ok(None)
}

/// Reads the header of a subblock.
fn enter_subblock(cursor: &mut BitCursor<'_>) -> (r: Result<BlockState, ReadError>)
    requires
        old(cursor).wf(),
    ensures
        final(cursor).wf(),
        final(cursor).words() == old(cursor).words(),
        old(cursor).pos() <= final(cursor).pos(),
        match subblock_at(old(cursor).words(), old(cursor).pos()) {
            Ok((block, next)) => r is Ok && r->Ok_0@ == block && final(cursor).pos() == next,
            Err((e, stop)) => r == Err::<BlockState, ReadError>(e) && final(cursor).pos() == stop,
        },
{
    let block_id: u32 = cursor.read_vbr_u32(SUBBLOCK_ID_VBR_WIDTH)?;
    let code_size: usize = cursor.read_vbr_usize(SUBBLOCK_CODE_SIZE_VBR_WIDTH)?;
    cursor.align32()?;
    let _len_in_words: usize = cursor.read_bits(32)?;
    Ok(BlockState::new(block_id, code_size))
}

/// Finds the identification string of a bitcode buffer. Unlike
/// [`identification_string`] it also answers on buffers with a field that is too
/// wide to be decoded.
pub fn scan_identification_string(buffer: &[u8]) -> (r: Result<String, ReadError>)
    requires
        buffer@.len() * 8 <= usize::MAX,
    ensures
        match identification_bytes(buffer@) {
            Ok(bytes) => r is Ok && r->Ok_0@ == text::lossy_utf8(bytes),
            Err(e) => r == Err::<String, ReadError>(e),
        },
{
    if buffer.len() < 8 {
        return Err(ReadError::Malformed(BitcodeError::InvalidSize(buffer.len())));
    }
    if !is_word_aligned(buffer.len()) {
        return Err(ReadError::Malformed(BitcodeError::Misaligned));
    }
    let words = read_words(buffer);
    if words[0] != BITCODE_MAGIC {
        return Err(ReadError::Malformed(BitcodeError::MissingMagicHeader));
    }
    let mut cursor = BitCursor::new(words.as_slice());
    if cursor.seek_to_bit(32).is_err() {
        return Err(ReadError::Malformed(BitcodeError::CursorOutOfBounds));
    }
    let mut blocks: Vec<BlockState> = Vec::new();
    blocks.push(BlockState::root());
    assert(models(blocks@) =~= seq![root_block()]);
    while blocks.len() > 0 && !cursor.is_eof()
        invariant
            cursor.wf(),
            cursor.words() == words_of(buffer@),
            identification_bytes(buffer@) == scan(
                words_of(buffer@),
                cursor.pos(),
                models(blocks@),
            ),
        decreases cursor::bit_count(cursor.words()) - cursor.pos(), blocks@.len(),
    {
        match scan_entry(&mut cursor, &mut blocks)? {
            Some(operands) => {
                return Ok(text::string_from_utf8_lossy(operands.as_slice()));
            },
            None => {},
        }
    }
    Err(ReadError::Malformed(BitcodeError::MissingIdentificationString))
}

/// Returns the string that names the producer of a bitcode buffer.
pub fn identification_string(buffer: &[u8]) -> (r: Result<String, BitcodeError>)
    requires
        buffer@.len() * 8 <= usize::MAX,
        identification_bytes(buffer@) != Err::<Seq<u8>, ReadError>(ReadError::Overflow),
    ensures
        match identification_bytes(buffer@) {
            Ok(bytes) => r is Ok && r->Ok_0@ == text::lossy_utf8(bytes),
            Err(ReadError::Malformed(e)) => r == Err::<String, BitcodeError>(e),
            Err(ReadError::Overflow) => false,
        },
{
    match scan_identification_string(buffer) {
        Ok(string) => Ok(string),
        Err(ReadError::Malformed(e)) => Err(e),
        Err(ReadError::Overflow) => Err(BitcodeError::UnexpectedEnd),
    }
}

} // verus!
