//! Bit-level access to a sequence of 32-bit words.
use vstd::arithmetic::div_mod::*;
use vstd::arithmetic::mul::*;
use vstd::arithmetic::power2::*;
use vstd::bits::*;
use vstd::prelude::*;

use crate::bitcode::error::{BitcodeError, ReadError};

verus! {

/// What a read yields: the value and the bit position after it, or the error and
/// the bit position at which reading stopped.
pub type Parsed<T> = Result<(T, nat), (ReadError, nat)>;

/// The number of bits in `words`.
pub open spec fn bit_count(words: Seq<u32>) -> nat {
    words.len() * 32
}

/// Bit `i` of the stream; within a word the least significant bit comes first.
pub open spec fn bit_at(words: Seq<u32>, i: nat) -> nat {
    (words[(i / 32) as int] as nat / pow2(i % 32)) % 2
}

/// The `n` bits from `pos` on as a number, least significant bit first.
pub open spec fn field(words: Seq<u32>, pos: nat, n: nat) -> nat
    decreases n,
{
    if n == 0 {
        0
    } else {
        bit_at(words, pos) + 2 * field(words, pos + 1, (n - 1) as nat)
    }
}

/// The widest field that can be read from `pos`: the words it spans must all
/// begin inside one machine word.
pub open spec fn widest_field(pos: nat) -> nat {
    (usize::BITS + (32 - pos % 32) % 32) as nat
}

/// Reads a fixed-width field. A field wider than a machine word keeps its low
/// bits. A field that cannot be read is not entered.
pub open spec fn bits_at(words: Seq<u32>, pos: nat, n: nat) -> Parsed<nat> {
    if n == 0 {
        Ok((0, pos))
    } else if pos + n > usize::MAX {
        Err((ReadError::Overflow, pos))
    } else if pos + n > bit_count(words) {
        Err((ReadError::Malformed(BitcodeError::UnexpectedEnd), pos))
    } else if n > widest_field(pos) {
        Err((ReadError::Overflow, pos))
    } else {
        Ok((field(words, pos, if n <= usize::BITS { n } else { usize::BITS as nat }), pos + n))
    }
}

/// Reads the chunks of a variable-bit-rate number whose first chunk counts
/// `2^shift`. The high bit of a chunk says whether another one follows.
pub open spec fn vbr_chunks(words: Seq<u32>, pos: nat, width: nat, shift: nat) -> Parsed<nat>
    decreases bit_count(words) - pos,
{
    match bits_at(words, pos, width) {
        Err(e) => Err(e),
        Ok((piece, next)) => if width == 0 || width > 64 || shift >= 64 || next > bit_count(words) {
            Err((ReadError::Overflow, next))
        } else {
            let value = (piece % pow2((width - 1) as nat)) * pow2(shift);
            if piece < pow2((width - 1) as nat) {
                Ok((value, next))
            } else {
                match vbr_chunks(words, next, width, (shift + width - 1) as nat) {
                    Err(e) => Err(e),
                    Ok((rest, end)) => Ok((value + rest, end)),
                }
            }
        },
    }
}

/// Reads a variable-bit-rate number into 64 bits.
pub open spec fn vbr_at(words: Seq<u32>, pos: nat, width: nat) -> Parsed<u64> {
    match vbr_chunks(words, pos, width, 0) {
        Err(e) => Err(e),
        Ok((value, next)) => Ok(((value % pow2(64)) as u64, next)),
    }
}

/// Reads a variable-bit-rate number that must fit a byte. A number that does not
/// is read all the same.
pub open spec fn vbr_u8_at(words: Seq<u32>, pos: nat, width: nat) -> Parsed<u8> {
    match vbr_at(words, pos, width) {
        Err(e) => Err(e),
        Ok((value, next)) => if value <= u8::MAX {
            Ok((value as u8, next))
        } else {
            Err((ReadError::Malformed(BitcodeError::ValueOutOfRangeU8 { value }), next))
        },
    }
}

/// Reads a variable-bit-rate number that must fit 32 bits.
pub open spec fn vbr_u32_at(words: Seq<u32>, pos: nat, width: nat) -> Parsed<u32> {
    match vbr_at(words, pos, width) {
        Err(e) => Err(e),
        Ok((value, next)) => if value <= u32::MAX {
            Ok((value as u32, next))
        } else {
            Err((ReadError::Malformed(BitcodeError::ValueOutOfRangeU32 { value }), next))
        },
    }
}

/// Reads a variable-bit-rate number that must fit a machine word.
pub open spec fn vbr_usize_at(words: Seq<u32>, pos: nat, width: nat) -> Parsed<usize> {
    match vbr_at(words, pos, width) {
        Err(e) => Err(e),
        Ok((value, next)) => if value <= usize::MAX {
            Ok((value as usize, next))
        } else {
            Err((ReadError::Malformed(BitcodeError::ValueOutOfRangeUsize { value }), next))
        },
    }
}

/// The first word boundary at or after `pos`.
pub open spec fn align32_at(words: Seq<u32>, pos: nat) -> Parsed<()> {
    if pos % 32 == 0 {
        Ok(((), pos))
    } else {
        match bits_at(words, pos, (32 - pos % 32) as nat) {
            Err(e) => Err(e),
            Ok((_, next)) => Ok(((), next)),
        }
    }
}

/// A field is the concatenation of its parts: reading `a + b` bits gives the
/// low `a` bits of the value followed by the next `b`.
pub proof fn field_splits(words: Seq<u32>, pos: nat, a: nat, b: nat)
    ensures
        field(words, pos, a + b) == field(words, pos, a) + pow2(a) * field(words, pos + a, b),
    decreases a,
{
    if a == 0 {
        lemma2_to64();
    } else {
        let a1 = (a - 1) as nat;
        field_splits(words, pos + 1, a1, b);
        assert((a + b - 1) as nat == a1 + b);
        assert(pos + 1 + a1 == pos + a);
        lemma_pow2_unfold(a);
        let rest = field(words, pos + a, b);
        assert(2 * (pow2(a1) * rest) == (2 * pow2(a1)) * rest) by (nonlinear_arith);
    }
}

/// An `n`-bit field is smaller than `2^n`.
pub proof fn field_bound(words: Seq<u32>, pos: nat, n: nat)
    ensures
        field(words, pos, n) < pow2(n),
    decreases n,
{
    lemma2_to64();
    if n > 0 {
        field_bound(words, pos + 1, (n - 1) as nat);
        lemma_pow2_unfold(n);
    }
}

/// A field inside one word is a shift and a mask of that word.
proof fn lemma_field_in_word(words: Seq<u32>, pos: nat, n: nat)
    requires
        pos % 32 + n <= 32,
    ensures
        field(words, pos, n) == (words[(pos / 32) as int] as nat / pow2(pos % 32)) % pow2(n),
    decreases n,
{
    let w = words[(pos / 32) as int] as nat;
    let b = pos % 32;
    lemma_pow2_pos(b);
    lemma2_to64();
    if n > 0 {
        let n1 = (n - 1) as nat;
        let q = w / pow2(b);
        lemma_pow2_pos(n1);
        lemma_pow2_unfold(n);
        lemma_mod_breakdown(q as int, 2, pow2(n1) as int);
        if n1 > 0 {
            assert((pos + 1) / 32 == pos / 32 && (pos + 1) % 32 == b + 1);
            lemma_field_in_word(words, pos + 1, n1);
            lemma_pow2_unfold(b + 1);
            lemma_div_denominator(w as int, pow2(b) as int, 2);
            assert(2 * pow2(b) == pow2(b) * 2);
            assert(field(words, pos + 1, n1) == (q / 2) % pow2(n1));
        } else {
            assert(field(words, pos + 1, n1) == 0);
            assert((q / 2) % 1 == 0);
        }
        assert(bit_at(words, pos) == q % 2);
        assert(field(words, pos, n) == bit_at(words, pos) + 2 * field(words, pos + 1, n1));
    } else {
        assert((w / pow2(b)) % 1 == 0);
    }
}

/// Appending `chunk` above the low `shift` bits of `low`.
proof fn lemma_append_usize(low: usize, chunk: usize, shift: usize)
    requires
        shift < usize::BITS,
        low < pow2(shift as nat),
        chunk * pow2(shift as nat) <= usize::MAX,
    ensures
        low | (chunk << shift) == low + chunk * pow2(shift as nat),
{
    lemma_usize_shl_is_mul(chunk, shift);
    lemma_usize_pow2_no_overflow(shift as nat);
    assert(1 * pow2(shift as nat) <= usize::MAX);
    lemma_usize_shl_is_mul(1, shift);
    let s = chunk << shift;
    let one = 1usize << shift;
    assert(low | (chunk << shift) == low + (chunk << shift)) by (bit_vector)
        requires
            shift < usize::BITS,
            low < (1usize << shift),
    ;
}

/// Reading `a` bits and then `b` more gives what reading `a + b` bits at once
/// does: the second value stands above the first, and the position is the same.
pub proof fn reads_join(
    words: Seq<u32>,
    pos: nat,
    a: usize,
    b: usize,
    x: usize,
    y: usize,
    middle: nat,
    end: nat,
)
    requires
        bit_count(words) <= usize::MAX,
        a < usize::BITS,
        a + b <= usize::BITS,
        bits_at(words, pos, a as nat) == Ok::<(nat, nat), (ReadError, nat)>((x as nat, middle)),
        bits_at(words, middle, b as nat) == Ok::<(nat, nat), (ReadError, nat)>((y as nat, end)),
    ensures
        bits_at(words, pos, (a + b) as nat) == Ok::<(nat, nat), (ReadError, nat)>(
            ((x | (y << a)) as nat, end),
        ),
{
    field_splits(words, pos, a as nat, b as nat);
    field_bound(words, pos, a as nat);
    field_bound(words, pos, (a + b) as nat);
    lemma_usize_bits_pow2();
    if a + b < usize::BITS {
        lemma_pow2_strictly_increases((a + b) as nat, usize::BITS as nat);
    }
    assert(y * pow2(a as nat) == pow2(a as nat) * y) by (nonlinear_arith);
    assert(x == field(words, pos, a as nat));
    assert(y == field(words, middle, b as nat));
    lemma_append_usize(x, y, a);
}

/// Reads fields of arbitrary width from a slice of 32-bit words.
pub struct BitCursor<'a> {
    words: &'a [u32],
    bit_len: usize,
    bit_pos: usize,
}

impl<'a> BitCursor<'a> {
    /// The words that are read.
    pub closed spec fn words(self) -> Seq<u32> {
        self.words@
    }

    /// The position of the next bit.
    pub closed spec fn pos(self) -> nat {
        self.bit_pos as nat
    }

    pub closed spec fn knows_length(self) -> bool {
        self.bit_len == bit_count(self.words@)
    }

    /// The position stays inside the stream.
    pub open spec fn wf(self) -> bool {
        &&& self.pos() <= bit_count(self.words()) <= usize::MAX
        &&& self.knows_length()
    }

    pub fn new(words: &'a [u32]) -> (r: Self)
        requires
            bit_count(words@) <= usize::MAX,
        ensures
            r.wf(),
            r.words() == words@,
            r.pos() == 0,
    {
        BitCursor { words, bit_len: words.len() * 32, bit_pos: 0 }
    }

    /// Moves to bit `bit`, which may be the end of the stream.
    pub fn seek_to_bit(&mut self, bit: usize) -> (r: Result<(), BitcodeError>)
        requires
            old(self).wf(),
        ensures
            final(self).wf(),
            final(self).words() == old(self).words(),
            bit <= bit_count(old(self).words()) ==> r is Ok && final(self).pos() == bit,
            bit > bit_count(old(self).words()) ==> r == Err::<(), BitcodeError>(
                BitcodeError::CursorOutOfBounds,
            ) && final(self).pos() == old(self).pos(),
    {
        if bit > self.bit_len {
            return Err(BitcodeError::CursorOutOfBounds);
        }
        self.bit_pos = bit;
        Ok(())
    }

    pub fn is_eof(&self) -> (r: bool)
        requires
            self.wf(),
        ensures
            r == (self.pos() >= bit_count(self.words())),
    {
        self.bit_pos >= self.bit_len
    }

    /// Reads `n` bits, stitching across word boundaries when needed.
    pub fn read_bits(&mut self, n: usize) -> (r: Result<usize, ReadError>)
        requires
            old(self).wf(),
        ensures
            final(self).wf(),
            final(self).words() == old(self).words(),
            match bits_at(old(self).words(), old(self).pos(), n as nat) {
                Ok((value, next)) => r == Ok::<usize, ReadError>(value as usize) && value
                    <= usize::MAX && final(self).pos() == next,
                Err((e, stop)) => r == Err::<usize, ReadError>(e) && final(self).pos() == stop,
            },
    {
        if n == 0 {
            return Ok(0);
        }
        if n > usize::MAX - self.bit_pos {
            return Err(ReadError::Overflow);
        }
        if self.bit_pos + n > self.bit_len {
            return Err(ReadError::Malformed(BitcodeError::UnexpectedEnd));
        }
        let word_bits: usize = usize::BITS as usize;
        let in_word: usize = self.bit_pos % 32;
        if n > word_bits + (32 - in_word) % 32 {
            return Err(ReadError::Overflow);
        }
        let ghost words = self.words@;
        let ghost start = self.bit_pos as nat;
        let mut result: usize = 0;
        let mut read: usize = 0;
        let mut kept: usize = 0;
        while read < n
            invariant
                self.wf(),
                self.words@ == words,
                self.words@ == old(self).words(),
                self.bit_pos == start + read,
                read <= n,
                start + n <= self.bit_len,
                word_bits == usize::BITS,
                in_word == start % 32,
                n <= word_bits + (32 - in_word) % 32,
                kept == (if read <= word_bits { read } else { word_bits }),
                read == n || (start + read) % 32 == 0 || read == 0,
                result == field(words, start, kept as nat),
            decreases n - read,
        {
            let word_index: usize = self.bit_pos / 32;
            let bit_index: usize = self.bit_pos % 32;
            let available: usize = 32 - bit_index;
            let take: usize = if available < n - read { available } else { n - read };
            assert(read < word_bits);
            let keep: usize = if take <= word_bits - read { take } else { word_bits - read };
            let word: usize = self.words[word_index] as usize;
            let shifted: usize = word >> bit_index;
            proof {
                if keep < 32 {
                    lemma_usize_pow2_no_overflow(keep as nat);
                    lemma_usize_shl_is_mul(1, keep);
                }
            }
            let chunk: usize = if keep == 32 { shifted } else { shifted & ((1usize << keep) - 1) };
            proof {
                lemma_usize_shr_is_div(word, bit_index);
                lemma_pow2_pos(bit_index as nat);
                lemma_field_in_word(words, self.bit_pos as nat, keep as nat);
                lemma2_to64();
                if keep == 32 {
                    lemma_small_mod(shifted as nat, pow2(32));
                } else {
                    lemma_usize_low_bits_mask_is_mod(shifted, keep as nat);
                }
                assert(chunk == field(words, (start + read) as nat, keep as nat));
                field_splits(words, start, read as nat, keep as nat);
                field_bound(words, start, read as nat);
                field_bound(words, start, (read + keep) as nat);
                lemma_usize_bits_pow2();
                if read + keep < word_bits {
                    lemma_pow2_strictly_increases((read + keep) as nat, word_bits as nat);
                }
                assert(chunk * pow2(read as nat) == pow2(read as nat) * chunk) by (nonlinear_arith);
                lemma_append_usize(result, chunk, read);
            }
            result = result | (chunk << read);
            self.bit_pos = self.bit_pos + take;
            read = read + take;
            kept = kept + keep;
        }
        Ok(result)
    }

    /// Reads a variable-bit-rate number: each `width`-bit chunk has a
    /// continuation flag in its high bit, and the other bits are appended least
    /// significant first until a chunk clears the flag.
    pub fn read_vbr(&mut self, width: usize) -> (r: Result<u64, ReadError>)
        requires
            old(self).wf(),
        ensures
            final(self).wf(),
            final(self).words() == old(self).words(),
            old(self).pos() <= final(self).pos(),
            match vbr_at(old(self).words(), old(self).pos(), width as nat) {
                Ok((value, next)) => r == Ok::<u64, ReadError>(value) && final(self).pos() == next,
                Err((e, stop)) => r == Err::<u64, ReadError>(e) && final(self).pos() == stop,
            },
    {
        let ghost words = self.words@;
        let ghost start = self.bit_pos as nat;
        let ghost mut total: nat = 0;
        let mut result: u64 = 0;
        let mut shift: usize = 0;
        proof {
            lemma2_to64();
            lemma2_to64_rest();
        }
        loop
            invariant
                self.wf(),
                self.words@ == words,
                words == old(self).words(),
                start == old(self).pos(),
                start <= self.bit_pos,
                shift <= 126,
                shift < 64 ==> result == total && total < pow2(shift as nat),
                match vbr_chunks(words, self.bit_pos as nat, width as nat, shift as nat) {
                    Ok((rest, end)) => vbr_chunks(words, start, width as nat, 0) == Ok::<
                        (nat, nat),
                        (ReadError, nat),
                    >((total + rest, end)),
                    Err(e) => vbr_chunks(words, start, width as nat, 0) == Err::<
                        (nat, nat),
                        (ReadError, nat),
                    >(e),
                },
            decreases self.bit_len - self.bit_pos,
        {
            let ghost here = self.bit_pos as nat;
            let piece: u64 = match self.read_bits(width) {
                Ok(piece) => piece as u64,
                Err(e) => return Err(e),
            };
            if width == 0 || width > 64 || shift >= 64 {
                return Err(ReadError::Overflow);
            }
            let flag_bit: u64 = width as u64 - 1;
            proof {
                lemma_u64_pow2_no_overflow(flag_bit as nat);
                lemma_u64_shl_is_mul(1, flag_bit);
            }
            let continue_bit: u64 = 1u64 << flag_bit;
            let value: u64 = piece % continue_bit;
            let kept: u64 = value & (u64::MAX >> (shift as u64));
            proof {
                lemma_append_truncated(result, value, shift as u64);
            }
            result = result | (kept << (shift as u64));
            let ghost added = value as nat * pow2(shift as nat);
            if piece < continue_bit {
                return Ok(result);
            }
            proof {
                lemma_pow2_adds(shift as nat, flag_bit as nat);
                assert(total + added < pow2((shift + flag_bit) as nat)) by (nonlinear_arith)
                    requires
                        total < pow2(shift as nat),
                        value < pow2(flag_bit as nat),
                        added == value as nat * pow2(shift as nat),
                        pow2(shift as nat) * pow2(flag_bit as nat) == pow2(
                            (shift + flag_bit) as nat,
                        ),
                ;
                total = total + added;
                let next_shift = (shift + flag_bit) as nat;
                if next_shift < 64 {
                    lemma_pow2_strictly_increases(next_shift, 64);
                    lemma_small_mod(total, pow2(64));
                }
                assert(next_shift == (shift as nat + width as nat - 1) as nat);
            }
            shift = shift + (width - 1);
        }
    }

    pub fn read_vbr_u8(&mut self, width: usize) -> (r: Result<u8, ReadError>)
        requires
            old(self).wf(),
        ensures
            final(self).wf(),
            final(self).words() == old(self).words(),
            old(self).pos() <= final(self).pos(),
            match vbr_u8_at(old(self).words(), old(self).pos(), width as nat) {
                Ok((value, next)) => r == Ok::<u8, ReadError>(value) && final(self).pos() == next,
                Err((e, stop)) => r == Err::<u8, ReadError>(e) && final(self).pos() == stop,
            },
    {
        let value: u64 = self.read_vbr(width)?;
        if value > u8::MAX as u64 {
            return Err(ReadError::Malformed(BitcodeError::ValueOutOfRangeU8 { value }));
        }
        Ok(value as u8)
    }

    pub fn read_vbr_u32(&mut self, width: usize) -> (r: Result<u32, ReadError>)
        requires
            old(self).wf(),
        ensures
            final(self).wf(),
            final(self).words() == old(self).words(),
            old(self).pos() <= final(self).pos(),
            match vbr_u32_at(old(self).words(), old(self).pos(), width as nat) {
                Ok((value, next)) => r == Ok::<u32, ReadError>(value) && final(self).pos() == next,
                Err((e, stop)) => r == Err::<u32, ReadError>(e) && final(self).pos() == stop,
            },
    {
        let value: u64 = self.read_vbr(width)?;
        if value > u32::MAX as u64 {
            return Err(ReadError::Malformed(BitcodeError::ValueOutOfRangeU32 { value }));
        }
        Ok(value as u32)
    }

    pub fn read_vbr_usize(&mut self, width: usize) -> (r: Result<usize, ReadError>)
        requires
            old(self).wf(),
        ensures
            final(self).wf(),
            final(self).words() == old(self).words(),
            old(self).pos() <= final(self).pos(),
            match vbr_usize_at(old(self).words(), old(self).pos(), width as nat) {
                Ok((value, next)) => r == Ok::<usize, ReadError>(value) && final(self).pos()
                    == next,
                Err((e, stop)) => r == Err::<usize, ReadError>(e) && final(self).pos() == stop,
            },
    {
        let value: u64 = self.read_vbr(width)?;
        if value > usize::MAX as u64 {
            return Err(ReadError::Malformed(BitcodeError::ValueOutOfRangeUsize { value }));
        }
        Ok(value as usize)
    }

    /// Skips padding up to the next 32-bit boundary.
    pub fn align32(&mut self) -> (r: Result<(), ReadError>)
        requires
            old(self).wf(),
        ensures
            final(self).wf(),
            final(self).words() == old(self).words(),
            old(self).pos() <= final(self).pos(),
            match align32_at(old(self).words(), old(self).pos()) {
                Ok((_, next)) => r == Ok::<(), ReadError>(()) && final(self).pos() == next,
                Err((e, stop)) => r == Err::<(), ReadError>(e) && final(self).pos() == stop,
            },
    {
        let remainder: usize = self.bit_pos % 32;
        if remainder != 0 {
            let to_skip: usize = 32 - remainder;
            self.read_bits(to_skip)?;
        }
        Ok(())
    }
}

/// Appending `value` above the low `shift` bits of `low`, truncated to 64 bits.
proof fn lemma_append_truncated(low: u64, value: u64, shift: u64)
    requires
        shift < 64,
        low < pow2(shift as nat),
    ensures
        (low | ((value & (u64::MAX >> shift)) << shift)) == (low + value * pow2(shift as nat))
            % (pow2(64) as int),
{
    let rest = (64 - shift) as nat;
    let kept = value & (u64::MAX >> shift);
    let p = pow2(shift as nat) as int;
    lemma2_to64();
    lemma2_to64_rest();
    lemma_pow2_pos(shift as nat);
    lemma_pow2_pos(rest);
    lemma_pow2_adds(shift as nat, rest);
    // `u64::MAX >> shift` masks the low `rest` bits.
    if shift == 0 {
        assert(value & (u64::MAX >> 0u64) == value) by (bit_vector);
        lemma_small_mod(value as nat, pow2(64));
    } else {
        lemma_u64_shr_is_div(u64::MAX, shift);
        assert(u64::MAX as int == p * (pow2(rest) - 1) + (p - 1)) by (nonlinear_arith)
            requires
                p * pow2(rest) == u64::MAX + 1,
        ;
        lemma_fundamental_div_mod_converse(u64::MAX as int, p, pow2(rest) - 1, p - 1);
        lemma_u64_pow2_no_overflow(rest);
        lemma_u64_low_bits_mask_is_mod(value, rest);
    }
    assert(kept == value as nat % pow2(rest));
    lemma_mod_bound(value as int, pow2(rest) as int);
    assert(kept * p + p <= p * pow2(rest)) by (nonlinear_arith)
        requires
            kept + 1 <= pow2(rest),
            p > 0,
    ;
    lemma_u64_shl_is_mul(kept, shift);
    lemma_u64_pow2_no_overflow(shift as nat);
    lemma_u64_shl_is_mul(1, shift);
    assert(low | (kept << shift) == low + (kept << shift)) by (bit_vector)
        requires
            shift < 64,
            low < (1u64 << shift),
    ;
    lemma_truncate_middle(value as int, p, pow2(rest) as int);
    assert((p * value) % (p * pow2(rest)) == p * (value as int % pow2(rest) as int));
    assert(p * value == value * p) by (nonlinear_arith);
    assert(p * kept == kept * p) by (nonlinear_arith);
    // The low part does not carry.
    let m = pow2(64) as int;
    lemma_fundamental_div_mod(value * p, m);
    let q = (value * p) / m;
    lemma_fundamental_div_mod_converse(low + value * p, m, q, low + kept * p);
}

/// A machine word counts to `2^usize::BITS`.
proof fn lemma_usize_bits_pow2()
    ensures
        pow2(usize::BITS as nat) == usize::MAX + 1,
{
    lemma2_to64();
    lemma2_to64_rest();
}

} // verus!
