use bpf_linker::bitcode::abbrev::{
    read_abbrev, read_abbrev_encoding, read_abbrev_op, skip_abbrev_record, skip_encoding, Abbrev,
    AbbrevEncoding, AbbrevOp,
};
use bpf_linker::bitcode::cursor::BitCursor;
use bpf_linker::bitcode::error::{BitcodeError, ReadError};
use bpf_linker::bitcode::identification::{
    define_abbrev, identification_string, read_unabbrev_record, scan_identification_string,
    BlockState,
};

/// Writes fields of arbitrary width, the low bits first.
struct BitWriter {
    bits: Vec<bool>,
}

impl BitWriter {
    fn new() -> Self {
        BitWriter { bits: Vec::new() }
    }

    fn stream() -> Self {
        let mut w = BitWriter::new();
        w.fixed(0xdec0_4342, 32);
        w
    }

    fn fixed(&mut self, value: u64, width: u32) {
        for i in 0..width {
            self.bits.push((value >> i) & 1 == 1);
        }
    }

    fn vbr(&mut self, value: u64, width: u32) {
        let mut rest = value;
        let low = (1u64 << (width - 1)) - 1;
        loop {
            let piece = rest & low;
            rest >>= width - 1;
            if rest == 0 {
                self.fixed(piece, width);
                return;
            }
            self.fixed(piece | (low + 1), width);
        }
    }

    fn align(&mut self) {
        while self.bits.len() % 32 != 0 {
            self.bits.push(false);
        }
    }

    fn enter(&mut self, code_width: u32, block_id: u64, new_code_width: u64) {
        self.fixed(1, code_width);
        self.vbr(block_id, 8);
        self.vbr(new_code_width, 4);
        self.align();
        self.fixed(0, 32);
    }

    fn record(&mut self, code_width: u32, code: u64, operands: &[u8]) {
        self.fixed(3, code_width);
        self.vbr(code, 6);
        self.vbr(operands.len() as u64, 6);
        for operand in operands {
            self.vbr(*operand as u64, 6);
        }
    }

    fn words(&self) -> Vec<u32> {
        self.bits
            .chunks(32)
            .map(|chunk| {
                chunk
                    .iter()
                    .enumerate()
                    .fold(0u32, |word, (i, bit)| word | ((*bit as u32) << i))
            })
            .collect()
    }

    fn bytes(&self) -> Vec<u8> {
        self.words().iter().flat_map(|w| w.to_le_bytes()).collect()
    }
}

fn malformed(e: BitcodeError) -> ReadError {
    ReadError::Malformed(e)
}

#[test]
fn identification_string_is_found() {
    let mut w = BitWriter::stream();
    w.enter(2, 13, 5);
    w.record(5, 1, b"LLVM20.1.0");
    w.align();
    assert_eq!(identification_string(&w.bytes()), Ok("LLVM20.1.0".to_string()));
}

#[test]
fn ill_formed_identification_is_decoded_with_replacements() {
    let mut w = BitWriter::stream();
    w.enter(2, 13, 5);
    w.record(5, 1, &[b'a', 0xff, b'b']);
    w.align();
    assert_eq!(
        identification_string(&w.bytes()),
        Ok("a\u{fffd}b".to_string())
    );
}

#[test]
fn other_blocks_and_records_are_passed_over() {
    let mut w = BitWriter::stream();
    // A block that is not the identification block, with a string record.
    w.enter(2, 8, 3);
    w.record(3, 1, b"no");
    w.fixed(0, 3);
    w.align();
    // The identification block: an epoch record, an abbreviated record, the string.
    w.enter(2, 13, 5);
    w.record(5, 2, &[0]);
    w.fixed(2, 5);
    w.vbr(5, 5);
    w.fixed(1, 1);
    w.vbr(7, 8);
    w.fixed(0, 1);
    w.fixed(1, 3);
    w.vbr(9, 5);
    w.fixed(0, 1);
    w.fixed(2, 3);
    w.vbr(6, 5);
    w.fixed(0, 1);
    w.fixed(3, 3);
    w.fixed(0, 1);
    w.fixed(4, 3);
    w.fixed(4, 5);
    w.fixed(0x155, 9);
    w.vbr(300, 6);
    w.vbr(3, 6);
    w.fixed(1, 6);
    w.fixed(2, 6);
    w.fixed(3, 6);
    w.record(5, 1, b"rustc");
    w.align();
    assert_eq!(identification_string(&w.bytes()), Ok("rustc".to_string()));
}

#[test]
fn blob_is_skipped() {
    let mut w = BitWriter::stream();
    w.enter(2, 13, 5);
    w.fixed(2, 5);
    w.vbr(1, 5);
    w.fixed(0, 1);
    w.fixed(5, 3);
    w.fixed(4, 5);
    w.vbr(5, 6);
    w.align();
    w.fixed(0x6162_6364, 32);
    w.fixed(0x65, 32);
    w.record(5, 1, b"ok");
    w.align();
    assert_eq!(identification_string(&w.bytes()), Ok("ok".to_string()));
}

#[test]
fn rejected_buffers() {
    assert_eq!(
        identification_string(&[1, 2, 3, 4]),
        Err(BitcodeError::InvalidSize(4))
    );
    assert_eq!(
        identification_string(&[0; 9]),
        Err(BitcodeError::Misaligned)
    );
    assert_eq!(
        identification_string(&[0; 8]),
        Err(BitcodeError::MissingMagicHeader)
    );
    let mut w = BitWriter::stream();
    w.enter(2, 13, 5);
    w.fixed(0, 5);
    w.align();
    w.fixed(0, 2);
    w.align();
    assert_eq!(
        identification_string(&w.bytes()),
        Err(BitcodeError::MissingIdentificationString)
    );
    let mut w = BitWriter::stream();
    w.fixed(1, 2);
    w.align();
    assert_eq!(
        identification_string(&w.bytes()),
        Err(BitcodeError::UnexpectedEnd)
    );
    let mut w = BitWriter::stream();
    w.enter(2, 13, 5);
    w.fixed(4, 5);
    w.align();
    assert_eq!(
        identification_string(&w.bytes()),
        Err(BitcodeError::UnknownAbbreviation(4))
    );
    let mut w = BitWriter::stream();
    w.enter(2, 13, 5);
    w.fixed(3, 5);
    w.vbr(1, 6);
    w.vbr(1, 6);
    w.vbr(256, 6);
    w.align();
    assert_eq!(
        identification_string(&w.bytes()),
        Err(BitcodeError::ValueOutOfRangeU8 { value: 256 })
    );
    let mut w = BitWriter::stream();
    w.enter(2, 13, 5);
    w.fixed(3, 5);
    w.vbr(1 << 33, 6);
    w.align();
    assert_eq!(
        identification_string(&w.bytes()),
        Err(BitcodeError::ValueOutOfRangeU32 { value: 1 << 33 })
    );
}

fn rejected_abbreviation(write: impl Fn(&mut BitWriter)) -> ReadError {
    let mut w = BitWriter::new();
    write(&mut w);
    w.align();
    w.fixed(0, 32);
    let words = w.words();
    let mut cursor = BitCursor::new(&words);
    let mut block = BlockState::root();
    let r = define_abbrev(&mut cursor, &mut block);
    assert!(block.abbrevs.is_empty());
    r.unwrap_err()
}

#[test]
fn rejected_abbreviations() {
    let array_without_element = rejected_abbreviation(|w| {
        w.vbr(1, 5);
        w.fixed(0, 1);
        w.fixed(3, 3);
    });
    assert_eq!(
        array_without_element,
        malformed(BitcodeError::MissingArrayElementEncoding)
    );
    let array_of_literals = rejected_abbreviation(|w| {
        w.vbr(2, 5);
        w.fixed(0, 1);
        w.fixed(3, 3);
        w.fixed(1, 1);
        w.vbr(9, 8);
    });
    assert_eq!(
        array_of_literals,
        malformed(BitcodeError::InvalidArrayElementEncoding)
    );
    let unknown = rejected_abbreviation(|w| {
        w.vbr(1, 5);
        w.fixed(0, 1);
        w.fixed(7, 3);
    });
    assert_eq!(
        unknown,
        malformed(BitcodeError::UnsupportedAbbreviationEncoding(7))
    );
}

#[test]
fn too_wide_fields_are_told_apart_from_malformed_streams() {
    let mut w = BitWriter::stream();
    w.enter(2, 13, 5);
    w.fixed(2, 5);
    w.vbr(1, 5);
    w.fixed(0, 1);
    w.fixed(2, 3);
    w.vbr(0, 5);
    w.fixed(4, 5);
    w.align();
    assert_eq!(
        scan_identification_string(&w.bytes()),
        Err(ReadError::Overflow)
    );
    let mut w = BitWriter::stream();
    w.enter(2, 13, 5);
    w.record(5, 1, b"x");
    w.align();
    assert_eq!(scan_identification_string(&w.bytes()), Ok("x".to_string()));
}

#[test]
fn fields_cross_words() {
    let words = [0xdead_beef_u32, 0x0123_4567, 0x89ab_cdef];
    let mut cursor = BitCursor::new(&words);
    assert_eq!(cursor.read_bits(0), Ok(0));
    assert_eq!(cursor.read_bits(4), Ok(0xf));
    assert_eq!(cursor.read_bits(32), Ok(0x7dea_dbee));
    assert_eq!(cursor.read_bits(28), Ok(0x0012_3456));
    assert_eq!(cursor.read_bits(32), Ok(0x89ab_cdef));
    assert!(cursor.is_eof());
    assert_eq!(
        cursor.read_bits(1),
        Err(malformed(BitcodeError::UnexpectedEnd))
    );
}

#[test]
fn field_is_made_of_its_parts() {
    let words = [0x9e37_79b9_u32, 0x7f4a_7c15];
    let mut parts = BitCursor::new(&words);
    parts.seek_to_bit(27).unwrap();
    let low = parts.read_bits(5).unwrap();
    let high = parts.read_bits(7).unwrap();
    let mut whole = BitCursor::new(&words);
    whole.seek_to_bit(27).unwrap();
    let field = whole.read_bits(12).unwrap();
    assert_eq!(field, low | (high << 5));
    assert!(field < 1 << 12);
}

#[test]
fn seeking_stays_inside_the_stream() {
    let words = [0u32];
    let mut cursor = BitCursor::new(&words);
    assert_eq!(cursor.seek_to_bit(33), Err(BitcodeError::CursorOutOfBounds));
    assert!(!cursor.is_eof());
    assert_eq!(cursor.seek_to_bit(32), Ok(()));
    assert!(cursor.is_eof());
}

#[test]
fn alignment_goes_to_the_next_word() {
    let words = [1u32, 0x2a];
    let mut cursor = BitCursor::new(&words);
    assert_eq!(cursor.align32(), Ok(()));
    assert_eq!(cursor.read_bits(1), Ok(1));
    assert_eq!(cursor.align32(), Ok(()));
    assert_eq!(cursor.read_bits(32), Ok(0x2a));
}

#[test]
fn variable_width_numbers() {
    let mut w = BitWriter::new();
    w.vbr(5, 6);
    w.vbr(300, 6);
    w.vbr(70_000, 6);
    w.vbr(255, 4);
    w.vbr(u64::MAX, 8);
    w.align();
    let words = w.words();
    let mut cursor = BitCursor::new(&words);
    assert_eq!(cursor.read_vbr(6), Ok(5));
    assert_eq!(cursor.read_vbr_u32(6), Ok(300));
    assert_eq!(cursor.read_vbr_usize(6), Ok(70_000));
    assert_eq!(cursor.read_vbr_u8(4), Ok(255));
    assert_eq!(cursor.read_vbr(8), Ok(u64::MAX));
}

#[test]
fn abbreviation_operands_are_read() {
    let mut w = BitWriter::new();
    w.fixed(0, 1);
    w.fixed(3, 3);
    w.fixed(0, 1);
    w.fixed(1, 3);
    w.vbr(17, 5);
    w.fixed(5, 3);
    w.vbr(1, 5);
    w.fixed(1, 1);
    w.vbr(200, 8);
    w.align();
    let words = w.words();
    let mut cursor = BitCursor::new(&words);
    let mut remaining = 3usize;
    match read_abbrev_op(&mut cursor, &mut remaining) {
        Ok(AbbrevOp::Encoding(AbbrevEncoding::Array(element))) => {
            assert!(matches!(*element, AbbrevEncoding::Fixed(17)))
        }
        _ => panic!("an array was expected"),
    }
    assert_eq!(remaining, 1);
    assert!(matches!(
        read_abbrev_encoding(&mut cursor, &mut remaining),
        Ok(AbbrevEncoding::Blob)
    ));
    let abbrev = read_abbrev(&mut cursor).unwrap_or_else(|_| panic!("valid abbreviation"));
    assert_eq!(abbrev.ops.len(), 1);
    assert!(matches!(abbrev.ops[0], AbbrevOp::Literal));
}

#[test]
fn abbreviated_records_are_skipped() {
    let mut w = BitWriter::new();
    w.fixed(3, 4);
    w.vbr(40, 3);
    w.fixed(9, 6);
    w.fixed(1, 1);
    w.align();
    let words = w.words();
    let mut cursor = BitCursor::new(&words);
    assert_eq!(
        skip_encoding(&mut cursor, &AbbrevEncoding::Fixed(4)),
        Ok(())
    );
    let abbrev = Abbrev {
        ops: vec![
            AbbrevOp::Literal,
            AbbrevOp::Encoding(AbbrevEncoding::Vbr(3)),
            AbbrevOp::Encoding(AbbrevEncoding::Char6),
        ],
    };
    assert_eq!(skip_abbrev_record(&mut cursor, &abbrev), Ok(()));
    assert_eq!(cursor.read_bits(1), Ok(1));
}

#[test]
fn unabbreviated_record_is_read() {
    let mut w = BitWriter::new();
    w.vbr(77, 6);
    w.vbr(3, 6);
    w.vbr(1, 6);
    w.vbr(200, 6);
    w.vbr(31, 6);
    w.align();
    let words = w.words();
    let mut cursor = BitCursor::new(&words);
    let record = read_unabbrev_record(&mut cursor).unwrap_or_else(|_| panic!("valid record"));
    assert_eq!(record.code, 77);
    assert_eq!(record.operands, [1, 200, 31]);
}

#[test]
fn blocks_start_without_abbreviations() {
    let root = BlockState::root();
    assert_eq!(root.block_id, None);
    assert_eq!(root.code_size, 2);
    assert!(root.abbrevs.is_empty());
    let block = BlockState::new(13, 5);
    assert_eq!(block.block_id, Some(13));
    assert_eq!(block.code_size, 5);
    assert!(block.abbrevs.is_empty());
}

#[test]
fn bitcode_error_messages() {
    let texts = [
        (
            BitcodeError::InvalidSize(4),
            "bitcode has invalid size, expected at least 8 bytes, got 4",
        ),
        (BitcodeError::Misaligned, "bitcode is not 32-bit aligned"),
        (BitcodeError::MissingMagicHeader, "missing bitcode magic header"),
        (
            BitcodeError::CursorOutOfBounds,
            "bitcode cursor seek out of bounds",
        ),
        (BitcodeError::UnexpectedEnd, "unexpected end of bitcode"),
        (
            BitcodeError::UnsupportedAbbreviationEncoding(7),
            "unsupported abbreviation encoding: 7",
        ),
        (
            BitcodeError::UnsupportedAbbreviatedRecordID(12),
            "unsupported abbreviated record ID: 12",
        ),
        (
            BitcodeError::UnknownAbbreviation(1234567890),
            "abbreviation 1234567890 referenced before definition",
        ),
        (
            BitcodeError::MissingArrayElementEncoding,
            "array abbreviation missing element encoding",
        ),
        (
            BitcodeError::InvalidArrayElementEncoding,
            "array element encoding must be non-literal",
        ),
        (
            BitcodeError::MissingIdentificationString,
            "mising identification string",
        ),
        (
            BitcodeError::ValueOutOfRangeU8 { value: 256 },
            "value 256 exceeds supported range for u8",
        ),
        (
            BitcodeError::ValueOutOfRangeU32 { value: 4294967296 },
            "value 4294967296 exceeds supported range for u32",
        ),
        (
            BitcodeError::ValueOutOfRangeUsize { value: u64::MAX },
            "value 18446744073709551615 exceeds supported range for usize",
        ),
    ];
    for (error, text) in texts {
        assert_eq!(error.message(), text);
    }
}

#[test]
fn reads_can_be_joined() {
    let words = [0x89ab_cdef, 0x0123_4567, 0xdead_beef];
    for start in [0usize, 5, 31, 32] {
        for (a, b) in [(0usize, 0usize), (0, 64), (1, 31), (20, 40), (32, 32), (63, 1)] {
            if start + a + b > 96 {
                continue;
            }
            let mut parts = BitCursor::new(&words);
            assert_eq!(parts.seek_to_bit(start), Ok(()));
            let x = parts.read_bits(a).unwrap();
            let y = parts.read_bits(b).unwrap();
            let mut whole = BitCursor::new(&words);
            assert_eq!(whole.seek_to_bit(start), Ok(()));
            assert_eq!(whole.read_bits(a + b), Ok(x | (y << a)));
            // Both stand at the same place.
            assert_eq!(whole.read_bits(3), parts.read_bits(3));
        }
    }
}

#[test]
fn cursor_stands_behind_a_number_that_is_out_of_range() {
    let mut w = BitWriter::new();
    w.vbr(300, 6);
    w.fixed(0b101, 3);
    w.vbr(1 << 40, 6);
    w.fixed(0b011, 3);
    let words = w.words();
    let mut cursor = BitCursor::new(&words);
    assert_eq!(
        cursor.read_vbr_u8(6),
        Err(malformed(BitcodeError::ValueOutOfRangeU8 { value: 300 }))
    );
    assert_eq!(cursor.read_bits(3), Ok(0b101));
    assert_eq!(
        cursor.read_vbr_u32(6),
        Err(malformed(BitcodeError::ValueOutOfRangeU32 {
            value: 1 << 40
        }))
    );
    assert_eq!(cursor.read_bits(3), Ok(0b011));
}

#[test]
fn cursor_stands_at_a_chunk_that_cannot_be_read() {
    // Five chunks of six bits that all go on, and two bits that are left.
    let words = [u32::MAX];
    let mut cursor = BitCursor::new(&words);
    assert_eq!(
        cursor.read_vbr(6),
        Err(malformed(BitcodeError::UnexpectedEnd))
    );
    assert_eq!(cursor.read_bits(2), Ok(0b11));
    assert!(cursor.is_eof());
}

#[test]
fn failed_encodings_leave_the_definitions_alone() {
    for kind in [0u64, 6, 7] {
        let mut w = BitWriter::new();
        w.fixed(kind, 3);
        let words = w.words();
        let mut cursor = BitCursor::new(&words);
        let mut remaining: usize = 5;
        assert!(read_abbrev_encoding(&mut cursor, &mut remaining).is_err());
        assert_eq!(remaining, 5);
    }
    // An array whose element is a literal takes one definition.
    let mut w = BitWriter::new();
    w.fixed(3, 3);
    w.fixed(1, 1);
    w.vbr(7, 8);
    let words = w.words();
    let mut cursor = BitCursor::new(&words);
    let mut remaining: usize = 5;
    assert!(read_abbrev_encoding(&mut cursor, &mut remaining).is_err());
    assert_eq!(remaining, 4);
}

#[test]
fn arrays_are_skipped_element_by_element() {
    for (element, width) in [
        (AbbrevEncoding::Fixed(7), 7usize),
        (AbbrevEncoding::Char6, 6),
    ] {
        let mut w = BitWriter::new();
        w.vbr(9, 6);
        w.fixed(0, 70);
        w.align();
        let words = w.words();
        let mut parts = BitCursor::new(&words);
        let len = parts.read_vbr(6).unwrap();
        for _ in 0..len {
            assert_eq!(skip_encoding(&mut parts, &element), Ok(()));
        }
        let mut whole = BitCursor::new(&words);
        let array = AbbrevEncoding::Array(Box::new(element));
        assert_eq!(skip_encoding(&mut whole, &array), Ok(()));
        // Both stand behind the length and nine packed elements.
        let left = words.len() * 32 - 6 - 9 * width;
        assert_eq!(
            parts.read_bits(left + 1),
            Err(malformed(BitcodeError::UnexpectedEnd))
        );
        assert_eq!(parts.read_bits(left), Ok(0));
        assert_eq!(whole.read_bits(left), Ok(0));
        assert!(parts.is_eof() && whole.is_eof());
    }
}

#[test]
fn words_behind_the_identification_string_do_not_matter() {
    let mut w = BitWriter::stream();
    w.enter(2, 13, 5);
    w.record(5, 1, b"first");
    w.align();
    let mut buffer = w.bytes();
    buffer.extend([0xff; 12]);
    buffer.extend(w.bytes());
    assert_eq!(identification_string(&buffer), Ok("first".to_string()));
}
