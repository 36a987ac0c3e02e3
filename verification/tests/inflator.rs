use inflate::error::{InflateError, InflateResult};
use inflate::header::{CompressionInfo, CompressionMethod, Flags, StreamHeader};
use inflate::Inflator;

/// Writes bits the way DEFLATE packs them: header fields enter
/// least-significant bit first, Huffman codewords most-significant first.
struct StreamWriter {
    bytes: Vec<u8>,
    nbits: usize,
}

impl StreamWriter {
    fn new() -> StreamWriter {
        // A valid container header: method 8, a 32 KiB window, check ok.
        StreamWriter { bytes: vec![0x78, 0x01], nbits: 16 }
    }

    fn bit(&mut self, b: u32) {
        if self.nbits % 8 == 0 {
            self.bytes.push(0);
        }
        if b & 1 != 0 {
            let n = self.nbits;
            self.bytes[n / 8] |= 1 << (n % 8);
        }
        self.nbits += 1;
    }

    fn bits(&mut self, v: u32, n: u8) {
        for i in 0..n {
            self.bit((v >> i) & 1);
        }
    }

    fn code(&mut self, bits: u32, len: u8) {
        for i in (0..len).rev() {
            self.bit((bits >> i) & 1);
        }
    }

    fn align(&mut self) {
        while self.nbits % 8 != 0 {
            self.bit(0);
        }
    }

    fn byte(&mut self, b: u8) {
        self.bits(b as u32, 8);
    }

    /// The fixed literal/length codeword of `sym`.
    fn ll_code(&mut self, sym: u32) {
        if sym <= 143 {
            self.code(0x30 + sym, 8);
        } else if sym <= 255 {
            self.code(0x190 + sym - 144, 9);
        } else if sym <= 279 {
            self.code(sym - 256, 7);
        } else {
            self.code(0xc0 + sym - 280, 8);
        }
    }

    /// A whole stored block holding `data`.
    fn stored_block(&mut self, is_final: bool, data: &[u8]) {
        self.bit(if is_final { 1 } else { 0 });
        self.bits(0, 2);
        self.align();
        let len = data.len() as u16;
        self.byte(len as u8);
        self.byte((len >> 8) as u8);
        self.byte(!len as u8);
        self.byte((!len >> 8) as u8);
        for &b in data {
            self.byte(b);
        }
    }

    /// A whole fixed-Huffman block emitting `data` as plain literals.
    fn fixed_literal_block(&mut self, is_final: bool, data: &[u8]) {
        self.bit(if is_final { 1 } else { 0 });
        self.bits(1, 2);
        for &b in data {
            self.ll_code(b as u32);
        }
        self.ll_code(256);
    }
}

#[test]
fn test_truncated_header() {
    assert!(matches!(
        Inflator::try_new(vec![0]),
        Err(InflateError::IoError)
    ));
}

#[test]
fn test_begin_stream() -> InflateResult<()> {
    let inflator = Inflator::try_new(vec![0x48, 0b1010_0000 + 8])?;
    assert_eq!(
        inflator.header,
        StreamHeader {
            method: CompressionMethod::Deflate,
            info: CompressionInfo::try_new(4)?,
            flags: Flags {
                preset_dictionary: true,
                compression_level: 2,
            }
        }
    );

    Ok(())
}

#[test]
fn test_uncompressed_block() -> InflateResult<()> {
    let raw = vec![
        0x48,
        0b1010_0000 + 8,
        // block header
        0,
        // length
        5,
        0,
        // inverse length
        !5,
        !0,
        // data
        1,
        2,
        3,
        4,
        5,
    ];
    let mut inflator = Inflator::try_new(raw)?;
    let block = inflator.next_block()?;
    assert_eq!(block, vec![1, 2, 3, 4, 5]);
    Ok(())
}

#[test]
fn test_invalid_compression_method() {
    assert!(matches!(
        Inflator::try_new(vec![0x47, 0x00]),
        Err(InflateError::InvalidCompressionMethod(7))
    ));
}

#[test]
fn test_invalid_compression_info() {
    assert!(matches!(
        Inflator::try_new(vec![0x88, 0x00]),
        Err(InflateError::InvalidCompressionInfo(8))
    ));
}

#[test]
fn test_flag_check_mismatch() {
    assert!(matches!(
        Inflator::try_new(vec![0x78, 0x02]),
        Err(InflateError::FlagCheckMismatch(0x7802))
    ));
}

#[test]
fn test_reserved_block_type() {
    let mut w = StreamWriter::new();
    w.bit(1);
    w.bits(3, 2);
    let mut inflator = Inflator::try_new(w.bytes).unwrap();
    assert!(matches!(
        inflator.next_block(),
        Err(InflateError::UnimplementedBlockType(3))
    ));
}

#[test]
fn test_length_complement_mismatch() {
    let mut w = StreamWriter::new();
    w.bit(1);
    w.bits(0, 2);
    w.align();
    w.byte(5);
    w.byte(0);
    w.byte(5); // should be !5
    w.byte(0);
    let mut inflator = Inflator::try_new(w.bytes).unwrap();
    assert!(matches!(
        inflator.next_block(),
        Err(InflateError::LengthComplementMismatch(5, 5))
    ));
}

#[test]
fn test_stream_distance_too_far() {
    // The very first instruction copies from before the start of the
    // output: length symbol 257, distance symbol 0.
    let mut w = StreamWriter::new();
    w.bit(1);
    w.bits(1, 2);
    w.ll_code(257);
    w.code(0, 5);
    let mut inflator = Inflator::try_new(w.bytes).unwrap();
    assert!(matches!(
        inflator.next_block(),
        Err(InflateError::DistanceTooFar(1))
    ));
}

#[test]
fn test_fixed_block_round_trip() {
    let payload = b"The quick brown fox jumps over the lazy dog";
    let mut w = StreamWriter::new();
    w.fixed_literal_block(true, payload);
    let mut inflator = Inflator::try_new(w.bytes).unwrap();
    let out = inflator.decode_all().unwrap();
    assert_eq!(out, payload.to_vec());
    assert!(inflator.is_finished());
}

#[test]
fn test_fixed_block_with_back_reference() {
    // Literals a, b, c, then copy six bytes from three back: abcabcabc.
    let mut w = StreamWriter::new();
    w.bit(1);
    w.bits(1, 2);
    w.ll_code(b'a' as u32);
    w.ll_code(b'b' as u32);
    w.ll_code(b'c' as u32);
    w.ll_code(260); // length 6
    w.code(2, 5); // distance symbol 2: distance 3
    w.ll_code(256);
    let mut inflator = Inflator::try_new(w.bytes).unwrap();
    let out = inflator.decode_all().unwrap();
    assert_eq!(out, b"abcabcabc".to_vec());
}

#[test]
fn test_multi_block_round_trip() {
    // A stored block, then a fixed block whose back-reference reaches
    // into the stored block's bytes; the stream ends on the final flag.
    let mut w = StreamWriter::new();
    w.stored_block(false, b"abcde");
    w.bit(1);
    w.bits(1, 2);
    w.ll_code(259); // length 5
    w.code(4, 5); // distance symbol 4: base 5
    w.bits(0, 1); // extra bit: distance 5
    w.ll_code(256);
    let mut inflator = Inflator::try_new(w.bytes).unwrap();
    let out = inflator.decode_all().unwrap();
    assert_eq!(out, b"abcdeabcde".to_vec());
    assert!(inflator.is_finished());
}

#[test]
fn test_dynamic_block_round_trip() {
    // A dynamic block defining 2-bit codes for the literals a and b and
    // for end-of-block, through a code-length alphabet of three 2-bit
    // codes for the symbols 0, 2 and 18.
    let mut w = StreamWriter::new();
    w.bit(1);
    w.bits(2, 2);
    w.bits(0, 5); // HLIT: 257
    w.bits(0, 5); // HDIST: 1
    w.bits(12, 4); // HCLEN: 16
    // Code-length alphabet lengths in the fixed permutation order
    // 16 17 18 0 8 7 9 6 10 5 11 4 12 3 13 2: symbols 18, 0 and 2 get
    // 2-bit codes (canonically 0: 00, 2: 01, 18: 10).
    let cl_lengths = [0, 0, 2, 2, 0, 0, 0, 0, 0, 0, 0, 0, 0, 0, 0, 2];
    for l in cl_lengths {
        w.bits(l, 3);
    }
    // 97 zeros, then length 2 for the literals a and b, 157 + 19 zeros,
    // length 2 for end-of-block, and one zero distance length.
    w.code(2, 2); // symbol 18
    w.bits(86, 7); // 11 + 86 = 97 zeros
    w.code(1, 2); // symbol 2: length 2 for literal a
    w.code(1, 2); // symbol 2: length 2 for literal b
    w.code(2, 2); // symbol 18
    w.bits(127, 7); // 138 zeros
    w.code(2, 2); // symbol 18
    w.bits(8, 7); // 19 zeros
    w.code(1, 2); // symbol 2: length 2 for end-of-block
    w.code(0, 2); // symbol 0: the single distance length is 0
    // The block body under the new table: a: 00, b: 01, end: 10.
    w.code(0, 2);
    w.code(1, 2);
    w.code(2, 2);
    let mut inflator = Inflator::try_new(w.bytes).unwrap();
    let out = inflator.decode_all().unwrap();
    assert_eq!(out, b"ab".to_vec());
}

#[test]
fn test_longest_back_reference() {
    // Length symbol 285 encodes exactly 258, the longest copy the format
    // allows.
    let mut w = StreamWriter::new();
    w.bit(1);
    w.bits(1, 2);
    w.ll_code(b'x' as u32);
    w.ll_code(285);
    w.code(0, 5); // distance 1
    w.ll_code(256);
    let mut inflator = Inflator::try_new(w.bytes).unwrap();
    let out = inflator.decode_all().unwrap();
    assert_eq!(out, vec![b'x'; 259]);
}

#[test]
fn test_empty_stored_block() {
    let mut w = StreamWriter::new();
    w.stored_block(true, b"");
    let mut inflator = Inflator::try_new(w.bytes).unwrap();
    let out = inflator.decode_all().unwrap();
    assert_eq!(out, Vec::<u8>::new());
}
