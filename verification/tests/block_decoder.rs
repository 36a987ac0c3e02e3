use inflate::bit_reader::BitReader;
use inflate::bit_string::bit_string;
use inflate::block_decoder::BlockDecoder;
use inflate::error::InflateError;
use inflate::lz77::Instruction;

#[test]
fn test_read_literal() {
    // 0 is 8-bit code: 00110000
    // 144 is 9-bit code: 110010000
    let raw = bit_string("0000 1100 0001 0011 0");
    let mut reader = BitReader::new(raw);
    let decoder = BlockDecoder::new_fixed();
    assert_eq!(decoder.next(&mut reader).unwrap(), Instruction::Literal(0));
}

#[test]
fn test_read_end_of_block() {
    // end of block is 7-bit code: 000 0000.
    let raw = bit_string("1000 0000");
    let mut reader = BitReader::new(raw);
    let decoder = BlockDecoder::new_fixed();
    assert_eq!(decoder.next(&mut reader).unwrap(), Instruction::EndOfBlock);
}

#[test]
fn test_back_reference() {
    let raw = bit_string("00110000 00000000 00000000");
    let mut reader = BitReader::new(raw);
    let decoder = BlockDecoder::new_fixed();
    assert_eq!(
        decoder.next(&mut reader).unwrap(),
        Instruction::BackReference {
            length: 8,
            distance: 1
        }
    );
}

#[test]
fn test_invalid_length_symbol() {
    // Symbol 286 has the 8-bit fixed code 0xC0 + 6 = 1100 0110, but names
    // no back-reference length.
    let mut w = Writer::new();
    w.code(0xc0 + 6, 8);
    let mut reader = BitReader::new(w.bytes);
    let decoder = BlockDecoder::new_fixed();
    assert!(matches!(
        decoder.next(&mut reader),
        Err(InflateError::InvalidLengthSymbol(286))
    ));
}

#[test]
fn test_invalid_distance_symbol() {
    // Length symbol 257 (7-bit code 0000001), then distance code 11110,
    // naming distance symbol 30, which the format does not define.
    let mut w = Writer::new();
    w.code(1, 7);
    w.code(0b11110, 5);
    let mut reader = BitReader::new(w.bytes);
    let decoder = BlockDecoder::new_fixed();
    assert!(matches!(
        decoder.next(&mut reader),
        Err(InflateError::InvalidDistanceSymbol(30))
    ));
}

#[test]
fn test_dynamic_repeat_without_previous_length() {
    // A dynamic header whose code-length stream opens with symbol 16,
    // "repeat the previous length", when nothing has been decoded yet.
    let mut w = Writer::new();
    w.bits(0, 5); // HLIT: 257 literal/length codes
    w.bits(0, 5); // HDIST: 1 distance code
    w.bits(0, 4); // HCLEN: 4 code-length lengths
    w.bits(1, 3); // symbol 16 gets a 1-bit code
    w.bits(0, 3); // symbol 17 absent
    w.bits(0, 3); // symbol 18 absent
    w.bits(1, 3); // symbol 0 gets a 1-bit code
    w.code(1, 1); // first code-length symbol: 16
    w.bits(0, 2); // its two extra bits
    let mut reader = BitReader::new(w.bytes);
    assert!(matches!(
        BlockDecoder::new_dynamic(&mut reader),
        Err(InflateError::DynamicCodeMalformed)
    ));
}

/// Writes bits the way DEFLATE packs them: header fields enter
/// least-significant bit first, Huffman codewords most-significant first.
struct Writer {
    bytes: Vec<u8>,
    nbits: usize,
}

impl Writer {
    fn new() -> Writer {
        Writer { bytes: Vec::new(), nbits: 0 }
    }

    fn bit(&mut self, b: u32) {
        if self.nbits % 8 == 0 {
            self.bytes.push(0);
        }
        if b & 1 != 0 {
            let n = self.nbits;
            self.bytes[n / 8] |= 1 << (n % 8);
        }
        self.nbits += 1;
    }

    fn bits(&mut self, v: u32, n: u8) {
        for i in 0..n {
            self.bit((v >> i) & 1);
        }
    }

    fn code(&mut self, bits: u32, len: u8) {
        for i in (0..len).rev() {
            self.bit((bits >> i) & 1);
        }
    }
}
