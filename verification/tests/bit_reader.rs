use inflate::bit_reader::BitReader;
use inflate::error::InflateError;

#[test]
fn test_passthrough() {
    let mut reader = BitReader::new(vec![1, 2]);
    let out = reader.read_aligned_bytes(2).unwrap();
    assert_eq!(out, vec![1, 2]);
}

#[test]
fn test_read_bit() {
    // A pattern of 1x1, 0, 2x1, 0, ...
    let mut reader = BitReader::new(vec![0b11101101, 0b1101_1110]);

    // 1st byte
    assert_eq!(reader.read_bit().unwrap(), 1);
    assert_eq!(reader.read_bit().unwrap(), 0);
    assert_eq!(reader.read_bit().unwrap(), 1);
    assert_eq!(reader.read_bit().unwrap(), 1);
    assert_eq!(reader.read_bit().unwrap(), 0);
    assert_eq!(reader.read_bit().unwrap(), 1);
    assert_eq!(reader.read_bit().unwrap(), 1);
    assert_eq!(reader.read_bit().unwrap(), 1);
    // 2nd byte
    assert_eq!(reader.read_bit().unwrap(), 0);
    assert_eq!(reader.read_bit().unwrap(), 1);
    assert_eq!(reader.read_bit().unwrap(), 1);
    assert_eq!(reader.read_bit().unwrap(), 1);
    assert_eq!(reader.read_bit().unwrap(), 1);
    assert_eq!(reader.read_bit().unwrap(), 0);
}

#[test]
fn test_read_bits() {
    // A pattern of 1x1, 0, 2x1, 0, ...
    let mut reader = BitReader::new(vec![0b11101101, 0b1101_1110]);

    assert_eq!(reader.read_bits(1).unwrap(), 0b1);
    assert_eq!(reader.read_bits(2).unwrap(), 0b10);
    assert_eq!(reader.read_bits(3).unwrap(), 0b101);
    // Cross byte boundary.
    assert_eq!(reader.read_bits(4).unwrap(), 0b1011);
    assert_eq!(reader.read_bits(5).unwrap(), 0b10111);
}

#[test]
fn test_passthrough_after_partial_read() {
    let mut reader = BitReader::new(vec![0b1010_1010, 0b1100_1100, 0b1111_1110]);

    assert_eq!(reader.read_bits(4).unwrap(), 0b1010);

    // Upper half of first byte should be discarded.
    let out = reader.read_aligned_bytes(1).unwrap();
    assert_eq!(out, vec![0b1100_1100]);

    // Start another partial read.
    assert_eq!(reader.read_bits(4).unwrap(), 0b1110);
}

#[test]
fn test_read_past_end() {
    let mut reader = BitReader::new(vec![0xff]);
    assert_eq!(reader.read_bits(8).unwrap(), 0xff);
    assert!(matches!(reader.read_bit(), Err(InflateError::IoError)));

    let mut empty = BitReader::new(vec![]);
    assert!(matches!(empty.read_bits(1), Err(InflateError::IoError)));
}

#[test]
fn test_read_aligned_u16_le() {
    let mut reader = BitReader::new(vec![0b1, 0x34, 0x12]);
    // A partial bit read is discarded by the aligned read.
    assert_eq!(reader.read_bit().unwrap(), 1);
    assert_eq!(reader.read_aligned_u16().unwrap(), 0x1234);
}
