use inflate::code::Code;

// Convenience constructor mirroring how the tests write codewords.
fn code_lit(s: &str) -> Code {
    Code { bits: u32::from_str_radix(s, 2).unwrap(), length: s.len() as u8 }
}

#[test]
fn test_code_debug() {
    assert_eq!(Code { bits: 0, length: 0 }.to_bit_string(), "");
    assert_eq!(Code { bits: 2, length: 3 }.to_bit_string(), "010");
}

#[test]
fn test_code_from() {
    assert_eq!(code_lit("010"), Code { bits: 2, length: 3 });
}

#[test]
fn test_code_append_bit() {
    assert_eq!(code_lit("010").append_bit(false), code_lit("0100"));
    assert_eq!(code_lit("010").append_bit(true), code_lit("0101"));
}
