use inflate::bit_string::bit_string;

#[test]
fn test_bit_string() {
    assert_eq!(bit_string("0000 0010 1111"), vec![0b10, 0b1111_0000]);
}

#[test]
fn test_bit_string_empty() {
    assert_eq!(bit_string(""), Vec::<u8>::new());
    assert_eq!(bit_string("no digits here"), Vec::<u8>::new());
}

#[test]
fn test_bit_string_padding() {
    // A single 1 lands in the most significant bit, padded with zeros.
    assert_eq!(bit_string("1"), vec![0b1000_0000]);
    // Exactly one full byte.
    assert_eq!(bit_string("10110001"), vec![0b1011_0001]);
    // Separators of any kind are ignored.
    assert_eq!(bit_string("1011_0001-1"), vec![0b1011_0001, 0b1000_0000]);
}
