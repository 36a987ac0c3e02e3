use inflate::bit_reader::BitReader;
use inflate::code::Code;
use inflate::code_table::{
    code_length_counts, min_codes_by_length, CodeToSymbolTable, SymbolToCodeTable,
};
use inflate::error::InflateError;

fn code_of(s: &str) -> Code {
    Code { bits: u32::from_str_radix(s, 2).unwrap(), length: s.len() as u8 }
}

#[test]
fn test_code_length_counts() {
    let code_lengths = vec![3, 3, 3, 3, 3, 2, 4, 4];
    assert_eq!(code_length_counts(&code_lengths), vec![0, 0, 1, 5, 2]);
}

#[test]
fn test_min_codes() {
    let code_lengths = vec![3, 3, 3, 3, 3, 2, 4, 4];
    assert_eq!(
        min_codes_by_length(&code_lengths),
        vec![
            Code::default(),
            code_of("0"),
            code_of("00"),
            code_of("010"),
            code_of("1110")
        ]
    );
}

#[test]
fn test_from_code_lengths() {
    let code_lengths = vec![3, 3, 3, 3, 3, 2, 4, 4];
    assert_eq!(
        SymbolToCodeTable::from_code_lengths(&code_lengths),
        SymbolToCodeTable(vec![
            code_of("010"),
            code_of("011"),
            code_of("100"),
            code_of("101"),
            code_of("110"),
            code_of("00"),
            code_of("1110"),
            code_of("1111"),
        ])
    );
}

#[test]
fn test_empty_codes() {
    let code_lengths = vec![2, 0, 1, 0, 3, 3];
    assert_eq!(
        SymbolToCodeTable::from_code_lengths(&code_lengths),
        SymbolToCodeTable(vec![
            code_of("10"),
            Code::default(),
            code_of("0"),
            Code::default(),
            code_of("110"),
            code_of("111"),
        ])
    );
}

#[test]
fn test_fixed_ll_table() {
    let SymbolToCodeTable(fixed) = SymbolToCodeTable::fixed_ll();
    assert_eq!(fixed[0], code_of("00110000"));
    assert_eq!(fixed[143], code_of("10111111"));
    assert_eq!(fixed[144], code_of("110010000"));
    assert_eq!(fixed[255], code_of("111111111"));
    assert_eq!(fixed[256], code_of("0000000"));
    assert_eq!(fixed[279], code_of("0010111"));
    assert_eq!(fixed[280], code_of("11000000"));
    assert_eq!(fixed[287], code_of("11000111"));
}

#[test]
fn test_fixed_distance_table() {
    let SymbolToCodeTable(fixed) = SymbolToCodeTable::fixed_distance();
    assert_eq!(fixed[0], code_of("00000"));
    assert_eq!(fixed[3], code_of("00011"));
    assert_eq!(fixed[9], code_of("01001"));
    assert_eq!(fixed[27], code_of("11011"));
    assert_eq!(fixed[31], code_of("11111"));
}

#[test]
fn test_inverse() {
    let code_lengths = vec![1, 2, 2];
    let table = SymbolToCodeTable::from_code_lengths(&code_lengths);
    assert_eq!(
        table.inverse(),
        CodeToSymbolTable(vec![code_of("0"), code_of("10"), code_of("11")])
    );
}

#[test]
fn test_read_code() {
    let table = CodeToSymbolTable(vec![code_of("0"), code_of("10"), code_of("11")]);
    let mut reader = BitReader::new(vec![0b010_11_01_0]);
    assert_eq!(table.read_symbol(&mut reader).unwrap(), 0);
    assert_eq!(table.read_symbol(&mut reader).unwrap(), 1);
    assert_eq!(table.read_symbol(&mut reader).unwrap(), 2);
    assert_eq!(reader.read_bits(3).unwrap(), 0b010);
}

#[test]
fn test_read_symbol_invalid_code() {
    // Codewords 00 and 01 exist; the bits 11 match nothing of any length
    // the table holds, so the decode must fail rather than keep reading.
    let table = CodeToSymbolTable(vec![code_of("00"), code_of("01")]);
    let mut reader = BitReader::new(vec![0b0000_0011]);
    assert!(matches!(
        table.read_symbol(&mut reader),
        Err(InflateError::InvalidCode)
    ));
}

#[test]
fn test_read_symbol_out_of_bits() {
    let table = CodeToSymbolTable(vec![code_of("00"), code_of("01")]);
    let mut reader = BitReader::new(vec![]);
    assert!(matches!(
        table.read_symbol(&mut reader),
        Err(InflateError::IoError)
    ));
}

#[test]
fn test_canonical_codes_prefix_free() {
    // Every assigned pair of codewords: equal lengths strictly increase
    // with the symbol index, and no codeword is a prefix of another.
    let code_lengths = vec![3, 3, 3, 3, 3, 2, 4, 4];
    let SymbolToCodeTable(codes) = SymbolToCodeTable::from_code_lengths(&code_lengths);
    for i in 0..codes.len() {
        for j in 0..codes.len() {
            if i == j || codes[i].length == 0 || codes[j].length == 0 {
                continue;
            }
            if codes[i].length == codes[j].length && i < j {
                assert!(codes[i].bits < codes[j].bits);
            }
            if codes[i].length <= codes[j].length {
                let shifted = codes[j].bits >> (codes[j].length - codes[i].length);
                assert!(shifted != codes[i].bits || i == j);
            }
        }
    }
}
