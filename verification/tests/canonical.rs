use reducto::bits::Bits;
use reducto::canonical::CodeTable;
use reducto::error::{DecodeError, ErrorClass};
use reducto::inflate::fixed_tables;

// Lengths 2, 1, 3, 3 give the codes 10, 0, 110, 111.
fn small_table() -> CodeTable {
    CodeTable::from_lengths(vec![2, 1, 3, 3]).unwrap()
}

#[test]
fn codes_follow_from_the_lengths() {
    // The codes 10 0 110 111, written one after the other with the first
    // bit of the stream as the lightest bit of the first byte.
    let mut bits = Bits::new(vec![0b1101_1001, 0b0000_0001]);
    let table = small_table();
    assert_eq!(table.decode(&mut bits), Ok(0));
    assert_eq!(table.decode(&mut bits), Ok(1));
    assert_eq!(table.decode(&mut bits), Ok(2));
    assert_eq!(table.decode(&mut bits), Ok(3));
    assert_eq!(bits.remaining(), 7);
    assert_eq!(table.decode(&mut bits), Ok(1));
}

#[test]
fn symbols_without_a_code_are_passed_over() {
    // Lengths 0, 1, 0, 1: the symbols 1 and 3 have the codes 0 and 1.
    let table = CodeTable::from_lengths(vec![0, 1, 0, 1]).unwrap();
    let mut bits = Bits::new(vec![0b0000_0010]);
    assert_eq!(table.decode(&mut bits), Ok(1));
    assert_eq!(table.decode(&mut bits), Ok(3));
}

#[test]
fn bits_that_are_no_code() {
    let table = CodeTable::from_lengths(vec![1]).unwrap();
    let mut bits = Bits::new(vec![0b0000_0001]);
    assert_eq!(table.decode(&mut bits), Err(DecodeError::NoMatchingCode));
    assert_eq!(DecodeError::NoMatchingCode.class(), ErrorClass::Format);
    // The cursor did not move.
    assert_eq!(bits.remaining(), 8);
}

#[test]
fn a_table_without_codes_matches_nothing() {
    let table = CodeTable::from_lengths(vec![0, 0]).unwrap();
    let mut bits = Bits::new(vec![0]);
    assert_eq!(table.decode(&mut bits), Err(DecodeError::NoMatchingCode));
    let empty = CodeTable::from_lengths(Vec::new()).unwrap();
    assert_eq!(empty.decode(&mut bits), Err(DecodeError::NoMatchingCode));
}

#[test]
fn the_stream_ends_within_a_code() {
    let table = small_table();
    let mut bits = Bits::new(Vec::new());
    assert_eq!(table.decode(&mut bits), Err(DecodeError::UnexpectedEnd));
    // One bit is left, and it is a 1: no code of one bit, and no second bit.
    let mut bits = Bits::new(vec![0b1000_0000]);
    assert_eq!(bits.move_n_bits(7), Ok(()));
    assert_eq!(table.decode(&mut bits), Err(DecodeError::UnexpectedEnd));
    assert_eq!(bits.remaining(), 1);
}

#[test]
fn lengths_that_make_no_table() {
    assert!(CodeTable::from_lengths(vec![16]).is_none());
    assert!(CodeTable::from_lengths(vec![1; 289]).is_none());
    assert!(CodeTable::from_lengths(vec![15; 288]).is_some());
}

#[test]
fn fixed_literal_codes() {
    let (literals, distances) = fixed_tables();
    // Symbol 0 has the code 0011_0000, symbol 144 the code 1_1001_0000,
    // symbol 256 the code 000_0000 and symbol 280 the code 1100_0000.
    let mut bits = Bits::new(vec![0b0000_1100]);
    assert_eq!(literals.decode(&mut bits), Ok(0));
    let mut bits = Bits::new(vec![0b0001_0011, 0b0000_0000]);
    assert_eq!(literals.decode(&mut bits), Ok(144));
    assert_eq!(bits.remaining(), 7);
    let mut bits = Bits::new(vec![0b0000_0000]);
    assert_eq!(literals.decode(&mut bits), Ok(256));
    assert_eq!(bits.remaining(), 1);
    let mut bits = Bits::new(vec![0b0000_0011]);
    assert_eq!(literals.decode(&mut bits), Ok(280));
    // The last literal, 255, has the code 1_1111_1111.
    let mut bits = Bits::new(vec![0xff, 0x01]);
    assert_eq!(literals.decode(&mut bits), Ok(255));
    // Distance symbols are their own number in five bits, heaviest first.
    let mut bits = Bits::new(vec![0b0000_1000]);
    assert_eq!(distances.decode(&mut bits), Ok(2));
    let mut bits = Bits::new(vec![0b0001_0111]);
    assert_eq!(distances.decode(&mut bits), Ok(29));
    let mut bits = Bits::new(vec![0b0000_1111]);
    assert_eq!(distances.decode(&mut bits), Err(DecodeError::NoMatchingCode));
}
