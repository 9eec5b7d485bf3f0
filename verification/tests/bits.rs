use reducto::bits::{BitOrder, Bits};
use reducto::error::{DecodeError, ErrorClass};

// 0xb2 is 1011_0010: its bits, lightest first, are 0 1 0 0 1 1 0 1.
// 0x01 follows with 1 0 0 0 0 0 0 0.
fn sample() -> Bits {
    Bits::new(vec![0xb2, 0x01])
}

#[test]
fn forward_read_takes_the_first_bit_as_the_heaviest() {
    let mut bits = sample();
    assert_eq!(bits.next_data_as_u8(4), Ok(0b0100));
    assert_eq!(bits.next_data_as_u8(4), Ok(0b1101));
}

#[test]
fn reversed_read_takes_the_first_bit_as_the_lightest() {
    let mut bits = sample();
    assert_eq!(bits.next_data_reversed_as_u8(4), Ok(0b0010));
    assert_eq!(bits.next_data_reversed_as_u8(4), Ok(0b1011));
}

#[test]
fn reversed_byte_is_the_byte_of_the_buffer() {
    let mut bits = sample();
    assert_eq!(bits.next_byte_reversed(), Ok(0xb2));
    assert_eq!(bits.next_byte_reversed(), Ok(0x01));
    assert_eq!(bits.next_byte_reversed(), Err(DecodeError::Range));
}

#[test]
fn forward_byte_is_the_byte_turned_round() {
    let mut bits = sample();
    assert_eq!(bits.next_byte(), Ok(0x4d));
    assert_eq!(bits.next_byte(), Ok(0x80));
}

#[test]
fn words_in_both_orders() {
    assert_eq!(sample().next_word_reversed(), Ok(0x01b2));
    assert_eq!(sample().next_word(), Ok(0x4d80));
    assert_eq!(sample().next_data_reversed_as_u16(9), Ok(0x01b2));
    assert_eq!(sample().next_data_as_u16(9), Ok(0b0_1001_1011));
}

#[test]
fn wider_reads() {
    let data: Vec<u8> = (1..=16).collect();
    assert_eq!(Bits::new(data.clone()).next_double_word_reversed(), Ok(0x0403_0201));
    assert_eq!(Bits::new(data.clone()).next_double_word(), Ok(0x8040_c020));
    assert_eq!(Bits::new(data.clone()).next_64_bits_reversed(), Ok(0x0807_0605_0403_0201));
    assert_eq!(Bits::new(data.clone()).next_64_bits(), Ok(0x8040_c020_a060_e010));
    assert_eq!(
        Bits::new(data.clone()).next_128_bits_reversed(),
        Ok(0x100f_0e0d_0c0b_0a09_0807_0605_0403_0201)
    );
    assert_eq!(
        Bits::new(data.clone()).next_128_bits(),
        Ok(0x8040_c020_a060_e010_9050_d030_b070_f008)
    );
    assert_eq!(Bits::new(data.clone()).next_data_reversed_as_u32(12), Ok(0x201));
    assert_eq!(Bits::new(data.clone()).next_data_as_u32(12), Ok(0x804));
    assert_eq!(Bits::new(data.clone()).next_data_reversed_as_u64(40), Ok(0x05_0403_0201));
    assert_eq!(Bits::new(data.clone()).next_data_as_u64(40), Ok(0x80_40c0_20a0));
    assert_eq!(Bits::new(data.clone()).next_data_reversed_as_u128(72), Ok(0x09_0807_0605_0403_0201));
    assert_eq!(Bits::new(data).next_data_as_u128(72), Ok(0x80_40c0_20a0_60e0_1090));
}

#[test]
fn consume_and_peek_with_an_order() {
    let mut bits = sample();
    assert_eq!(bits.peek(4, BitOrder::Forward), Ok(0b0100));
    assert_eq!(bits.peek(4, BitOrder::Reversed), Ok(0b0010));
    assert_eq!(bits.consume(4, BitOrder::Forward), Ok(0b0100));
    assert_eq!(bits.consume(12, BitOrder::Reversed), Ok(0x01b));
    assert_eq!(bits.consume(1, BitOrder::Reversed), Err(DecodeError::Range));
    assert_eq!(Bits::new(vec![0; 20]).consume(129, BitOrder::Forward), Err(DecodeError::Range));
    assert_eq!(Bits::new(vec![0xff; 20]).consume(128, BitOrder::Forward), Ok(u128::MAX));
}

#[test]
fn reading_no_bits_gives_zero() {
    let mut bits = sample();
    assert_eq!(bits.next_data_as_u8(0), Ok(0));
    assert_eq!(bits.next_data_reversed_as_u16(0), Ok(0));
    assert_eq!(bits.next_byte_reversed(), Ok(0xb2));
    assert_eq!(Bits::new(Vec::new()).next_data_as_u8(0), Ok(0));
}

#[test]
fn too_wide_a_read_is_a_range_error() {
    let mut bits = Bits::new(vec![0xb2, 0x01, 0, 0, 0, 0, 0, 0, 0, 0, 0, 0, 0, 0, 0, 0, 0, 0]);
    assert_eq!(bits.next_data_as_u8(9), Err(DecodeError::Range));
    assert_eq!(bits.next_data_reversed_as_u8(9), Err(DecodeError::Range));
    assert_eq!(bits.next_data_as_u16(17), Err(DecodeError::Range));
    assert_eq!(bits.next_data_reversed_as_u16(17), Err(DecodeError::Range));
    assert_eq!(bits.next_data_as_u32(33), Err(DecodeError::Range));
    assert_eq!(bits.next_data_reversed_as_u32(33), Err(DecodeError::Range));
    assert_eq!(bits.next_data_as_u64(65), Err(DecodeError::Range));
    assert_eq!(bits.next_data_reversed_as_u64(65), Err(DecodeError::Range));
    assert_eq!(bits.next_data_as_u128(129), Err(DecodeError::Range));
    assert_eq!(bits.next_data_reversed_as_u128(129), Err(DecodeError::Range));
    assert_eq!(DecodeError::Range.class(), ErrorClass::Range);
    // Nothing was consumed by the reads that failed.
    assert_eq!(bits.next_byte_reversed(), Ok(0xb2));
}

#[test]
fn reading_past_the_end_is_a_range_error_and_consumes_nothing() {
    let mut bits = sample();
    assert_eq!(bits.next_data_as_u8(5), Ok(0b01001));
    assert_eq!(bits.next_data_as_u16(12), Err(DecodeError::Range));
    assert_eq!(bits.next_word(), Err(DecodeError::Range));
    assert_eq!(bits.next_double_word(), Err(DecodeError::Range));
    assert_eq!(bits.next_64_bits(), Err(DecodeError::Range));
    assert_eq!(bits.next_128_bits(), Err(DecodeError::Range));
    assert_eq!(bits.next_word_reversed(), Err(DecodeError::Range));
    assert_eq!(bits.next_double_word_reversed(), Err(DecodeError::Range));
    assert_eq!(bits.next_64_bits_reversed(), Err(DecodeError::Range));
    assert_eq!(bits.next_128_bits_reversed(), Err(DecodeError::Range));
    assert_eq!(bits.remaining(), 11);
    assert_eq!(bits.next_data_as_u16(11), Ok(0b101_1000_0000));
    assert_eq!(bits.remaining(), 0);
    assert_eq!(bits.next_data_as_u8(1), Err(DecodeError::Range));
}

#[test]
fn peeks_do_not_move_the_cursor() {
    let bits = sample();
    assert_eq!(bits.peek_next_data_as_u8(4), Ok(0b0100));
    assert_eq!(bits.peek_next_data_as_u8_reversed(4), Ok(0b0010));
    assert_eq!(bits.peek_next_data_as_u16(9), Ok(0b0_1001_1011));
    assert_eq!(bits.peek_next_data_as_u16_reversed(9), Ok(0x01b2));
    assert_eq!(bits.peek_next_data_as_u32(16), Ok(0x4d80));
    assert_eq!(bits.peek_next_data_as_u32_reversed(16), Ok(0x01b2));
    assert_eq!(bits.peek_next_data_as_u64(16), Ok(0x4d80));
    assert_eq!(bits.peek_next_data_as_u64_reversed(16), Ok(0x01b2));
    assert_eq!(bits.peek_next_data_as_u128(16), Ok(0x4d80));
    assert_eq!(bits.peek_next_data_as_u128_reversed(16), Ok(0x01b2));
    assert_eq!(bits.peek_next_data_as_u8(9), Err(DecodeError::Range));
    assert_eq!(bits.peek_next_data_as_u8_reversed(9), Err(DecodeError::Range));
    assert_eq!(bits.peek_next_data_as_u16(17), Err(DecodeError::Range));
    assert_eq!(bits.peek_next_data_as_u16_reversed(17), Err(DecodeError::Range));
    assert_eq!(bits.peek_next_data_as_u32(17), Err(DecodeError::Range));
    assert_eq!(bits.peek_next_data_as_u32_reversed(17), Err(DecodeError::Range));
    assert_eq!(bits.peek_next_data_as_u64(17), Err(DecodeError::Range));
    assert_eq!(bits.peek_next_data_as_u64_reversed(17), Err(DecodeError::Range));
    assert_eq!(bits.peek_next_data_as_u128(17), Err(DecodeError::Range));
    assert_eq!(bits.peek_next_data_as_u128_reversed(17), Err(DecodeError::Range));
    assert_eq!(bits.remaining(), 16);
}

#[test]
fn peek_as_string_spells_the_bits_in_stream_order() {
    let mut bits = sample();
    assert_eq!(bits.peek_next_data_as_string(5), Ok(String::from("01001")));
    assert_eq!(bits.peek_next_data_as_string(0), Ok(String::new()));
    assert_eq!(bits.peek_next_data_as_string(16), Ok(String::from("0100110110000000")));
    assert_eq!(bits.peek_next_data_as_string(17), Err(DecodeError::Range));
    assert_eq!(bits.move_n_bits(3), Ok(()));
    assert_eq!(bits.peek_next_data_as_string(7), Ok(String::from("0110110")));
    assert_eq!(bits.peek_next_data_as_string(14), Err(DecodeError::Range));
}

#[test]
fn moving_the_cursor() {
    let mut bits = sample();
    assert_eq!(bits.move_n_bits(3), Ok(()));
    assert_eq!(bits.next_data_as_u8(2), Ok(0b01));
    assert_eq!(bits.move_n_bits(12), Err(DecodeError::Range));
    assert_eq!(bits.remaining(), 11);
    assert_eq!(bits.move_n_bits(11), Ok(()));
    assert_eq!(bits.remaining(), 0);
    assert_eq!(bits.move_n_bits(0), Ok(()));
    assert_eq!(bits.move_n_bits(usize::MAX), Err(DecodeError::Range));
}

#[test]
fn aligning_moves_to_the_next_byte_boundary() {
    let mut bits = sample();
    bits.align();
    assert_eq!(bits.remaining(), 16);
    assert_eq!(bits.next_data_as_u8(1), Ok(0));
    bits.align();
    assert_eq!(bits.remaining(), 8);
    assert_eq!(bits.next_byte_reversed(), Ok(0x01));
    bits.align();
    assert_eq!(bits.remaining(), 0);
}

#[test]
fn spelling_the_bits_that_are_left() {
    let mut bits = sample();
    assert_eq!(bits.spell(), "0100110110000000");
    assert_eq!(bits.move_n_bits(5), Ok(()));
    assert_eq!(bits.spell(), "10110000000");
    assert_eq!(bits.move_n_bits(11), Ok(()));
    assert_eq!(bits.spell(), "");
    assert_eq!(Bits::new(vec![0xff; 40]).spell(), "1".repeat(320));
}
