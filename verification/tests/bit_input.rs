use unrar_core::{BitInput, UnpackError};

#[test]
fn test_bitinput_fgetbits_and_faddbits() {
    let data: Vec<u8> = vec![0xAA, 0xCC, 0xF0, 0x0F];
    let mut bit_input = BitInput::new(&data);
    let bits: u32 = bit_input.fgetbits();
    println!("fgetbits: {:#018b}", bits);
    assert_eq!(bits, 0xAACC);
    assert_eq!(bit_input.faddbits(4), Ok(()));
    let after: u32 = bit_input.fgetbits();
    println!("after faddbits(4), fgetbits: {:#018b}", after);
    assert_eq!(after, 0xACCF);
}

#[test]
fn fgetbits_is_idempotent() {
    let data: Vec<u8> = vec![0x12, 0x34, 0x56, 0x78];
    let mut bit_input = BitInput::new(&data);
    let first: u32 = bit_input.fgetbits();
    let second: u32 = bit_input.fgetbits();
    assert_eq!(first, 0x1234);
    assert_eq!(second, 0x1234);
    assert_eq!(bit_input.byte_offset(), 0);
}

#[test]
fn lookahead_crosses_byte_boundaries_most_significant_bit_first() {
    let data: Vec<u8> = vec![0x12, 0x34, 0x56, 0x78];
    let mut bit_input = BitInput::new(&data);
    assert_eq!(bit_input.faddbits(1), Ok(()));
    assert_eq!(bit_input.fgetbits(), 0x2468);
    assert_eq!(bit_input.faddbits(1), Ok(()));
    assert_eq!(bit_input.fgetbits(), 0x48D1);
    assert_eq!(bit_input.faddbits(6), Ok(()));
    assert_eq!(bit_input.fgetbits(), 0x3456);
    assert_eq!(bit_input.byte_offset(), 1);
}

#[test]
fn lookahead_is_zero_filled_past_the_end() {
    let data: Vec<u8> = vec![0xAA, 0xCC, 0xF0, 0x0F];
    let mut bit_input = BitInput::new(&data);
    assert_eq!(bit_input.faddbits(20), Ok(()));
    assert_eq!(bit_input.fgetbits(), 0x00F0);
    assert_eq!(bit_input.faddbits(10), Ok(()));
    assert_eq!(bit_input.fgetbits(), 0xC000);
    assert_eq!(bit_input.faddbits(2), Ok(()));
    assert_eq!(bit_input.fgetbits(), 0);
    assert_eq!(bit_input.byte_offset(), 4);
}

#[test]
fn empty_source_reads_as_zero() {
    let data: Vec<u8> = Vec::new();
    let mut bit_input = BitInput::new(&data);
    assert_eq!(bit_input.fgetbits(), 0);
    assert_eq!(bit_input.faddbits(0), Ok(()));
    assert_eq!(bit_input.faddbits(1), Err(UnpackError::BitstreamExhausted));
}

#[test]
fn faddbits_fails_when_the_source_runs_out() {
    let data: Vec<u8> = vec![0xA5];
    let mut bit_input = BitInput::new(&data);
    assert_eq!(bit_input.faddbits(9), Err(UnpackError::BitstreamExhausted));
    // a refused call consumes nothing
    assert_eq!(bit_input.fgetbits(), 0xA500);
    assert_eq!(bit_input.faddbits(5), Ok(()));
    assert_eq!(bit_input.fgetbits(), 0xA000);
    assert_eq!(bit_input.faddbits(4), Err(UnpackError::BitstreamExhausted));
    assert_eq!(bit_input.faddbits(3), Ok(()));
    assert_eq!(bit_input.fgetbits(), 0);
    assert_eq!(bit_input.faddbits(1), Err(UnpackError::BitstreamExhausted));
}

#[test]
fn faddbits_takes_more_bits_than_the_buffer_holds() {
    let data: Vec<u8> = vec![0x01, 0x02, 0x03, 0x04, 0x05, 0x06, 0x07, 0x08];
    let mut bit_input = BitInput::new(&data);
    assert_eq!(bit_input.faddbits(40), Ok(()));
    assert_eq!(bit_input.fgetbits(), 0x0607);
    assert_eq!(bit_input.byte_offset(), 5);
    assert_eq!(bit_input.faddbits(25), Err(UnpackError::BitstreamExhausted));
    assert_eq!(bit_input.faddbits(24), Ok(()));
    assert_eq!(bit_input.byte_offset(), 8);
}
