use unrar_core::unpack::{
    DISTANCE_BASE, DISTANCE_BOUNDARY, DISTANCE_START, LITERAL_BASE, LITERAL_BOUNDARY, LITERAL_START,
};
use unrar_core::{decode_symbol, BitInput, CodeWord, Unpack, UnpackError};

#[test]
fn test_decode_num_simple() {
    let data: Vec<u8> = vec![0xFF, 0x00, 0x00, 0x00];
    let mut bit_input = BitInput::new(&data);
    let dec_tab: Vec<u32> = vec![0x8000, 0xA000, 0xC000, 0xFFFF];
    let pos_tab: Vec<u32> = vec![0, 1, 2, 3, 4, 5, 6];
    let bits: u32 = bit_input.fgetbits();
    let mut unpack = Unpack::new(bit_input, 4096, 0);
    println!("decode_num input bits: {:#06x}", bits);
    assert_eq!(bits, 0xFF00);
    let result = unpack.decode_num(bits, 1, &dec_tab, &pos_tab);
    println!("decode_num result: {:?}", result);
    assert_eq!(result, Ok(7));
    // the code was four bits long
    let mut rest = *unpack.input();
    assert_eq!(rest.fgetbits(), 0xF000);
}

#[test]
fn decode_symbol_follows_the_formula() {
    // first boundary above 0x1230 is index 1: one bit, offset 0x230 >> 15, base 1
    assert_eq!(
        decode_symbol(0x1234, LITERAL_START, &LITERAL_BOUNDARY, &LITERAL_BASE),
        Ok(CodeWord { bits: 1, symbol: 1 })
    );
    // below the first boundary: no bits, symbol zero
    assert_eq!(
        decode_symbol(0x0FFF, LITERAL_START, &LITERAL_BOUNDARY, &LITERAL_BASE),
        Ok(CodeWord { bits: 0, symbol: 0 })
    );
    // index 4: four bits, (0xFFF0 - 0x7000) >> 12 = 8, base 4
    assert_eq!(
        decode_symbol(0xFFFF, LITERAL_START, &LITERAL_BOUNDARY, &LITERAL_BASE),
        Ok(CodeWord { bits: 4, symbol: 12 })
    );
    // index 2 of the distance code: four bits, (0x5FF0 - 0x4000) >> 12 = 1, base 4
    assert_eq!(
        decode_symbol(0x5FF0, DISTANCE_START, &DISTANCE_BOUNDARY, &DISTANCE_BASE),
        Ok(CodeWord { bits: 4, symbol: 5 })
    );
}

#[test]
fn decode_symbol_ignores_the_low_four_bits_and_what_is_above_sixteen() {
    let low = decode_symbol(0x2FFF, LITERAL_START, &LITERAL_BOUNDARY, &LITERAL_BASE);
    let cleared = decode_symbol(0x2FF0, LITERAL_START, &LITERAL_BOUNDARY, &LITERAL_BASE);
    let high = decode_symbol(0xABCD_2FF0, LITERAL_START, &LITERAL_BOUNDARY, &LITERAL_BASE);
    assert_eq!(low, cleared);
    assert_eq!(high, cleared);
    assert_eq!(cleared, Ok(CodeWord { bits: 1, symbol: 1 }));
}

#[test]
fn literal_code_stays_in_range_for_every_lookahead() {
    let mut field: u32 = 0;
    while field <= 0xFFFF {
        match decode_symbol(field, LITERAL_START, &LITERAL_BOUNDARY, &LITERAL_BASE) {
            Ok(word) => {
                assert!((word.bits as usize) <= LITERAL_BOUNDARY.len());
                assert!(word.symbol <= 12);
            }
            Err(e) => panic!("lookahead {:#06x} refused: {:?}", field, e),
        }
        field += 1;
    }
}

#[test]
fn distance_code_beyond_its_base_table_is_corrupt() {
    // index 3: 2 + 3 = 5 bits, and the base table has no entry 5
    assert_eq!(
        decode_symbol(0x6000, DISTANCE_START, &DISTANCE_BOUNDARY, &DISTANCE_BASE),
        Err(UnpackError::CorruptTable)
    );
    assert_eq!(
        decode_symbol(0xFFFF, DISTANCE_START, &DISTANCE_BOUNDARY, &DISTANCE_BASE),
        Err(UnpackError::CorruptTable)
    );
    let mut ok: u32 = 0;
    let mut field: u32 = 0;
    while field <= 0xFFFF {
        if let Ok(word) = decode_symbol(field, DISTANCE_START, &DISTANCE_BOUNDARY, &DISTANCE_BASE) {
            assert!(word.bits >= 2 && word.bits <= 4);
            ok += 1;
        }
        field += 1;
    }
    assert_eq!(ok, 0x6000);
}

#[test]
fn code_longer_than_the_lookahead_is_corrupt() {
    let boundary: Vec<u32> = vec![0x1000];
    let base: Vec<u32> = vec![0; 32];
    assert_eq!(decode_symbol(0x2000, 16, &boundary, &base), Err(UnpackError::CorruptTable));
    assert_eq!(decode_symbol(0x0000, 17, &boundary, &base), Err(UnpackError::CorruptTable));
    assert_eq!(decode_symbol(0x0000, 16, &boundary, &base), Ok(CodeWord { bits: 16, symbol: 0 }));
}

#[test]
fn symbol_outside_the_alphabet_is_corrupt() {
    let boundary: Vec<u32> = vec![0x8000];
    let high: Vec<u32> = vec![256, 0];
    let edge: Vec<u32> = vec![255, 0xFFFF_FFFF];
    assert_eq!(decode_symbol(0x0000, 0, &boundary, &high), Err(UnpackError::CorruptTable));
    assert_eq!(decode_symbol(0x0000, 0, &boundary, &edge), Ok(CodeWord { bits: 0, symbol: 255 }));
    assert_eq!(decode_symbol(0x8000, 0, &boundary, &edge), Err(UnpackError::CorruptTable));
}

#[test]
fn empty_tables_are_handled() {
    let none: Vec<u32> = Vec::new();
    let base: Vec<u32> = vec![3];
    assert_eq!(decode_symbol(0x1234, 0, &none, &none), Err(UnpackError::CorruptTable));
    assert_eq!(decode_symbol(0x1234, 0, &none, &base), Ok(CodeWord { bits: 0, symbol: 3 }));
}

#[test]
fn decode_num_refuses_a_code_the_source_cannot_pay() {
    let data: Vec<u8> = vec![0xF0];
    let mut unpack = Unpack::new(BitInput::new(&data), 16, 4);
    assert_eq!(unpack.decode_num(0xF000, 0, &LITERAL_BOUNDARY, &LITERAL_BASE), Ok(12));
    assert_eq!(unpack.decode_num(0xF000, 0, &LITERAL_BOUNDARY, &LITERAL_BASE), Ok(12));
    assert_eq!(
        unpack.decode_num(0xF000, 0, &LITERAL_BOUNDARY, &LITERAL_BASE),
        Err(UnpackError::BitstreamExhausted)
    );
    assert_eq!(
        unpack.decode_num(0x6000, DISTANCE_START, &DISTANCE_BOUNDARY, &DISTANCE_BASE),
        Err(UnpackError::CorruptTable)
    );
    assert_eq!(unpack.decode_num(0x0000, 0, &LITERAL_BOUNDARY, &LITERAL_BASE), Ok(0));
}
