use serial_graph::ascii::parse;
use serial_graph::graph::converter;
use serial_graph::single::{widen, word_from_be, word_from_le};

fn text_of(raw: [u8; 4]) -> String {
    raw.iter().map(|b| char::from(*b)).collect::<String>()
}

fn expected_text_bits(raw: [u8; 4]) -> Option<u32> {
    text_of(raw).parse::<f32>().ok().map(|v| v.to_bits())
}

#[test]
fn big_endian_float_is_read_as_it_stands() {
    let raw = 1.5f32.to_be_bytes();
    assert_eq!(f32::from_bits(converter::be_f32.convert(raw)), 1.5);
    let raw = (-2.25f32).to_be_bytes();
    assert_eq!(f32::from_bits(converter::be_f32.convert(raw)), -2.25);
    assert_eq!(converter::be_f32.convert([0x3f, 0xc0, 0x00, 0x00]), 0x3fc0_0000);
}

#[test]
fn little_endian_float_is_read_backwards() {
    let raw = 1.5f32.to_le_bytes();
    assert_eq!(f32::from_bits(converter::le_f32.convert(raw)), 1.5);
    assert_eq!(converter::le_f32.convert([0x00, 0x00, 0xc0, 0x3f]), 0x3fc0_0000);
    assert_eq!(converter::le_f32.convert([0x3f, 0xc0, 0x00, 0x00]), 0x0000_c03f);
}

#[test]
fn words_follow_the_byte_order() {
    assert_eq!(word_from_be([0x12, 0x34, 0x56, 0x78]), 0x1234_5678);
    assert_eq!(word_from_le([0x12, 0x34, 0x56, 0x78]), 0x7856_3412);
    assert_eq!(word_from_be([0xff, 0xff, 0xff, 0xff]), u32::MAX);
}

#[test]
fn unsigned_integers_are_widened() {
    assert_eq!(f32::from_bits(converter::be_u32.convert([0, 0, 0, 7])), 7.0);
    assert_eq!(f32::from_bits(converter::le_u32.convert([7, 0, 0, 0])), 7.0);
    assert_eq!(f32::from_bits(converter::be_u32.convert([0, 0, 1, 0])), 256.0);
    assert_eq!(converter::be_u32.convert([0, 0, 0, 0]), 0);
    assert_eq!(
        converter::be_u32.convert([0xff, 0xff, 0xff, 0xff]),
        (u32::MAX as f32).to_bits()
    );
}

#[test]
fn widening_rounds_to_nearest_even() {
    // 2^24 + 1 lies halfway between 2^24 and 2^24 + 2: the even pattern wins.
    assert_eq!(widen(16_777_217), 16_777_216f32.to_bits());
    // 2^24 + 3 lies halfway between 2^24 + 2 and 2^24 + 4.
    assert_eq!(widen(16_777_219), 16_777_220f32.to_bits());
    assert_eq!(widen(16_777_218), 16_777_218f32.to_bits());
    assert_eq!(widen(1), 0x3f80_0000);
    assert_eq!(widen(0), 0);
    assert_eq!(widen(u32::MAX), 0x4f80_0000);
    assert_eq!(widen(0xffff_ff7f), 0x4f7f_ffff);
    assert_eq!(widen(0xffff_ff80), 0x4f80_0000);
}

#[test]
fn widening_agrees_with_the_machine() {
    let mut value: u32 = 1;
    for _ in 0..200_000 {
        value = value.wrapping_mul(1_664_525).wrapping_add(1_013_904_223);
        assert_eq!(widen(value), (value as f32).to_bits(), "value {}", value);
        let small = value >> (value % 32);
        assert_eq!(widen(small), (small as f32).to_bits(), "value {}", small);
    }
    for shift in 0..32 {
        for delta in 0..4u32 {
            let value = (1u32 << shift).wrapping_add(delta);
            assert_eq!(widen(value), (value as f32).to_bits());
            let value = (1u32 << shift).wrapping_sub(delta);
            assert_eq!(widen(value), (value as f32).to_bits());
        }
    }
}

#[test]
fn text_is_read_as_a_decimal_number() {
    assert_eq!(f32::from_bits(converter::u8_to_string.convert(*b"1.25")), 1.25);
    assert_eq!(f32::from_bits(converter::u8_to_string.convert(*b"-1.5")), -1.5);
    assert_eq!(f32::from_bits(converter::u8_to_string.convert(*b"0042")), 42.0);
    assert_eq!(f32::from_bits(converter::u8_to_string.convert(*b"1e-9")), 1e-9);
    assert_eq!(f32::from_bits(converter::u8_to_string.convert(*b"3e38")), 3e38);
    assert_eq!(f32::from_bits(converter::u8_to_string.convert(*b".5E1")), 5.0);
    assert_eq!(converter::u8_to_string.convert(*b"9e99"), f32::INFINITY.to_bits());
    assert_eq!(converter::u8_to_string.convert(*b"-inf"), f32::NEG_INFINITY.to_bits());
    assert_eq!(converter::u8_to_string.convert(*b"-0.0"), 0x8000_0000);
}

#[test]
fn text_that_is_no_number_reads_as_zero() {
    assert_eq!(converter::u8_to_string.convert(*b"abcd"), 0);
    assert_eq!(converter::u8_to_string.convert(*b"1.5 "), 0);
    assert_eq!(converter::u8_to_string.convert(*b" 1.5"), 0);
    assert_eq!(converter::u8_to_string.convert([0, 0, 0, 0]), 0);
    assert_eq!(converter::u8_to_string.convert([0x31, 0x32, 0x33, 0xb4]), 0);
    assert_eq!(converter::u8_to_string.convert(*b"1e+-"), 0);
    assert_eq!(converter::u8_to_string.convert(*b"...."), 0);
    assert_eq!(converter::u8_to_string.convert(*b"12e+"), 0);
    assert_eq!(parse(b"abcd"), None);
    assert_eq!(parse(b"0.00"), Some(0));
}

#[test]
fn not_a_number_is_spelled_with_a_sign() {
    assert!(f32::from_bits(parse(b"+nan").unwrap()).is_nan());
    assert!(f32::from_bits(parse(b"-NaN").unwrap()).is_nan());
    assert_eq!(parse(b"+nan"), expected_text_bits(*b"+nan"));
    assert_eq!(parse(b"-nan"), expected_text_bits(*b"-nan"));
    assert_eq!(parse(b"+INF"), Some(f32::INFINITY.to_bits()));
    assert_eq!(parse(b"nan "), None);
    assert_eq!(parse(b"inf\0"), None);
}

#[test]
fn parsing_agrees_with_the_machine_on_every_likely_text() {
    let alphabet: &[u8] = b"0123456789+-.eEinfaNIFA x\0";
    for a in alphabet {
        for b in alphabet {
            for c in alphabet {
                for d in alphabet {
                    let raw = [*a, *b, *c, *d];
                    assert_eq!(parse(&raw), expected_text_bits(raw), "text {:?}", text_of(raw));
                }
            }
        }
    }
}

#[test]
fn parsing_agrees_with_the_machine_on_odd_bytes() {
    let mut state: u32 = 7;
    for _ in 0..300_000 {
        state = state.wrapping_mul(1_664_525).wrapping_add(1_013_904_223);
        let raw = state.to_be_bytes();
        assert_eq!(parse(&raw), expected_text_bits(raw), "bytes {:?}", raw);
    }
}

#[test]
fn decoding_is_repeatable() {
    let encodings = [
        converter::be_f32,
        converter::le_f32,
        converter::be_u32,
        converter::le_u32,
        converter::u8_to_string,
    ];
    for encoding in encodings.iter() {
        for raw in [[0x31, 0x2e, 0x35, 0x30], [0xff, 0x00, 0x80, 0x01]].iter() {
            assert_eq!(encoding.convert(*raw), encoding.convert(*raw));
        }
    }
}

#[test]
fn encodings_cycle_through_all_five() {
    let start = converter::be_f32;
    assert_eq!(start.swap(), converter::le_f32);
    assert_eq!(start.swap().swap(), converter::be_u32);
    assert_eq!(start.swap().swap().swap(), converter::le_u32);
    assert_eq!(start.swap().swap().swap().swap(), converter::u8_to_string);
    assert_eq!(start.swap().swap().swap().swap().swap(), converter::be_f32);
}

#[test]
fn encodings_have_names() {
    assert_eq!(converter::be_f32.name(), "be_f32");
    assert_eq!(converter::le_f32.name(), "le_f32");
    assert_eq!(converter::be_u32.name(), "be_u32");
    assert_eq!(converter::le_u32.name(), "le_u32");
    assert_eq!(converter::u8_to_string.name(), "u8_to_string");
}
