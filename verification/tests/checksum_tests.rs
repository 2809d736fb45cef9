use sfvcheck::checksum::Crc32Accumulator;
use sfvcheck::checksum::crc32_of_bytes;
use sfvcheck::hex::parse_hex8;
use sfvcheck::hex::render_hex8;

#[test]
fn crc32_matches_reference_implementation() {
    let samples: Vec<&[u8]> = vec![
        b"",
        b"a",
        b"abc",
        b"hello world",
        b"The quick brown fox jumps over the lazy dog",
        &[0u8; 1024],
        &[0xFFu8; 300],
    ];
    for s in samples {
        assert_eq!(crc32_of_bytes(s), crc32fast::hash(s));
    }
}

#[test]
fn crc32_known_check_value() {
    // The standard CRC-32/ISO-HDLC check value for "123456789".
    assert_eq!(crc32_of_bytes(b"123456789"), 0xCBF43926);
}

#[test]
fn crc32_of_empty_input_is_zero() {
    assert_eq!(crc32_of_bytes(b""), 0x00000000);
    let acc = Crc32Accumulator::new();
    assert_eq!(acc.finalize(), 0x00000000);
}

#[test]
fn accumulator_chunked_equals_one_shot() {
    let data = b"some data, long enough to split into several chunks";
    let mut acc = Crc32Accumulator::new();
    acc.update(&data[..10]);
    acc.update(&data[10..31]);
    acc.update(&data[31..]);
    assert_eq!(acc.finalize(), crc32_of_bytes(data));
}

#[test]
fn render_hex8_is_uppercase_fixed_width() {
    assert_eq!(render_hex8(0xCBF43926), b"CBF43926".to_vec());
    assert_eq!(render_hex8(0), b"00000000".to_vec());
    assert_eq!(render_hex8(0xABC), b"00000ABC".to_vec());
    assert_eq!(render_hex8(u32::MAX), b"FFFFFFFF".to_vec());
}

#[test]
fn parse_hex8_accepts_both_cases_and_rejects_junk() {
    assert_eq!(parse_hex8(b"CBF43926"), Some(0xCBF43926));
    assert_eq!(parse_hex8(b"cbf43926"), Some(0xCBF43926));
    assert_eq!(parse_hex8(b"00000000"), Some(0));
    assert_eq!(parse_hex8(b"0000000"), None);
    assert_eq!(parse_hex8(b"000000000"), None);
    assert_eq!(parse_hex8(b"0000000G"), None);
    assert_eq!(parse_hex8(b""), None);
}

#[test]
fn parse_hex8_round_trips_render_hex8() {
    for c in [0u32, 1, 0xDEADBEEF, 0x7FFFFFFF, u32::MAX] {
        let digits = render_hex8(c);
        assert_eq!(parse_hex8(&digits), Some(c));
    }
}
