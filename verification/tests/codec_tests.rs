use sfvcheck::codec::ChecksumRecord;
use sfvcheck::codec::FormatError;
use sfvcheck::codec::parse_sfv;
use sfvcheck::codec::render_sfv;

fn record(path: &[u8], crc: u32) -> ChecksumRecord {
    ChecksumRecord { path: path.to_vec(), crc }
}

#[test]
fn render_produces_one_line_per_record() {
    let records = vec![record(b"a.txt", 0xCBF43926), record(b"dir/b.bin", 0)];
    let text = render_sfv(&records);
    assert_eq!(text, b"a.txt CBF43926\ndir/b.bin 00000000\n".to_vec());
}

#[test]
fn parse_reads_back_rendered_document() {
    let records = vec![
        record(b"a.txt", 0xCBF43926),
        record(b"dir/b.bin", 0),
        record(b"name with spaces.dat", 0x12345678),
    ];
    let text = render_sfv(&records);
    let parsed = parse_sfv(&text).unwrap();
    assert_eq!(parsed.len(), records.len());
    for (p, r) in parsed.iter().zip(records.iter()) {
        assert_eq!(p.path, r.path);
        assert_eq!(p.crc, r.crc);
    }
}

#[test]
fn comments_and_blank_lines_are_skipped() {
    let text = b"; a comment line\n\nfile.txt 0000000A\n   \n; another ; comment\n";
    let parsed = parse_sfv(text).unwrap();
    assert_eq!(parsed.len(), 1);
    assert_eq!(parsed[0].path, b"file.txt".to_vec());
    assert_eq!(parsed[0].crc, 0x0000000A);
}

#[test]
fn short_line_is_a_fatal_format_error() {
    let text = b"ok.txt 00000000\nshorty\n";
    match parse_sfv(text) {
        Err(FormatError::ShortLine { line_index }) => assert_eq!(line_index, 1),
        other => panic!("expected a short-line error, got {:?}", other.is_ok()),
    }
}

#[test]
fn eight_character_line_is_still_short() {
    // Exactly eight characters leave no room for a path.
    let text = b"AbCd1234\n";
    match parse_sfv(text) {
        Err(FormatError::ShortLine { line_index }) => assert_eq!(line_index, 0),
        _ => panic!("expected a short-line error"),
    }
}

#[test]
fn non_hex_checksum_field_is_a_fatal_format_error() {
    let text = b"file.txt NOTAHEX!\n";
    match parse_sfv(text) {
        Err(FormatError::BadChecksum { line_index }) => assert_eq!(line_index, 0),
        _ => panic!("expected a bad-checksum error"),
    }
}

#[test]
fn error_line_index_counts_skipped_lines() {
    let text = b"; header\n\ngood.txt 00000001\nbad\n";
    match parse_sfv(text) {
        Err(FormatError::ShortLine { line_index }) => assert_eq!(line_index, 3),
        _ => panic!("expected a short-line error"),
    }
}

#[test]
fn checksum_field_accepts_lowercase() {
    let text = b"x cbf43926\n";
    let parsed = parse_sfv(text).unwrap();
    assert_eq!(parsed.len(), 1);
    assert_eq!(parsed[0].crc, 0xCBF43926);
}

#[test]
fn paths_with_spaces_survive_the_suffix_split() {
    let text = b"my file with spaces.txt 00000000\n";
    let parsed = parse_sfv(text).unwrap();
    assert_eq!(parsed[0].path, b"my file with spaces.txt".to_vec());
}

#[test]
fn carriage_returns_and_padding_are_trimmed() {
    let text = b"  a.txt 00000000\r\n\tb.txt FFFFFFFF  \r\n";
    let parsed = parse_sfv(text).unwrap();
    assert_eq!(parsed.len(), 2);
    assert_eq!(parsed[0].path, b"a.txt".to_vec());
    assert_eq!(parsed[0].crc, 0);
    assert_eq!(parsed[1].path, b"b.txt".to_vec());
    assert_eq!(parsed[1].crc, u32::MAX);
}

#[test]
fn document_without_trailing_newline_parses() {
    let text = b"a.txt 00000001";
    let parsed = parse_sfv(text).unwrap();
    assert_eq!(parsed.len(), 1);
    assert_eq!(parsed[0].crc, 1);
}

#[test]
fn empty_document_has_no_records() {
    let parsed = parse_sfv(b"").unwrap();
    assert_eq!(parsed.len(), 0);
}
