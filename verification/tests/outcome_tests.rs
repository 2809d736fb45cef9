use sfvcheck::checksum::crc32_of_bytes;
use sfvcheck::codec::ChecksumRecord;
use sfvcheck::codec::parse_sfv;
use sfvcheck::codec::render_sfv;
use sfvcheck::outcome::VerificationOutcome;
use sfvcheck::outcome::judge_record;
use sfvcheck::outcome::judge_records;
use sfvcheck::outcome::overall_success;
use sfvcheck::relpath::relativize;

fn record(path: &[u8], crc: u32) -> ChecksumRecord {
    ChecksumRecord { path: path.to_vec(), crc }
}

#[test]
fn matching_checksum_is_judged_ok() {
    let out = judge_record(record(b"a.txt", 7), Ok(7));
    match out {
        VerificationOutcome::Matched { path } => assert_eq!(path, b"a.txt".to_vec()),
        _ => panic!("expected a match"),
    }
}

#[test]
fn differing_checksum_is_judged_mismatch_with_both_values() {
    let out = judge_record(record(b"a.txt", 7), Ok(9));
    match out {
        VerificationOutcome::Mismatched { path, expected, computed } => {
            assert_eq!(path, b"a.txt".to_vec());
            assert_eq!(expected, 7);
            assert_eq!(computed, 9);
        },
        _ => panic!("expected a mismatch"),
    }
}

#[test]
fn unreadable_file_is_judged_error_and_run_continues() {
    // A record whose file cannot be read yields exactly one error
    // outcome; the records after it are still judged.
    let records = vec![record(b"gone.txt", 1), record(b"here.txt", 2)];
    let computed: Vec<Result<u32, String>> =
        vec![Err(String::from("no such file")), Ok(2)];
    let mut outcomes = Vec::new();
    for (r, c) in records.into_iter().zip(computed.into_iter()) {
        outcomes.push(judge_record(r, c));
    }
    assert_eq!(outcomes.len(), 2);
    match &outcomes[0] {
        VerificationOutcome::Unreadable { path, message } => {
            assert_eq!(path, &b"gone.txt".to_vec());
            assert_eq!(message, "no such file");
        },
        _ => panic!("expected an error outcome"),
    }
    assert!(matches!(&outcomes[1], VerificationOutcome::Matched { .. }));
    assert!(!overall_success(&outcomes));
}

#[test]
fn judge_records_yields_one_outcome_per_record_in_order() {
    let records = vec![record(b"a", 1), record(b"b", 2), record(b"c", 3)];
    let computed: Vec<Result<u32, String>> =
        vec![Ok(1), Err(String::from("unreadable")), Ok(9)];
    let outcomes = judge_records(records, computed);
    assert_eq!(outcomes.len(), 3);
    assert!(matches!(&outcomes[0], VerificationOutcome::Matched { .. }));
    assert!(matches!(&outcomes[1], VerificationOutcome::Unreadable { .. }));
    assert!(matches!(&outcomes[2], VerificationOutcome::Mismatched { .. }));
    assert!(!overall_success(&outcomes));
}

#[test]
fn overall_success_requires_every_record_to_match() {
    let all_ok = vec![
        judge_record(record(b"a", 1), Ok(1)),
        judge_record(record(b"b", 2), Ok(2)),
    ];
    assert!(overall_success(&all_ok));
    let one_bad = vec![
        judge_record(record(b"a", 1), Ok(1)),
        judge_record(record(b"b", 2), Ok(3)),
    ];
    assert!(!overall_success(&one_bad));
    let empty: Vec<VerificationOutcome> = Vec::new();
    assert!(overall_success(&empty));
}

#[test]
fn generate_then_verify_round_trip_is_all_ok() {
    // Generate a document for three in-memory files, then verify the
    // parsed document against the same contents.
    let contents: Vec<&[u8]> = vec![b"first file", b"second file", b""];
    let paths: Vec<&[u8]> = vec![b"one.txt", b"two.txt", b"empty.bin"];
    let records: Vec<ChecksumRecord> = paths
        .iter()
        .zip(contents.iter())
        .map(|(p, c)| record(p, crc32_of_bytes(c)))
        .collect();
    let text = render_sfv(&records);
    let parsed = parse_sfv(&text).unwrap();
    assert_eq!(parsed.len(), 3);
    let mut outcomes = Vec::new();
    for (r, c) in parsed.into_iter().zip(contents.iter()) {
        let computed = crc32_of_bytes(c);
        outcomes.push(judge_record(r, Ok(computed)));
    }
    assert!(overall_success(&outcomes));
}

#[test]
fn single_mutated_byte_yields_exactly_one_mismatch() {
    let mut contents: Vec<Vec<u8>> = vec![
        b"alpha contents".to_vec(),
        b"beta contents".to_vec(),
        b"gamma contents".to_vec(),
    ];
    let paths: Vec<&[u8]> = vec![b"alpha", b"beta", b"gamma"];
    let records: Vec<ChecksumRecord> = paths
        .iter()
        .zip(contents.iter())
        .map(|(p, c)| record(p, crc32_of_bytes(c)))
        .collect();
    // Flip one byte of the second file after the document was made.
    contents[1][3] ^= 0x40;
    let mut outcomes = Vec::new();
    for (r, c) in records.into_iter().zip(contents.iter()) {
        outcomes.push(judge_record(r, Ok(crc32_of_bytes(c))));
    }
    let mismatches = outcomes
        .iter()
        .filter(|o| matches!(o, VerificationOutcome::Mismatched { .. }))
        .count();
    assert_eq!(mismatches, 1);
    assert!(matches!(&outcomes[0], VerificationOutcome::Matched { .. }));
    assert!(matches!(&outcomes[1], VerificationOutcome::Mismatched { .. }));
    assert!(matches!(&outcomes[2], VerificationOutcome::Matched { .. }));
    assert!(!overall_success(&outcomes));
}

#[test]
fn relativize_strips_the_working_directory_prefix() {
    assert_eq!(
        relativize(b"/home/u/work/f.txt", b"/home/u/work", b"orig/f.txt"),
        b"f.txt".to_vec()
    );
    assert_eq!(
        relativize(b"/home/u/work/sub/f.txt", b"/home/u/work", b"x"),
        b"sub/f.txt".to_vec()
    );
}

#[test]
fn relativize_falls_back_outside_the_working_tree() {
    assert_eq!(
        relativize(b"/elsewhere/f.txt", b"/home/u/work", b"/elsewhere/f.txt"),
        b"/elsewhere/f.txt".to_vec()
    );
    // A sibling whose name merely extends the base is not under it.
    assert_eq!(
        relativize(b"/home/u/workspace/f.txt", b"/home/u/work", b"kept"),
        b"kept".to_vec()
    );
}

#[test]
fn relativize_handles_a_root_base() {
    assert_eq!(relativize(b"/f.txt", b"/", b"unused"), b"f.txt".to_vec());
}
