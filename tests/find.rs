use data_encoding::HEXUPPER;
use pwned_check::digest::{compare_bytes, compare_padded, pad_digest};
use pwned_check::{scan_lines, HashMatcher, IntErrorKind, ParseHashError, SavedHash};

const A: &str = "000000005AD76BD555C1D6D771DE417A4B87E4B4";
const B: &str = "5BAA61E4C9B93F3F0682250B6CF8331B7EE68FD8";
const C: &str = "7C4A8D09CA3762AF61E59520943DC26494F8941B";
const X: &str = "AAF4C61DDCC5E8A2DABEDE0F3B482CD9AEA9434D";

fn stored(name: &str, hex: &str) -> SavedHash {
    let bytes = HEXUPPER.decode(hex.as_bytes()).unwrap();
    let mut password_hash = [0u8; 20];
    password_hash.copy_from_slice(&bytes);
    SavedHash {
        url: format!("https://{}.example/", name),
        username: name.to_string(),
        password_hash,
    }
}

fn line(hex: &str, count: &str) -> Vec<u8> {
    format!("{}:{}", hex, count).into_bytes()
}

#[test]
fn duplicate_stored_digests_both_match() {
    let saved = vec![stored("alice", X), stored("bob", X)];
    let lines = vec![line(X, "7")];
    let report = scan_lines(&saved, &lines);
    assert_eq!(report.error, None);
    assert_eq!(report.events.len(), 2);
    assert_eq!(report.events[0].saved, 0);
    assert_eq!(report.events[1].saved, 1);
    assert_eq!(report.events[0].count, Ok(7));
    assert_eq!(report.events[1].count, Ok(7));
}

#[test]
fn missing_stored_digest_gives_no_event() {
    let saved = vec![stored("alice", A), stored("bob", B)];
    let lines = vec![line(A, "4"), line(C, "9")];
    let report = scan_lines(&saved, &lines);
    assert_eq!(report.error, None);
    assert_eq!(report.events.len(), 1);
    assert_eq!(report.events[0].saved, 0);
    assert_eq!(report.events[0].count, Ok(4));
    assert_eq!(report.lines_read, 2);
}

#[test]
fn empty_saved_reads_nothing() {
    let saved: Vec<SavedHash> = Vec::new();
    let lines = vec![b"not a line at all".to_vec(), line(A, "4")];
    let report = scan_lines(&saved, &lines);
    assert_eq!(report.lines_read, 0);
    assert!(report.events.is_empty());
    assert_eq!(report.error, None);
}

#[test]
fn malformed_line_after_last_match_is_never_read() {
    let saved = vec![stored("alice", A)];
    let lines = vec![line(A, "4"), b"garbage".to_vec()];
    let report = scan_lines(&saved, &lines);
    assert_eq!(report.error, None);
    assert_eq!(report.lines_read, 1);
    assert_eq!(report.events.len(), 1);
}

#[test]
fn malformed_line_before_a_match_stops_the_scan() {
    let saved = vec![stored("bob", B)];
    let lines = vec![line(A, "4"), b"garbage".to_vec(), line(B, "2")];
    let report = scan_lines(&saved, &lines);
    assert_eq!(report.error, Some(ParseHashError::InvalidFormat()));
    assert_eq!(report.lines_read, 2);
    assert!(report.events.is_empty());
}

#[test]
fn bad_hex_stops_the_scan() {
    let saved = vec![stored("bob", B)];
    let lines = vec![line("GGGGGGGGGGGGGGGGGGGGGGGGGGGGGGGGGGGGGGGG", "1"), line(B, "2")];
    let report = scan_lines(&saved, &lines);
    assert_eq!(report.error, Some(ParseHashError::InvalidFormat()));
    assert_eq!(report.lines_read, 1);
    assert!(report.events.is_empty());
}

#[test]
fn unreadable_count_keeps_the_match() {
    let saved = vec![stored("alice", A)];
    let lines = vec![line(A, "abc")];
    let report = scan_lines(&saved, &lines);
    assert_eq!(report.error, None);
    assert_eq!(report.events.len(), 1);
    assert_eq!(
        report.events[0].count,
        Err(ParseHashError::IntError(IntErrorKind::InvalidDigit))
    );
}

#[test]
fn every_match_of_a_sorted_scan() {
    let saved = vec![
        stored("a", A),
        stored("b1", B),
        stored("b2", B),
        stored("c", C),
        stored("x", X),
    ];
    let lines = vec![line(A, "1"), line(C, "3"), line(X, "5")];
    let report = scan_lines(&saved, &lines);
    assert_eq!(report.error, None);
    let got: Vec<(usize, Result<u32, ParseHashError>)> =
        report.events.iter().map(|e| (e.saved, e.count)).collect();
    assert_eq!(got, vec![(0, Ok(1)), (3, Ok(3)), (4, Ok(5))]);
    assert_eq!(report.lines_read, 3);
}

#[test]
fn line_by_line_matcher() {
    let saved = vec![stored("alice", A), stored("bob", B)];
    let mut matcher = HashMatcher::new();
    assert!(!matcher.is_done(&saved));
    let first = matcher.match_line(&saved, &line(A, "12")).unwrap();
    assert_eq!(first.len(), 1);
    assert_eq!(first[0].saved, 0);
    assert_eq!(first[0].count, Ok(12));
    assert!(!matcher.is_done(&saved));
    assert!(matches!(
        matcher.match_line(&saved, b"no delimiter here"),
        Err(ParseHashError::InvalidFormat())
    ));
    let second = matcher.match_line(&saved, &line(C, "1")).unwrap();
    assert!(second.is_empty());
    assert!(matcher.is_done(&saved));
    let after = matcher.match_line(&saved, b"ignored").unwrap();
    assert!(after.is_empty());
}

#[test]
fn padding_keeps_the_order() {
    let digests = [A, B, C, X];
    for a in digests.iter() {
        for b in digests.iter() {
            let da = stored("a", a).password_hash;
            let db = stored("b", b).password_hash;
            let padded = compare_padded(&pad_digest(&da), &pad_digest(&db));
            assert_eq!(padded, compare_bytes(&da, &db));
            assert_eq!(padded, da.cmp(&db));
        }
    }
    let p = pad_digest(&stored("a", X).password_hash);
    assert_eq!(&p[20..], &[0u8; 12]);
}
