use data_encoding::HEXUPPER;
use pwned_check::parse::parse_decimal;
use pwned_check::{IntErrorKind, ParseHashError, PwnedHash};

const TEST_LINE: &str = "000000005AD76BD555C1D6D771DE417A4B87E4B4:4";
const INVALID_INT: &str = "000000005AD76BD555C1D6D771DE417A4B87E4B4:abc";
const TEST_HASH: &str = "000000005AD76BD555C1D6D771DE417A4B87E4B4";

#[test]
fn test_parse_owned() {
    let record = {
        let droppable = TEST_LINE.to_string();
        PwnedHash::try_from(droppable.as_bytes()).unwrap()
    };

    assert_eq!(HEXUPPER.encode(record.hash()), "000000005AD76BD555C1D6D771DE417A4B87E4B4");
    assert_eq!(record.count, Some(Ok(4)));
}

#[test]
fn test_number_parse_owned_error() {
    let result = PwnedHash::try_from(INVALID_INT.to_string().as_bytes()).unwrap();
    assert!(matches!(result.count, Some(Err(ParseHashError::IntError(_)))));
}

#[test]
fn test_parse_borrow() {
    let record = PwnedHash::try_from(TEST_LINE.as_bytes()).unwrap();
    assert_eq!(HEXUPPER.encode(record.hash()), "000000005AD76BD555C1D6D771DE417A4B87E4B4");
    assert_eq!(record.count, Some(Ok(4)));
}

#[test]
fn test_number_parse_error_borrow() {
    let result = PwnedHash::try_from(INVALID_INT.as_bytes()).unwrap();
    assert!(matches!(result.count, Some(Err(ParseHashError::IntError(_)))));
}

#[test]
fn parse_test_parse() {
    let bytes_line = TEST_LINE.as_bytes();
    let record = PwnedHash::try_from(bytes_line).unwrap();
    assert_eq!(
        HEXUPPER.encode(record.hash()),
        "000000005AD76BD555C1D6D771DE417A4B87E4B4"
    );
    assert!(matches!(record.count.unwrap(), Ok(4)));
}

#[test]
fn test_parse_invalid_hex() {
    let res = PwnedHash::try_from("GGGGGGGGGGGGGGGGGGGGGGGGGGGGGGGGGGGGGGGG:4".as_bytes());
    assert!(matches!(res, Err(ParseHashError::InvalidFormat())));
}

#[test]
fn test_overriding() {
    let mut record = PwnedHash {
        hash_padded: [0; 32],
        count: Some(Ok(2)),
    };

    let bytes_line = TEST_LINE.as_bytes();
    record.parse_new_hash(bytes_line).unwrap();
    assert!(matches!(record.count, None));

    assert!(matches!(record.parse_count(bytes_line), Ok(4)));
    assert!(matches!(record.count, Some(Ok(4))));

    assert_eq!(
        HEXUPPER.encode(record.hash()),
        "000000005AD76BD555C1D6D771DE417A4B87E4B4"
    );
}

#[test]
fn test_number_parse_error() {
    let bytes_line = INVALID_INT.as_bytes();
    let record = PwnedHash::try_from(bytes_line).unwrap();
    let res = record.count.unwrap();
    assert!(matches!(res, Err(ParseHashError::IntError(_))));
}

#[test]
fn test_number_length_error() {
    let bytes_line = "000000005AD76BD555C1D6D771DE417A4B87E4B4:";
    let record = PwnedHash::try_from(bytes_line.as_bytes()).unwrap();
    let res = record.count.unwrap();
    assert!(matches!(res, Err(ParseHashError::IntError(_))));
}

#[test]
fn test_invalid_utf() {
    let mut v = vec![];
    for x in b"000000005AD76BD555C1D6D771DE417A4B87E4B4:" {
        v.push(*x);
    }

    let x1 = b"\xD2";
    v.push(*x1.first().unwrap());

    let record = PwnedHash::try_from(&v[..]).unwrap();
    let res = record.count.unwrap();
    assert!(matches!(res, Err(ParseHashError::InvalidFormat())));
}

#[test]
fn digest_bytes_equal_hex_decode_and_padding_is_zero() {
    let record = PwnedHash::try_from(TEST_LINE.as_bytes()).unwrap();
    let expected = HEXUPPER.decode(TEST_HASH.as_bytes()).unwrap();
    assert_eq!(&record.hash_padded[..20], &expected[..]);
    assert_eq!(&record.hash_padded[20..], &[0u8; 12]);
    assert_eq!(record.hash(), &expected[..]);
}

#[test]
fn count_with_letters_is_invalid_digit() {
    let mut record = PwnedHash::default();
    record.parse_new_hash(INVALID_INT.as_bytes()).unwrap();
    assert_eq!(
        HEXUPPER.encode(record.hash()),
        TEST_HASH
    );
    assert_eq!(
        record.parse_count(INVALID_INT.as_bytes()),
        Err(ParseHashError::IntError(IntErrorKind::InvalidDigit))
    );
}

#[test]
fn lowercase_hex_is_refused() {
    let line = "000000005ad76bd555c1d6d771de417a4b87e4b4:4";
    let res = PwnedHash::try_from(line.as_bytes());
    assert!(matches!(res, Err(ParseHashError::InvalidFormat())));
}

#[test]
fn failed_digest_leaves_record_unchanged() {
    let mut record = PwnedHash::try_from(TEST_LINE.as_bytes()).unwrap();
    let before = record.hash_padded;
    let res = record.parse_new_hash("GGGGGGGGGGGGGGGGGGGGGGGGGGGGGGGGGGGGGGGG:4".as_bytes());
    assert_eq!(res, Err(ParseHashError::InvalidFormat()));
    assert_eq!(record.hash_padded, before);
    assert_eq!(record.count, Some(Ok(4)));
}

#[test]
fn count_is_cached_until_next_digest() {
    let mut record = PwnedHash::default();
    record.parse_new_hash(TEST_LINE.as_bytes()).unwrap();
    let first = record.parse_count(TEST_LINE.as_bytes());
    let second = record.parse_count(INVALID_INT.as_bytes());
    assert_eq!(first, Ok(4));
    assert_eq!(second, first);

    record.parse_new_hash(INVALID_INT.as_bytes()).unwrap();
    assert_eq!(record.count, None);
    let third = record.parse_count(INVALID_INT.as_bytes());
    assert_eq!(third, Err(ParseHashError::IntError(IntErrorKind::InvalidDigit)));
    assert_eq!(record.parse_count(TEST_LINE.as_bytes()), third);
}

#[test]
fn decimal_edge_cases() {
    assert_eq!(parse_decimal(b""), Err(ParseHashError::IntError(IntErrorKind::Empty)));
    assert_eq!(parse_decimal(b"+"), Err(ParseHashError::IntError(IntErrorKind::InvalidDigit)));
    assert_eq!(parse_decimal(b"-1"), Err(ParseHashError::IntError(IntErrorKind::InvalidDigit)));
    assert_eq!(parse_decimal(b"12a"), Err(ParseHashError::IntError(IntErrorKind::InvalidDigit)));
    assert_eq!(parse_decimal(b" 1"), Err(ParseHashError::IntError(IntErrorKind::InvalidDigit)));
    assert_eq!(parse_decimal(b"+5"), Ok(5));
    assert_eq!(parse_decimal(b"0"), Ok(0));
    assert_eq!(parse_decimal(b"007"), Ok(7));
    assert_eq!(parse_decimal(b"3730471"), Ok(3730471));
    assert_eq!(parse_decimal(b"4294967295"), Ok(u32::MAX));
    assert_eq!(
        parse_decimal(b"4294967296"),
        Err(ParseHashError::IntError(IntErrorKind::PosOverflow))
    );
    assert_eq!(
        parse_decimal(b"99999999999999999999x"),
        Err(ParseHashError::IntError(IntErrorKind::PosOverflow))
    );
    assert_eq!(
        parse_decimal(b"99999999999a"),
        Err(ParseHashError::IntError(IntErrorKind::PosOverflow))
    );
    assert_eq!(
        parse_decimal(b"12x99999999999"),
        Err(ParseHashError::IntError(IntErrorKind::InvalidDigit))
    );
    assert_eq!(
        parse_decimal(b"+4294967295"),
        Ok(u32::MAX)
    );
}

#[test]
fn count_overflow_and_empty_in_a_line() {
    let big = "000000005AD76BD555C1D6D771DE417A4B87E4B4:4294967296";
    let record = PwnedHash::try_from(big.as_bytes()).unwrap();
    assert_eq!(record.count, Some(Err(ParseHashError::IntError(IntErrorKind::PosOverflow))));

    let empty = "000000005AD76BD555C1D6D771DE417A4B87E4B4:";
    let record = PwnedHash::try_from(empty.as_bytes()).unwrap();
    assert_eq!(record.count, Some(Err(ParseHashError::IntError(IntErrorKind::Empty))));
}
