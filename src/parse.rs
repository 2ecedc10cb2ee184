use data_encoding::{DecodePartial, HEXUPPER};
use vstd::prelude::*;

use crate::digest::{pad_digest, padded, HashPadded, Sha1Hash, SHA1_BYTE_LENGTH};

verus! {

/// Number of hex characters that encode one digest at the start of a database line.
pub const HEX_LENGTH: usize = 40;

/// The byte that separates the digest from the count (`:`).
pub const DELIMITER: u8 = 58;

/// The sign that may stand before the digits of a count (`+`).
pub const PLUS_SIGN: u8 = 43;

/// The ASCII digits `0` and `9`.
pub const DIGIT_ZERO: u8 = 48;
pub const DIGIT_NINE: u8 = 57;

/// Why a count could not be read as an unsigned 32-bit decimal number.
#[derive(Debug, Clone, Copy, PartialEq, Eq, Structural)]
pub enum IntErrorKind {
    /// The text is empty.
    Empty,
    /// A byte that is not a decimal digit comes before any overflow, or the text is a
    /// lone `+`.
    InvalidDigit,
    /// The digits read so far pass `u32::MAX` before any byte that is not a digit.
    PosOverflow,
}

/// An error met while reading a database line.
#[derive(Debug, Clone, Copy, PartialEq, Eq, Structural)]
pub enum ParseHashError {
    /// The count is not a decimal number that fits in 32 bits.
    IntError(IntErrorKind),
    /// The digest is not upper-case hex, or the count is not UTF-8.
    InvalidFormat(),
}

/// One database line, decoded: the digest in padded form, and its count once it was asked for.
#[derive(Debug)]
pub struct PwnedHash {
    pub hash_padded: HashPadded,
    /// Read only on demand; `None` until the count of the current line was asked for.
    pub count: Option<Result<u32, ParseHashError>>,
}

impl Default for PwnedHash {
    fn default() -> (r: PwnedHash)
        ensures
            r.hash_padded@ == Seq::new(32, |i: int| 0u8),
            r.count is None,
    {
        let r = PwnedHash { hash_padded: [0u8; 32], count: None };
        assert(r.hash_padded@ =~= Seq::new(32, |i: int| 0u8));
        r
    }
}

/// The value of an upper-case hex symbol, or -1 for any other byte.
pub open spec fn hex_digit_value(c: u8) -> int {
    if 48 <= c <= 57 {
        c - 48
    } else if 65 <= c <= 70 {
        c - 55
    } else {
        -1
    }
}

/// Every byte of `s` is one of `0`-`9`, `A`-`F`.
pub open spec fn is_upper_hex(s: Seq<u8>) -> bool {
    forall|i: int| 0 <= i < s.len() ==> hex_digit_value(#[trigger] s[i]) >= 0
}

/// The bytes that an upper-case hex text encodes, two symbols per byte, high nibble first.
pub open spec fn hex_decode(s: Seq<u8>) -> Seq<u8> {
    Seq::new(
        s.len() / 2,
        |i: int| (hex_digit_value(s[2 * i]) * 16 + hex_digit_value(s[2 * i + 1])) as u8,
    )
}

/// The line holds the delimiter right after the hex digest.
pub open spec fn has_delimiter(line: Seq<u8>) -> bool {
    line.len() > HEX_LENGTH && line[HEX_LENGTH as int] == DELIMITER
}

/// The digest that a database line holds, if its first forty bytes are upper-case hex
/// followed by the delimiter.
pub open spec fn line_digest(line: Seq<u8>) -> Option<Seq<u8>> {
    if has_delimiter(line) && is_upper_hex(line.take(HEX_LENGTH as int)) {
        Some(hex_decode(line.take(HEX_LENGTH as int)))
    } else {
        None
    }
}

pub open spec fn is_ascii(bytes: Seq<u8>) -> bool {
    forall|i: int| 0 <= i < bytes.len() ==> #[trigger] bytes[i] < 128
}

/// Whether a byte string is valid UTF-8, as `std::str::from_utf8` decides it.
pub uninterp spec fn is_utf8(bytes: Seq<u8>) -> bool;

pub open spec fn is_decimal_digit(c: u8) -> bool {
    48 <= c <= 57
}

/// Reads decimal digits from left to right, as `str::parse::<u32>` does after the sign:
/// the first byte that is not a digit gives `InvalidDigit`, and the first digit that takes
/// the value past `u32::MAX` gives `PosOverflow`, whichever comes first.
pub open spec fn digits_scan(d: Seq<u8>) -> Result<nat, IntErrorKind>
    decreases d.len(),
{
    if d.len() == 0 {
        Ok(0)
    } else {
        match digits_scan(d.drop_last()) {
            Err(e) => Err(e),
            Ok(v) => if !is_decimal_digit(d.last()) {
                Err(IntErrorKind::InvalidDigit)
            } else if v * 10 + (d.last() - 48) > u32::MAX {
                Err(IntErrorKind::PosOverflow)
            } else {
                Ok(v * 10 + (d.last() - 48) as nat)
            },
        }
    }
}

/// The text without one leading `+`, if it has one.
pub open spec fn unsigned_part(s: Seq<u8>) -> Seq<u8> {
    if s.len() > 0 && s[0] == 43u8 {
        s.skip(1)
    } else {
        s
    }
}

/// Reading a text as an unsigned 32-bit decimal number: an empty text is `Empty`, a lone
/// `+` is `InvalidDigit`, and otherwise the digits after an optional `+` are read from left
/// to right.
pub open spec fn decimal_result(s: Seq<u8>) -> Result<u32, ParseHashError> {
    let d = unsigned_part(s);
    if s.len() == 0 {
        Err(ParseHashError::IntError(IntErrorKind::Empty))
    } else if d.len() == 0 {
        Err(ParseHashError::IntError(IntErrorKind::InvalidDigit))
    } else {
        match digits_scan(d) {
            Ok(v) => Ok(v as u32),
            Err(k) => Err(ParseHashError::IntError(k)),
        }
    }
}

/// Whether the count bytes are read as text: valid UTF-8, which every ASCII string is.
pub open spec fn count_is_text(text: Seq<u8>) -> bool {
    is_ascii(text) || is_utf8(text)
}

/// The count of a database line: the bytes after the delimiter, which must be UTF-8 and
/// a decimal number.
pub open spec fn count_of(line: Seq<u8>) -> Result<u32, ParseHashError> {
    let text = line.skip(HEX_LENGTH + 1);
    if count_is_text(text) {
        decimal_result(text)
    } else {
        Err(ParseHashError::InvalidFormat())
    }
}

#[verifier::external_type_specification]
#[verifier::external_body]
pub struct ExDecodePartial(DecodePartial);

/// Relies on `data_encoding::HEXUPPER.decode_mut`: its table accepts exactly the symbols
/// `0`-`9` and `A`-`F`, and it writes each pair of symbols, high nibble first, as one byte.
#[verifier::external_body]
fn decode_hex_upper(text: &[u8]) -> (r: Result<Sha1Hash, DecodePartial>)
    requires
        text@.len() == HEX_LENGTH,
    ensures
        r is Ok <==> is_upper_hex(text@),
        r matches Ok(d) ==> d@ == hex_decode(text@),
{
    let mut out: Sha1Hash = [0u8; 20];
    match HEXUPPER.decode_mut(text, &mut out) {
        Ok(_) => Ok(out),
        Err(e) => Err(e),
    }
}

/// Relies on `std::str::from_utf8`: it accepts exactly the valid UTF-8 byte strings, and
/// every ASCII string is one.
#[verifier::external_body]
fn utf8_valid(bytes: &[u8]) -> (r: bool)
    ensures
        r == is_utf8(bytes@),
        is_ascii(bytes@) ==> r,
{
    std::str::from_utf8(bytes).is_ok()
}

/// Once the left-to-right reading of a prefix has failed, the whole text fails the same way.
proof fn lemma_digits_scan_error_stays(d: Seq<u8>, i: int)
    requires
        0 <= i <= d.len(),
        digits_scan(d.take(i)) is Err,
    ensures
        digits_scan(d) == digits_scan(d.take(i)),
    decreases d.len() - i,
{
    if i == d.len() {
        assert(d.take(i) =~= d);
    } else {
        assert(d.take(i + 1).drop_last() =~= d.take(i));
        lemma_digits_scan_error_stays(d, i + 1);
    }
}

/// Reads a text as an unsigned 32-bit decimal number: an optional `+` followed by at
/// least one decimal digit, read from left to right up to the first error.
pub fn parse_decimal(text: &[u8]) -> (r: Result<u32, ParseHashError>)
    ensures
        r == decimal_result(text@),
{
    let n = text.len();
    if n == 0 {
        return Err(ParseHashError::IntError(IntErrorKind::Empty));
    }
    let start: usize = if text[0] == PLUS_SIGN {
        1
    } else {
        0
    };
    let ghost d = unsigned_part(text@);
    assert(d =~= text@.subrange(start as int, n as int));
    if start == n {
        return Err(ParseHashError::IntError(IntErrorKind::InvalidDigit));
    }
    let mut value: u64 = 0;
    let mut i: usize = start;
    assert(d.take(0) =~= Seq::<u8>::empty());
    while i < n
        invariant
            n == text@.len(),
            start <= i <= n,
            start < n,
            d == unsigned_part(text@),
            d == text@.subrange(start as int, n as int),
            digits_scan(d.take(i - start)) == Ok::<nat, IntErrorKind>(value as nat),
            value <= u32::MAX,
        decreases n - i,
    {
        let c = text[i];
        let ghost k = i - start;
        assert(d.take(k + 1).drop_last() =~= d.take(k));
        assert(d.take(k + 1).last() == c);
        if c < DIGIT_ZERO || c > DIGIT_NINE {
            proof {
                lemma_digits_scan_error_stays(d, k + 1);
            }
            return Err(ParseHashError::IntError(IntErrorKind::InvalidDigit));
        }
        let next = value * 10 + (c - DIGIT_ZERO) as u64;
        if next > u32::MAX as u64 {
            proof {
                lemma_digits_scan_error_stays(d, k + 1);
            }
            return Err(ParseHashError::IntError(IntErrorKind::PosOverflow));
        }
        value = next;
        i = i + 1;
    }
    assert(d.take(n - start) =~= d);
    Ok(value as u32)
}

/// Reads the bytes after the delimiter as the count: they must be UTF-8, then a decimal number.
fn count_text(text: &[u8]) -> (r: Result<u32, ParseHashError>)
    ensures
        r == (if count_is_text(text@) {
            decimal_result(text@)
        } else {
            Err(ParseHashError::InvalidFormat())
        }),
{
    if utf8_valid(text) {
        parse_decimal(text)
    } else {
        Err(ParseHashError::InvalidFormat())
    }
}

impl PwnedHash {
    /// The digest without its padding.
    pub fn hash(&self) -> (r: &[u8])
        ensures
            r@ == self.hash_padded@.take(SHA1_BYTE_LENGTH as int),
    {
        &self.hash_padded[0..SHA1_BYTE_LENGTH]
    }

    /// Decodes the digest of a new line into the padded buffer and forgets the count of the
    /// previous one. A digest that is not upper-case hex leaves the record as it was.
    pub fn parse_new_hash(&mut self, line: &[u8]) -> (r: Result<(), ParseHashError>)
        requires
            has_delimiter(line@),
        ensures
            r is Ok <==> line_digest(line@) is Some,
            r is Ok ==> final(self).hash_padded@ == padded(line_digest(line@)->0),
            r is Ok ==> final(self).count is None,
            r is Err ==> r == Err::<(), ParseHashError>(ParseHashError::InvalidFormat()),
            r is Err ==> *final(self) == *old(self),
    {
        let hash_part = &line[0..HEX_LENGTH];
        assert(hash_part@ == line@.take(HEX_LENGTH as int));
        match decode_hex_upper(hash_part) {
            Err(_) => Err(ParseHashError::InvalidFormat()),
            Ok(d) => {
                self.hash_padded = pad_digest(&d);
                self.count = None;
                Ok(())
            },
        }
    }

    /// The count of the current line. It is read from the bytes after the delimiter the
    /// first time it is asked for, and handed back from then on until the next
    /// `parse_new_hash`.
    pub fn parse_count(&mut self, line: &[u8]) -> (r: Result<u32, ParseHashError>)
        requires
            line@.len() > HEX_LENGTH,
        ensures
            old(self).count matches Some(c) ==> r == c,
            old(self).count is None ==> r == count_of(line@),
            final(self).count == Some(r),
            final(self).hash_padded == old(self).hash_padded,
    {
        match self.count {
            Some(c) => c,
            None => {
                let res = count_text(&line[HEX_LENGTH + 1..line.len()]);
                self.count = Some(res);
                res
            },
        }
    }

    /// Reads a whole line: its digest, then its count.
    pub fn try_from(line: &[u8]) -> (r: Result<PwnedHash, ParseHashError>)
        requires
            has_delimiter(line@),
        ensures
            line_digest(line@) is None ==> r == Err::<PwnedHash, ParseHashError>(
                ParseHashError::InvalidFormat(),
            ),
            line_digest(line@) matches Some(d) ==> r matches Ok(p) && p.hash_padded@ == padded(d)
                && p.count == Some(count_of(line@)),
    {
        let mut record = PwnedHash::default();
        match record.parse_new_hash(line) {
            Err(e) => Err(e),
            Ok(()) => {
                record.parse_count(line);
                Ok(record)
            },
        }
    }
}

} // verus!
