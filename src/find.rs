use core::cmp::Ordering;
use vstd::prelude::*;

use crate::collect::{digests_sorted, saved_digests, SavedHash};
use crate::digest::{
    compare_padded, lemma_lex_equal, lemma_lex_flip, lemma_lex_trans, lemma_padding_neutral,
    lex_cmp, lex_le, lex_lt, pad_digest, padded, HashPadded, SHA1_BYTE_LENGTH,
};
use crate::parse::{count_of, line_digest, ParseHashError, PwnedHash, DELIMITER, HEX_LENGTH};

verus! {

/// A stored credential whose digest stands in the database.
#[derive(Debug, Clone, Copy)]
pub struct MatchEvent {
    /// Position of the credential in the sorted stored sequence.
    pub saved: usize,
    /// The count of the matching line, or why it could not be read; the match stands
    /// either way.
    pub count: Result<u32, ParseHashError>,
}

/// What a whole scan found.
#[derive(Debug)]
pub struct ScanReport {
    /// The matches, in the order of the database lines.
    pub events: Vec<MatchEvent>,
    /// How many lines were read, the malformed one that stopped the scan included.
    pub lines_read: usize,
    /// Why the scan stopped early, if a line was malformed.
    pub error: Option<ParseHashError>,
}

/// The outcome of a scan, as positions: pairs (stored position, line position) for the
/// matches, the number of lines read, the candidate it ended on, and whether a malformed
/// line stopped it.
pub struct ScanOutcome {
    pub events: Seq<(int, int)>,
    pub lines_read: int,
    pub next: int,
    pub failed: bool,
}

/// One database line's turn of the merge-join, for a line with digest `d` and the stored
/// digests `s`, starting at candidate `c`. Stored digests equal to `d` are reported and
/// passed, those below `d` are passed, and the first one above `d` stays the candidate.
/// Gives the new candidate and the reported positions.
pub open spec fn advance(s: Seq<Seq<u8>>, c: int, d: Seq<u8>) -> (int, Seq<int>)
    decreases s.len() - c,
{
    if c < 0 || c >= s.len() {
        (c, Seq::empty())
    } else if lex_cmp(d, s[c]) == Ordering::Less {
        (c, Seq::empty())
    } else {
        let rest = advance(s, c + 1, d);
        if lex_cmp(d, s[c]) == Ordering::Equal {
            (rest.0, seq![c] + rest.1)
        } else {
            rest
        }
    }
}

/// A turn never moves the candidate back, nor past the end.
proof fn lemma_advance_bounds(s: Seq<Seq<u8>>, c: int, d: Seq<u8>)
    requires
        0 <= c,
    ensures
        c <= advance(s, c, d).0,
        c <= s.len() ==> advance(s, c, d).0 <= s.len(),
    decreases s.len() - c,
{
    if c < s.len() {
        lemma_advance_bounds(s, c + 1, d);
    }
}

/// The positions that a turn reports lie between the old and the new candidate.
proof fn lemma_advance_found_in_range(s: Seq<Seq<u8>>, c: int, d: Seq<u8>)
    requires
        0 <= c,
    ensures
        forall|k: int|
            0 <= k < advance(s, c, d).1.len() ==> c <= #[trigger] advance(s, c, d).1[k] < advance(
                s,
                c,
                d,
            ).0,
    decreases s.len() - c,
{
    if c < s.len() {
        lemma_advance_found_in_range(s, c + 1, d);
        lemma_advance_bounds(s, c + 1, d);
        let step = advance(s, c, d);
        let rest = advance(s, c + 1, d);
        if lex_cmp(d, s[c]) == Ordering::Equal {
            assert forall|k: int| 0 <= k < step.1.len() implies c <= #[trigger] step.1[k]
                < step.0 by {
                if k > 0 {
                    assert(step.1[k] == rest.1[k - 1]);
                }
            }
        }
    }
}

/// The merge-join from line `j` on, with candidate `c`. It stops when the lines or the
/// stored digests run out, or at the first malformed line.
pub open spec fn scan_from(s: Seq<Seq<u8>>, lines: Seq<Seq<u8>>, c: int, j: int) -> ScanOutcome
    decreases lines.len() - j,
{
    if j < 0 || j >= lines.len() || c < 0 || c >= s.len() {
        ScanOutcome { events: Seq::empty(), lines_read: j, next: c, failed: false }
    } else {
        match line_digest(lines[j]) {
            None => ScanOutcome { events: Seq::empty(), lines_read: j + 1, next: c, failed: true },
            Some(d) => {
                let step = advance(s, c, d);
                let rest = scan_from(s, lines, step.0, j + 1);
                ScanOutcome {
                    events: step.1.map_values(|i: int| (i, j)) + rest.events,
                    lines_read: rest.lines_read,
                    next: rest.next,
                    failed: rest.failed,
                }
            },
        }
    }
}

/// The merge-join of the stored digests `s` against the database lines.
pub open spec fn scan(s: Seq<Seq<u8>>, lines: Seq<Seq<u8>>) -> ScanOutcome {
    scan_from(s, lines, 0, 0)
}

/// Stored position `i` and line position `j` hold the same digest.
pub open spec fn matches_at(saved: Seq<SavedHash>, lines: Seq<Seq<u8>>, i: int, j: int) -> bool {
    &&& 0 <= i < saved.len()
    &&& 0 <= j < lines.len()
    &&& line_digest(lines[j]) == Some(saved[i].password_hash@)
}

/// Every line is well formed, and the digests strictly ascend from line to line.
pub open spec fn lines_strictly_sorted(lines: Seq<Seq<u8>>) -> bool {
    &&& forall|j: int| 0 <= j < lines.len() ==> (#[trigger] line_digest(lines[j])) is Some
    &&& forall|j1: int, j2: int|
        0 <= j1 < j2 < lines.len() ==> lex_lt(
            line_digest(lines[j1])->0,
            line_digest(lines[j2])->0,
        )
}

/// The merge-join over database lines that arrive one at a time. The stored credentials,
/// sorted by digest, are handed to each call; the matcher keeps the position of the
/// current candidate among them and one reusable decoded line.
pub struct HashMatcher {
    next: usize,
    record: PwnedHash,
}

impl HashMatcher {
    /// Position of the current candidate among the stored credentials.
    pub closed spec fn candidate(&self) -> int {
        self.next as int
    }

    /// A matcher whose candidate is the first stored credential.
    pub fn new() -> (r: HashMatcher)
        ensures
            r.candidate() == 0,
    {
        HashMatcher { next: 0, record: PwnedHash::default() }
    }

    /// Every stored credential has been passed: no further line can match.
    pub fn is_done(&self, saved: &[SavedHash]) -> (r: bool)
        ensures
            r == (self.candidate() >= saved@.len()),
    {
        self.next >= saved.len()
    }

    /// Takes one database line: reports the stored credentials whose digest it holds,
    /// with its count, and moves the candidate on. A line without an upper-case hex
    /// digest and the delimiter is refused. Once every stored credential has been
    /// passed, lines are ignored.
    pub fn match_line(&mut self, saved: &[SavedHash], line: &[u8]) -> (r: Result<
        Vec<MatchEvent>,
        ParseHashError,
    >)
        ensures
            old(self).candidate() >= saved@.len() ==> r is Ok && r->Ok_0@.len() == 0
                && final(self).candidate() == old(self).candidate(),
            old(self).candidate() < saved@.len() && line_digest(line@) is None ==> r
                == Err::<Vec<MatchEvent>, ParseHashError>(ParseHashError::InvalidFormat())
                && final(self).candidate() == old(self).candidate(),
            old(self).candidate() < saved@.len() && line_digest(line@) is Some ==> {
                let step = advance(
                    saved_digests(saved@),
                    old(self).candidate(),
                    line_digest(line@)->0,
                );
                &&& r is Ok
                &&& final(self).candidate() == step.0
                &&& r->Ok_0@.len() == step.1.len()
                &&& forall|k: int|
                    0 <= k < step.1.len() ==> (#[trigger] r->Ok_0@[k]).saved == step.1[k]
                        && r->Ok_0@[k].count == count_of(line@)
            },
    {
        if self.next >= saved.len() {
            return Ok(Vec::new());
        }
        if line.len() <= HEX_LENGTH || line[HEX_LENGTH] != DELIMITER {
            return Err(ParseHashError::InvalidFormat());
        }
        if let Err(e) = self.record.parse_new_hash(line) {
            return Err(e);
        }
        let ghost s = saved_digests(saved@);
        assert(s.len() == saved@.len());
        let ghost d = line_digest(line@)->0;
        let ghost c0 = self.next as int;
        let ghost mut found_idx: Seq<int> = Seq::empty();
        let candidate: HashPadded = self.record.hash_padded;
        let mut next: usize = self.next;
        let mut found: Vec<MatchEvent> = Vec::new();
        assert(d.len() == SHA1_BYTE_LENGTH);
        loop
            invariant_except_break
                next < saved@.len(),
            invariant
                c0 <= next <= saved@.len(),
                s == saved_digests(saved@),
                s.len() == saved@.len(),
                line_digest(line@) == Some(d),
                d.len() == SHA1_BYTE_LENGTH,
                line@.len() > HEX_LENGTH,
                candidate@ == padded(d),
                self.record.count is None || self.record.count == Some(count_of(line@)),
                advance(s, c0, d) == (
                    advance(s, next as int, d).0,
                    found_idx + advance(s, next as int, d).1,
                ),
                found@.len() == found_idx.len(),
                forall|k: int|
                    0 <= k < found_idx.len() ==> (#[trigger] found@[k]).saved == found_idx[k]
                        && found@[k].count == count_of(line@),
            ensures
                advance(s, c0, d) == (next as int, found_idx),
                found@.len() == found_idx.len(),
                forall|k: int|
                    0 <= k < found_idx.len() ==> (#[trigger] found@[k]).saved == found_idx[k]
                        && found@[k].count == count_of(line@),
            decreases saved@.len() - next,
        {
            let current = pad_digest(&saved[next].password_hash);
            proof {
                assert(s[next as int] == saved@[next as int].password_hash@);
                lemma_padding_neutral(d, s[next as int]);
            }
            match compare_padded(&candidate, &current) {
                Ordering::Equal => {
                    let count = self.record.parse_count(line);
                    found.push(MatchEvent { saved: next, count });
                    proof {
                        let rest = advance(s, next + 1, d);
                        assert(found_idx + (seq![next as int] + rest.1) =~= found_idx.push(
                            next as int,
                        ) + rest.1);
                        found_idx = found_idx.push(next as int);
                    }
                    next = next + 1;
                    if next >= saved.len() {
                        assert(advance(s, next as int, d) == (next as int, Seq::<int>::empty()));
                        assert(found_idx + Seq::<int>::empty() =~= found_idx);
                        break ;
                    }
                },
                Ordering::Less => {
                    assert(advance(s, next as int, d) == (next as int, Seq::<int>::empty()));
                    assert(found_idx + Seq::<int>::empty() =~= found_idx);
                    break ;
                },
                Ordering::Greater => {
                    assert(advance(s, next as int, d) == advance(s, next + 1, d));
                    next = next + 1;
                    if next >= saved.len() {
                        assert(advance(s, next as int, d) == (next as int, Seq::<int>::empty()));
                        assert(found_idx + Seq::<int>::empty() =~= found_idx);
                        break ;
                    }
                },
            }
        }
        self.next = next;
        Ok(found)
    }
}

/// The bytes of each line.
pub open spec fn line_views(lines: Seq<Vec<u8>>) -> Seq<Seq<u8>> {
    lines.map_values(|l: Vec<u8>| l@)
}

/// Runs the merge-join of the stored credentials, sorted by digest, against the database
/// lines, which must be sorted by digest too for the result to be complete. Stops when
/// either runs out, or at the first malformed line. With no stored credential, no line
/// is read.
pub fn scan_lines(saved: &[SavedHash], lines: &[Vec<u8>]) -> (r: ScanReport)
    ensures
        ({
            let m = scan(saved_digests(saved@), line_views(lines@));
            &&& r.lines_read == m.lines_read
            &&& (r.error is Some <==> m.failed)
            &&& (r.error is Some ==> r.error == Some(ParseHashError::InvalidFormat()))
            &&& r.events@.len() == m.events.len()
            &&& forall|k: int|
                0 <= k < m.events.len() ==> {
                    &&& 0 <= m.events[k].0 < saved@.len()
                    &&& 0 <= m.events[k].1 < lines@.len()
                    &&& (#[trigger] r.events@[k]).saved == m.events[k].0
                    &&& r.events@[k].count == count_of(lines@[m.events[k].1]@)
                }
        }),
{
    let ghost s = saved_digests(saved@);
    let ghost ls = line_views(lines@);
    assert(s.len() == saved@.len());
    let ghost total = scan(s, ls);
    proof {
        lemma_scan_events_in_range(s, ls, 0, 0);
    }
    let ghost mut done: Seq<(int, int)> = Seq::empty();
    let mut matcher = HashMatcher::new();
    let mut events: Vec<MatchEvent> = Vec::new();
    let mut j: usize = 0;
    while j < lines.len() && !matcher.is_done(saved)
        invariant
            0 <= j <= lines@.len(),
            0 <= matcher.candidate() <= saved@.len(),
            s == saved_digests(saved@),
            s.len() == saved@.len(),
            ls == line_views(lines@),
            ls.len() == lines@.len(),
            total == scan(s, ls),
            total.events == done + scan_from(s, ls, matcher.candidate(), j as int).events,
            total.lines_read == scan_from(s, ls, matcher.candidate(), j as int).lines_read,
            total.failed == scan_from(s, ls, matcher.candidate(), j as int).failed,
            events@.len() == done.len(),
            forall|k: int|
                0 <= k < total.events.len() ==> {
                    let p = #[trigger] total.events[k];
                    0 <= p.0 < saved@.len() && 0 <= p.1 < lines@.len()
                },
            forall|k: int|
                0 <= k < done.len() ==> {
                    &&& 0 <= done[k].1 < lines@.len()
                    &&& (#[trigger] events@[k]).saved == done[k].0
                    &&& events@[k].count == count_of(lines@[done[k].1]@)
                },
        decreases lines@.len() - j,
    {
        let ghost c = matcher.candidate();
        let line = lines[j].as_slice();
        assert(ls[j as int] == line@);
        match matcher.match_line(saved, line) {
            Err(e) => {
                return ScanReport { events, lines_read: j + 1, error: Some(e) };
            },
            Ok(mut found) => {
                let ghost step = advance(s, c, line_digest(line@)->0);
                let ghost old_len = events@.len();
                let ghost found_v = found@;
                let ghost rest = scan_from(s, ls, step.0, j + 1);
                proof {
                    lemma_advance_bounds(s, c, line_digest(line@)->0);
                }
                events.append(&mut found);
                proof {
                    let new_pairs = step.1.map_values(|i: int| (i, j as int));
                    assert(total.events == (done + new_pairs) + rest.events);
                    assert forall|k: int| 0 <= k < done.len() + new_pairs.len() implies {
                        &&& 0 <= (done + new_pairs)[k].1 < lines@.len()
                        &&& (#[trigger] events@[k]).saved == (done + new_pairs)[k].0
                        &&& events@[k].count == count_of(lines@[(done + new_pairs)[k].1]@)
                    } by {
                        if k >= done.len() {
                            assert(events@[k] == found_v[k - old_len]);
                        }
                    }
                    done = done + new_pairs;
                }
                j = j + 1;
            },
        }
    }
    ScanReport { events, lines_read: j, error: None }
}

/// Within one turn, on sorted stored digests: the candidate only moves forward, every
/// digest passed lies at or below `d`, the new candidate lies above `d`, and the reported
/// positions are exactly those from `c` on whose digest is `d`, in ascending order.
proof fn lemma_advance_sorted(s: Seq<Seq<u8>>, c: int, d: Seq<u8>)
    requires
        digests_sorted(s),
        forall|i: int| 0 <= i < s.len() ==> (#[trigger] s[i]).len() == SHA1_BYTE_LENGTH,
        d.len() == SHA1_BYTE_LENGTH,
        0 <= c <= s.len(),
    ensures
        c <= advance(s, c, d).0 <= s.len(),
        forall|i: int| c <= i < advance(s, c, d).0 ==> lex_le(#[trigger] s[i], d),
        advance(s, c, d).0 < s.len() ==> lex_lt(d, s[advance(s, c, d).0]),
        forall|k: int|
            0 <= k < advance(s, c, d).1.len() ==> c <= #[trigger] advance(s, c, d).1[k] < advance(
                s,
                c,
                d,
            ).0 && s[advance(s, c, d).1[k]] == d,
        forall|i: int|
            c <= i < s.len() && s[i] == d ==> exists|k: int|
                0 <= k < advance(s, c, d).1.len() && #[trigger] advance(s, c, d).1[k] == i,
        forall|k1: int, k2: int|
            0 <= k1 < k2 < advance(s, c, d).1.len() ==> advance(s, c, d).1[k1] < advance(
                s,
                c,
                d,
            ).1[k2],
    decreases s.len() - c,
{
    if c < s.len() {
        let step = advance(s, c, d);
        lemma_lex_flip(d, s[c]);
        lemma_lex_equal(d, s[c]);
        if lex_cmp(d, s[c]) == Ordering::Less {
            assert forall|i: int| c <= i < s.len() && s[i] == d implies exists|k: int|
                0 <= k < step.1.len() && #[trigger] step.1[k] == i by {
                if i > c {
                    assert(lex_le(s[c], s[i]));
                    lemma_lex_trans(d, s[c], s[i]);
                    lemma_lex_equal(d, s[i]);
                }
            }
        } else {
            lemma_advance_sorted(s, c + 1, d);
            let rest = advance(s, c + 1, d);
            assert forall|i: int| c <= i < step.0 implies lex_le(#[trigger] s[i], d) by {
                if i > c {
                    assert(lex_le(s[i], d));
                }
            }
            if lex_cmp(d, s[c]) == Ordering::Equal {
                assert(step.1 == seq![c] + rest.1);
                assert forall|i: int| c <= i < s.len() && s[i] == d implies exists|k: int|
                    0 <= k < step.1.len() && #[trigger] step.1[k] == i by {
                    if i == c {
                        assert(step.1[0] == c);
                    } else {
                        let k0 = choose|k: int| 0 <= k < rest.1.len() && #[trigger] rest.1[k] == i;
                        assert(step.1[k0 + 1] == i);
                    }
                }
                assert forall|k: int| 0 <= k < step.1.len() implies c <= #[trigger] step.1[k]
                    < step.0 && s[step.1[k]] == d by {
                    if k > 0 {
                        assert(step.1[k] == rest.1[k - 1]);
                    }
                }
                assert forall|k1: int, k2: int| 0 <= k1 < k2 < step.1.len() implies step.1[k1]
                    < step.1[k2] by {
                    assert(step.1[k2] == rest.1[k2 - 1]);
                    if k1 > 0 {
                        assert(step.1[k1] == rest.1[k1 - 1]);
                    }
                }
            }
        }
    }
}

/// The reads of a scan from line `j` on stay within the lines.
proof fn lemma_scan_lines_read(s: Seq<Seq<u8>>, lines: Seq<Seq<u8>>, c: int, j: int)
    requires
        0 <= c,
        0 <= j <= lines.len(),
    ensures
        j <= scan_from(s, lines, c, j).lines_read <= lines.len(),
    decreases lines.len() - j,
{
    if j < lines.len() && c < s.len() {
        if let Some(d) = line_digest(lines[j]) {
            lemma_advance_bounds(s, c, d);
            lemma_scan_lines_read(s, lines, advance(s, c, d).0, j + 1);
        }
    }
}

/// Every event of a scan from candidate `c` and line `j` on names a stored position from
/// `c` on and a line from `j` on.
proof fn lemma_scan_events_in_range(s: Seq<Seq<u8>>, lines: Seq<Seq<u8>>, c: int, j: int)
    requires
        0 <= c,
        0 <= j,
    ensures
        forall|k: int|
            0 <= k < scan_from(s, lines, c, j).events.len() ==> {
                let p = #[trigger] scan_from(s, lines, c, j).events[k];
                c <= p.0 < s.len() && j <= p.1 < lines.len()
            },
    decreases lines.len() - j,
{
    if j < lines.len() && c < s.len() {
        if let Some(d) = line_digest(lines[j]) {
            let step = advance(s, c, d);
            lemma_advance_bounds(s, c, d);
            lemma_advance_found_in_range(s, c, d);
            lemma_scan_events_in_range(s, lines, step.0, j + 1);
            let rest = scan_from(s, lines, step.0, j + 1);
            let pairs = step.1.map_values(|i: int| (i, j));
            let r = scan_from(s, lines, c, j);
            assert(r.events == pairs + rest.events);
            assert forall|k: int| 0 <= k < r.events.len() implies {
                let p = #[trigger] r.events[k];
                c <= p.0 < s.len() && j <= p.1 < lines.len()
            } by {
                if k < pairs.len() {
                    assert(r.events[k] == (step.1[k], j));
                } else {
                    assert(r.events[k] == rest.events[k - pairs.len()]);
                }
            }
        }
    }
}

proof fn lemma_scan_exact_from(saved: Seq<SavedHash>, lines: Seq<Seq<u8>>, c: int, j: int)
    requires
        digests_sorted(saved_digests(saved)),
        lines_strictly_sorted(lines),
        0 <= c <= saved.len(),
        0 <= j <= lines.len(),
    ensures
        !scan_from(saved_digests(saved), lines, c, j).failed,
        forall|k: int|
            0 <= k < scan_from(saved_digests(saved), lines, c, j).events.len() ==> {
                let p = #[trigger] scan_from(saved_digests(saved), lines, c, j).events[k];
                c <= p.0 && j <= p.1 && matches_at(saved, lines, p.0, p.1)
            },
        forall|i: int, jj: int|
            c <= i && j <= jj && matches_at(saved, lines, i, jj) ==> exists|k: int|
                0 <= k < scan_from(saved_digests(saved), lines, c, j).events.len()
                    && #[trigger] scan_from(saved_digests(saved), lines, c, j).events[k] == (
                    i,
                    jj,
                ),
        scan_from(saved_digests(saved), lines, c, j).events.no_duplicates(),
    decreases lines.len() - j,
{
    let s = saved_digests(saved);
    assert(s.len() == saved.len());
    assert forall|i: int| 0 <= i < s.len() implies (#[trigger] s[i]).len() == SHA1_BYTE_LENGTH by {
        assert(s[i] == saved[i].password_hash@);
    }
    let r = scan_from(s, lines, c, j);
    if j < lines.len() && c < s.len() {
        assert(line_digest(lines[j]) is Some);
        let d = line_digest(lines[j])->0;
        lemma_advance_sorted(s, c, d);
        let step = advance(s, c, d);
        lemma_scan_exact_from(saved, lines, step.0, j + 1);
        let rest = scan_from(s, lines, step.0, j + 1);
        let pairs = step.1.map_values(|i: int| (i, j));
        assert(r.events == pairs + rest.events);
        assert forall|k: int| 0 <= k < r.events.len() implies {
            let p = #[trigger] r.events[k];
            c <= p.0 && j <= p.1 && matches_at(saved, lines, p.0, p.1)
        } by {
            if k < pairs.len() {
                assert(r.events[k] == (step.1[k], j));
                assert(s[step.1[k]] == saved[step.1[k]].password_hash@);
            } else {
                assert(r.events[k] == rest.events[k - pairs.len()]);
            }
        }
        assert forall|i: int, jj: int| c <= i && j <= jj && matches_at(saved, lines, i, jj) implies exists|k: int|
            0 <= k < r.events.len() && #[trigger] r.events[k] == (i, jj) by {
            assert(s[i] == saved[i].password_hash@);
            if jj == j {
                let k0 = choose|k: int| 0 <= k < step.1.len() && #[trigger] step.1[k] == i;
                assert(r.events[k0] == (i, jj));
            } else {
                if i < step.0 {
                    assert(lex_le(s[i], d));
                    assert(lex_lt(d, line_digest(lines[jj])->0));
                    lemma_lex_trans(s[i], d, line_digest(lines[jj])->0);
                    lemma_lex_equal(s[i], line_digest(lines[jj])->0);
                }
                let k1 = choose|k: int| 0 <= k < rest.events.len() && #[trigger] rest.events[k] == (i, jj);
                assert(r.events[pairs.len() + k1] == (i, jj));
            }
        }
        assert forall|k1: int, k2: int| 0 <= k1 < r.events.len() && 0 <= k2 < r.events.len() && k1 != k2 implies r.events[k1] != r.events[k2] by {
            if k1 < pairs.len() && k2 < pairs.len() {
                if k1 < k2 {
                    assert(step.1[k1] < step.1[k2]);
                } else {
                    assert(step.1[k2] < step.1[k1]);
                }
            } else if k1 >= pairs.len() && k2 >= pairs.len() {
                assert(r.events[k1] == rest.events[k1 - pairs.len()]);
                assert(r.events[k2] == rest.events[k2 - pairs.len()]);
            } else if k1 < pairs.len() {
                assert(r.events[k2] == rest.events[k2 - pairs.len()]);
            } else {
                assert(r.events[k1] == rest.events[k1 - pairs.len()]);
            }
        }
    }
}

/// Merge-join correctness: for stored credentials sorted by digest, and a database whose
/// lines are all well formed with strictly ascending digests, the scan never fails and
/// reports exactly the pairs (stored position, line position) that hold the same digest,
/// each pair once; stored credentials that share a digest are each reported.
pub proof fn lemma_scan_reports_exact_matches(saved: Seq<SavedHash>, lines: Seq<Seq<u8>>)
    requires
        digests_sorted(saved_digests(saved)),
        lines_strictly_sorted(lines),
    ensures
        !scan(saved_digests(saved), lines).failed,
        forall|k: int|
            0 <= k < scan(saved_digests(saved), lines).events.len() ==> {
                let p = #[trigger] scan(saved_digests(saved), lines).events[k];
                matches_at(saved, lines, p.0, p.1)
            },
        forall|i: int, j: int|
            matches_at(saved, lines, i, j) ==> exists|k: int|
                0 <= k < scan(saved_digests(saved), lines).events.len()
                    && #[trigger] scan(saved_digests(saved), lines).events[k] == (i, j),
        scan(saved_digests(saved), lines).events.no_duplicates(),
{
    lemma_scan_exact_from(saved, lines, 0, 0);
    let r = scan(saved_digests(saved), lines);
    assert forall|i: int, j: int| matches_at(saved, lines, i, j) implies exists|k: int|
        0 <= k < r.events.len() && #[trigger] r.events[k] == (i, j) by {
        assert(0 <= i && 0 <= j && matches_at(saved, lines, i, j));
    }
}

proof fn lemma_scan_from_ignores_tail(
    s: Seq<Seq<u8>>,
    lines: Seq<Seq<u8>>,
    more: Seq<Seq<u8>>,
    c: int,
    j: int,
)
    requires
        0 <= c,
        0 <= j <= lines.len(),
        scan_from(s, lines, c, j).next >= s.len(),
    ensures
        scan_from(s, lines + more, c, j) == scan_from(s, lines, c, j),
    decreases lines.len() - j,
{
    if j < lines.len() && c < s.len() {
        assert((lines + more)[j] == lines[j]);
        if let Some(d) = line_digest(lines[j]) {
            lemma_advance_bounds(s, c, d);
            lemma_scan_from_ignores_tail(s, lines, more, advance(s, c, d).0, j + 1);
        }
    }
}

/// Early termination: once the scan has passed every stored credential, it reads no
/// further line. Whatever follows in the database, a malformed line included, changes
/// nothing, and the lines read are among the given ones.
pub proof fn lemma_scan_stops_when_saved_exhausted(
    saved: Seq<SavedHash>,
    lines: Seq<Seq<u8>>,
    more: Seq<Seq<u8>>,
)
    requires
        scan(saved_digests(saved), lines).next >= saved.len(),
    ensures
        scan(saved_digests(saved), lines + more) == scan(saved_digests(saved), lines),
        scan(saved_digests(saved), lines + more).lines_read <= lines.len(),
{
    lemma_scan_from_ignores_tail(saved_digests(saved), lines, more, 0, 0);
    lemma_scan_lines_read(saved_digests(saved), lines, 0, 0);
}

} // verus!
