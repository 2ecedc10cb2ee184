use core::cmp::Ordering;
use vstd::prelude::*;

verus! {

/// Length in bytes of a SHA-1 digest.
pub const SHA1_BYTE_LENGTH: usize = 20;

/// Width in bytes of the comparison unit that a digest is padded to.
pub const SIMD_WIDTH: usize = 32;

/// A SHA-1 digest.
pub type Sha1Hash = [u8; 20];

/// A SHA-1 digest, left-aligned in a zero-filled buffer of the comparison width.
pub type HashPadded = [u8; 32];

/// Byte-lexicographic comparison of `a` and `b`, looking at positions `i` and later only.
pub open spec fn cmp_from(a: Seq<u8>, b: Seq<u8>, i: int) -> Ordering
    decreases a.len() - i,
{
    if i < 0 || i >= a.len() || i >= b.len() {
        if a.len() == b.len() {
            Ordering::Equal
        } else if a.len() < b.len() {
            Ordering::Less
        } else {
            Ordering::Greater
        }
    } else if a[i] < b[i] {
        Ordering::Less
    } else if a[i] > b[i] {
        Ordering::Greater
    } else {
        cmp_from(a, b, i + 1)
    }
}

/// Byte-lexicographic order, byte 0 most significant; a proper prefix comes first.
pub open spec fn lex_cmp(a: Seq<u8>, b: Seq<u8>) -> Ordering {
    cmp_from(a, b, 0)
}

/// `a` comes no later than `b`.
pub open spec fn lex_le(a: Seq<u8>, b: Seq<u8>) -> bool {
    lex_cmp(a, b) != Ordering::Greater
}

/// `a` comes strictly before `b`.
pub open spec fn lex_lt(a: Seq<u8>, b: Seq<u8>) -> bool {
    lex_cmp(a, b) == Ordering::Less
}

/// The zero-padded form of a digest: the digest followed by zero bytes up to the
/// comparison width.
pub open spec fn padded(d: Seq<u8>) -> Seq<u8> {
    d + Seq::new((SIMD_WIDTH - SHA1_BYTE_LENGTH) as nat, |i: int| 0u8)
}

/// Copies a digest into the first bytes of a zero-filled buffer of the comparison width.
pub fn pad_digest(d: &Sha1Hash) -> (r: HashPadded)
    ensures
        r@ == padded(d@),
{
    let mut r: HashPadded = [0u8; 32];
    let mut i: usize = 0;
    while i < SHA1_BYTE_LENGTH
        invariant
            0 <= i <= SHA1_BYTE_LENGTH,
            forall|k: int| 0 <= k < i ==> r@[k] == d@[k],
            forall|k: int| SHA1_BYTE_LENGTH <= k < SIMD_WIDTH ==> r@[k] == 0u8,
        decreases SHA1_BYTE_LENGTH - i,
    {
        r[i] = d[i];
        i = i + 1;
    }
    assert(r@ =~= padded(d@));
    r
}

/// Compares two byte strings of one length, most significant byte first.
pub fn compare_bytes(a: &[u8], b: &[u8]) -> (r: Ordering)
    requires
        a@.len() == b@.len(),
    ensures
        r == lex_cmp(a@, b@),
{
    let n = a.len();
    let mut i: usize = 0;
    while i < n
        invariant
            0 <= i <= n,
            a@.len() == n,
            b@.len() == n,
            cmp_from(a@, b@, 0) == cmp_from(a@, b@, i as int),
        decreases n - i,
    {
        if a[i] < b[i] {
            return Ordering::Less;
        }
        if a[i] > b[i] {
            return Ordering::Greater;
        }
        i = i + 1;
    }
    Ordering::Equal
}

/// Compares two padded digests over the whole comparison width.
pub fn compare_padded(a: &HashPadded, b: &HashPadded) -> (r: Ordering)
    ensures
        r == lex_cmp(a@, b@),
{
    compare_bytes(a.as_slice(), b.as_slice())
}

/// Two sequences that agree from position `i` on compare equal from there.
proof fn lemma_cmp_from_same_tail(a: Seq<u8>, b: Seq<u8>, i: int)
    requires
        0 <= i <= a.len(),
        a.len() == b.len(),
        forall|k: int| i <= k < a.len() ==> a[k] == b[k],
    ensures
        cmp_from(a, b, i) == Ordering::Equal,
    decreases a.len() - i,
{
    if i < a.len() {
        lemma_cmp_from_same_tail(a, b, i + 1);
    }
}

proof fn lemma_padding_from(a: Seq<u8>, b: Seq<u8>, i: int)
    requires
        a.len() == SHA1_BYTE_LENGTH,
        b.len() == SHA1_BYTE_LENGTH,
        0 <= i <= SHA1_BYTE_LENGTH,
    ensures
        cmp_from(padded(a), padded(b), i) == cmp_from(a, b, i),
    decreases SHA1_BYTE_LENGTH - i,
{
    if i < SHA1_BYTE_LENGTH {
        lemma_padding_from(a, b, i + 1);
    } else {
        lemma_cmp_from_same_tail(padded(a), padded(b), i);
    }
}

/// Padding neutrality: comparing the zero-padded forms of two digests gives the same
/// order, and the same equality, as comparing the digests themselves.
pub proof fn lemma_padding_neutral(a: Seq<u8>, b: Seq<u8>)
    requires
        a.len() == SHA1_BYTE_LENGTH,
        b.len() == SHA1_BYTE_LENGTH,
    ensures
        lex_cmp(padded(a), padded(b)) == lex_cmp(a, b),
        padded(a) == padded(b) <==> a == b,
{
    lemma_padding_from(a, b, 0);
    if padded(a) == padded(b) {
        assert(a =~= padded(a).take(SHA1_BYTE_LENGTH as int));
        assert(b =~= padded(b).take(SHA1_BYTE_LENGTH as int));
    }
}

proof fn lemma_cmp_from_equal(a: Seq<u8>, b: Seq<u8>, i: int)
    requires
        a.len() == b.len(),
        0 <= i <= a.len(),
        cmp_from(a, b, i) == Ordering::Equal,
    ensures
        forall|k: int| i <= k < a.len() ==> a[k] == b[k],
    decreases a.len() - i,
{
    if i < a.len() {
        lemma_cmp_from_equal(a, b, i + 1);
    }
}

proof fn lemma_cmp_from_flip(a: Seq<u8>, b: Seq<u8>, i: int)
    requires
        a.len() == b.len(),
        0 <= i <= a.len(),
    ensures
        cmp_from(a, b, i) == Ordering::Less <==> cmp_from(b, a, i) == Ordering::Greater,
        cmp_from(a, b, i) == Ordering::Equal <==> cmp_from(b, a, i) == Ordering::Equal,
    decreases a.len() - i,
{
    if i < a.len() {
        lemma_cmp_from_flip(a, b, i + 1);
    }
}

proof fn lemma_cmp_from_trans(a: Seq<u8>, b: Seq<u8>, c: Seq<u8>, i: int)
    requires
        a.len() == b.len(),
        b.len() == c.len(),
        0 <= i <= a.len(),
        cmp_from(a, b, i) != Ordering::Greater,
        cmp_from(b, c, i) != Ordering::Greater,
    ensures
        cmp_from(a, c, i) != Ordering::Greater,
        cmp_from(a, b, i) == Ordering::Less || cmp_from(b, c, i) == Ordering::Less
            ==> cmp_from(a, c, i) == Ordering::Less,
    decreases a.len() - i,
{
    if i < a.len() && a[i] == b[i] && b[i] == c[i] {
        lemma_cmp_from_trans(a, b, c, i + 1);
    }
}

/// On byte strings of one length, comparing equal is being equal.
pub proof fn lemma_lex_equal(a: Seq<u8>, b: Seq<u8>)
    requires
        a.len() == b.len(),
    ensures
        lex_cmp(a, b) == Ordering::Equal <==> a == b,
{
    if lex_cmp(a, b) == Ordering::Equal {
        lemma_cmp_from_equal(a, b, 0);
        assert(a =~= b);
    }
    if a == b {
        lemma_cmp_from_same_tail(a, b, 0);
    }
}

/// Swapping the two sides of a comparison reverses its outcome.
pub proof fn lemma_lex_flip(a: Seq<u8>, b: Seq<u8>)
    requires
        a.len() == b.len(),
    ensures
        lex_cmp(a, b) == Ordering::Less <==> lex_cmp(b, a) == Ordering::Greater,
        lex_cmp(a, b) == Ordering::Equal <==> lex_cmp(b, a) == Ordering::Equal,
        lex_cmp(a, b) == Ordering::Greater <==> lex_cmp(b, a) == Ordering::Less,
{
    lemma_cmp_from_flip(a, b, 0);
    lemma_cmp_from_flip(b, a, 0);
}

/// The order is transitive, and strict as soon as one of the two steps is.
pub proof fn lemma_lex_trans(a: Seq<u8>, b: Seq<u8>, c: Seq<u8>)
    requires
        a.len() == b.len(),
        b.len() == c.len(),
        lex_le(a, b),
        lex_le(b, c),
    ensures
        lex_le(a, c),
        lex_lt(a, b) || lex_lt(b, c) ==> lex_lt(a, c),
{
    lemma_cmp_from_trans(a, b, c, 0);
}

} // verus!
