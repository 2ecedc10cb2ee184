use core::cmp::Ordering;
use ring::digest::{digest, SHA1_FOR_LEGACY_USE_ONLY};
use vstd::prelude::*;

use crate::digest::{
    compare_bytes, lemma_lex_equal, lemma_lex_flip, lemma_lex_trans, lex_cmp, lex_le, Sha1Hash,
    SHA1_BYTE_LENGTH,
};

verus! {

/// A stored credential: where it is used, by whom, and the digest of its password.
/// Equality and order look at the digest alone.
#[derive(Debug)]
pub struct SavedHash {
    pub url: String,
    pub username: String,
    pub password_hash: Sha1Hash,
}

impl PartialEq for SavedHash {
    fn eq(&self, other: &SavedHash) -> (r: bool)
        ensures
            r == (self.password_hash@ == other.password_hash@),
    {
        let r = compare_bytes(self.password_hash.as_slice(), other.password_hash.as_slice());
        proof {
            lemma_lex_equal(self.password_hash@, other.password_hash@);
        }
        match r {
            Ordering::Equal => true,
            _ => false,
        }
    }
}

impl vstd::std_specs::cmp::PartialEqSpecImpl for SavedHash {
    open spec fn obeys_eq_spec() -> bool {
        true
    }

    open spec fn eq_spec(&self, other: &SavedHash) -> bool {
        self.password_hash@ == other.password_hash@
    }
}

impl Eq for SavedHash {

}

impl PartialOrd for SavedHash {
    fn partial_cmp(&self, other: &SavedHash) -> (r: Option<Ordering>)
        ensures
            r == Some(lex_cmp(self.password_hash@, other.password_hash@)),
    {
        Some(compare_bytes(self.password_hash.as_slice(), other.password_hash.as_slice()))
    }
}

impl vstd::std_specs::cmp::PartialOrdSpecImpl for SavedHash {
    open spec fn obeys_partial_cmp_spec() -> bool {
        true
    }

    open spec fn partial_cmp_spec(&self, other: &SavedHash) -> Option<Ordering> {
        Some(lex_cmp(self.password_hash@, other.password_hash@))
    }
}

/// The digests of a sequence of stored credentials, in the same order.
pub open spec fn saved_digests(saved: Seq<SavedHash>) -> Seq<Seq<u8>> {
    saved.map_values(|s: SavedHash| s.password_hash@)
}

/// The digests never go down from one entry to the next.
pub open spec fn digests_sorted(digests: Seq<Seq<u8>>) -> bool {
    forall|i: int, j: int| 0 <= i < j < digests.len() ==> lex_le(digests[i], digests[j])
}

/// Entries with equal digests stand next to each other: nothing with another digest
/// stands between two of them.
pub open spec fn equal_digests_contiguous(digests: Seq<Seq<u8>>) -> bool {
    forall|i: int, j: int, k: int|
        0 <= i < j < k < digests.len() && digests[i] == digests[k] ==> digests[j] == digests[i]
}

/// What SHA-1 gives for a byte string.
pub uninterp spec fn sha1_of(data: Seq<u8>) -> Seq<u8>;

/// Relies on `ring::digest::digest` with `SHA1_FOR_LEGACY_USE_ONLY`: the SHA-1 digest of
/// the input, 20 bytes long.
#[verifier::external_body]
fn hash_pass(pass: &[u8]) -> (r: Sha1Hash)
    ensures
        r@ == sha1_of(pass@),
{
    let d = digest(&SHA1_FOR_LEGACY_USE_ONLY, pass);
    let mut out: Sha1Hash = [0u8; 20];
    out.copy_from_slice(d.as_ref());
    out
}

/// Relies on `slice::sort_unstable_by_key`: the slice ends up a permutation of itself,
/// ordered by the key; the key, a byte array, is ordered lexicographically.
#[verifier::external_body]
fn sort_by_digest(hashes: &mut Vec<SavedHash>)
    ensures
        final(hashes)@.to_multiset() == old(hashes)@.to_multiset(),
        digests_sorted(saved_digests(final(hashes)@)),
{
    hashes.sort_unstable_by_key(|h| h.password_hash);
}

impl SavedHash {
    /// Digests one plaintext password for a stored credential. The password itself is
    /// not kept.
    pub fn from_password(url: String, username: String, password: &[u8]) -> (r: SavedHash)
        ensures
            r.url == url,
            r.username == username,
            r.password_hash@ == sha1_of(password@),
    {
        SavedHash { url, username, password_hash: hash_pass(password) }
    }
}

/// In a sorted sequence of digests, equal digests stand next to each other.
pub proof fn lemma_sorted_contiguous(digests: Seq<Seq<u8>>)
    requires
        digests_sorted(digests),
        forall|i: int| 0 <= i < digests.len() ==> (#[trigger] digests[i]).len() == SHA1_BYTE_LENGTH,
    ensures
        equal_digests_contiguous(digests),
{
    assert forall|i: int, j: int, k: int|
        0 <= i < j < k < digests.len() && digests[i] == digests[k] implies digests[j]
        == digests[i] by {
        assert(lex_le(digests[i], digests[j]));
        assert(lex_le(digests[j], digests[k]));
        lemma_lex_flip(digests[j], digests[k]);
        lemma_lex_flip(digests[i], digests[j]);
        lemma_lex_equal(digests[i], digests[j]);
        lemma_lex_equal(digests[j], digests[k]);
        if lex_cmp(digests[i], digests[j]) == Ordering::Less {
            lemma_lex_trans(digests[i], digests[j], digests[k]);
            lemma_lex_equal(digests[i], digests[k]);
        }
    }
}

/// Sorts the stored credentials ascending by digest, keeping every entry exactly once.
/// Entries with equal digests end up next to each other.
pub fn sort_saved(hashes: &mut Vec<SavedHash>)
    ensures
        final(hashes)@.to_multiset() == old(hashes)@.to_multiset(),
        final(hashes)@.len() == old(hashes)@.len(),
        digests_sorted(saved_digests(final(hashes)@)),
        equal_digests_contiguous(saved_digests(final(hashes)@)),
{
    sort_by_digest(hashes);
    proof {
        let d = saved_digests(hashes@);
        assert forall|i: int| 0 <= i < d.len() implies (#[trigger] d[i]).len() == SHA1_BYTE_LENGTH by {
            assert(d[i] == hashes@[i].password_hash@);
        }
        lemma_sorted_contiguous(d);
        old(hashes)@.to_multiset_ensures();
        hashes@.to_multiset_ensures();
    }
}

} // verus!
