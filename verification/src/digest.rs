//! The digest function: maps a byte slice to a fixed-length content
//! fingerprint. The fingerprint is opaque; the library relies only on it
//! being a function of the input bytes.

use vstd::prelude::*;
use sha2::Digest;

verus! {

/// The fingerprint of a byte sequence: whatever SHA-256 returns for it.
/// The library states nothing about the digest's value, only that equal
/// inputs give equal fingerprints.
pub uninterp spec fn digest_of(bytes: Seq<u8>) -> Seq<u8>;

/// Relies on sha2::Sha256 (update then finalize): the digest is a pure
/// function of the input bytes, 32 bytes long.
#[verifier::external_body]
pub fn sha256(window_bytes: &[u8]) -> (r: Vec<u8>)
    ensures
        r@ == digest_of(window_bytes@),
{
    let mut hasher = sha2::Sha256::new();
    hasher.update(window_bytes);
    hasher.finalize().to_vec()
}

/// Byte-for-byte equality of two byte vectors.
pub fn bytes_eq(a: &Vec<u8>, b: &Vec<u8>) -> (r: bool)
    ensures
        r == (a@ == b@),
{
    if a.len() != b.len() {
        assert(a@.len() != b@.len());
        return false;
    }
    let mut i: usize = 0;
    while i < a.len()
        invariant
            i <= a.len(),
            a@.len() == b@.len(),
            forall|k: int| 0 <= k < i ==> a@[k] == b@[k],
        decreases a.len() - i,
    {
        if a[i] != b[i] {
            assert(a@[i as int] != b@[i as int]);
            return false;
        }
        i += 1;
    }
    assert(a@ =~= b@);
    true
}

} // verus!
