//! Whole-piece SHA-1 verification.

use vstd::prelude::*;

verus! {

/// The SHA-1 digest of a byte string.
pub uninterp spec fn sha1_of(data: Seq<u8>) -> Seq<u8>;

/// Relies on sha1_smol's `Sha1::from(data).digest().bytes()`: the 20-byte SHA-1 digest of
/// `data`, which depends on the bytes alone.
#[verifier::external_body]
fn sha1_digest(data: &[u8]) -> (r: [u8; 20])
    ensures
        r@ == sha1_of(data@),
{
    sha1_smol::Sha1::from(data).digest().bytes()
}

/// Whether two digests are equal.
pub fn digest_matches(digest: &[u8; 20], expected: &[u8; 20]) -> (r: bool)
    ensures
        r == (digest@ == expected@),
{
    let mut i: usize = 0;
    while i < 20
        invariant
            i <= 20,
            digest@.len() == 20,
            expected@.len() == 20,
            forall|j: int| 0 <= j < i ==> #[trigger] digest@[j] == expected@[j],
        decreases 20 - i,
    {
        if digest[i] != expected[i] {
            return false;
        }
        i = i + 1;
    }
    assert(digest@ =~= expected@);
    true
}

/// Whether the bytes of a piece hash to the expected digest.
pub fn check_piece(data: &Vec<u8>, expected: &[u8; 20]) -> (r: bool)
    ensures
        r == (sha1_of(data@) == expected@),
{
    let digest = sha1_digest(data.as_slice());
    digest_matches(&digest, expected)
}

} // verus!
