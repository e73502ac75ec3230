//! SHA-256 digests.

use digest::Digest;
use sha2::Sha256;
use vstd::prelude::*;

verus! {

/// A SHA-256 digest.
#[derive(Clone, Copy, Debug, PartialEq, Eq, Hash)]
pub struct HashNode {
    pub bytes: [u8; 32],
}

/// The SHA-256 digest of a byte string.
pub uninterp spec fn spec_sha256(data: Seq<u8>) -> HashNode;

/// `Digest::digest` of `Sha256`: the digest of `data`, which depends on
/// nothing but the bytes of `data`.
#[verifier::external_body]
pub(crate) fn sha256(data: &[u8]) -> (r: HashNode)
    ensures
        r == spec_sha256(data@),
{
    HashNode { bytes: Sha256::digest(data).into() }
}

impl HashNode {
    /// The digest of `data`.
    pub fn of(data: &[u8]) -> (r: HashNode)
        ensures
            r == spec_sha256(data@),
    {
        sha256(data)
    }

    /// Whether the two digests have the same bytes.
    pub fn same(&self, other: &HashNode) -> (r: bool)
        ensures
            r == (*self == *other),
    {
        let mut i: usize = 0;
        while i < 32
            invariant
                i <= 32,
                forall|j: int| 0 <= j < i ==> self.bytes[j] == other.bytes[j],
            decreases 32 - i,
        {
            if self.bytes[i] != other.bytes[i] {
                return false;
            }
            i += 1;
        }
        assert(self.bytes =~= other.bytes);
        true
    }
}

} // verus!
