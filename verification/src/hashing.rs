//! Digests and the one hash call the accumulator is built on.

use vstd::prelude::*;

verus! {

/// A 32-byte digest: a leaf hash, an inner node hash, or a bagged root.
pub type Digest = [u8; 32];

/// What `sp_crypto_hashing::blake2_256` returns for a given byte string.
/// The digest depends on the input bytes alone, so it can be named.
pub uninterp spec fn blake2_of(data: Seq<u8>) -> Seq<u8>;

/// Relies on `sp_crypto_hashing::blake2_256`: a 32-byte Blake2b digest,
/// a function of the input bytes alone.
#[verifier::external_body]
pub fn hash_bytes(data: &Vec<u8>) -> (r: Digest)
    ensures
        r@ == blake2_of(data@),
{
    sp_crypto_hashing::blake2_256(data.as_slice())
}

/// The digest of an inner node over its two children.
pub open spec fn node_hash(l: Seq<u8>, r: Seq<u8>) -> Seq<u8> {
    blake2_of(l + r)
}

/// The all-zero digest: the root of an empty accumulator and the
/// uninitialized sentinel of a spoke.
pub open spec fn zero_hash() -> Seq<u8> {
    Seq::new(32, |i: int| 0u8)
}

/// Builds the all-zero digest.
pub fn zero_digest() -> (r: Digest)
    ensures
        r@ == zero_hash(),
{
    let r: Digest = [0u8; 32];
    proof {
        assert(r@ =~= zero_hash());
    }
    r
}

/// Compares two digests byte by byte.
pub fn digest_eq(a: &Digest, b: &Digest) -> (r: bool)
    ensures
        r == (a@ == b@),
{
    let mut i: usize = 0;
    while i < 32
        invariant
            i <= 32,
            forall|j: int| 0 <= j < i ==> a@[j] == b@[j],
        decreases 32 - i,
    {
        if a[i] != b[i] {
            proof {
                assert(a@[i as int] != b@[i as int]);
            }
            return false;
        }
        i += 1;
    }
    proof {
        assert(a@ =~= b@);
    }
    true
}

/// Hashes the concatenation of two child digests into their parent digest.
pub fn pair_digest(l: &Digest, r: &Digest) -> (out: Digest)
    ensures
        out@ == node_hash(l@, r@),
{
    let mut buf: Vec<u8> = Vec::new();
    let mut i: usize = 0;
    while i < 32
        invariant
            i <= 32,
            buf@ =~= l@.take(i as int),
        decreases 32 - i,
    {
        buf.push(l[i]);
        i += 1;
    }
    let mut j: usize = 0;
    while j < 32
        invariant
            j <= 32,
            buf@ =~= l@ + r@.take(j as int),
        decreases 32 - j,
    {
        buf.push(r[j]);
        j += 1;
    }
    proof {
        assert(buf@ =~= l@ + r@);
    }
    hash_bytes(&buf)
}

} // verus!
