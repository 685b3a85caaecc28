//! Attestation leaves and the byte encoding they are hashed under.

use vstd::prelude::*;
use crate::hashing::{Digest, blake2_of, hash_bytes};

verus! {

/// A single identity attestation.  Immutable once created; its hash is
/// the leaf committed into the accumulator.
#[derive(Clone, Copy, PartialEq, Eq, Debug)]
pub struct AttestationLeaf {
    pub did: Digest,
    pub schema_hash: Digest,
    pub data_hash: Digest,
    pub expiration: Option<u64>,
}

/// The expiration timestamp in little-endian byte order.
pub open spec fn u64_le_bytes(x: u64) -> Seq<u8> {
    Seq::new(8, |i: int| ((x >> ((8 * i) as u64)) & 0xff) as u8)
}

/// The bytes a leaf is hashed under: the three 32-byte identifiers, then
/// a presence byte, then the expiration if present.
pub open spec fn encode_leaf_spec(did: Seq<u8>, schema_hash: Seq<u8>, data_hash: Seq<u8>, expiration: Option<u64>) -> Seq<u8> {
    did + schema_hash + data_hash + match expiration {
        Option::None => seq![0u8],
        Option::Some(t) => seq![1u8] + u64_le_bytes(t),
    }
}

/// The leaf hash committed for an attestation.
pub open spec fn leaf_digest_spec(did: Seq<u8>, schema_hash: Seq<u8>, data_hash: Seq<u8>, expiration: Option<u64>) -> Seq<u8> {
    blake2_of(encode_leaf_spec(did, schema_hash, data_hash, expiration))
}

/// Appends a digest's bytes to a buffer.
fn push_digest(buf: &mut Vec<u8>, d: &Digest)
    ensures
        final(buf)@ == old(buf)@ + d@,
{
    let mut i: usize = 0;
    while i < 32
        invariant
            i <= 32,
            buf@ =~= old(buf)@ + d@.take(i as int),
        decreases 32 - i,
    {
        buf.push(d[i]);
        i += 1;
    }
    proof {
        assert(buf@ =~= old(buf)@ + d@);
    }
}

/// Serializes a leaf into the bytes it is hashed under.
pub fn encode_leaf(leaf: &AttestationLeaf) -> (out: Vec<u8>)
    ensures
        out@ == encode_leaf_spec(leaf.did@, leaf.schema_hash@, leaf.data_hash@, leaf.expiration),
{
    let mut buf: Vec<u8> = Vec::new();
    push_digest(&mut buf, &leaf.did);
    push_digest(&mut buf, &leaf.schema_hash);
    push_digest(&mut buf, &leaf.data_hash);
    let ghost pre = buf@;
    match leaf.expiration {
        None => {
            buf.push(0u8);
            proof {
                assert(buf@ =~= pre + seq![0u8]);
            }
        },
        Some(t) => {
            buf.push(1u8);
            let mut i: u64 = 0;
            while i < 8
                invariant
                    i <= 8,
                    buf@ =~= pre + seq![1u8] + u64_le_bytes(t).take(i as int),
                decreases 8 - i,
            {
                let b: u8 = #[verifier::truncate] (((t >> (8 * i)) & 0xff) as u8);
                proof {
                    assert(u64_le_bytes(t)[i as int] == b);
                }
                buf.push(b);
                i += 1;
            }
            proof {
                assert(u64_le_bytes(t).take(8) =~= u64_le_bytes(t));
                assert(buf@ =~= pre + (seq![1u8] + u64_le_bytes(t)));
            }
        },
    }
    proof {
        assert(buf@ =~= encode_leaf_spec(leaf.did@, leaf.schema_hash@, leaf.data_hash@, leaf.expiration));
    }
    buf
}

/// Hashes a leaf into the digest committed for it.
pub fn leaf_digest(leaf: &AttestationLeaf) -> (r: Digest)
    ensures
        r@ == leaf_digest_spec(leaf.did@, leaf.schema_hash@, leaf.data_hash@, leaf.expiration),
{
    let bytes = encode_leaf(leaf);
    hash_bytes(&bytes)
}

} // verus!
