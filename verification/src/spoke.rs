//! The spoke verifier: holds the latest accepted root, accepts a new
//! root only with a valid root-transition proof, and accepts a
//! membership claim only against the currently held root.

use vstd::prelude::*;
use crate::hashing::{Digest, digest_eq, zero_digest, zero_hash};
use crate::attestation::{AttestationLeaf, leaf_digest, leaf_digest_spec};
use crate::mmr::{MembershipProof, MembershipProofV, verify_membership, verify_spec, mmr_root_spec, root_of_hashes, hview, proof_spec, lemma_prove_then_verify};
use crate::pallet::Pallet;

verus! {

/// Why the spoke refuses a request.
#[derive(Clone, Copy, PartialEq, Eq, Debug)]
pub enum BridgeError {
    /// The submitted proof does not certify the claim.
    InvalidProof,
    /// The spoke has not accepted any root yet; checked before any proof
    /// is looked at, and never confused with a bad proof.
    NotInitialized,
}

/// The spoke's only persistent state: the latest accepted root, starting
/// at the all-zero sentinel (which is also the root of an empty
/// accumulator) and monotonically replaced by accepted updates.
pub struct BridgeState {
    pub latest_root: Digest,
}

/// Emitted when a new root is accepted.
#[derive(Clone, Copy, PartialEq, Eq, Debug)]
pub struct RootUpdated {
    pub new_root: Digest,
}

/// Emitted when a membership claim is accepted.
#[derive(Clone, Copy, PartialEq, Eq, Debug)]
pub struct IdentityVerified {
    pub did: Digest,
}

/// A root-transition proof: the size the spoke's accepted root was
/// computed at, and the full leaf-hash sequence of the grown
/// accumulator.  The spoke recomputes both roots from it, so a pure
/// append can never invalidate what the spoke accepted.
pub struct TransitionProof {
    pub prior_size: u64,
    pub leaf_hashes: Vec<Digest>,
}

/// When a transition proof certifies `new_root` as an append-only
/// successor of `latest`: the carried leaf sequence extends one whose
/// root is `latest`, and its own root is `new_root`.
pub open spec fn transition_ok(latest: Seq<u8>, new_root: Seq<u8>, prior_size: nat, leaves: Seq<Seq<u8>>) -> bool {
    &&& prior_size <= leaves.len()
    &&& mmr_root_spec(leaves.take(prior_size as int)) == latest
    &&& mmr_root_spec(leaves) == new_root
}

/// Resets a spoke to the uninitialized sentinel.
pub fn initialize(state: &mut BridgeState)
    ensures
        final(state).latest_root@ == zero_hash(),
{
    state.latest_root = zero_digest();
}

/// Accepts `new_root` exactly when the proof certifies it as an
/// append-only successor of the held root.  Resubmitting the already
/// accepted root is a no-op: no error, no event, no state change.
pub fn update_state_root(state: &mut BridgeState, new_root: Digest, proof: &TransitionProof) -> (r: Result<Option<RootUpdated>, BridgeError>)
    ensures
        new_root@ == old(state).latest_root@ ==> {
            &&& r == Result::<Option<RootUpdated>, BridgeError>::Ok(None)
            &&& *final(state) == *old(state)
        },
        new_root@ != old(state).latest_root@ && transition_ok(old(state).latest_root@, new_root@, proof.prior_size as nat, hview(proof.leaf_hashes@)) ==> {
            &&& r == Result::<Option<RootUpdated>, BridgeError>::Ok(Some(RootUpdated { new_root }))
            &&& final(state).latest_root == new_root
        },
        new_root@ != old(state).latest_root@ && !transition_ok(old(state).latest_root@, new_root@, proof.prior_size as nat, hview(proof.leaf_hashes@)) ==> {
            &&& r == Result::<Option<RootUpdated>, BridgeError>::Err(BridgeError::InvalidProof)
            &&& *final(state) == *old(state)
        },
{
    if digest_eq(&new_root, &state.latest_root) {
        return Ok(None);
    }
    if proof.prior_size > proof.leaf_hashes.len() as u64 {
        return Err(BridgeError::InvalidProof);
    }
    let prior_root = root_of_hashes(&proof.leaf_hashes, proof.prior_size as usize);
    if !digest_eq(&prior_root, &state.latest_root) {
        return Err(BridgeError::InvalidProof);
    }
    let full_root = root_of_hashes(&proof.leaf_hashes, proof.leaf_hashes.len());
    proof {
        assert(hview(proof.leaf_hashes@).take(proof.leaf_hashes@.len() as int) =~= hview(proof.leaf_hashes@));
    }
    if !digest_eq(&full_root, &new_root) {
        return Err(BridgeError::InvalidProof);
    }
    state.latest_root = new_root;
    Ok(Some(RootUpdated { new_root }))
}

/// The hub can always convince a spoke of a genuine extension: the proof
/// carrying the old size and the grown leaf sequence certifies the grown
/// root against the old one.
pub proof fn lemma_extension_accepted(s: Seq<Seq<u8>>, ext: Seq<Seq<u8>>)
    ensures
        transition_ok(mmr_root_spec(s), mmr_root_spec(s + ext), s.len(), s + ext),
{
    assert((s + ext).take(s.len() as int) =~= s);
}

/// A claim that `did` is committed under `root`: the attestation itself
/// and the accumulator membership proof of its leaf hash.
pub struct IdentityProof {
    pub leaf: AttestationLeaf,
    pub inclusion: MembershipProof,
}

/// When an identity proof establishes `did` under `root`: the carried
/// attestation names `did`, it hashes to the proven leaf, and that leaf
/// verifies under `root`.
pub open spec fn identity_ok(root: Seq<u8>, did: Seq<u8>, leaf: AttestationLeaf, inclusion: MembershipProofV) -> bool {
    &&& leaf.did@ == did
    &&& inclusion.leaf == leaf_digest_spec(leaf.did@, leaf.schema_hash@, leaf.data_hash@, leaf.expiration)
    &&& verify_spec(root, inclusion)
}

/// Checks a membership claim against the held root.  An uninitialized
/// spoke refuses with `NotInitialized` whatever the proof says; spoke
/// state is never changed.
pub fn verify_identity(state: &BridgeState, did: Digest, proof: &IdentityProof) -> (r: Result<IdentityVerified, BridgeError>)
    ensures
        state.latest_root@ == zero_hash() <==> r == Result::<IdentityVerified, BridgeError>::Err(BridgeError::NotInitialized),
        state.latest_root@ != zero_hash() ==> (r == Result::<IdentityVerified, BridgeError>::Ok(IdentityVerified { did })
            <==> identity_ok(state.latest_root@, did@, proof.leaf, proof.inclusion@)),
        state.latest_root@ != zero_hash() && !identity_ok(state.latest_root@, did@, proof.leaf, proof.inclusion@)
            ==> r == Result::<IdentityVerified, BridgeError>::Err(BridgeError::InvalidProof),
{
    let zero = zero_digest();
    if digest_eq(&state.latest_root, &zero) {
        return Err(BridgeError::NotInitialized);
    }
    if !digest_eq(&proof.leaf.did, &did) {
        return Err(BridgeError::InvalidProof);
    }
    let lh = leaf_digest(&proof.leaf);
    if !digest_eq(&lh, &proof.inclusion.leaf) {
        return Err(BridgeError::InvalidProof);
    }
    if !verify_membership(&state.latest_root, &proof.inclusion) {
        return Err(BridgeError::InvalidProof);
    }
    Ok(IdentityVerified { did })
}

/// End to end: once the ledger has issued an attestation, the claim for
/// its `did` — the attestation plus the membership proof built from any
/// later accumulator state — is accepted against that later state's
/// root.  Appends at the hub never cut a committed identity off from the
/// spokes.
pub proof fn lemma_issued_identity_verifiable(
    pre: Pallet,
    post: Pallet,
    origin: Digest,
    did: Digest,
    schema_hash: Digest,
    data_hash: Digest,
    later: Seq<Seq<u8>>,
)
    requires
        Pallet::issue_post(pre, post, origin, did, schema_hash, data_hash),
        post.accumulator@.is_prefix_of(later),
    ensures
        identity_ok(
            mmr_root_spec(later),
            did@,
            (AttestationLeaf { did, schema_hash, data_hash, expiration: Option::None }),
            proof_spec(later, pre.accumulator@.len()),
        ),
{
    let i = pre.accumulator@.len();
    assert(post.accumulator@[i as int] == leaf_digest_spec(did@, schema_hash@, data_hash@, Option::None));
    assert(later[i as int] == post.accumulator@[i as int]);
    lemma_prove_then_verify(later, i);
}

} // verus!
