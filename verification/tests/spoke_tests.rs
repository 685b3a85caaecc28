use identity_bridge::attestation::AttestationLeaf;
use identity_bridge::mmr::{Mmr, MembershipProof};
use identity_bridge::pallet::Pallet;
use identity_bridge::spoke::{
    BridgeState, BridgeError, IdentityProof, IdentityVerified, RootUpdated, TransitionProof,
    initialize, update_state_root, verify_identity,
};

fn digest(b: u8) -> [u8; 32] {
    [b; 32]
}

fn dummy_membership() -> MembershipProof {
    MembershipProof { leaf: digest(0), index: 0, mmr_size: 0, path: Vec::new(), peaks: Vec::new() }
}

#[test]
fn initialize_resets_to_sentinel() {
    let mut st = BridgeState { latest_root: digest(7) };
    initialize(&mut st);
    assert_eq!(st.latest_root, [0u8; 32]);
}

#[test]
fn uninitialized_spoke_refuses_any_claim() {
    let st = BridgeState { latest_root: [0u8; 32] };
    let proof = IdentityProof {
        leaf: AttestationLeaf { did: digest(1), schema_hash: digest(2), data_hash: digest(3), expiration: None },
        inclusion: dummy_membership(),
    };
    assert_eq!(
        verify_identity(&st, digest(1), &proof).unwrap_err(),
        BridgeError::NotInitialized
    );
}

#[test]
fn extension_proof_moves_the_root() {
    let mut m = Mmr::new();
    m.append(&digest(1));
    let (_, root) = m.append(&digest(2));

    let mut st = BridgeState { latest_root: digest(7) };
    initialize(&mut st);
    let proof = TransitionProof { prior_size: 0, leaf_hashes: vec![digest(1), digest(2)] };
    assert_eq!(
        update_state_root(&mut st, root, &proof).unwrap(),
        Some(RootUpdated { new_root: root })
    );
    assert_eq!(st.latest_root, root);

    // grow by one more leaf and advance the root again
    let (_, root3) = m.append(&digest(3));
    let proof3 = TransitionProof { prior_size: 2, leaf_hashes: vec![digest(1), digest(2), digest(3)] };
    assert_eq!(
        update_state_root(&mut st, root3, &proof3).unwrap(),
        Some(RootUpdated { new_root: root3 })
    );
    assert_eq!(st.latest_root, root3);
}

#[test]
fn resubmitting_the_accepted_root_is_a_quiet_noop() {
    let mut m = Mmr::new();
    let (_, root) = m.append(&digest(1));
    let mut st = BridgeState { latest_root: [0u8; 32] };
    let proof = TransitionProof { prior_size: 0, leaf_hashes: vec![digest(1)] };
    assert_eq!(
        update_state_root(&mut st, root, &proof).unwrap(),
        Some(RootUpdated { new_root: root })
    );
    // the same root again: accepted, no event, no change — even with a
    // proof that certifies nothing
    let junk = TransitionProof { prior_size: 5, leaf_hashes: Vec::new() };
    assert_eq!(update_state_root(&mut st, root, &junk).unwrap(), None);
    assert_eq!(st.latest_root, root);
}

#[test]
fn stale_or_forged_transitions_are_refused() {
    let mut st = BridgeState { latest_root: digest(5) };
    // the carried sequence does not extend anything rooted at the held root
    let proof = TransitionProof { prior_size: 1, leaf_hashes: vec![digest(1), digest(2)] };
    assert_eq!(
        update_state_root(&mut st, digest(6), &proof).unwrap_err(),
        BridgeError::InvalidProof
    );
    assert_eq!(st.latest_root, digest(5));
    // a size past the carried sequence certifies nothing
    let short = TransitionProof { prior_size: 3, leaf_hashes: vec![digest(1)] };
    assert_eq!(
        update_state_root(&mut st, digest(6), &short).unwrap_err(),
        BridgeError::InvalidProof
    );
}

#[test]
fn hub_to_spoke_round_trip() {
    let gov = digest(9);
    let issuer = digest(1);
    let schema = digest(2);
    let data = digest(3);
    let did = digest(4);
    let mut p = Pallet::new(gov, 10, digest(8));
    assert!(p.add_issuer(&gov, issuer).is_ok());
    assert!(p.add_schema(&gov, schema).is_ok());
    assert!(p.deposit(&issuer, 100));
    assert!(p.issue_identity(&issuer, did, schema, data).is_ok());
    assert!(p.issue_identity(&issuer, digest(5), schema, data).is_ok());
    let hub_root = p.root();

    // the relay carries a transition proof built from the hub's history
    let mut st = BridgeState { latest_root: [0u8; 32] };
    let transition = TransitionProof { prior_size: 0, leaf_hashes: p.accumulator.leaves.clone() };
    assert!(update_state_root(&mut st, hub_root, &transition).is_ok());
    assert_eq!(st.latest_root, hub_root);

    // and a membership claim for the first attestation
    let inclusion = p.accumulator.prove_membership(0).unwrap();
    let claim = IdentityProof {
        leaf: AttestationLeaf { did, schema_hash: schema, data_hash: data, expiration: None },
        inclusion,
    };
    assert_eq!(verify_identity(&st, did, &claim).unwrap(), IdentityVerified { did });

    // the same proof never establishes a different did
    let wrong = verify_identity(&st, digest(5), &claim).unwrap_err();
    assert_eq!(wrong, BridgeError::InvalidProof);
}
