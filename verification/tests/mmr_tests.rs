use identity_bridge::mmr::{Mmr, MmrError, verify_membership};

fn digest(b: u8) -> [u8; 32] {
    [b; 32]
}

#[test]
fn empty_root_is_zero_sentinel() {
    let m = Mmr::new();
    assert_eq!(m.root(), [0u8; 32]);
    assert_eq!(m.size(), 0);
}

#[test]
fn single_leaf_root_is_the_leaf() {
    let mut m = Mmr::new();
    let (index, root) = m.append(&digest(7));
    assert_eq!(index, 0);
    assert_eq!(root, digest(7));
    assert_eq!(m.size(), 1);
}

#[test]
fn two_leaf_root_hashes_the_pair() {
    let mut m = Mmr::new();
    m.append(&digest(1));
    let (_, root) = m.append(&digest(2));
    let mut concat = Vec::new();
    concat.extend_from_slice(&digest(1));
    concat.extend_from_slice(&digest(2));
    let expected = sp_crypto_hashing::blake2_256(&concat);
    assert_eq!(root, expected);
}

#[test]
fn three_leaf_root_bags_peak_and_straggler() {
    let mut m = Mmr::new();
    m.append(&digest(1));
    m.append(&digest(2));
    let (_, root) = m.append(&digest(3));
    let mut concat = Vec::new();
    concat.extend_from_slice(&digest(1));
    concat.extend_from_slice(&digest(2));
    let peak = sp_crypto_hashing::blake2_256(&concat);
    let mut bag = Vec::new();
    bag.extend_from_slice(&peak);
    bag.extend_from_slice(&digest(3));
    let expected = sp_crypto_hashing::blake2_256(&bag);
    assert_eq!(root, expected);
}

#[test]
fn every_leaf_provable_at_every_size() {
    for n in 1u8..=8 {
        let mut m = Mmr::new();
        let mut root = [0u8; 32];
        for b in 0..n {
            let (_, r) = m.append(&digest(b + 1));
            root = r;
        }
        assert_eq!(root, m.root());
        for i in 0..n as u64 {
            let proof = m.prove_membership(i).unwrap();
            assert_eq!(proof.index, i);
            assert_eq!(proof.mmr_size, n as u64);
            assert_eq!(proof.leaf, digest(i as u8 + 1));
            assert!(verify_membership(&root, &proof));
        }
    }
}

#[test]
fn out_of_range_index_is_refused() {
    let m = Mmr::new();
    assert_eq!(m.prove_membership(0).unwrap_err(), MmrError::IndexOutOfRange);
    let mut m = Mmr::new();
    for b in 0..5u8 {
        m.append(&digest(b));
    }
    assert_eq!(m.prove_membership(5).unwrap_err(), MmrError::IndexOutOfRange);
    assert_eq!(m.prove_membership(u64::MAX).unwrap_err(), MmrError::IndexOutOfRange);
    assert!(m.prove_membership(4).is_ok());
}

#[test]
fn membership_survives_later_appends() {
    let mut m = Mmr::new();
    for b in 0..4u8 {
        m.append(&digest(b + 1));
    }
    let old_root = m.root();
    let old_proof = m.prove_membership(2).unwrap();
    assert!(verify_membership(&old_root, &old_proof));
    // a fifth leaf arrives; the committed leaf stays provable under the
    // new root once its proof is rebuilt for the grown accumulator
    let (_, new_root) = m.append(&digest(5));
    let new_proof = m.prove_membership(2).unwrap();
    assert_eq!(new_proof.leaf, digest(3));
    assert!(verify_membership(&new_root, &new_proof));
}

#[test]
fn wrong_root_or_tampered_proof_fails() {
    let mut m = Mmr::new();
    for b in 0..6u8 {
        m.append(&digest(b + 1));
    }
    let root = m.root();
    let mut proof = m.prove_membership(3).unwrap();
    assert!(verify_membership(&root, &proof));
    assert!(!verify_membership(&digest(0xaa), &proof));
    proof.leaf[0] ^= 1;
    assert!(!verify_membership(&root, &proof));
}
