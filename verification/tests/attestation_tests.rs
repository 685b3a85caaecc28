use identity_bridge::attestation::{AttestationLeaf, encode_leaf, leaf_digest};

fn digest(b: u8) -> [u8; 32] {
    [b; 32]
}

#[test]
fn encoding_without_expiration_is_ids_and_a_zero_byte() {
    let leaf = AttestationLeaf {
        did: digest(1),
        schema_hash: digest(2),
        data_hash: digest(3),
        expiration: None,
    };
    let bytes = encode_leaf(&leaf);
    assert_eq!(bytes.len(), 97);
    assert_eq!(&bytes[0..32], &[1u8; 32]);
    assert_eq!(&bytes[32..64], &[2u8; 32]);
    assert_eq!(&bytes[64..96], &[3u8; 32]);
    assert_eq!(bytes[96], 0);
}

#[test]
fn encoding_with_expiration_appends_little_endian_bytes() {
    let leaf = AttestationLeaf {
        did: digest(1),
        schema_hash: digest(2),
        data_hash: digest(3),
        expiration: Some(0x0102_0304_0506_0708),
    };
    let bytes = encode_leaf(&leaf);
    assert_eq!(bytes.len(), 105);
    assert_eq!(bytes[96], 1);
    assert_eq!(&bytes[97..105], &[0x08, 0x07, 0x06, 0x05, 0x04, 0x03, 0x02, 0x01]);
}

#[test]
fn leaf_digest_hashes_the_encoding() {
    let leaf = AttestationLeaf {
        did: digest(4),
        schema_hash: digest(5),
        data_hash: digest(6),
        expiration: Some(42),
    };
    let bytes = encode_leaf(&leaf);
    assert_eq!(leaf_digest(&leaf), sp_crypto_hashing::blake2_256(&bytes));
    // different data, different commitment
    let other = AttestationLeaf { data_hash: digest(7), ..leaf };
    assert_ne!(leaf_digest(&other), leaf_digest(&leaf));
}
