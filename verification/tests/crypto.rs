//! Hashes, tags and signatures.

use craftec::crypto::hash::hash_bytes;
use craftec::crypto::hash::hash_page;
use craftec::crypto::hash::merkle_root;
use craftec::crypto::hash::verify_cid;
use craftec::crypto::hommac::combine_tags;
use craftec::crypto::hommac::compute_tag;
use craftec::crypto::hommac::gf256_mul;
use craftec::crypto::hommac::verify_tag;
use craftec::crypto::hommac::HomMacKey;
use craftec::crypto::sign::verify_signature;
use craftec::crypto::sign::IdentityError;
use craftec::crypto::sign::KeyStore;

fn keys() -> KeyStore {
    KeyStore::generate("node.key".to_string())
}

#[test]
fn hash_bytes_deterministic() {
    let h1 = hash_bytes(b"hello");
    let h2 = hash_bytes(b"hello");
    assert_eq!(h1, h2);
}

#[test]
fn hash_of_nothing_is_the_known_one() {
    let h = hash_bytes(b"");
    assert_eq!(h[..4], [0xaf, 0x13, 0x49, 0xb9]);
}

#[test]
fn hash_bytes_differs_for_different_input() {
    let h1 = hash_bytes(b"foo");
    let h2 = hash_bytes(b"bar");
    assert_ne!(h1, h2);
}

#[test]
fn hash_page_returns_cid() {
    let page = vec![42u8; 16_384];
    let cid = hash_page(&page);
    assert!(verify_cid(&page, &cid));
}

#[test]
fn verify_cid_wrong_data() {
    let page = vec![1u8; 16_384];
    let cid = hash_page(&page);
    let tampered = vec![2u8; 16_384];
    assert!(!verify_cid(&tampered, &cid));
}

#[test]
fn merkle_root_empty() {
    let root = merkle_root(&[]);
    assert_eq!(root, [0u8; 32]);
}

#[test]
fn merkle_root_single_leaf() {
    let leaf = hash_bytes(b"only leaf");
    let root = merkle_root(&[leaf]);
    assert_eq!(root, leaf);
}

#[test]
fn merkle_root_two_leaves_deterministic() {
    let a = hash_bytes(b"a");
    let b = hash_bytes(b"b");
    let r1 = merkle_root(&[a, b]);
    let r2 = merkle_root(&[a, b]);
    assert_eq!(r1, r2);
    assert_ne!(r1, merkle_root(&[b, a]));
}

#[test]
fn merkle_root_of_two_hashes_their_bytes() {
    let a = hash_bytes(b"a");
    let b = hash_bytes(b"b");
    let mut both = a.to_vec();
    both.extend_from_slice(&b);
    assert_eq!(merkle_root(&[a, b]), hash_bytes(&both));
}

#[test]
fn merkle_root_odd_number_of_leaves() {
    let leaves: Vec<[u8; 32]> = (0..5u8).map(|i| hash_bytes(&[i])).collect();
    let root = merkle_root(&leaves);
    assert_ne!(root, [0u8; 32]);
}

#[test]
fn compute_and_verify_tag() {
    let key = HomMacKey::generate();
    let cv = vec![1u8, 0, 0, 0];
    let data = vec![0xABu8; 64];
    let tag = compute_tag(&key, &cv, &data);
    assert!(verify_tag(&key, &cv, &data, &tag));
}

#[test]
fn verify_wrong_data_fails() {
    let key = HomMacKey::generate();
    let cv = vec![1u8, 0, 0, 0];
    let data = vec![0xABu8; 64];
    let tag = compute_tag(&key, &cv, &data);
    let tampered = vec![0xCDu8; 64];
    assert!(!verify_tag(&key, &cv, &tampered, &tag));
}

#[test]
fn verify_wrong_coding_vector_fails() {
    let key = HomMacKey::generate();
    let cv = vec![1u8, 0, 0, 0];
    let data = vec![0u8; 64];
    let tag = compute_tag(&key, &cv, &data);
    let wrong_cv = vec![0u8, 1, 0, 0];
    assert!(!verify_tag(&key, &wrong_cv, &data, &tag));
}

#[test]
fn tag_hashes_key_vector_and_data() {
    let key = HomMacKey::from_bytes([7u8; 32]);
    let mut all = vec![7u8; 32];
    all.extend_from_slice(&[1, 2]);
    all.extend_from_slice(&[3, 4, 5]);
    assert_eq!(compute_tag(&key, &[1, 2], &[3, 4, 5]), hash_bytes(&all));
}

#[test]
fn combine_tags_deterministic() {
    let key = HomMacKey::generate();
    let tags = vec![[1u8; 32], [2u8; 32]];
    let coeffs = vec![3u8, 5u8];
    let t1 = combine_tags(&key, &tags, &coeffs);
    let t2 = combine_tags(&key, &tags, &coeffs);
    assert_eq!(t1, t2);
}

#[test]
fn combine_tags_changes_with_different_coefficients() {
    let key = HomMacKey::generate();
    let tags = vec![[1u8; 32], [2u8; 32]];
    let t1 = combine_tags(&key, &tags, &[1u8, 0u8]);
    let t2 = combine_tags(&key, &tags, &[0u8, 1u8]);
    assert_ne!(t1, t2);
}

#[test]
fn gf256_mul_identity() {
    assert_eq!(gf256_mul(0xAB, 1), 0xAB);
    assert_eq!(gf256_mul(1, 0xAB), 0xAB);
}

#[test]
fn gf256_mul_zero() {
    assert_eq!(gf256_mul(0xAB, 0), 0);
    assert_eq!(gf256_mul(0, 0xAB), 0);
}

#[test]
fn gf256_mul_reduces_by_its_polynomial() {
    assert_eq!(gf256_mul(0x80, 2), 0x1D);
}

#[test]
fn generated_keys_differ() {
    assert_ne!(keys().node_id(), keys().node_id());
    assert_ne!(HomMacKey::generate().as_bytes(), HomMacKey::generate().as_bytes());
}

#[test]
fn generates_keypair_on_first_run() {
    let ks = KeyStore::generate("data/node.key".to_string());
    assert_eq!(ks.key_path(), "data/node.key");
    assert_ne!(*ks.secret_bytes(), [0u8; 32]);
    let _ = ks.node_id();
}

#[test]
fn loads_existing_keypair() {
    let first = keys();
    let id1 = first.node_id();
    let again = KeyStore::from_key_file("node.key".to_string(), first.secret_bytes());
    let id2 = match again {
        Ok(store) => store.node_id(),
        Err(e) => panic!("{}", e.message()),
    };
    assert_eq!(id1, id2, "NodeId must be stable across reloads");
}

#[test]
fn sign_and_verify() {
    let ks = keys();
    let msg = b"test message for signing";
    let sig = ks.sign(msg);
    let node_id = ks.node_id();
    assert!(ks.verify(msg, &sig, &node_id));
}

#[test]
fn verify_wrong_message_fails() {
    let ks = keys();
    let sig = ks.sign(b"original");
    assert!(!ks.verify(b"tampered", &sig, &ks.node_id()));
}

#[test]
fn bad_key_file_returns_error() {
    let result = KeyStore::from_key_file("node.key".to_string(), b"tooshort");
    match result {
        Err(e) => {
            assert_eq!(e, IdentityError::KeyLength { found: 8 });
            assert_eq!(e.message(), "node.key must be 32 bytes, found 8 bytes");
        }
        Ok(_) => panic!("a short key was accepted"),
    }
}

#[test]
fn known_public_key() {
    // The first test vector of the signature scheme.
    let secret = [
        0x9d, 0x61, 0xb1, 0x9d, 0xef, 0xfd, 0x5a, 0x60, 0xba, 0x84, 0x4a, 0xf4, 0x92, 0xec, 0x2c,
        0xc4, 0x44, 0x49, 0xc5, 0x69, 0x7b, 0x32, 0x69, 0x19, 0x70, 0x3b, 0xac, 0x03, 0x1c, 0xae,
        0x7f, 0x60,
    ];
    match KeyStore::from_key_file("k".to_string(), &secret) {
        Ok(store) => {
            assert_eq!(&store.node_id().to_hex()[..16], "d75a980182b10ab7");
            assert_eq!(store.sign(b"")[..4], [0xe5, 0x56, 0x43, 0x00]);
            assert_eq!(store.key_path(), "k");
        }
        Err(e) => panic!("{}", e.message()),
    }
}

#[test]
fn crypto_ed25519_cross_node_verification() {
    let kp_a = keys();
    let kp_b = keys();

    let payload = b"signed RPC request from node A";
    let sig = kp_a.sign(payload);
    assert!(verify_signature(payload, &sig, &kp_a.node_id()), "B should verify A's sig");

    let forged = kp_b.sign(payload);
    assert!(
        !verify_signature(payload, &forged, &kp_a.node_id()),
        "B's sig should NOT verify as A"
    );
}

#[test]
fn hommac_integrity_across_nodes() {
    let key = HomMacKey::generate();
    let cv = vec![42u8, 17, 99, 200];
    let data = vec![0xABu8; 512];

    let tag = compute_tag(&key, &cv, &data);
    assert!(verify_tag(&key, &cv, &data, &tag), "should verify");

    let mut tampered = data.clone();
    tampered[0] ^= 0xFF;
    assert!(!verify_tag(&key, &cv, &tampered, &tag), "tampered should fail");
}
