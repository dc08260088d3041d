//! Session encryption, the hybrid envelope, the session-key table, the
//! post-quantum key exchange, and identity derivation.
use meshlink::encryption::{
    is_pqc_available, EncryptedMessage, EncryptionManager, PqcEncryptionManager, SessionKeyManager,
};
use meshlink::identity::derive_node_id_from_der;

#[test]
fn test_aes_encryption() {
    let (key, nonce) = EncryptionManager::generate_session_key();
    let test_data = b"Hello, AES encrypted!";

    // Encrypt
    let encrypted = EncryptionManager::encrypt_aes(test_data, &key, &nonce).unwrap();
    assert_ne!(encrypted, test_data.to_vec());

    // Decrypt
    let decrypted = EncryptionManager::decrypt_aes(&encrypted, &key, &nonce).unwrap();
    assert_eq!(decrypted, test_data.to_vec());
}

#[test]
fn test_session_key_manager() {
    let mut manager = SessionKeyManager::new();
    let (key, nonce) = EncryptionManager::generate_session_key();

    // Store key
    manager.set_session_key("peer1".to_string(), key.clone(), nonce.clone());

    // Retrieve key
    let retrieved = manager.get_session_key("peer1");
    assert!(retrieved.is_some());
    let retrieved = retrieved.unwrap();
    assert_eq!(retrieved.nonce, nonce);
    assert_eq!(retrieved.key, key);

    // Remove key
    manager.remove_session_key("peer1");
    assert!(manager.get_session_key("peer1").is_none());
}

#[test]
fn tampered_ciphertext_is_refused() {
    let (key, nonce) = EncryptionManager::generate_session_key();
    let mut ct = EncryptionManager::encrypt_aes(b"payload", &key, &nonce).unwrap();
    ct[0] ^= 0xff;
    assert!(EncryptionManager::decrypt_aes(&ct, &key, &nonce).is_err());
}

#[test]
fn encrypted_message_envelope_round_trips() {
    let em = EncryptedMessage {
        encrypted_key: vec![1, 2, 3],
        nonce: vec![9; 12],
        encrypted_data: vec![4, 5, 6, 7],
    };
    let bytes = em.to_bytes();
    let back = EncryptedMessage::from_bytes(&bytes).unwrap();
    assert_eq!(em, back);
    assert!(EncryptedMessage::from_bytes(&bytes[..bytes.len() - 1]).is_err());
}

#[test]
fn test_pqc_key_generation() {
    if !is_pqc_available() {
        return;
    }

    let manager = PqcEncryptionManager::new();
    assert!(manager.is_ok(), "Should be able to create PQC manager");

    let manager = manager.unwrap();
    assert!(!manager.public_key.is_empty(), "Public key should not be empty");
}

#[test]
fn test_pqc_encapsulation() {
    if !is_pqc_available() {
        return;
    }

    // Create two managers (simulating two peers)
    let bob = PqcEncryptionManager::new().unwrap();

    // Alice encapsulates using Bob's public key
    let (shared_secret_alice, ciphertext) =
        PqcEncryptionManager::encapsulate(&bob.public_key).expect("Encapsulation should succeed");

    // Bob decapsulates using his secret key
    let shared_secret_bob = bob.decapsulate(&ciphertext).expect("Decapsulation should succeed");

    // Shared secrets should match
    assert_eq!(
        shared_secret_alice, shared_secret_bob,
        "Shared secrets should match after encapsulation/decapsulation"
    );
    assert!(!shared_secret_alice.is_empty(), "Shared secret should not be empty");
}

#[test]
fn test_pqc_public_key_serialization() {
    if !is_pqc_available() {
        return;
    }

    let manager = PqcEncryptionManager::new().unwrap();
    let public_key_str = manager.get_public_key_string();

    assert!(!public_key_str.is_empty(), "Public key string should not be empty");

    // Parse it back
    let parsed_key = PqcEncryptionManager::parse_public_key(&public_key_str)
        .expect("Should be able to parse public key");

    assert_eq!(manager.public_key, parsed_key, "Parsed public key should match original");
}

#[test]
fn test_pqc_key_exchange_roundtrip() {
    if !is_pqc_available() {
        return;
    }

    // Simulate key exchange between two peers
    let peer1 = PqcEncryptionManager::new().unwrap();

    // Peer 1 sends its public key to Peer 2
    let peer1_pub_key_str = peer1.get_public_key_string();
    let peer1_pub_key = PqcEncryptionManager::parse_public_key(&peer1_pub_key_str).unwrap();

    // Peer 2 encapsulates using Peer 1's public key
    let (shared_secret_2, ciphertext) = PqcEncryptionManager::encapsulate(&peer1_pub_key).unwrap();

    // Peer 1 decapsulates using its secret key
    let shared_secret_1 = peer1.decapsulate(&ciphertext).unwrap();

    // Both should have the same shared secret
    assert_eq!(
        shared_secret_1, shared_secret_2,
        "Both peers should derive the same shared secret"
    );
}

#[test]
fn node_ids_are_stable_and_key_dependent() {
    let id1 = derive_node_id_from_der(b"key material one");
    let id2 = derive_node_id_from_der(b"key material one");
    let id3 = derive_node_id_from_der(b"key material two");
    assert_eq!(id1, id2);
    assert_ne!(id1, id3);
    assert!(!id1.is_empty());
    // base58 uses neither zero nor uppercase o
    assert!(!id1.contains('0') && !id1.contains('O'));
}
