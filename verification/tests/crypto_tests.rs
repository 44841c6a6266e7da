use base64::engine::general_purpose::STANDARD;
use base64::Engine;
use sidecar_state::crypto::{CryptoError, CryptoManager, EncryptedData};
use sidecar_state::state::{PendingOperation, PersistedState};
use sidecar_state::codec::render_state_vec;

#[test]
fn test_encrypt_decrypt_cycle() {
    let mut crypto = CryptoManager::new(Some("test_passphrase".to_string()));
    let original_data = b"Hello, encrypted world!";

    let encrypted = crypto.encrypt(original_data).unwrap();
    let decrypted = crypto.decrypt(&encrypted).unwrap();

    assert_eq!(original_data, &decrypted[..]);
}

#[test]
fn test_encrypt_decrypt_json() {
    let mut crypto = CryptoManager::new(Some("test_passphrase".to_string()));
    let mut original_data = PersistedState::default();
    original_data.pending_operations.push(PendingOperation {
        id: "op-1".to_string(),
        operation_type: "write_file".to_string(),
        payload: vec![
            ("path".to_string(), "/tmp/test.txt".to_string()),
            ("content".to_string(), "Hello World".to_string()),
        ],
        status: "pending".to_string(),
        timestamp: "2024-01-01T00:00:00+00:00".to_string(),
        source: "sidecar".to_string(),
    });

    let encrypted = crypto.encrypt_json(&original_data).unwrap();
    let decrypted: PersistedState = crypto.decrypt_json(&encrypted).unwrap();

    assert_eq!(render_state_vec(&original_data), render_state_vec(&decrypted));
}

#[test]
fn distinct_salts_nonces_ciphertexts() {
    let mut crypto = CryptoManager::new(Some("pass".to_string()));
    let a = crypto.encrypt(b"same payload").unwrap();
    let b = crypto.encrypt(b"same payload").unwrap();
    assert_ne!(a.salt, b.salt);
    assert_ne!(a.nonce, b.nonce);
    assert_ne!(a.ciphertext, b.ciphertext);
}

fn flip_bit(env: &EncryptedData, field: usize, byte: usize, bit: usize) -> EncryptedData {
    let mut e = env.clone();
    let text = match field {
        0 => &e.salt,
        1 => &e.nonce,
        _ => &e.ciphertext,
    };
    let mut raw = STANDARD.decode(text).unwrap();
    raw[byte] ^= 1u8 << bit;
    let enc = STANDARD.encode(&raw);
    match field {
        0 => e.salt = enc,
        1 => e.nonce = enc,
        _ => e.ciphertext = enc,
    }
    e
}

#[test]
fn tamper_detection_single_bit_flips() {
    let mut crypto = CryptoManager::new(Some("pass".to_string()));
    let env = crypto.encrypt(b"secret state").unwrap();
    let ct_len = STANDARD.decode(&env.ciphertext).unwrap().len();
    // a bit at each end of the salt, the nonce and the ciphertext
    let cases = [
        (0, 0, 0),
        (0, 15, 7),
        (1, 0, 0),
        (1, 11, 7),
        (2, 0, 0),
        (2, ct_len - 1, 7),
        (2, ct_len / 2, 3),
    ];
    for (field, byte, bit) in cases {
        let bad = flip_bit(&env, field, byte, bit);
        assert!(crypto.decrypt(&bad).is_err(), "flip went unnoticed");
    }
    assert_eq!(crypto.decrypt(&env).unwrap(), b"secret state".to_vec());
}

#[test]
fn cache_returns_identical_keys_without_recomputing() {
    let mut crypto = CryptoManager::new(Some("pass".to_string()));
    let salt = STANDARD.encode([7u8; 16]);
    let k1 = crypto.derive_key(&salt).unwrap();
    assert_eq!(crypto.cached_salt_count(), 1);
    let k2 = crypto.derive_key(&salt).unwrap();
    assert_eq!(k1, k2);
    assert_eq!(k1.len(), 32);
    assert_eq!(crypto.cached_salt_count(), 1);

    let env = crypto.encrypt(b"data").unwrap();
    let n = crypto.cached_salt_count();
    crypto.decrypt(&env).unwrap();
    assert_eq!(crypto.cached_salt_count(), n);
}

#[test]
fn missing_passphrase_always_fails() {
    let mut crypto = CryptoManager::new(None);
    assert!(matches!(crypto.encrypt(b"anything"), Err(CryptoError::InvalidPassphrase)));
    assert!(matches!(crypto.encrypt(b""), Err(CryptoError::InvalidPassphrase)));
    let env = EncryptedData {
        salt: STANDARD.encode([0u8; 16]),
        nonce: STANDARD.encode([0u8; 12]),
        ciphertext: STANDARD.encode([0u8; 32]),
    };
    assert_eq!(crypto.decrypt(&env), Err(CryptoError::InvalidPassphrase));
    assert_eq!(crypto.derive_key(&STANDARD.encode([0u8; 16])), Err(CryptoError::InvalidPassphrase));
}

#[test]
fn malformed_salt_is_key_derivation_failure() {
    let mut crypto = CryptoManager::new(Some("pass".to_string()));
    let r = crypto.derive_key("not-base64!");
    assert!(matches!(r, Err(CryptoError::KeyDerivationFailed(_))));
    let short = STANDARD.encode([1u8; 8]);
    let r2 = crypto.derive_key(&short);
    assert!(matches!(r2, Err(CryptoError::KeyDerivationFailed(_))));

    let mut env = crypto.encrypt(b"x").unwrap();
    env.salt = "###".to_string();
    assert!(matches!(crypto.decrypt(&env), Err(CryptoError::KeyDerivationFailed(_))));
}

#[test]
fn decrypt_json_of_non_state_plaintext_is_serialization_error() {
    let mut crypto = CryptoManager::new(Some("pass".to_string()));
    let env = crypto.encrypt(b"not a state rendering").unwrap();
    let r = crypto.decrypt_json(&env);
    assert!(matches!(r, Err(CryptoError::SerializationError(_))));
}
