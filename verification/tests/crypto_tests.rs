use clitter::crypto::{CryptoError, SecureStore};

#[test]
fn test_encrypt_decrypt() {
    let salt = SecureStore::generate_salt();
    let store = SecureStore::from_password(&b"test_password".to_vec(), &salt).unwrap();

    let plaintext = b"Hello, World!";
    let encrypted = store.encrypt(&plaintext.to_vec()).unwrap();
    let decrypted = store.decrypt(&encrypted).unwrap();

    assert_eq!(plaintext.to_vec(), decrypted);
}

#[test]
fn test_wrong_password() {
    let salt = SecureStore::generate_salt();
    let store1 = SecureStore::from_password(&b"password1".to_vec(), &salt).unwrap();
    let store2 = SecureStore::from_password(&b"password2".to_vec(), &salt).unwrap();

    let plaintext = b"Secret data";
    let encrypted = store1.encrypt(&plaintext.to_vec()).unwrap();

    // decryption with the wrong password fails to authenticate
    assert!(store2.decrypt(&encrypted).is_err());
}

#[test]
fn test_key_is_a_function_of_password_and_salt() {
    let salt = SecureStore::generate_salt();
    let a = SecureStore::from_password(&b"pw".to_vec(), &salt).unwrap();
    let b = SecureStore::from_password(&b"pw".to_vec(), &salt).unwrap();
    assert_eq!(a.key(), b.key());
    let other_salt = SecureStore::generate_salt();
    let c = SecureStore::from_password(&b"pw".to_vec(), &other_salt).unwrap();
    assert_ne!(a.key(), c.key());
}

#[test]
fn test_encrypt_text_round_trip() {
    let salt = SecureStore::generate_salt();
    let store = SecureStore::from_password(&b"pw".to_vec(), &salt).unwrap();
    let encoded = store.encrypt_text(&b"framed secret".to_vec()).unwrap();
    // the frame travels as base64 text
    assert!(encoded.iter().all(|b| b.is_ascii()));
    let back = store.decrypt_text(&encoded).unwrap();
    assert_eq!(back, b"framed secret".to_vec());
}

#[test]
fn test_crypto_error_variants() {
    let salt = SecureStore::generate_salt();
    let store = SecureStore::from_password(&b"pw".to_vec(), &salt).unwrap();
    // too short to even hold a nonce
    assert_eq!(store.decrypt(&b"tiny".to_vec()), Err(CryptoError::InvalidData));
    // not base64 at all
    assert_eq!(store.decrypt_text(&b"!!!".to_vec()), Err(CryptoError::Base64DecodeFailed));
    // valid base64, but no authentic frame inside
    assert_eq!(
        store.decrypt_text(&b"QUJDREVGR0hJSktMTU5PUA==".to_vec()),
        Err(CryptoError::DecryptionFailed)
    );
}
