//! Opaque byte-transform service for secured payloads.
//!
//! Key derivation and authenticated encryption are done by outside crates;
//! their results are named here and the verified code assembles and splits
//! the framed form (nonce, then ciphertext with its tag) around them. What
//! the service guarantees is exactly what those crates document: a derived
//! key is a function of password and salt, and decryption with the same
//! key and nonce inverts encryption.

use vstd::prelude::*;

use aes_gcm::aead::{Aead, KeyInit};
use rand::Rng;

use crate::encoding::{b64_decode, b64_decode_of, b64_encode, b64_of};

verus! {

/// Length of a key-derivation salt, in bytes.
pub const SALT_LEN: usize = 32;

/// Length of an encryption nonce, in bytes.
pub const NONCE_LEN: usize = 12;

/// Length of the authentication tag appended to a ciphertext, in bytes.
pub const TAG_LEN: usize = 16;

/// Why a cryptographic operation failed.
#[derive(Debug, Clone, Copy, PartialEq, Eq, Structural)]
pub enum CryptoError {
    /// The framed data is too short to hold a nonce.
    InvalidData,
    EncryptionFailed,
    DecryptionFailed,
    KeyDerivationFailed,
    Base64DecodeFailed,
}

/// The 32-byte key the key-derivation function yields for a password and
/// a salt, at this store's fixed cost parameters.
pub uninterp spec fn derived_key_of(password: Seq<u8>, salt: Seq<u8>) -> Seq<u8>;

/// What decrypting a ciphertext under a key and nonce yields, if it
/// authenticates.
pub uninterp spec fn aead_decrypt_of(key: Seq<u8>, nonce: Seq<u8>, ciphertext: Seq<u8>) -> Option<
    Seq<u8>,
>;

/// Relies on argon2's `Argon2::hash_password_into` (Argon2id, version 19,
/// 64 MiB memory, 3 passes, 4 lanes, 32-byte output): the key is a
/// function of the password and salt alone.
#[verifier::external_body]
fn kdf_derive(password: &Vec<u8>, salt: &Vec<u8>) -> (r: Option<Vec<u8>>)
    requires
        salt@.len() == 32,
    ensures
        r matches Some(k) ==> k@ == derived_key_of(password@, salt@) && k@.len() == 32,
{
    let params = argon2::Params::new(65536, 3, 4, Some(32)).ok()?;
    let a2 = argon2::Argon2::new(argon2::Algorithm::Argon2id, argon2::Version::V0x13, params);
    let mut key = vec![0u8; 32];
    a2.hash_password_into(password, salt, &mut key).ok()?;
    Some(key)
}

/// Relies on rand's `Rng::fill_bytes` on the thread generator. Nothing is
/// promised of the bytes beyond their number.
#[verifier::external_body]
fn random_bytes(len: usize) -> (r: Vec<u8>)
    ensures
        r@.len() == len,
{
    let mut buf = vec![0u8; len];
    rand::rng().fill_bytes(&mut buf);
    buf
}

/// Relies on aes-gcm's `Aead::encrypt` for AES-256-GCM: the ciphertext is
/// the plaintext's length plus the 16-byte tag, and `Aead::decrypt` with
/// the same key and nonce gives the plaintext back.
#[verifier::external_body]
fn aead_encrypt(key: &Vec<u8>, nonce: &Vec<u8>, plaintext: &Vec<u8>) -> (r: Option<Vec<u8>>)
    requires
        key@.len() == 32,
        nonce@.len() == 12,
    ensures
        r matches Some(ct) ==> ct@.len() == plaintext@.len() + 16 && aead_decrypt_of(
            key@,
            nonce@,
            ct@,
        ) == Some(plaintext@),
{
    let cipher = aes_gcm::Aes256Gcm::new_from_slice(key).ok()?;
    let n = aes_gcm::Nonce::try_from(nonce.as_slice()).ok()?;
    cipher.encrypt(&n, plaintext.as_slice()).ok()
}

/// Relies on aes-gcm's `Aead::decrypt` for AES-256-GCM: whether and to
/// what a ciphertext decrypts is a function of key, nonce and ciphertext.
#[verifier::external_body]
fn aead_decrypt(key: &Vec<u8>, nonce: &Vec<u8>, ciphertext: &Vec<u8>) -> (r: Option<Vec<u8>>)
    requires
        key@.len() == 32,
        nonce@.len() == 12,
    ensures
        match r {
            Some(pt) => aead_decrypt_of(key@, nonce@, ciphertext@) == Some(pt@),
            None => aead_decrypt_of(key@, nonce@, ciphertext@) is None,
        },
{
    let cipher = aes_gcm::Aes256Gcm::new_from_slice(key).ok()?;
    let n = aes_gcm::Nonce::try_from(nonce.as_slice()).ok()?;
    cipher.decrypt(&n, ciphertext.as_slice()).ok()
}

/// An encryption service bound to one derived key.
pub struct SecureStore {
    key: Vec<u8>,
}

impl SecureStore {
    /// The key this store encrypts and decrypts with.
    pub closed spec fn key_view(&self) -> Seq<u8> {
        self.key@
    }

    /// The key has its full length.
    pub open spec fn wf(&self) -> bool {
        self.key_view().len() == 32
    }

    /// Derive a store from a password and salt.
    pub fn from_password(password: &Vec<u8>, salt: &Vec<u8>) -> (r: Result<Self, CryptoError>)
        requires
            salt@.len() == SALT_LEN,
        ensures
            match r {
                Ok(s) => s.key_view() == derived_key_of(password@, salt@) && s.wf(),
                Err(e) => e == CryptoError::KeyDerivationFailed,
            },
    {
        match kdf_derive(password, salt) {
            Some(key) => Ok(SecureStore { key }),
            None => Err(CryptoError::KeyDerivationFailed),
        }
    }

    /// A fresh random salt.
    pub fn generate_salt() -> (r: Vec<u8>)
        ensures
            r@.len() == SALT_LEN,
    {
        random_bytes(SALT_LEN)
    }

    /// The raw key bytes.
    pub fn key(&self) -> (r: &Vec<u8>)
        ensures
            r@ == self.key_view(),
    {
        &self.key
    }

    /// Encrypt a plaintext: a fresh random nonce, then the ciphertext with
    /// its tag. Whatever nonce was drawn, decrypting the frame with the
    /// same key gives the plaintext back.
    pub fn encrypt(&self, plaintext: &Vec<u8>) -> (r: Result<Vec<u8>, CryptoError>)
        requires
            self.wf(),
        ensures
            match r {
                Ok(data) => data@.len() == plaintext@.len() + NONCE_LEN + TAG_LEN
                    && aead_decrypt_of(
                    self.key_view(),
                    data@.subrange(0, NONCE_LEN as int),
                    data@.subrange(NONCE_LEN as int, data@.len() as int),
                ) == Some(plaintext@),
                Err(e) => e == CryptoError::EncryptionFailed,
            },
    {
        let nonce = random_bytes(NONCE_LEN);
        let ct = match aead_encrypt(&self.key, &nonce, plaintext) {
            Some(ct) => ct,
            None => {
                return Err(CryptoError::EncryptionFailed);
            },
        };
        let mut data: Vec<u8> = Vec::new();
        let mut i: usize = 0;
        while i < 12
            invariant
                i <= 12,
                nonce@.len() == 12,
                data@ == nonce@.subrange(0, i as int),
            decreases 12 - i,
        {
            data.push(nonce[i]);
            assert(data@ =~= nonce@.subrange(0, i + 1));
            i += 1;
        }
        proof {
            assert(nonce@.subrange(0, 12) =~= nonce@);
        }
        let mut j: usize = 0;
        while j < ct.len()
            invariant
                j <= ct@.len(),
                nonce@.len() == 12,
                data@ == nonce@ + ct@.subrange(0, j as int),
            decreases ct@.len() - j,
        {
            data.push(ct[j]);
            assert(data@ =~= nonce@ + ct@.subrange(0, j + 1));
            j += 1;
        }
        proof {
            assert(ct@.subrange(0, ct@.len() as int) =~= ct@);
            assert(data@.subrange(0, NONCE_LEN as int) =~= nonce@);
            assert(data@.subrange(NONCE_LEN as int, data@.len() as int) =~= ct@);
        }
        Ok(data)
    }

    /// Decrypt a frame: split off the nonce, then decrypt and authenticate
    /// the rest. Fails with `InvalidData` on a frame too short for a
    /// nonce, and `DecryptionFailed` exactly when authentication fails.
    pub fn decrypt(&self, data: &Vec<u8>) -> (r: Result<Vec<u8>, CryptoError>)
        requires
            self.wf(),
        ensures
            match r {
                Ok(pt) => data@.len() >= NONCE_LEN && aead_decrypt_of(
                    self.key_view(),
                    data@.subrange(0, NONCE_LEN as int),
                    data@.subrange(NONCE_LEN as int, data@.len() as int),
                ) == Some(pt@),
                Err(CryptoError::InvalidData) => data@.len() < NONCE_LEN,
                Err(CryptoError::DecryptionFailed) => data@.len() >= NONCE_LEN && aead_decrypt_of(
                    self.key_view(),
                    data@.subrange(0, NONCE_LEN as int),
                    data@.subrange(NONCE_LEN as int, data@.len() as int),
                ) is None,
                Err(_) => false,
            },
    {
        if data.len() < 12 {
            return Err(CryptoError::InvalidData);
        }
        let mut nonce: Vec<u8> = Vec::new();
        let mut i: usize = 0;
        while i < 12
            invariant
                i <= 12,
                data@.len() >= 12,
                nonce@ == data@.subrange(0, i as int),
            decreases 12 - i,
        {
            nonce.push(data[i]);
            assert(nonce@ =~= data@.subrange(0, i + 1));
            i += 1;
        }
        let mut ct: Vec<u8> = Vec::new();
        let mut j: usize = 12;
        while j < data.len()
            invariant
                12 <= j <= data@.len(),
                ct@ == data@.subrange(12, j as int),
            decreases data@.len() - j,
        {
            ct.push(data[j]);
            assert(ct@ =~= data@.subrange(12, j + 1));
            j += 1;
        }
        proof {
            assert(nonce@ =~= data@.subrange(0, NONCE_LEN as int));
            assert(ct@ =~= data@.subrange(NONCE_LEN as int, data@.len() as int));
        }
        match aead_decrypt(&self.key, &nonce, &ct) {
            Some(pt) => Ok(pt),
            None => Err(CryptoError::DecryptionFailed),
        }
    }

    /// Encrypt text and hand the frame back as base64.
    pub fn encrypt_text(&self, text: &Vec<u8>) -> (r: Result<Vec<u8>, CryptoError>)
        requires
            self.wf(),
        ensures
            match r {
                Ok(b) => exists|frame: Seq<u8>|
                    #![trigger b64_of(frame)]
                    b@ == b64_of(frame) && b64_decode_of(b@) == Some(frame) && frame.len()
                        == text@.len() + NONCE_LEN + TAG_LEN && aead_decrypt_of(
                        self.key_view(),
                        frame.subrange(0, NONCE_LEN as int),
                        frame.subrange(NONCE_LEN as int, frame.len() as int),
                    ) == Some(text@),
                Err(e) => e == CryptoError::EncryptionFailed,
            },
    {
        let data = self.encrypt(text)?;
        if data.len() > usize::MAX / 4 * 3 {
            return Err(CryptoError::EncryptionFailed);
        }
        let b = b64_encode(&data);
        Ok(b)
    }

    /// Decode a base64 frame and decrypt it: the round trip of
    /// `encrypt_text` on the same store.
    pub fn decrypt_text(&self, encoded: &Vec<u8>) -> (r: Result<Vec<u8>, CryptoError>)
        requires
            self.wf(),
        ensures
            match r {
                Ok(pt) => exists|frame: Seq<u8>|
                    #![trigger frame.subrange(0, NONCE_LEN as int)]
                    b64_decode_of(encoded@) == Some(frame) && frame.len() >= NONCE_LEN
                        && aead_decrypt_of(
                        self.key_view(),
                        frame.subrange(0, NONCE_LEN as int),
                        frame.subrange(NONCE_LEN as int, frame.len() as int),
                    ) == Some(pt@),
                Err(CryptoError::Base64DecodeFailed) => b64_decode_of(encoded@) is None,
                Err(_) => b64_decode_of(encoded@) is Some,
            },
    {
        let data = match b64_decode(encoded) {
            Some(v) => v,
            None => {
                return Err(CryptoError::Base64DecodeFailed);
            },
        };
        match self.decrypt(&data) {
            Ok(pt) => Ok(pt),
            Err(CryptoError::InvalidData) => Err(CryptoError::InvalidData),
            Err(_) => Err(CryptoError::DecryptionFailed),
        }
    }
}

} // verus!
