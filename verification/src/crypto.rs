//! Key derivation with a salt-keyed cache, and authenticated encryption
//! of byte payloads into self-contained envelopes.
//!
//! Every encryption draws a fresh random salt and a fresh random nonce,
//! derives the key from (passphrase, salt) with a memory-hard function,
//! and seals the payload; the envelope records all three fields as
//! base64 text.  Because every encryption uses a brand-new salt, and so
//! a brand-new key, a nonce can never repeat under a key.

use vstd::prelude::*;

use aes_gcm::aead::rand_core::RngCore;
use aes_gcm::aead::{Aead, KeyInit, OsRng};
use aes_gcm::{Aes256Gcm, Key};
use argon2::password_hash::SaltString;
use argon2::{Argon2, PasswordHasher};
use base64::engine::general_purpose::STANDARD;
use base64::Engine;
use vstd::string::StringExecFns;
use vstd::utf8::encode_utf8;

verus! {

/// The failures of the persistence engine.
#[derive(Debug, Clone, PartialEq)]
pub enum CryptoError {
    /// The cipher refused to seal the payload.
    EncryptionFailed(String),
    /// Bad envelope format, or the integrity tag did not verify.
    DecryptionFailed(String),
    /// The salt was malformed, or the derivation function failed.
    KeyDerivationFailed(String),
    /// Encryption or decryption was attempted with no passphrase configured.
    InvalidPassphrase,
    /// The payload does not match the expected structured shape.
    SerializationError(String),
}

/// The on-disk representation of one encrypted payload: all three
/// fields are base64 text.
#[derive(Debug, Clone)]
pub struct EncryptedData {
    pub salt: String,
    pub nonce: String,
    pub ciphertext: String,
}

/// The most bytes one sealing may cover: AES-GCM refuses to encrypt a
/// plaintext above 2^36 bytes.  Decryption is slightly wider: it
/// accepts a tag-stripped message up to 2^36 + 16 bytes, so a decrypted
/// plaintext is bounded by `SEAL_MAX + 16`.
pub const SEAL_MAX: u64 = 0x1000000000;

/// The base64 text of the given bytes, as the standard-alphabet padded
/// encoder of the `base64` crate produces it.
pub uninterp spec fn b64_of(bytes: Seq<u8>) -> Seq<char>;

/// The 32-byte key that the memory-hard derivation function (Argon2
/// with its default parameters) produces from a passphrase and a salt.
pub uninterp spec fn kdf_of(passphrase: Seq<u8>, salt: Seq<u8>) -> Seq<u8>;

/// The ciphertext-with-tag that AES-256-GCM produces from a 32-byte
/// key, a 12-byte nonce and a plaintext.
pub uninterp spec fn aead_ct_of(key: Seq<u8>, nonce: Seq<u8>, plaintext: Seq<u8>) -> Seq<u8>;

/// Relies on base64's `Engine::encode` with the `STANDARD` engine: the
/// text is a function of the bytes alone, and no other byte string has
/// the same encoding, since the crate's decoder inverts the encoder.
#[verifier::external_body]
fn b64_encode(bytes: &[u8]) -> (r: String)
    ensures
        r@ == b64_of(bytes@),
        forall|other: Seq<u8>| r@ == b64_of(other) ==> other == bytes@,
{
    STANDARD.encode(bytes)
}

/// Relies on base64's `Engine::decode` with the `STANDARD` engine: it
/// accepts exactly the canonical encodings (canonical padding required,
/// nonzero trailing bits rejected) and inverts the encoder on them.
#[verifier::external_body]
fn b64_decode(text: &str) -> (r: Option<Vec<u8>>)
    ensures
        r is Some ==> text@ == b64_of(r->0@),
        forall|bytes: Seq<u8>| text@ == b64_of(bytes) ==> r is Some && r->0@ == bytes,
{
    STANDARD.decode(text).ok()
}

/// Relies on the operating-system randomness behind `OsRng::fill_bytes`;
/// nothing is assumed of the bytes beyond their count.
#[verifier::external_body]
fn random_bytes(len: usize) -> (r: Vec<u8>)
    ensures
        r@.len() == len,
{
    let mut buf = vec![0u8; len];
    OsRng.fill_bytes(&mut buf);
    buf
}

/// Relies on argon2's `PasswordHasher::hash_password` with default
/// parameters: the hash depends on the passphrase and the salt alone,
/// is 32 bytes long by default, and the call succeeds for a 16-byte
/// salt (within the salt length bounds) and a password below the
/// algorithm's 2^32 - 1 length limit.
#[verifier::external_body]
fn argon2_derive(passphrase: &[u8], salt: &[u8]) -> (r: Vec<u8>)
    requires
        salt@.len() == 16,
        passphrase@.len() < 0x100000000,
    ensures
        r@ == kdf_of(passphrase@, salt@),
        r@.len() == 32,
{
    let salt_string = SaltString::encode_b64(salt)
        .expect("a 16-byte salt is within the salt length bound");
    let hashed = Argon2::default()
        .hash_password(passphrase, &salt_string)
        .expect("derivation with a valid salt and default parameters succeeds");
    let output = hashed.hash.expect("password hashing produces an output");
    output.as_bytes()[..32].to_vec()
}

/// Relies on `Aead::encrypt` of `Aes256Gcm`: the ciphertext is a
/// function of key, nonce and plaintext alone, carries a 16-byte tag
/// after the encrypted payload, and the call fails exactly when the
/// plaintext exceeds the cipher's 2^36-byte bound.
#[verifier::external_body]
fn aead_seal(key: &[u8], nonce: &[u8], plaintext: &[u8]) -> (r: Option<Vec<u8>>)
    requires
        key@.len() == 32,
        nonce@.len() == 12,
    ensures
        r is Some ==> r->0@ == aead_ct_of(key@, nonce@, plaintext@)
            && r->0@.len() == plaintext@.len() + 16,
        r is Some <==> plaintext@.len() <= SEAL_MAX,
{
    let cipher = Aes256Gcm::new(Key::<Aes256Gcm>::from_slice(key));
    cipher.encrypt(aes_gcm::Nonce::from_slice(nonce), plaintext).ok()
}

/// Relies on `Aead::decrypt` of `Aes256Gcm`: it returns a plaintext
/// exactly when the ciphertext is the sealing of that plaintext under
/// the same key and nonce (the integrity tag pins the pair down), and
/// never returns anything else.  The length check on decryption splits
/// the 16-byte tag off first and admits a tagless message up to
/// 2^36 + 16 bytes, so a returned plaintext is within that bound — 16
/// bytes wider than what `aead_seal` will ever produce.
#[verifier::external_body]
fn aead_open(key: &[u8], nonce: &[u8], ciphertext: &[u8]) -> (r: Option<Vec<u8>>)
    requires
        key@.len() == 32,
        nonce@.len() == 12,
    ensures
        r is Some ==> ciphertext@ == aead_ct_of(key@, nonce@, r->0@)
            && r->0@.len() <= SEAL_MAX + 16,
        forall|plaintext: Seq<u8>|
            ciphertext@ == aead_ct_of(key@, nonce@, plaintext) && plaintext.len() <= SEAL_MAX
                + 16 ==> r is Some && r->0@ == plaintext,
{
    let cipher = Aes256Gcm::new(Key::<Aes256Gcm>::from_slice(key));
    cipher.decrypt(aes_gcm::Nonce::from_slice(nonce), ciphertext).ok()
}

/// An envelope's three text fields seal `plaintext` under `pass`: the
/// salt encodes 16 bytes, the nonce 12, and the ciphertext is the
/// sealing of the plaintext under the key derived from (pass, salt).
pub open spec fn envelope_for(
    salt_text: Seq<char>,
    nonce_text: Seq<char>,
    ct_text: Seq<char>,
    pass: Seq<u8>,
    plaintext: Seq<u8>,
) -> bool {
    exists|salt: Seq<u8>, nonce: Seq<u8>|
        #![trigger b64_of(salt), b64_of(nonce)]
        salt.len() == 16 && nonce.len() == 12
            && salt_text == b64_of(salt)
            && nonce_text == b64_of(nonce)
            && ct_text == b64_of(aead_ct_of(kdf_of(pass, salt), nonce, plaintext))
}

/// `envelope_for`, read off an `EncryptedData` value.
pub open spec fn sealed_for(env: EncryptedData, pass: Seq<u8>, plaintext: Seq<u8>) -> bool {
    envelope_for(env.salt@, env.nonce@, env.ciphertext@, pass, plaintext)
}

struct CacheEntry {
    salt_text: String,
    salt_bytes: Vec<u8>,
    key: Vec<u8>,
}

/// Derives keys from the configured passphrase and caches them by the
/// salt's encoded text, so that decrypting under a salt seen before
/// never repeats the expensive derivation.
pub struct CryptoManager {
    passphrase: Option<String>,
    key_cache: Vec<CacheEntry>,
}

impl CryptoManager {
    /// The passphrase bytes that keys are derived from.
    pub closed spec fn pass_bytes(&self) -> Seq<u8> {
        encode_utf8(self.passphrase->0@)
    }

    /// Whether a passphrase is configured, and so encryption enabled.
    pub closed spec fn has_passphrase(&self) -> bool {
        self.passphrase is Some
    }

    /// How many salts have a cached key.
    pub closed spec fn cache_len(&self) -> nat {
        self.key_cache@.len()
    }

    /// Whether the cache holds a key for this salt text.
    pub closed spec fn salt_cached(&self, salt_text: Seq<char>) -> bool {
        exists|i: int|
            0 <= i < self.key_cache@.len() && self.key_cache@[i].salt_text@ == salt_text
    }

    spec fn entry_wf(&self, e: CacheEntry) -> bool {
        &&& e.salt_bytes@.len() == 16
        &&& e.salt_text@ == b64_of(e.salt_bytes@)
        &&& forall|b: Seq<u8>| e.salt_text@ == #[trigger] b64_of(b) ==> b == e.salt_bytes@
        &&& e.key@ == kdf_of(self.pass_bytes(), e.salt_bytes@)
        &&& e.key@.len() == 32
    }

    /// Every cached key belongs to the configured passphrase and to the
    /// 16 salt bytes that its salt text encodes; with no passphrase the
    /// cache is empty.
    pub closed spec fn wf(&self) -> bool {
        &&& self.passphrase is None ==> self.key_cache@.len() == 0
        &&& forall|i: int|
            0 <= i < self.key_cache@.len() ==> self.entry_wf(#[trigger] self.key_cache@[i])
        &&& self.passphrase is Some ==> encode_utf8(self.passphrase->0@).len() < 0x100000000
    }

    /// A manager with the given passphrase (or none) and an empty cache.
    pub fn new(passphrase: Option<String>) -> (r: Self)
        requires
            passphrase is Some ==> encode_utf8(passphrase->0@).len() < 0x100000000,
        ensures
            r.wf(),
            r.has_passphrase() == (passphrase is Some),
            passphrase is Some ==> r.pass_bytes() == encode_utf8(passphrase->0@),
            r.cache_len() == 0,
    {
        CryptoManager { passphrase, key_cache: Vec::new() }
    }

    /// Whether encryption is available: exactly when a passphrase is
    /// configured.
    pub fn is_encryption_enabled(&self) -> (r: bool)
        ensures
            r == self.has_passphrase(),
    {
        self.passphrase.is_some()
    }

    /// How many distinct salts hold a cached key; an instrumentation
    /// hook that observes whether a derivation repeated work.
    pub fn cached_salt_count(&self) -> (r: usize)
        ensures
            r == self.cache_len(),
    {
        self.key_cache.len()
    }

    /// Derive the 32-byte key for this salt text under the configured
    /// passphrase, from the cache when the salt was seen before.
    ///
    /// Two derivations for the same salt return identical bytes, and a
    /// derivation for a cached salt leaves the manager unchanged: the
    /// expensive computation is not repeated.
    pub fn derive_key(&mut self, salt: &str) -> (r: Result<Vec<u8>, CryptoError>)
        requires
            old(self).wf(),
        ensures
            final(self).wf(),
            final(self).has_passphrase() == old(self).has_passphrase(),
            final(self).pass_bytes() == old(self).pass_bytes(),
            old(self).salt_cached(salt@) ==> final(self).cache_len() == old(self).cache_len()
                && r is Ok,
            (r is Err && r->Err_0 is InvalidPassphrase) <==> !old(self).has_passphrase(),
            old(self).has_passphrase() ==> (r is Ok <==> exists|b: Seq<u8>|
                salt@ == #[trigger] b64_of(b) && b.len() == 16),
            r is Ok ==> r->Ok_0@.len() == 32 && final(self).salt_cached(salt@)
                && forall|b: Seq<u8>| salt@ == #[trigger] b64_of(b) && b.len() == 16
                    ==> r->Ok_0@ == kdf_of(final(self).pass_bytes(), b),
            r is Err && old(self).has_passphrase() ==> r->Err_0 is KeyDerivationFailed
                && final(self).cache_len() == old(self).cache_len(),
            final(self).cache_len() <= old(self).cache_len() + 1,
            forall|s: Seq<char>| old(self).salt_cached(s) ==> final(self).salt_cached(s),
    {
        let salt_owned: String = salt.to_owned();
        let n = self.key_cache.len();
        let mut i: usize = 0;
        while i < n
            invariant
                n == self.key_cache@.len(),
                i <= n,
                *self == *old(self),
                self.wf(),
                salt_owned@ == salt@,
                forall|j: int| 0 <= j < i ==> self.key_cache@[j].salt_text@ != salt@,
            decreases n - i,
        {
            if self.key_cache[i].salt_text == salt_owned {
                proof {
                    assert(self.entry_wf(self.key_cache@[i as int]));
                    assert(self.key_cache@[i as int].salt_text@ == salt@);
                    assert(self.salt_cached(salt@));
                    assert(self.key_cache@.len() > 0);
                    assert(self.passphrase is Some);
                }
                return Ok(self.key_cache[i].key.clone());
            }
            i += 1;
        }

        if self.passphrase.is_none() {
            return Err(CryptoError::InvalidPassphrase);
        }

        let salt_bytes = match b64_decode(salt) {
            Some(b) => b,
            None => {
                return Err(CryptoError::KeyDerivationFailed(
                    "the salt is not valid base64".to_owned(),
                ));
            },
        };
        if salt_bytes.len() != 16 {
            return Err(CryptoError::KeyDerivationFailed(
                "the salt does not decode to 16 bytes".to_owned(),
            ));
        }

        let passphrase_bytes = match &self.passphrase {
            Some(p) => p.as_str().as_bytes(),
            None => { return Err(CryptoError::InvalidPassphrase) },
        };
        let key = argon2_derive(passphrase_bytes, salt_bytes.as_slice());
        let entry = CacheEntry { salt_text: salt_owned, salt_bytes, key: key.clone() };
        self.key_cache.push(entry);
        proof {
            let n2 = self.key_cache@.len() as int;
            assert(self.key_cache@[n2 - 1].salt_text@ == salt@);
            assert(self.salt_cached(salt@));
            assert(self.pass_bytes() == old(self).pass_bytes());
            assert(self.entry_wf(self.key_cache@[n2 - 1]));
            assert forall|j: int| 0 <= j < n2 implies self.entry_wf(
                #[trigger] self.key_cache@[j],
            ) by {
                if j < n2 - 1 {
                    assert(self.key_cache@[j] == old(self).key_cache@[j]);
                    assert(old(self).entry_wf(old(self).key_cache@[j]));
                }
            }
            assert forall|s: Seq<char>| old(self).salt_cached(s) implies self.salt_cached(
                s,
            ) by {
                let j = choose|j: int|
                    0 <= j < old(self).key_cache@.len() && old(self).key_cache@[j].salt_text@
                        == s;
                assert(self.key_cache@[j].salt_text@ == s);
            }
        }
        Ok(key)
    }

    /// Encrypt a byte payload under a fresh random salt and a fresh
    /// random nonce, and return the self-contained envelope.
    ///
    /// On success the envelope seals exactly this payload under the
    /// configured passphrase, so that `decrypt` returns the payload
    /// unchanged; the new salt's key is left in the cache.  With no
    /// passphrase the call always fails with `InvalidPassphrase`.
    pub fn encrypt(&mut self, data: &[u8]) -> (r: Result<EncryptedData, CryptoError>)
        requires
            old(self).wf(),
        ensures
            final(self).wf(),
            final(self).has_passphrase() == old(self).has_passphrase(),
            final(self).pass_bytes() == old(self).pass_bytes(),
            (r is Err && r->Err_0 is InvalidPassphrase) <==> !old(self).has_passphrase(),
            old(self).has_passphrase() ==> (r is Ok <==> data@.len() <= SEAL_MAX),
            r is Ok ==> sealed_for(r->Ok_0, final(self).pass_bytes(), data@)
                && final(self).salt_cached(r->Ok_0.salt@),
            r is Ok ==> exists|ct: Seq<u8>|
                r->Ok_0.ciphertext@ == #[trigger] b64_of(ct) && ct.len() == data@.len() + 16,
            r is Err && old(self).has_passphrase() ==> r->Err_0 is EncryptionFailed,
            final(self).cache_len() <= old(self).cache_len() + 1,
            forall|s: Seq<char>| old(self).salt_cached(s) ==> final(self).salt_cached(s),
    {
        if self.passphrase.is_none() {
            return Err(CryptoError::InvalidPassphrase);
        }

        let salt = random_bytes(16);
        let salt_b64 = b64_encode(salt.as_slice());

        let key = match self.derive_key(salt_b64.as_str()) {
            Ok(k) => k,
            Err(e) => {
                proof {
                    assert(salt_b64@ == b64_of(salt@) && salt@.len() == 16);
                    assert(false);
                }
                return Err(e);
            },
        };

        let nonce = random_bytes(12);
        let ciphertext = match aead_seal(key.as_slice(), nonce.as_slice(), data) {
            Some(c) => c,
            None => {
                return Err(CryptoError::EncryptionFailed(
                    "the cipher refused the payload".to_owned(),
                ));
            },
        };

        let nonce_b64 = b64_encode(nonce.as_slice());
        let ct_b64 = b64_encode(ciphertext.as_slice());
        let envelope = EncryptedData { salt: salt_b64, nonce: nonce_b64, ciphertext: ct_b64 };
        proof {
            assert(envelope.ciphertext@ == b64_of(
                aead_ct_of(kdf_of(self.pass_bytes(), salt@), nonce@, data@),
            ));
            assert(sealed_for(envelope, self.pass_bytes(), data@));
        }
        Ok(envelope)
    }

    /// Decrypt an envelope, verifying the integrity tag; all-or-nothing.
    ///
    /// Exactly the payload that was sealed comes back: if the envelope
    /// seals some plaintext under the configured passphrase, that
    /// plaintext is returned (a round trip through `encrypt` loses
    /// nothing), and a returned plaintext is always one the envelope
    /// genuinely seals — altered contents are never returned.  With no
    /// passphrase the call always fails with `InvalidPassphrase`; a
    /// malformed salt fails with `KeyDerivationFailed`, and any other
    /// decode or tag failure with `DecryptionFailed`.
    pub fn decrypt(&mut self, encrypted_data: &EncryptedData) -> (r: Result<
        Vec<u8>,
        CryptoError,
    >)
        requires
            old(self).wf(),
        ensures
            final(self).wf(),
            final(self).has_passphrase() == old(self).has_passphrase(),
            final(self).pass_bytes() == old(self).pass_bytes(),
            (r is Err && r->Err_0 is InvalidPassphrase) <==> !old(self).has_passphrase(),
            r is Ok ==> sealed_for(*encrypted_data, final(self).pass_bytes(), r->Ok_0@)
                && r->Ok_0@.len() <= SEAL_MAX + 16,
            forall|plaintext: Seq<u8>|
                sealed_for(*encrypted_data, old(self).pass_bytes(), plaintext)
                    && plaintext.len() <= SEAL_MAX + 16 && old(self).has_passphrase() ==> r
                    is Ok && r->Ok_0@ == plaintext,
            (r is Err && r->Err_0 is KeyDerivationFailed) <==> (old(self).has_passphrase()
                && !(exists|b: Seq<u8>|
                    encrypted_data.salt@ == #[trigger] b64_of(b) && b.len() == 16)),
            r is Err && old(self).has_passphrase() ==> r->Err_0 is KeyDerivationFailed
                || r->Err_0 is DecryptionFailed,
            final(self).cache_len() <= old(self).cache_len() + 1,
            forall|s: Seq<char>| old(self).salt_cached(s) ==> final(self).salt_cached(s),
    {
        if self.passphrase.is_none() {
            return Err(CryptoError::InvalidPassphrase);
        }

        let key = match self.derive_key(encrypted_data.salt.as_str()) {
            Ok(k) => k,
            Err(e) => { return Err(e) },
        };

        let nonce_bytes = match b64_decode(encrypted_data.nonce.as_str()) {
            Some(b) => b,
            None => {
                return Err(CryptoError::DecryptionFailed(
                    "the nonce is not valid base64".to_owned(),
                ));
            },
        };
        if nonce_bytes.len() != 12 {
            return Err(CryptoError::DecryptionFailed(
                "the nonce does not decode to 12 bytes".to_owned(),
            ));
        }

        let ct_bytes = match b64_decode(encrypted_data.ciphertext.as_str()) {
            Some(b) => b,
            None => {
                return Err(CryptoError::DecryptionFailed(
                    "the ciphertext is not valid base64".to_owned(),
                ));
            },
        };

        match aead_open(key.as_slice(), nonce_bytes.as_slice(), ct_bytes.as_slice()) {
            Some(plaintext) => Ok(plaintext),
            None => Err(CryptoError::DecryptionFailed(
                "the integrity tag did not verify".to_owned(),
            )),
        }
    }
}

} // verus!
