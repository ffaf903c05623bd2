//! Key and nonce derivation from a passphrase, and authenticated encryption
//! of byte payloads under the derived pair.
//!
//! Both the 32-byte key and the 12-byte nonce are deterministic digests of
//! the passphrase followed by a short domain tag, so no per-entry salt or
//! nonce is ever stored.  Encryption is AES-256-GCM-SIV with no associated
//! data; a failing tag check on decryption is the sole signal of a wrong
//! passphrase.

use aes_gcm_siv::aead::Aead;
use aes_gcm_siv::KeyInit;
use sha2::Digest;

use crate::store::Error;
use vstd::prelude::*;
use vstd::utf8::encode_utf8;

verus! {

/// The largest payload the cipher accepts: 2^36 bytes.
pub const MAX_PLAINTEXT_LEN: u64 = 0x1000000000;

/// The SHA-256 digest of a byte sequence, as computed by the `sha2` crate.
pub uninterp spec fn sha256(data: Seq<u8>) -> Seq<u8>;

/// Relies on `sha2::Sha256::digest`: the 32-byte SHA-256 digest, a function
/// of the input bytes alone.
#[verifier::external_body]
fn sha256_digest(data: &[u8]) -> (r: Vec<u8>)
    ensures
        r@ == sha256(data@),
        r@.len() == 32,
{
    sha2::Sha256::digest(data).to_vec()
}

/// The domain tag appended to the passphrase before hashing it into a nonce:
/// the bytes of "nonce".
pub open spec fn nonce_tag() -> Seq<u8> {
    seq![0x6eu8, 0x6fu8, 0x6eu8, 0x63u8, 0x65u8]
}

/// The domain tag appended to the passphrase before hashing it into a key:
/// the bytes of "password".
pub open spec fn key_tag() -> Seq<u8> {
    seq![0x70u8, 0x61u8, 0x73u8, 0x73u8, 0x77u8, 0x6fu8, 0x72u8, 0x64u8]
}

/// The 12-byte nonce derived from a passphrase.
pub open spec fn derived_nonce(password: Seq<char>) -> Seq<u8> {
    sha256(encode_utf8(password) + nonce_tag()).subrange(0, 12)
}

/// The 32-byte key derived from a passphrase.
pub open spec fn derived_key(password: Seq<char>) -> Seq<u8> {
    sha256(encode_utf8(password) + key_tag()).subrange(0, 32)
}

/// Copies the first `n` bytes of `v`.
fn take_prefix(v: &Vec<u8>, n: usize) -> (r: Vec<u8>)
    requires
        n <= v@.len(),
    ensures
        r@ == v@.subrange(0, n as int),
{
    let mut r: Vec<u8> = Vec::new();
    let mut i: usize = 0;
    while i < n
        invariant
            i <= n <= v@.len(),
            r@ == v@.subrange(0, i as int),
        decreases n - i,
    {
        r.push(v[i]);
        i = i + 1;
        proof {
            assert(r@ =~= v@.subrange(0, i as int));
        }
    }
    r
}

/// Derives the 12-byte nonce for a passphrase: SHA-256 of the passphrase
/// bytes followed by the literal tag "nonce", truncated to 12 bytes.
pub fn nonce_from_password(password: &str) -> (r: Vec<u8>)
    ensures
        r@ == derived_nonce(password@),
        r@.len() == 12,
{
    let mut data: Vec<u8> = Vec::new();
    data.extend_from_slice(password.as_bytes());
    data.push(0x6e);
    data.push(0x6f);
    data.push(0x6e);
    data.push(0x63);
    data.push(0x65);
    proof {
        assert(data@ =~= encode_utf8(password@) + nonce_tag());
    }
    let digest = sha256_digest(data.as_slice());
    take_prefix(&digest, 12)
}

/// Derives the 32-byte key for a passphrase: SHA-256 of the passphrase bytes
/// followed by the literal tag "password", truncated to the cipher's key
/// length.
pub fn key_from_password(password: &str) -> (r: Vec<u8>)
    ensures
        r@ == derived_key(password@),
        r@.len() == 32,
{
    let mut data: Vec<u8> = Vec::new();
    data.extend_from_slice(password.as_bytes());
    data.push(0x70);
    data.push(0x61);
    data.push(0x73);
    data.push(0x73);
    data.push(0x77);
    data.push(0x6f);
    data.push(0x72);
    data.push(0x64);
    proof {
        assert(data@ =~= encode_utf8(password@) + key_tag());
    }
    let digest = sha256_digest(data.as_slice());
    take_prefix(&digest, 32)
}

/// The ciphertext (with its appended tag) that AES-256-GCM-SIV produces for
/// a key, nonce and plaintext; the cipher is deterministic, so this is a
/// function of the three alone.
pub uninterp spec fn aead_seal(key: Seq<u8>, nonce: Seq<u8>, plain: Seq<u8>) -> Seq<u8>;

/// What AES-256-GCM-SIV decryption returns for a key, nonce and ciphertext:
/// the recovered plaintext, or `None` when tag verification fails.
pub uninterp spec fn aead_open(key: Seq<u8>, nonce: Seq<u8>, cipher: Seq<u8>) -> Option<Seq<u8>>;

/// Relies on `aes_gcm_siv::Aes256GcmSiv` (`KeyInit::new`, `Aead::encrypt`)
/// with a 32-byte key, a 12-byte nonce and no associated data: encryption is
/// deterministic, succeeds exactly when the plaintext is at most 2^36 bytes,
/// and decryption of its output under the same key and nonce recovers the
/// plaintext.
#[verifier::external_body]
fn aead_encrypt(key: &[u8], nonce: &[u8], plain: &[u8]) -> (r: Result<Vec<u8>, ()>)
    requires
        key@.len() == 32,
        nonce@.len() == 12,
    ensures
        r is Ok <==> plain@.len() <= MAX_PLAINTEXT_LEN,
        (r matches Ok(c) ==> c@ == aead_seal(key@, nonce@, plain@) && aead_open(
            key@,
            nonce@,
            c@,
        ) == Some(plain@)),
{
    let cipher = aes_gcm_siv::Aes256GcmSiv::new(aes_gcm_siv::Key::<
        aes_gcm_siv::Aes256GcmSiv,
    >::from_slice(key));
    cipher.encrypt(aes_gcm_siv::Nonce::from_slice(nonce), plain).map_err(|_e| ())
}

/// Relies on `aes_gcm_siv::Aes256GcmSiv` (`KeyInit::new`, `Aead::decrypt`)
/// with a 32-byte key, a 12-byte nonce and no associated data: decryption
/// and tag verification are a deterministic function of key, nonce and
/// ciphertext, and fail whenever the tag does not verify.
#[verifier::external_body]
fn aead_decrypt(key: &[u8], nonce: &[u8], cipher_text: &[u8]) -> (r: Result<Vec<u8>, ()>)
    requires
        key@.len() == 32,
        nonce@.len() == 12,
    ensures
        (r matches Ok(p) ==> aead_open(key@, nonce@, cipher_text@) == Some(p@)),
        (r is Err ==> aead_open(key@, nonce@, cipher_text@) is None),
{
    let cipher = aes_gcm_siv::Aes256GcmSiv::new(aes_gcm_siv::Key::<
        aes_gcm_siv::Aes256GcmSiv,
    >::from_slice(key));
    cipher.decrypt(aes_gcm_siv::Nonce::from_slice(nonce), cipher_text).map_err(|_e| ())
}

/// The ciphertext stored for a plaintext encrypted under a passphrase.
pub open spec fn seal_with(password: Seq<char>, plain: Seq<u8>) -> Seq<u8> {
    aead_seal(derived_key(password), derived_nonce(password), plain)
}

/// What decryption under a passphrase yields for a stored ciphertext.
pub open spec fn open_with(password: Seq<char>, cipher: Seq<u8>) -> Option<Seq<u8>> {
    aead_open(derived_key(password), derived_nonce(password), cipher)
}

/// Encrypts a message under the key and nonce derived from the passphrase.
/// The ciphertext decrypts back to the message under the same passphrase.
/// Fails, with the internal-cipher kind, only beyond 2^36 bytes of input.
pub fn encrypt(message: &[u8], password: &str) -> (r: Result<Vec<u8>, Error>)
    ensures
        r is Ok <==> message@.len() <= MAX_PLAINTEXT_LEN,
        (r matches Ok(c) ==> c@ == seal_with(password@, message@) && open_with(password@, c@)
            == Some(message@)),
        (r matches Err(e) ==> e == Error::AES),
{
    let key = key_from_password(password);
    let nonce = nonce_from_password(password);
    match aead_encrypt(key.as_slice(), nonce.as_slice(), message) {
        Ok(c) => Ok(c),
        Err(_) => Err(Error::AES),
    }
}

/// Decrypts a message with the key and nonce derived from the passphrase,
/// failing exactly when tag verification fails — the sole sign of a wrong
/// passphrase.
pub fn decrypt(message: &[u8], password: &str) -> (r: Result<Vec<u8>, Error>)
    ensures
        (r matches Ok(p) ==> open_with(password@, message@) == Some(p@)),
        (r matches Err(e) ==> e == Error::IncorrectPass && open_with(password@, message@) is None),
{
    let key = key_from_password(password);
    let nonce = nonce_from_password(password);
    match aead_decrypt(key.as_slice(), nonce.as_slice(), message) {
        Ok(p) => Ok(p),
        Err(_) => Err(Error::IncorrectPass),
    }
}

} // verus!
