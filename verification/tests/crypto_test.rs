use aes_gcm_siv::aead::Aead;
use aes_gcm_siv::KeyInit;
use passtool::{decrypt, encrypt, key_from_password, nonce_from_password, Error};
use sha2::{Digest, Sha256};

#[test]
fn main_password_encrypt_test() -> Result<(), Error> {
    let password = "super secret password";
    let message = Vec::from(b"Hello world!");
    let cypher = encrypt(&message, password)?;
    let message2 = decrypt(&cypher, password)?;
    assert_eq!(&message, &message2);
    Ok(())
}

#[test]
fn main_incorrect_password_encrypt_test2() -> Result<(), Error> {
    let password = "super secret password";
    let password2 = "super not secret password";
    let message = Vec::from(b"Hello world!");
    let cypher = encrypt(&message, password)?;
    let message2 = decrypt(&cypher, password2);
    assert!(message2.is_err());
    Ok(())
}

#[test]
fn password_encrypt_test() -> Result<(), Error> {
    let password = "super secret password";
    let message = Vec::from(b"Hello world!");
    let cypher = encrypt(&message, password)?;
    let message2 = decrypt(&cypher, password)?;
    assert_eq!(&message, &message2);
    Ok(())
}

#[test]
fn incorrect_password_encrypt_test2() -> Result<(), Error> {
    let password = "super secret password";
    let password2 = "super not secret password";
    let message = Vec::from(b"Hello world!");
    let cypher = encrypt(&message, password)?;
    let message2 = decrypt(&cypher, password2);
    assert!(message2.is_err());
    Ok(())
}

#[test]
fn nonce_derivation_matches_hash_test() {
    let mut hasher = Sha256::new();
    hasher.update("xd".as_bytes());
    hasher.update(b"nonce");
    let digest = hasher.finalize();
    let nonce = nonce_from_password("xd");
    assert_eq!(nonce.len(), 12);
    assert_eq!(nonce, digest[..12].to_vec());
}

#[test]
fn key_derivation_matches_hash_test() {
    let mut hasher = Sha256::new();
    hasher.update("xd".as_bytes());
    hasher.update(b"password");
    let digest = hasher.finalize();
    let key = key_from_password("xd");
    assert_eq!(key.len(), 32);
    assert_eq!(key, digest[..32].to_vec());
}

#[test]
fn derivation_is_deterministic_test() {
    assert_eq!(nonce_from_password("abc"), nonce_from_password("abc"));
    assert_eq!(key_from_password("abc"), key_from_password("abc"));
    assert_ne!(nonce_from_password("abc"), nonce_from_password("abd"));
    assert_ne!(key_from_password("abc"), key_from_password("abd"));
}

#[test]
fn encrypt_matches_cipher_test() {
    let password = "pw";
    let key = key_from_password(password);
    let nonce = nonce_from_password(password);
    let cipher = aes_gcm_siv::Aes256GcmSiv::new(aes_gcm_siv::Key::<
        aes_gcm_siv::Aes256GcmSiv,
    >::from_slice(&key));
    let direct = cipher
        .encrypt(aes_gcm_siv::Nonce::from_slice(&nonce), b"msg".as_ref())
        .unwrap();
    assert_eq!(encrypt(b"msg", password).unwrap(), direct);
}

#[test]
fn ciphertext_carries_tag_test() {
    let message = b"some bytes";
    let cypher = encrypt(message, "k").unwrap();
    assert_eq!(cypher.len(), message.len() + 16);
    assert_ne!(&cypher[..message.len()], &message[..]);
}
