//! A small local secret store: named entries, each encrypted under a key and
//! nonce derived from a per-entry passphrase, with unencrypted metadata and a
//! length-prefixed binary persistence format.

pub mod codec;
pub mod crypto;
pub mod generator;
pub mod store;

pub use store::Error;
pub use store::PassTable;
pub use store::Password;
pub use store::PasswordMeta;

pub use crypto::decrypt;
pub use crypto::encrypt;
pub use crypto::key_from_password;
pub use crypto::nonce_from_password;
