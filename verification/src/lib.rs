//! An encrypted credential vault: service/username/secret records are kept in
//! memory as a `PasswordManager`, serialized through a canonical byte codec,
//! and persisted as a single AEAD-protected blob whose key is derived from a
//! master password and a 16-byte salt.

pub mod vault;
pub mod codec;
pub mod crypto;
pub mod store;



