//! A local store for TOTP seeds: a one-line text record per secret, an
//! optional password-sealed container around the record list, and code
//! generation from a seed and a time.

pub mod error;
pub mod secret;
pub mod records;
pub mod crypto;
pub mod store;
