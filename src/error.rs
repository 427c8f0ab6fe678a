use vstd::prelude::*;

verus! {

/// A record does not split into exactly a name and a seed.
pub const MALFORMED_RECORD: &'static str = "secret contains wrong number of parts";

/// The encrypted container lacks one of its fields.
pub const MISSING_FIELD: &'static str = "encrypted store is missing a field";

/// A salt or nonce of the encrypted container has the wrong length.
pub const BAD_FIELD_LENGTH: &'static str = "encrypted store field has the wrong length";

/// A base64 field, a base32 seed or an opened plaintext could not be decoded.
pub const DECODE_FAILED: &'static str = "failed to decode";

/// The sealed body did not authenticate under the derived key.
pub const INCORRECT_PIN: &'static str = "Incorrect PIN!";

/// Key derivation did not complete.
pub const KEY_DERIVATION_FAILED: &'static str = "key derivation failed";

/// No secret carries the requested name.
pub const NOT_FOUND: &'static str = "no secret found";

/// An error with a human-readable message.
#[derive(Debug)]
pub struct Error {
    pub message: String,
}

impl Error {
    pub fn from(message: &str) -> (r: Self)
        ensures
            r.message@ == message@,
    {
        Error { message: String::from_str(message) }
    }

    pub fn message(&self) -> (r: &str)
        ensures
            r@ == self.message@,
    {
        self.message.as_str()
    }
}

} // verus!
