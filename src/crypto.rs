use vstd::prelude::*;
use vstd::utf8::{decode_utf8, valid_utf8};

use sodiumoxide::crypto::{pwhash, secretbox};

verus! {

/// Length of a key-derivation salt, in bytes.
pub const SALT_BYTES: usize = 32;

/// Length of a sealing nonce, in bytes.
pub const NONCE_BYTES: usize = 24;

/// Length of a symmetric key, in bytes.
pub const KEY_BYTES: usize = 32;

#[verifier::external_type_specification]
#[verifier::external_body]
pub struct ExDecodeError(base64::DecodeError);

/// The key that the password hash derives from a salt and a password under
/// the given operation and memory limits.
pub uninterp spec fn derived_key(salt: Seq<u8>, password: Seq<char>, ops: usize, mem: usize) -> Seq<u8>;

/// The authenticated ciphertext of `message` under `nonce` and `key`.
pub uninterp spec fn sealed(message: Seq<u8>, nonce: Seq<u8>, key: Seq<u8>) -> Seq<u8>;

/// The padded standard base64 text of some bytes.
pub uninterp spec fn base64_encoded(b: Seq<u8>) -> Seq<char>;

/// What standard base64 decoding gives for a text, `None` if it is not base64.
pub uninterp spec fn base64_decoded(s: Seq<char>) -> Option<Seq<u8>>;

/// A character of the padded standard base64 alphabet.
pub open spec fn is_base64_char(c: char) -> bool {
    ('A' <= c && c <= 'Z') || ('a' <= c && c <= 'z') || ('0' <= c && c <= '9') || c == '+' || c
        == '/' || c == '='
}

/// Relies on sodiumoxide::crypto::pwhash::gen_salt: a random salt of
/// `SALTBYTES` (32) bytes.
#[verifier::external_body]
pub(crate) fn random_salt() -> (r: Vec<u8>)
    ensures
        r@.len() == SALT_BYTES,
{
    pwhash::gen_salt().0.to_vec()
}

/// Relies on sodiumoxide::crypto::pwhash::derive_key (scrypt): a key of
/// `KEYBYTES` (32) bytes that depends on salt, password bytes and limits
/// alone; `Err` when the computation does not complete.
#[verifier::external_body]
pub(crate) fn derive_key_bytes(salt: &Vec<u8>, password: &str, ops: usize, mem: usize) -> (r:
    Option<Vec<u8>>)
    requires
        salt@.len() == SALT_BYTES,
    ensures
        r matches Some(k) ==> k@ == derived_key(salt@, password@, ops, mem) && k@.len()
            == KEY_BYTES,
{
    let salt = pwhash::Salt::from_slice(salt.as_slice())?;
    let mut key = vec![0u8; secretbox::KEYBYTES];
    let (ops, mem) = (pwhash::OpsLimit(ops), pwhash::MemLimit(mem));
    pwhash::derive_key(&mut key, password.as_bytes(), &salt, ops, mem).ok()?;
    Some(key)
}

/// Relies on sodiumoxide::crypto::secretbox::gen_nonce: a random nonce of
/// `NONCEBYTES` (24) bytes.
#[verifier::external_body]
pub(crate) fn random_nonce() -> (r: Vec<u8>)
    ensures
        r@.len() == NONCE_BYTES,
{
    secretbox::gen_nonce().0.to_vec()
}

/// Relies on sodiumoxide::crypto::secretbox::seal (XSalsa20-Poly1305): the
/// ciphertext depends on message, nonce and key alone, and it determines the
/// message (tag followed by the message XOR the key stream).
#[verifier::external_body]
pub(crate) fn seal_bytes(message: &Vec<u8>, nonce: &Vec<u8>, key: &Vec<u8>) -> (r: Vec<u8>)
    requires
        nonce@.len() == NONCE_BYTES,
        key@.len() == KEY_BYTES,
    ensures
        r@ == sealed(message@, nonce@, key@),
        forall|m: Seq<u8>| sealed(m, nonce@, key@) == r@ ==> m == message@,
{
    let n = secretbox::Nonce::from_slice(nonce.as_slice()).unwrap();
    let k = secretbox::Key::from_slice(key.as_slice()).unwrap();
    secretbox::seal(message.as_slice(), &n, &k)
}

/// Relies on sodiumoxide::crypto::secretbox::open: it returns the message
/// whose seal under the nonce and key is the ciphertext (there is at most one),
/// and fails when there is none.
#[verifier::external_body]
pub(crate) fn open_bytes(ciphertext: &Vec<u8>, nonce: &Vec<u8>, key: &Vec<u8>) -> (r: Option<
    Vec<u8>,
>)
    requires
        nonce@.len() == NONCE_BYTES,
        key@.len() == KEY_BYTES,
    ensures
        match r {
            Some(m) => sealed(m@, nonce@, key@) == ciphertext@ && forall|m2: Seq<u8>|
                sealed(m2, nonce@, key@) == ciphertext@ ==> m2 == m@,
            None => forall|m: Seq<u8>| sealed(m, nonce@, key@) != ciphertext@,
        },
{
    let n = secretbox::Nonce::from_slice(nonce.as_slice()).unwrap();
    let k = secretbox::Key::from_slice(key.as_slice()).unwrap();
    secretbox::open(ciphertext.as_slice(), &n, &k).ok()
}

/// Relies on base64::encode (standard alphabet, padded): the text depends on
/// the bytes alone, uses only the base64 alphabet, and base64::decode gives
/// the bytes back from it.
#[verifier::external_body]
pub(crate) fn encode_base64(b: &Vec<u8>) -> (r: String)
    ensures
        r@ == base64_encoded(b@),
        base64_decoded(r@) == Some(b@),
        forall|i: int| 0 <= i < r@.len() ==> is_base64_char(#[trigger] r@[i]),
{
    base64::encode(b.as_slice())
}

/// Relies on base64::decode (standard alphabet): the result depends on the
/// text alone.
#[verifier::external_body]
pub(crate) fn decode_base64(s: &str) -> (r: Result<Vec<u8>, base64::DecodeError>)
    ensures
        match r {
            Ok(b) => base64_decoded(s@) == Some(b@),
            Err(_) => base64_decoded(s@) is None,
        },
{
    base64::decode(s)
}

/// Relies on std::string::String::from_utf8: it accepts exactly the valid
/// UTF-8 byte sequences, and decodes them.
#[verifier::external_body]
pub(crate) fn utf8_text(b: Vec<u8>) -> (r: Option<String>)
    ensures
        match r {
            Some(s) => valid_utf8(b@) && s@ == decode_utf8(b@),
            None => !valid_utf8(b@),
        },
{
    String::from_utf8(b).ok()
}

} // verus!
