use vstd::prelude::*;
use vstd::utf8::{
    decode_utf8, encode_utf8, encode_utf8_decode_utf8, encode_utf8_valid_utf8, valid_utf8,
};

use crate::crypto::{
    NONCE_BYTES, KEY_BYTES, SALT_BYTES, base64_decoded, base64_encoded, decode_base64,
    derive_key_bytes, derived_key, encode_base64, is_base64_char, open_bytes, random_nonce,
    random_salt, seal_bytes, sealed, utf8_text,
};
use crate::error::{
    Error, BAD_FIELD_LENGTH, DECODE_FAILED, INCORRECT_PIN, KEY_DERIVATION_FAILED,
    MALFORMED_RECORD, MISSING_FIELD, NOT_FOUND,
};
use crate::records::{
    all_records, lemma_split_fields, lemma_text_first, lemma_text_round_trip, lines_of,
    parse_secrets, records_of, records_text, split_on, split_text, storable, text_of, views_of,
};
use crate::secret::{Secret, SecretView, lacks, line_of};

verus! {

/// First character of an encrypted store, and separator of its fields.
pub const MARKER: char = '$';

/// Cost limits of the password hash.
#[derive(Clone, Copy, Debug, PartialEq, Eq)]
pub struct KdfLimits {
    pub ops: usize,
    pub mem: usize,
}

impl KdfLimits {
    /// The limits for highly sensitive data: 1 GiB of memory.
    pub fn sensitive() -> (r: Self)
        ensures
            r.ops == 33554432 && r.mem == 1073741824,
    {
        KdfLimits { ops: 33554432, mem: 1073741824 }
    }

    /// The baseline limits for interactive use: 16 MiB of memory.
    pub fn interactive() -> (r: Self)
        ensures
            r.ops == 524288 && r.mem == 16777216,
    {
        KdfLimits { ops: 524288, mem: 16777216 }
    }
}

/// The abstract content of a store.
pub enum StoreView {
    Plaintext(Seq<SecretView>),
    Encrypted(Seq<u8>, Seq<u8>, Seq<SecretView>),
}

/// A list of secrets, kept either as plain text or sealed under a key derived
/// from a password and a salt.
#[derive(Clone, Debug, PartialEq)]
pub enum Store {
    Plaintext(Vec<Secret>),
    /// Key, salt, secrets.
    Encrypted(Vec<u8>, Vec<u8>, Vec<Secret>),
}

impl View for Store {
    type V = StoreView;

    open spec fn view(&self) -> StoreView {
        match self {
            Store::Plaintext(ss) => StoreView::Plaintext(views_of(ss@)),
            Store::Encrypted(key, salt, ss) => StoreView::Encrypted(key@, salt@, views_of(ss@)),
        }
    }
}

/// The secrets of a store, whatever its state.
pub open spec fn secrets_of(st: StoreView) -> Seq<SecretView> {
    match st {
        StoreView::Plaintext(ss) => ss,
        StoreView::Encrypted(_, _, ss) => ss,
    }
}

/// The three decoded fields of an encrypted store.
pub struct Container {
    pub salt: Seq<u8>,
    pub nonce: Seq<u8>,
    pub body: Seq<u8>,
}

pub open spec fn starts_with_marker(s: Seq<char>) -> bool {
    s.len() > 0 && s[0] == MARKER
}

/// The fields of an encrypted store's text (`$salt$nonce$body`, base64), or the
/// message of the error it gives.
pub open spec fn container_of(s: Seq<char>) -> Result<Container, Seq<char>> {
    let f = split_on(s, MARKER);
    if f.len() < 4 {
        Err(MISSING_FIELD@)
    } else {
        match (base64_decoded(f[1]), base64_decoded(f[2]), base64_decoded(f[3])) {
            (Some(salt), Some(nonce), Some(body)) => {
                if salt.len() == SALT_BYTES && nonce.len() == NONCE_BYTES {
                    Ok(Container { salt, nonce, body })
                } else {
                    Err(BAD_FIELD_LENGTH@)
                }
            },
            _ => Err(DECODE_FAILED@),
        }
    }
}

/// What a plain text loads as.
pub open spec fn plain_load(s: Seq<char>) -> Result<StoreView, Seq<char>> {
    if all_records(lines_of(s)) {
        Ok(StoreView::Plaintext(records_of(lines_of(s))))
    } else {
        Err(MALFORMED_RECORD@)
    }
}

/// The secrets sealed in `body` under `nonce` and `key`, or the message of the
/// error that opening them gives.
pub open spec fn opened_secrets(body: Seq<u8>, nonce: Seq<u8>, key: Seq<u8>) -> Result<
    Seq<SecretView>,
    Seq<char>,
> {
    if exists|m: Seq<u8>| sealed(m, nonce, key) == body {
        let m = choose|m: Seq<u8>| sealed(m, nonce, key) == body;
        if !valid_utf8(m) {
            Err(DECODE_FAILED@)
        } else if all_records(lines_of(decode_utf8(m))) {
            Ok(records_of(lines_of(decode_utf8(m))))
        } else {
            Err(MALFORMED_RECORD@)
        }
    } else {
        Err(INCORRECT_PIN@)
    }
}

/// What an encrypted store's fields load as under `key`.
pub open spec fn unlock(c: Container, key: Seq<u8>) -> Result<StoreView, Seq<char>> {
    match opened_secrets(c.body, c.nonce, key) {
        Ok(ss) => Ok(StoreView::Encrypted(key, c.salt, ss)),
        Err(m) => Err(m),
    }
}

pub open spec fn result_view(r: Result<Store, Error>) -> Result<StoreView, Seq<char>> {
    match r {
        Ok(st) => Ok(st@),
        Err(e) => Err(e.message@),
    }
}

pub open spec fn secrets_result_view(r: Result<Vec<Secret>, Error>) -> Result<
    Seq<SecretView>,
    Seq<char>,
> {
    match r {
        Ok(v) => Ok(views_of(v@)),
        Err(e) => Err(e.message@),
    }
}

/// The bytes that are sealed for a secret list.
pub open spec fn plaintext_bytes(ss: Seq<SecretView>) -> Seq<u8> {
    encode_utf8(text_of(ss))
}

/// The text of an encrypted store: `$salt$nonce$body`, each base64.
pub open spec fn encrypted_text(salt: Seq<u8>, nonce: Seq<u8>, body: Seq<u8>) -> Seq<char> {
    seq![MARKER] + base64_encoded(salt) + seq![MARKER] + base64_encoded(nonce) + seq![MARKER]
        + base64_encoded(body)
}

/// `text` is the secret list `ss` sealed under `key` and `nonce`, written with
/// `salt` as an encrypted store whose fields decode back, and whose body opens
/// to nothing but that list.
pub open spec fn sealed_form(
    key: Seq<u8>,
    salt: Seq<u8>,
    ss: Seq<SecretView>,
    nonce: Seq<u8>,
    text: Seq<char>,
) -> bool {
    let body = sealed(plaintext_bytes(ss), nonce, key);
    &&& nonce.len() == NONCE_BYTES
    &&& encrypted_text(salt, nonce, body) == text
    &&& container_of(text) == Ok::<Container, Seq<char>>(Container { salt, nonce, body })
    &&& forall|m: Seq<u8>| sealed(m, nonce, key) == body ==> m == plaintext_bytes(ss)
}

/// `text` is `ss` sealed under `key` with some nonce, written with `salt`.
pub open spec fn sealed_as(key: Seq<u8>, salt: Seq<u8>, ss: Seq<SecretView>, text: Seq<char>) -> bool {
    exists|nonce: Seq<u8>| #[trigger] sealed_form(key, salt, ss, nonce, text)
}

/// `text` is a form in which the store can be saved: its record text, or
/// that text sealed under the store's key with some nonce.
pub open spec fn saves_as(st: StoreView, text: Seq<char>) -> bool {
    match st {
        StoreView::Plaintext(ss) => text == text_of(ss),
        StoreView::Encrypted(key, salt, ss) => sealed_as(key, salt, ss, text),
    }
}

/// `i` is the index of the first secret named `name`.
pub open spec fn is_first_named(ss: Seq<SecretView>, name: Seq<char>, i: int) -> bool {
    &&& 0 <= i < ss.len()
    &&& ss[i].name == name
    &&& forall|j: int| 0 <= j < i ==> ss[j].name != name
}

/// The index of the first secret named `name`.
pub open spec fn first_named(ss: Seq<SecretView>, name: Seq<char>) -> Option<int> {
    if exists|i: int| is_first_named(ss, name, i) {
        Some(choose|i: int| is_first_named(ss, name, i))
    } else {
        None
    }
}

/// Reads the fields of an encrypted store's text.
fn read_container(input: &str) -> (r: Result<(Vec<u8>, Vec<u8>, Vec<u8>), Error>)
    ensures
        match container_of(input@) {
            Ok(c) => r matches Ok(t) && t.0@ == c.salt && t.1@ == c.nonce && t.2@ == c.body,
            Err(m) => r matches Err(e) && e.message@ == m,
        },
{
    let fields = split_text(input, MARKER);
    if fields.len() < 4 {
        return Err(Error::from(MISSING_FIELD));
    }
    assert(fields@[1]@ == split_on(input@, MARKER)[1]);
    assert(fields@[2]@ == split_on(input@, MARKER)[2]);
    assert(fields@[3]@ == split_on(input@, MARKER)[3]);
    let salt = decode_base64(fields[1].as_str());
    let nonce = decode_base64(fields[2].as_str());
    let body = decode_base64(fields[3].as_str());
    match (salt, nonce, body) {
        (Ok(salt), Ok(nonce), Ok(body)) => {
            if salt.len() == SALT_BYTES && nonce.len() == NONCE_BYTES {
                Ok((salt, nonce, body))
            } else {
                Err(Error::from(BAD_FIELD_LENGTH))
            }
        },
        _ => Err(Error::from(DECODE_FAILED)),
    }
}

/// Opens a sealed secret list under a nonce and a key, and reads its records.
pub fn open_secrets(body: &Vec<u8>, nonce: &Vec<u8>, key: &Vec<u8>) -> (r: Result<
    Vec<Secret>,
    Error,
>)
    requires
        nonce@.len() == NONCE_BYTES,
        key@.len() == KEY_BYTES,
    ensures
        secrets_result_view(r) == opened_secrets(body@, nonce@, key@),
{
    match open_bytes(body, nonce, key) {
        None => Err(Error::from(INCORRECT_PIN)),
        Some(m) => {
            let ghost mv = m@;
            assert(sealed(mv, nonce@, key@) == body@);
            match utf8_text(m) {
                None => Err(Error::from(DECODE_FAILED)),
                Some(text) => parse_secrets(text.as_str()),
            }
        },
    }
}

/// Removes the first secret named `name`.
pub fn remove_secret(secrets: &mut Vec<Secret>, name: &String) -> (r: Result<(), Error>)
    ensures
        match first_named(views_of(old(secrets)@), name@) {
            Some(i) => r is Ok && final(secrets)@ == old(secrets)@.remove(i),
            None => r matches Err(e) && e.message@ == NOT_FOUND@ && final(secrets)@ == old(
                secrets,
            )@,
        },
{
    let ghost vs = views_of(secrets@);
    let mut i: usize = 0;
    while i < secrets.len()
        invariant
            secrets@ == old(secrets)@,
            vs == views_of(secrets@),
            i <= secrets.len(),
            forall|j: int| 0 <= j < i ==> vs[j].name != name@,
        decreases secrets.len() - i,
    {
        if secrets[i].name == *name {
            assert(is_first_named(vs, name@, i as int));
            let ghost k = choose|k: int| is_first_named(vs, name@, k);
            assert(k == i) by {
                if k > i {
                    assert(vs[i as int].name == name@);
                }
            }
            secrets.remove(i);
            return Ok(());
        }
        i += 1;
    }
    assert forall|k: int| !is_first_named(vs, name@, k) by {
        if 0 <= k < vs.len() {
            assert(vs[k].name != name@);
        }
    }
    Err(Error::from(NOT_FOUND))
}

/// The first secret named `name`.
pub fn find_secret<'a>(secrets: &'a Vec<Secret>, name: &String) -> (r: Option<&'a Secret>)
    ensures
        match first_named(views_of(secrets@), name@) {
            Some(i) => r matches Some(s) && *s == secrets@[i],
            None => r is None,
        },
{
    let ghost vs = views_of(secrets@);
    let mut i: usize = 0;
    while i < secrets.len()
        invariant
            vs == views_of(secrets@),
            i <= secrets.len(),
            forall|j: int| 0 <= j < i ==> vs[j].name != name@,
        decreases secrets.len() - i,
    {
        if secrets[i].name == *name {
            assert(is_first_named(vs, name@, i as int));
            let ghost k = choose|k: int| is_first_named(vs, name@, k);
            assert(k == i) by {
                if k > i {
                    assert(vs[i as int].name == name@);
                }
            }
            return Some(&secrets[i]);
        }
        i += 1;
    }
    assert forall|k: int| !is_first_named(vs, name@, k) by {
        if 0 <= k < vs.len() {
            assert(vs[k].name != name@);
        }
    }
    None
}

impl Store {
    pub open spec fn wf(&self) -> bool {
        match self {
            Store::Plaintext(_) => true,
            Store::Encrypted(key, salt, _) => key@.len() == KEY_BYTES && salt@.len() == SALT_BYTES,
        }
    }

    /// An empty plaintext store.
    pub fn new() -> (r: Self)
        ensures
            r@ == StoreView::Plaintext(Seq::empty()),
    {
        let v: Vec<Secret> = Vec::new();
        assert(views_of(v@) =~= Seq::<SecretView>::empty());
        Store::Plaintext(v)
    }

    /// Loads a store from its text, deriving the key with the sensitive limits.
    pub fn from_str(input: &str, passwd: impl Fn() -> String) -> (r: Result<Self, Error>)
        requires
            passwd.requires(()),
        ensures
            r matches Ok(st) ==> st.wf(),
            !starts_with_marker(input@) ==> result_view(r) == plain_load(input@),
            starts_with_marker(input@) ==> match container_of(input@) {
                Err(m) => r matches Err(e) && e.message@ == m,
                Ok(c) => (r matches Err(e) && e.message@ == KEY_DERIVATION_FAILED@) || exists|
                    p: String,
                | passwd.ensures((), p) && result_view(r) == unlock(
                    c,
                    derived_key(c.salt, p@, 33554432, 1073741824),
                ),
            },
    {
        Self::from_str_with_limits(input, passwd, KdfLimits::sensitive())
    }

    /// Loads a store from its text. A text that does not begin with the marker
    /// is a plain list of records; one that does holds a salt, a nonce and a
    /// sealed record list, opened under the key derived from `passwd()`.
    pub fn from_str_with_limits(input: &str, passwd: impl Fn() -> String, limits: KdfLimits) -> (r:
        Result<Self, Error>)
        requires
            passwd.requires(()),
        ensures
            r matches Ok(st) ==> st.wf(),
            !starts_with_marker(input@) ==> result_view(r) == plain_load(input@),
            starts_with_marker(input@) ==> match container_of(input@) {
                Err(m) => r matches Err(e) && e.message@ == m,
                Ok(c) => (r matches Err(e) && e.message@ == KEY_DERIVATION_FAILED@) || exists|
                    p: String,
                | passwd.ensures((), p) && result_view(r) == unlock(
                    c,
                    derived_key(c.salt, p@, limits.ops, limits.mem),
                ),
            },
    {
        let n = input.unicode_len();
        if n == 0 || input.get_char(0) != MARKER {
            return match parse_secrets(input) {
                Ok(v) => Ok(Store::Plaintext(v)),
                Err(e) => Err(e),
            };
        }
        let (salt, nonce, body) = match read_container(input) {
            Ok(t) => t,
            Err(e) => return Err(e),
        };
        let password = passwd();
        let key = match derive_key_bytes(&salt, password.as_str(), limits.ops, limits.mem) {
            Some(k) => k,
            None => return Err(Error::from(KEY_DERIVATION_FAILED)),
        };
        let r = match open_secrets(&body, &nonce, &key) {
            Ok(v) => Ok(Store::Encrypted(key, salt, v)),
            Err(e) => Err(e),
        };
        assert(passwd.ensures((), password));
        r
    }

    /// Brings the store into the encrypted state. A plaintext store, or an
    /// encrypted one when `force` is set, is sealed under a key derived from
    /// `passwd()` with a fresh salt, using the sensitive limits; the flag
    /// tells whether the store changed and must be saved.
    pub fn upgrade(self, passwd: impl Fn() -> String, force: bool) -> (r: Result<(Self, bool), Error>)
        requires
            passwd.requires(()),
        ensures
            (self@ is Encrypted && !force) ==> (r matches Ok((st, changed)) && st == self && !changed),
            !(self@ is Encrypted && !force) ==> (r matches Err(e) && e.message@
                == KEY_DERIVATION_FAILED@) || (r matches Ok((st, changed)) && changed && st.wf()
                && match st@ {
                StoreView::Encrypted(key, salt, ss) => ss == secrets_of(self@) && salt.len()
                    == SALT_BYTES && exists|p: String|
                    passwd.ensures((), p) && key == derived_key(salt, p@, 33554432, 1073741824),
                _ => false,
            }),
    {
        Self::upgrade_with_limits(self, passwd, force, KdfLimits::sensitive())
    }

    /// `upgrade` with the given key-derivation limits.
    pub fn upgrade_with_limits(self, passwd: impl Fn() -> String, force: bool, limits: KdfLimits) -> (r:
        Result<(Self, bool), Error>)
        requires
            passwd.requires(()),
        ensures
            (self@ is Encrypted && !force) ==> (r matches Ok((st, changed)) && st == self && !changed),
            !(self@ is Encrypted && !force) ==> (r matches Err(e) && e.message@
                == KEY_DERIVATION_FAILED@) || (r matches Ok((st, changed)) && changed && st.wf()
                && match st@ {
                StoreView::Encrypted(key, salt, ss) => ss == secrets_of(self@) && salt.len()
                    == SALT_BYTES && exists|p: String|
                    passwd.ensures((), p) && key == derived_key(salt, p@, limits.ops, limits.mem),
                _ => false,
            }),
    {
        match self {
            Store::Encrypted(key, salt, secrets) => {
                if force {
                    Self::seal_under_new_key(secrets, passwd, limits)
                } else {
                    Ok((Store::Encrypted(key, salt, secrets), false))
                }
            },
            Store::Plaintext(secrets) => Self::seal_under_new_key(secrets, passwd, limits),
        }
    }

    fn seal_under_new_key(secrets: Vec<Secret>, passwd: impl Fn() -> String, limits: KdfLimits) -> (r:
        Result<(Self, bool), Error>)
        requires
            passwd.requires(()),
        ensures
            (r matches Err(e) && e.message@ == KEY_DERIVATION_FAILED@) || (r matches Ok((st, changed))
                && changed && st.wf() && match st@ {
                StoreView::Encrypted(key, salt, ss) => ss == views_of(secrets@) && salt.len()
                    == SALT_BYTES && exists|p: String|
                    passwd.ensures((), p) && key == derived_key(salt, p@, limits.ops, limits.mem),
                _ => false,
            }),
    {
        let salt = random_salt();
        let password = passwd();
        match derive_key_bytes(&salt, password.as_str(), limits.ops, limits.mem) {
            Some(key) => {
                assert(passwd.ensures((), password));
                Ok((Store::Encrypted(key, salt, secrets), true))
            },
            None => Err(Error::from(KEY_DERIVATION_FAILED)),
        }
    }

    /// The text to persist. A plaintext store gives its record text; an
    /// encrypted one seals that text under its key with a fresh nonce and
    /// gives `$salt$nonce$ciphertext`, each base64.
    pub fn to_string(self) -> (r: String)
        requires
            self.wf(),
        ensures
            saves_as(self@, r@),
    {
        match &self {
            Store::Plaintext(secrets) => records_text(secrets),
            Store::Encrypted(key, salt, secrets) => {
                let contents = records_text(secrets);
                let plaintext = contents.as_str().as_bytes_vec();
                let nonce = random_nonce();
                let ciphertext = seal_bytes(&plaintext, &nonce, key);
                let salt_text = encode_base64(salt);
                let nonce_text = encode_base64(&nonce);
                let body_text = encode_base64(&ciphertext);
                let mut out = String::new();
                out.append("$");
                out.append(salt_text.as_str());
                out.append("$");
                out.append(nonce_text.as_str());
                out.append("$");
                out.append(body_text.as_str());
                proof {
                    reveal_strlit("$");
                    let ss = views_of(secrets@);
                    assert(plaintext@ == plaintext_bytes(ss));
                    assert forall|t: Seq<char>|
                        (forall|i: int| 0 <= i < t.len() ==> is_base64_char(#[trigger] t[i]))
                        implies lacks(t, MARKER) by {
                        assert forall|j: int| 0 <= j < t.len() implies t[j] != MARKER by {
                            assert(is_base64_char(t[j]));
                        }
                    }
                    lemma_split_fields(salt_text@, nonce_text@, body_text@, MARKER);
                    assert(out@ =~= encrypted_text(salt@, nonce@, ciphertext@));
                    let f = split_on(out@, MARKER);
                    assert(f[1] == salt_text@);
                    assert(f[2] == nonce_text@);
                    assert(f[3] == body_text@);
                    assert(container_of(out@) == Ok::<Container, Seq<char>>(
                        Container { salt: salt@, nonce: nonce@, body: ciphertext@ },
                    ));
                    assert(sealed_form(key@, salt@, ss, nonce@, out@));
                }
                out
            },
        }
    }

    /// The secrets, whatever the state.
    pub fn secrets(&self) -> (r: &Vec<Secret>)
        ensures
            views_of(r@) == secrets_of(self@),
    {
        match self {
            Store::Plaintext(s) => s,
            Store::Encrypted(_, _, s) => s,
        }
    }

    /// The secrets, for changing them in place; the state and its key and
    /// salt stay as they are.
    pub fn secrets_mut(&mut self) -> (r: &mut Vec<Secret>)
        ensures
            views_of(r@) == secrets_of(old(self)@),
            match *old(self) {
                Store::Plaintext(_) => *final(self) == Store::Plaintext(*final(r)),
                Store::Encrypted(key, salt, _) => *final(self) == Store::Encrypted(
                    key,
                    salt,
                    *final(r),
                ),
            },
    {
        match self {
            Store::Plaintext(s) => s,
            Store::Encrypted(_, _, s) => s,
        }
    }
}

/// A plaintext store whose secrets are storable, and whose first name does not
/// begin with the marker, loads back from its saved text as the same store.
pub proof fn lemma_plaintext_round_trip(ss: Seq<SecretView>, text: Seq<char>)
    requires
        saves_as(StoreView::Plaintext(ss), text),
        forall|i: int| 0 <= i < ss.len() ==> storable(#[trigger] ss[i]),
        ss.len() > 0 ==> ss[0].name.len() == 0 || ss[0].name[0] != MARKER,
    ensures
        !starts_with_marker(text),
        plain_load(text) == Ok::<StoreView, Seq<char>>(StoreView::Plaintext(ss)),
{
    lemma_text_round_trip(ss);
    if ss.len() > 0 {
        lemma_text_first(ss);
        if ss[0].name.len() > 0 {
            assert(line_of(ss[0])[0] == ss[0].name[0]);
        } else {
            assert(line_of(ss[0])[0] == '\t');
        }
    }
}

/// An encrypted store with storable secrets, saved to any text that `to_string`
/// may give, loads back under its own key as the same store.
pub proof fn lemma_encrypted_round_trip(
    key: Seq<u8>,
    salt: Seq<u8>,
    ss: Seq<SecretView>,
    text: Seq<char>,
)
    requires
        saves_as(StoreView::Encrypted(key, salt, ss), text),
        forall|i: int| 0 <= i < ss.len() ==> storable(#[trigger] ss[i]),
    ensures
        starts_with_marker(text),
        container_of(text) matches Ok(c) && c.salt == salt && unlock(c, key) == Ok::<
            StoreView,
            Seq<char>,
        >(StoreView::Encrypted(key, salt, ss)),
{
    let nonce = choose|nonce: Seq<u8>| sealed_form(key, salt, ss, nonce, text);
    let body = sealed(plaintext_bytes(ss), nonce, key);
    assert(text[0] == MARKER);
    let m = plaintext_bytes(ss);
    assert(sealed(m, nonce, key) == body);
    let m2 = choose|m2: Seq<u8>| sealed(m2, nonce, key) == body;
    assert(m2 == m);
    encode_utf8_valid_utf8(text_of(ss));
    encode_utf8_decode_utf8(text_of(ss));
    lemma_text_round_trip(ss);
}

/// A load under a key is never corrupted-but-accepted: when it succeeds, the
/// body is the seal, under that key, of the text whose records it returns.
pub proof fn lemma_unlock_is_authentic(c: Container, key: Seq<u8>, st: StoreView)
    requires
        unlock(c, key) == Ok::<StoreView, Seq<char>>(st),
    ensures
        exists|m: Seq<u8>|
            #[trigger] sealed(m, c.nonce, key) == c.body && valid_utf8(m) && st
                == StoreView::Encrypted(key, c.salt, records_of(lines_of(decode_utf8(m)))),
{
    let m = choose|m: Seq<u8>| sealed(m, c.nonce, key) == c.body;
    assert(sealed(m, c.nonce, key) == c.body);
}

} // verus!
