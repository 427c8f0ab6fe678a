use vstd::prelude::*;

use crate::error::{Error, DECODE_FAILED, MALFORMED_RECORD};

verus! {

/// Number of decimal digits in a generated code.
pub const CODE_DIGITS: usize = 6;

/// Length of one TOTP time window, in seconds.
pub const TIME_STEP: u64 = 30;

/// The abstract content of a secret: its name and its Base32 seed text.
pub struct SecretView {
    pub name: Seq<char>,
    pub seed: Seq<char>,
}

/// A named TOTP seed.
#[derive(Clone, Debug, PartialEq, Eq)]
pub struct Secret {
    pub name: String,
    pub value: String,
}

impl View for Secret {
    type V = SecretView;

    open spec fn view(&self) -> SecretView {
        SecretView { name: self.name@, seed: self.value@ }
    }
}

/// `s` holds no character `c`.
pub open spec fn lacks(s: Seq<char>, c: char) -> bool {
    forall|j: int| 0 <= j < s.len() ==> s[j] != c
}

/// `k` is the position of the one and only tab in `s`.
pub open spec fn single_tab_at(s: Seq<char>, k: int) -> bool {
    &&& 0 <= k < s.len()
    &&& s[k] == '\t'
    &&& forall|j: int| 0 <= j < s.len() && j != k ==> s[j] != '\t'
}

/// A record line splits on tabs into exactly two parts.
pub open spec fn is_record(s: Seq<char>) -> bool {
    exists|k: int| single_tab_at(s, k)
}

/// The secret that a record line holds: the text before its tab and the text after it.
pub open spec fn record_of(s: Seq<char>) -> SecretView {
    let k = choose|k: int| single_tab_at(s, k);
    SecretView { name: s.take(k), seed: s.skip(k + 1) }
}

/// The record line of a secret: `name`, a tab, `seed`.
pub open spec fn line_of(v: SecretView) -> Seq<char> {
    v.name + seq!['\t'] + v.seed
}

/// What RFC 4648 Base32 decoding without padding gives for a text, `None` if it is no such encoding.
pub uninterp spec fn base32_decoded(s: Seq<char>) -> Option<Seq<u8>>;

/// The SHA-1 TOTP code of `digits` digits for `key` at time counter `counter`.
pub uninterp spec fn totp_code(key: Seq<u8>, digits: usize, counter: u64) -> Seq<char>;

/// The code that a seed gives at Unix time `now`, `None` if the seed does not decode.
pub open spec fn code_at(seed: Seq<char>, now: u64) -> Option<Seq<char>> {
    match base32_decoded(seed) {
        Some(key) => Some(totp_code(key, CODE_DIGITS, now / TIME_STEP)),
        None => None,
    }
}

pub open spec fn is_decimal_digit(c: char) -> bool {
    '0' <= c && c <= '9'
}

/// Relies on base32::decode with the RFC 4648 alphabet and no padding: the
/// result depends on the text alone.
#[verifier::external_body]
fn decode_base32(s: &str) -> (r: Option<Vec<u8>>)
    ensures
        match r {
            Some(b) => base32_decoded(s@) == Some(b@),
            None => base32_decoded(s@) is None,
        },
{
    base32::decode(base32::Alphabet::RFC4648 { padding: false }, s)
}

/// Relies on totp_rs::TOTP::generate with SHA-1: the code depends on the key,
/// the digit count and `time / step` alone, and is `digits` decimal digits
/// (the counter is `time / step`, the value is formatted zero-padded to `digits`).
#[verifier::external_body]
fn totp_generate(key: Vec<u8>, digits: usize, step: u64, time: u64) -> (r: String)
    requires
        1 <= digits <= 9,
        step > 0,
    ensures
        r@ == totp_code(key@, digits, time / step),
        r@.len() == digits,
        forall|i: int| 0 <= i < r@.len() ==> is_decimal_digit(#[trigger] r@[i]),
{
    totp_rs::TOTP::new(totp_rs::Algorithm::SHA1, digits, 1, step, key).generate(time)
}

impl Secret {
    pub fn new(name: String, value: String) -> (r: Self)
        ensures
            r@ == (SecretView { name: name@, seed: value@ }),
    {
        Secret { name, value }
    }

    pub fn seed(&self) -> (r: &str)
        ensures
            r@ == self@.seed,
    {
        self.value.as_str()
    }

    /// Reads a record line: exactly two tab-separated parts, taken verbatim.
    pub fn parse(input: &str) -> (r: Result<Self, Error>)
        ensures
            match r {
                Ok(s) => is_record(input@) && s@ == record_of(input@),
                Err(e) => !is_record(input@) && e.message@ == MALFORMED_RECORD@,
            },
    {
        let n = input.unicode_len();
        let mut tab: Option<usize> = None;
        let mut i: usize = 0;
        while i < n
            invariant
                n == input@.len(),
                i <= n,
                match tab {
                    None => forall|j: int| 0 <= j < i ==> input@[j] != '\t',
                    Some(k) => k < i && input@[k as int] == '\t' && forall|j: int|
                        0 <= j < i && j != k ==> input@[j] != '\t',
                },
            decreases n - i,
        {
            let c = input.get_char(i);
            if c == '\t' {
                if let Some(k) = tab {
                    proof {
                        assert forall|k2: int| !single_tab_at(input@, k2) by {
                            if k2 != k as int {
                                assert(input@[k as int] == '\t');
                            } else {
                                assert(input@[i as int] == '\t');
                            }
                        }
                    }
                    return Err(Error::from(MALFORMED_RECORD));
                }
                tab = Some(i);
            }
            i += 1;
        }
        match tab {
            None => {
                proof {
                    assert forall|k2: int| !single_tab_at(input@, k2) by {
                        if 0 <= k2 < input@.len() {
                            assert(input@[k2] != '\t');
                        }
                    }
                }
                Err(Error::from(MALFORMED_RECORD))
            },
            Some(k) => {
                assert(single_tab_at(input@, k as int));
                let name = input.substring_char(0, k);
                let seed = input.substring_char(k + 1, n);
                proof {
                    let k2 = choose|k2: int| single_tab_at(input@, k2);
                    assert(k2 == k as int) by {
                        if k2 != k as int {
                            assert(input@[k as int] == '\t');
                        }
                    }
                }
                Ok(Secret { name: name.to_owned(), value: seed.to_owned() })
            },
        }
    }

    /// The record line of this secret, without a line terminator.
    pub fn to_line(&self) -> (r: String)
        ensures
            r@ == line_of(self@),
    {
        let mut r = self.name.clone();
        r.append("\t");
        r.append(self.value.as_str());
        proof {
            reveal_strlit("\t");
        }
        r
    }

    /// The TOTP code of this secret's seed at Unix time `now`: SHA-1, six
    /// digits, thirty-second windows.
    pub fn generate(&self, now: u64) -> (r: Result<String, Error>)
        ensures
            match code_at(self@.seed, now) {
                Some(code) => r matches Ok(c) && c@ == code && c@.len() == CODE_DIGITS
                    && forall|i: int| 0 <= i < c@.len() ==> is_decimal_digit(#[trigger] c@[i]),
                None => r matches Err(e) && e.message@ == DECODE_FAILED@,
            },
    {
        match decode_base32(self.value.as_str()) {
            Some(key) => Ok(totp_generate(key, CODE_DIGITS, TIME_STEP, now)),
            None => Err(Error::from(DECODE_FAILED)),
        }
    }
}

/// A record line built from a name and a seed that hold no tab reads back as
/// that name and seed.
pub proof fn lemma_record_round_trip(v: SecretView)
    requires
        lacks(v.name, '\t'),
        lacks(v.seed, '\t'),
    ensures
        is_record(line_of(v)),
        record_of(line_of(v)) == v,
{
    let s = line_of(v);
    let k = v.name.len() as int;
    assert forall|j: int| 0 <= j < s.len() && j != k implies s[j] != '\t' by {
        if j < k {
            assert(s[j] == v.name[j]);
        } else {
            assert(s[j] == v.seed[j - k - 1]);
        }
    }
    assert(single_tab_at(s, k));
    let k2 = choose|k2: int| single_tab_at(s, k2);
    assert(k2 == k) by {
        if k2 != k {
            assert(s[k] == '\t');
        }
    }
    assert(s.take(k) =~= v.name);
    assert(s.skip(k + 1) =~= v.seed);
}

/// Two times in the same thirty-second window give the same code.
pub proof fn lemma_code_stable_within_window(seed: Seq<char>, t1: u64, t2: u64)
    requires
        t1 / TIME_STEP == t2 / TIME_STEP,
    ensures
        code_at(seed, t1) == code_at(seed, t2),
{
}

} // verus!
