//! The settings kept in `config.json`: the vault folder and the DeepSeek API
//! key, kept protected and written in hexadecimal. Reading and writing the
//! file is left to the application; here is what is put in it and what is
//! made of it.

use vstd::prelude::*;
use crate::text::{chars_of, string_of};
use vstd::utf8::{decode_utf8, encode_utf8, valid_utf8};

verus! {

/// The settings of the application.
#[derive(Clone, Debug)]
pub struct Config {
    pub vault_path: Option<String>,
    /// The API key in plain text, as older versions wrote it; it is replaced
    /// by `api_key_enc` at the first read.
    pub api_key: Option<String>,
    /// The protected API key, in hexadecimal.
    pub api_key_enc: Option<String>,
}

impl Default for Config {
    /// The settings of a fresh installation: nothing set.
    fn default() -> (r: Config)
        ensures
            r.vault_path is None,
            r.api_key is None,
            r.api_key_enc is None,
    {
        Config::empty()
    }
}

impl Config {
    /// The settings of a fresh installation: nothing set.
    pub fn empty() -> (r: Config)
        ensures
            r.vault_path is None,
            r.api_key is None,
            r.api_key_enc is None,
    {
        Config { vault_path: None, api_key: None, api_key_enc: None }
    }
}

/// Why the API key could not be saved.
#[derive(Clone, Copy, Debug, PartialEq, Eq, Structural)]
pub enum SettingsError {
    /// Unprotecting the protected key did not give the key back.
    RoundtripMismatch,
}

impl SettingsError {
    /// The message shown for the error.
    pub fn message(&self) -> (r: String)
        ensures
            r@ == "verificação DPAPI falhou: decifrado difere do original"@,
    {
        String::from_str("verificação DPAPI falhou: decifrado difere do original")
    }
}

/// The lowercase hexadecimal digit of `n` (below 16).
pub open spec fn hex_digit(n: int) -> char {
    if n < 10 {
        ((48 + n) as u8) as char
    } else {
        ((87 + n) as u8) as char
    }
}

/// The bytes in lowercase hexadecimal, two digits per byte (`{:02x}`).
pub open spec fn hex_of(bytes: Seq<u8>) -> Seq<char>
    decreases bytes.len(),
{
    if bytes.len() == 0 {
        Seq::<char>::empty()
    } else {
        hex_of(bytes.drop_last()) + seq![
            hex_digit(bytes.last() as int / 16),
            hex_digit(bytes.last() as int % 16),
        ]
    }
}

/// The value of a hexadecimal digit, either case.
pub open spec fn hex_value(c: char) -> Option<int> {
    if '0' <= c && c <= '9' {
        Some(c as int - 48)
    } else if 'a' <= c && c <= 'f' {
        Some(c as int - 87)
    } else if 'A' <= c && c <= 'F' {
        Some(c as int - 55)
    } else {
        None
    }
}

/// The byte written by two characters as `u8::from_str_radix(.., 16)`
/// reads them: two hexadecimal digits, or a plus sign then one digit.
pub open spec fn pair_value(a: char, b: char) -> Option<u8> {
    match hex_value(b) {
        None => None,
        Some(lo) => if a == '+' {
            Some(lo as u8)
        } else {
            match hex_value(a) {
                Some(hi) => Some((hi * 16 + lo) as u8),
                None => None,
            }
        },
    }
}

/// The bytes written by the first `k` pairs of characters of `s`.
pub open spec fn decode_pairs(s: Seq<char>, k: nat) -> Option<Seq<u8>>
    decreases k,
{
    if k == 0 {
        Some(Seq::<u8>::empty())
    } else {
        match decode_pairs(s, (k - 1) as nat) {
            None => None,
            Some(v) => match pair_value(s[2 * k - 2], s[2 * k - 1]) {
                Some(b) => Some(v.push(b)),
                None => None,
            },
        }
    }
}

/// The bytes written in hexadecimal by `s`, two characters per byte; `None`
/// when the length is odd or a pair is not a byte.
pub open spec fn hex_decoded(s: Seq<char>) -> Option<Seq<u8>> {
    if s.len() % 2 != 0 {
        None
    } else {
        decode_pairs(s, s.len() / 2)
    }
}

fn hex_digit_exec(n: u8) -> (r: char)
    requires
        n < 16,
    ensures
        r == hex_digit(n as int),
{
    if n < 10 {
        (48u8 + n) as char
    } else {
        (87u8 + n) as char
    }
}

fn hex_value_exec(c: char) -> (r: Option<u8>)
    ensures
        r matches Some(v) ==> hex_value(c) == Some(v as int),
        r is None ==> hex_value(c) is None,
{
    if '0' <= c && c <= '9' {
        Some(((c as u32) - 48) as u8)
    } else if 'a' <= c && c <= 'f' {
        Some(((c as u32) - 87) as u8)
    } else if 'A' <= c && c <= 'F' {
        Some(((c as u32) - 55) as u8)
    } else {
        None
    }
}

/// The bytes in lowercase hexadecimal.
pub fn hex_encode(bytes: &[u8]) -> (r: String)
    ensures
        r@ == hex_of(bytes@),
{
    let mut out: Vec<char> = Vec::new();
    let mut i: usize = 0;
    assert(bytes@.take(0) =~= Seq::<u8>::empty());
    while i < bytes.len()
        invariant
            i <= bytes.len(),
            out@ == hex_of(bytes@.take(i as int)),
        decreases bytes.len() - i,
    {
        assert(bytes@.take(i + 1).drop_last() =~= bytes@.take(i as int));
        let b = bytes[i];
        out.push(hex_digit_exec(b / 16));
        out.push(hex_digit_exec(b % 16));
        i += 1;
        assert(out@ =~= hex_of(bytes@.take(i as int)));
    }
    assert(bytes@.take(bytes.len() as int) =~= bytes@);
    string_of(&out)
}

/// The bytes written in hexadecimal by `s`; `None` when its length is odd or
/// a pair of characters is not a byte.
pub fn hex_decode(s: &str) -> (r: Option<Vec<u8>>)
    ensures
        r matches Some(v) ==> hex_decoded(s@) == Some(v@),
        r is None ==> hex_decoded(s@) is None,
{
    let c = chars_of(s);
    if c.len() % 2 != 0 {
        return None;
    }
    let n = c.len() / 2;
    let mut out: Vec<u8> = Vec::new();
    let mut k: usize = 0;
    while k < n
        invariant
            k <= n,
            n == c@.len() / 2,
            c@ == s@,
            c@.len() % 2 == 0,
            decode_pairs(c@, k as nat) == Some(out@),
        decreases n - k,
    {
        let a = c[2 * k];
        let b = c[2 * k + 1];
        let lo = match hex_value_exec(b) {
            Some(v) => v,
            None => {
                proof {
                    lemma_decode_pairs_none(c@, (k + 1) as nat, n as nat);
                }
                return None;
            },
        };
        let byte = if a == '+' {
            lo
        } else {
            match hex_value_exec(a) {
                Some(hi) => hi * 16 + lo,
                None => {
                    proof {
                        lemma_decode_pairs_none(c@, (k + 1) as nat, n as nat);
                    }
                    return None;
                },
            }
        };
        out.push(byte);
        k += 1;
    }
    Some(out)
}

proof fn lemma_decode_pairs_none(s: Seq<char>, k: nat, n: nat)
    requires
        k <= n,
        decode_pairs(s, k) is None,
    ensures
        decode_pairs(s, n) is None,
    decreases n - k,
{
    if k < n {
        lemma_decode_pairs_none(s, k + 1, n);
    }
}

proof fn lemma_hex_pair(b: u8)
    ensures
        pair_value(hex_digit(b as int / 16), hex_digit(b as int % 16)) == Some(b),
{
    let hi = b as int / 16;
    let lo = b as int % 16;
    assert(0 <= hi < 16 && 0 <= lo < 16);
    assert(hi * 16 + lo == b as int);
    let ch = hex_digit(hi);
    let cl = hex_digit(lo);
    assert(hex_value(ch) == Some(hi));
    assert(hex_value(cl) == Some(lo));
    assert(ch != '+');
}

#[verifier::spinoff_prover]
proof fn lemma_hex_prefix(bytes: Seq<u8>, k: nat)
    requires
        k <= bytes.len(),
    ensures
        hex_of(bytes).len() == 2 * bytes.len(),
        decode_pairs(hex_of(bytes), k) == Some(bytes.take(k as int)),
    decreases bytes.len(), k,
{
    if bytes.len() == 0 {
        assert(bytes.take(0) =~= Seq::<u8>::empty());
    } else {
        let d = bytes.drop_last();
        lemma_hex_prefix(d, 0);
        if k == 0 {
            assert(bytes.take(0) =~= Seq::<u8>::empty());
        } else {
            lemma_hex_prefix(bytes, (k - 1) as nat);
            let h = hex_of(bytes);
            if k < bytes.len() {
                lemma_hex_prefix(d, k);
                lemma_hex_prefix(d, (k - 1) as nat);
                assert(h[2 * k - 2] == hex_of(d)[2 * k - 2]);
                assert(h[2 * k - 1] == hex_of(d)[2 * k - 1]);
                lemma_decode_pairs_prefix(h, hex_of(d), k);
                assert(d.take(k as int) =~= bytes.take(k as int));
            } else {
                lemma_hex_pair(bytes.last());
                assert(h[2 * k - 2] == hex_digit(bytes.last() as int / 16));
                assert(h[2 * k - 1] == hex_digit(bytes.last() as int % 16));
                assert(bytes.take(k - 1) =~= d);
                assert(bytes.take(k as int) =~= d.push(bytes.last()));
            }
        }
    }
}

proof fn lemma_decode_pairs_prefix(s: Seq<char>, t: Seq<char>, k: nat)
    requires
        2 * k <= s.len(),
        2 * k <= t.len(),
        forall|i: int| 0 <= i < 2 * k ==> s[i] == t[i],
    ensures
        decode_pairs(s, k) == decode_pairs(t, k),
    decreases k,
{
    if k > 0 {
        lemma_decode_pairs_prefix(s, t, (k - 1) as nat);
        assert(s[2 * k - 2] == t[2 * k - 2]);
        assert(s[2 * k - 1] == t[2 * k - 1]);
    }
}

/// Decoding what `hex_encode` wrote gives the bytes back.
pub proof fn lemma_hex_roundtrip(bytes: Seq<u8>)
    ensures
        hex_decoded(hex_of(bytes)) == Some(bytes),
{
    lemma_hex_prefix(bytes, bytes.len());
    assert(bytes.take(bytes.len() as int) =~= bytes);
    assert(hex_of(bytes).len() % 2 == 0);
    assert(hex_of(bytes).len() / 2 == bytes.len());
}

/// The text of UTF-8 bytes (`String::from_utf8`): `None` exactly when the
/// bytes are not valid UTF-8, as the standard library documents.
#[verifier::external_body]
fn utf8_string(bytes: Vec<u8>) -> (r: Option<String>)
    ensures
        r is Some <==> valid_utf8(bytes@),
        r matches Some(s) ==> s@ == decode_utf8(bytes@),
{
    String::from_utf8(bytes).ok()
}

/// The settings with the API key stored protected: the plain-text key of
/// older versions removed and `api_key_enc` set to `blob`, the key as the
/// platform's data protection gave it, in hexadecimal. Refused unless
/// `unprotected`, what unprotecting `blob` gave back, is the key's UTF-8.
pub fn save_api_key(config: Config, key: &str, blob: &[u8], unprotected: &[u8]) -> (r: Result<
    Config,
    SettingsError,
>)
    ensures
        r is Ok <==> unprotected@ == encode_utf8(key@),
        r matches Ok(c) ==> c.vault_path == config.vault_path && c.api_key is None && (
        c.api_key_enc matches Some(e) && e@ == hex_of(blob@)),
        r matches Err(e) ==> e is RoundtripMismatch,
{
    let bytes = key.as_bytes_vec();
    let back = slice_to_vec(unprotected);
    if !bytes_eq(&back, &bytes) {
        return Err(SettingsError::RoundtripMismatch);
    }
    let enc = hex_encode(blob);
    Ok(Config { vault_path: config.vault_path, api_key: None, api_key_enc: Some(enc) })
}

fn slice_to_vec(data: &[u8]) -> (r: Vec<u8>)
    ensures
        r@ == data@,
{
    let mut out: Vec<u8> = Vec::new();
    let mut i: usize = 0;
    while i < data.len()
        invariant
            i <= data.len(),
            out@ == data@.take(i as int),
        decreases data.len() - i,
    {
        out.push(data[i]);
        i += 1;
    }
    assert(data@.take(data.len() as int) =~= data@);
    out
}

fn bytes_eq(a: &Vec<u8>, b: &Vec<u8>) -> (r: bool)
    ensures
        r == (a@ == b@),
{
    if a.len() != b.len() {
        return false;
    }
    let mut i: usize = 0;
    while i < a.len()
        invariant
            a.len() == b.len(),
            i <= a.len(),
            forall|j: int| 0 <= j < i ==> a@[j] == b@[j],
        decreases a.len() - i,
    {
        if a[i] != b[i] {
            return false;
        }
        i += 1;
    }
    assert(a@ =~= b@);
    true
}

/// What the settings give for the API key.
#[derive(Clone, Debug)]
pub enum ApiKeyLookup {
    /// The protected key, as the platform's data protection gave it.
    Protected(Vec<u8>),
    /// A protected key that is not hexadecimal: the user has to set the key
    /// again.
    Undecryptable,
    /// A plain-text key of an older version, to be stored protected.
    Legacy(String),
    /// No key.
    Missing,
}

/// Reads the API key from the settings: the protected key when there is
/// one (or `Undecryptable` when it is not hexadecimal), else the plain-text
/// key of an older version, else `Missing`.
pub fn load_api_key(config: &Config) -> (r: ApiKeyLookup)
    ensures
        match config.api_key_enc {
            Some(enc) => match hex_decoded(enc@) {
                Some(b) => (r matches ApiKeyLookup::Protected(v) && v@ == b),
                None => r is Undecryptable,
            },
            None => match config.api_key {
                Some(p) => (r matches ApiKeyLookup::Legacy(l) && l@ == p@),
                None => r is Missing,
            },
        },
{
    match &config.api_key_enc {
        Some(enc) => match hex_decode(enc.as_str()) {
            Some(b) => ApiKeyLookup::Protected(b),
            None => ApiKeyLookup::Undecryptable,
        },
        None => match &config.api_key {
            Some(p) => ApiKeyLookup::Legacy(p.clone()),
            None => ApiKeyLookup::Missing,
        },
    }
}

/// The API key in the bytes that unprotecting the stored key gave back;
/// `None` when they are not UTF-8 (a key that cannot be read back).
pub fn key_of_unprotected(bytes: Vec<u8>) -> (r: Option<String>)
    ensures
        r is Some <==> valid_utf8(bytes@),
        r matches Some(k) ==> k@ == decode_utf8(bytes@),
{
    utf8_string(bytes)
}

/// A key saved by `save_api_key` reads back: `load_api_key` gives the stored
/// protected bytes again, and the bytes that unprotect them, which
/// `save_api_key` checked to be the key's UTF-8, are read as the key.
pub proof fn lemma_api_key_roundtrip(key: Seq<char>, blob: Seq<u8>)
    ensures
        hex_decoded(hex_of(blob)) == Some(blob),
        valid_utf8(encode_utf8(key)),
        decode_utf8(encode_utf8(key)) == key,
{
    lemma_hex_roundtrip(blob);
    vstd::utf8::encode_utf8_valid_utf8(key);
    vstd::utf8::encode_utf8_decode_utf8(key);
}

} // verus!
