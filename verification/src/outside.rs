//! The calls into other crates and into parts of `std` that carry no
//! specification of their own. Everything here is taken on trust.

use sha2::Digest;
use sha2::Sha256;
use uuid::Uuid;
use vstd::prelude::*;

use crate::rules;
use crate::text;
use crate::tokens;

verus! {

/// What [`Sha256::digest`] returns for the given bytes.
pub uninterp spec fn sha256_digest(bytes: Seq<u8>) -> Seq<u8>;

/// [`Sha256::digest`]: the 32 bytes of the SHA-256 digest, which depend on the
/// input bytes alone.
#[verifier::external_body]
pub(crate) fn sha256(bytes: &[u8]) -> (r: Vec<u8>)
    ensures
        r@ == sha256_digest(bytes@),
        r@.len() == 32,
{
    Sha256::digest(bytes).to_vec()
}

/// [`Uuid::new_v4`] in its simple form: 32 lower-case hexadecimal digits. Which
/// ones they are is up to chance.
#[verifier::external_body]
pub(crate) fn random_hex() -> (r: String)
    ensures
        r@.len() == 32,
        forall|i: int| 0 <= i < 32 ==> text::is_lower_hex(#[trigger] r@[i]),
{
    Uuid::new_v4().simple().to_string()
}

pub open spec fn is_hex_digit(c: char) -> bool {
    '0' <= c <= '9' || 'a' <= c <= 'f' || 'A' <= c <= 'F'
}

/// Hexadecimal digits in groups of eight, four, four, four and twelve, with hyphens
/// between.
pub open spec fn is_hyphenated(s: Seq<char>) -> bool {
    &&& s.len() == 36
    &&& forall|i: int|
        0 <= i < 36 ==> if i == 8 || i == 13 || i == 18 || i == 23 {
            #[trigger] s[i] == '-'
        } else {
            is_hex_digit(s[i])
        }
}

/// A UUID in one of its forms: plain digits, hyphenated, hyphenated in braces, or
/// hyphenated after `urn:uuid:` in any case.
pub open spec fn uuid_accepts(s: Seq<char>) -> bool {
    ||| s.len() == 32 && forall|i: int| 0 <= i < 32 ==> is_hex_digit(#[trigger] s[i])
    ||| is_hyphenated(s)
    ||| s.len() == 38 && s[0] == '{' && s[37] == '}' && is_hyphenated(s.subrange(1, 37))
    ||| s.len() == 45 && tokens::ascii_lowered(s.take(9)) == "urn:uuid:"@ && is_hyphenated(
        s.skip(9),
    )
}

/// [`Uuid::parse_str`], of which only success or failure is kept: it succeeds on the
/// texts that have one of the forms of a UUID.
#[verifier::external_body]
pub(crate) fn is_uuid(text: &str) -> (r: bool)
    ensures
        r == uuid_accepts(text@),
{
    Uuid::parse_str(text).is_ok()
}

/// One character inside a JSON string: quotes, backslashes and control characters
/// are escaped, and nothing else is.
pub open spec fn json_char(c: char) -> Seq<char> {
    if c == '"' || c == '\\' {
        seq!['\\', c]
    } else if c as u32 == 0x8 {
        seq!['\\', 'b']
    } else if c == '\t' {
        seq!['\\', 't']
    } else if c == '\n' {
        seq!['\\', 'n']
    } else if c as u32 == 0xc {
        seq!['\\', 'f']
    } else if c == '\r' {
        seq!['\\', 'r']
    } else if (c as u32) < 0x20 {
        seq![
            '\\',
            'u',
            '0',
            '0',
            rules::hex_digit((c as u32 / 16) as u8),
            rules::hex_digit((c as u32 % 16) as u8),
        ]
    } else {
        seq![c]
    }
}

/// The characters of a text inside a JSON string.
pub open spec fn json_chars(text: Seq<char>) -> Seq<char>
    decreases text.len(),
{
    if text.len() == 0 {
        seq![]
    } else {
        json_chars(text.drop_last()) + json_char(text.last())
    }
}

/// A text as a JSON string.
pub open spec fn json_text(text: Seq<char>) -> Seq<char> {
    seq!['"'] + json_chars(text) + seq!['"']
}

/// `serde_json::Value`'s `Display` on a string: quotes around the text, in which
/// quotes, backslashes and the characters below U+0020 are escaped.
#[verifier::external_body]
pub(crate) fn quote_json(text: &str) -> (r: String)
    ensures
        r@ == json_text(text@),
{
    serde_json::Value::from(text).to_string()
}

/// The strings that `serde_json` reads from the given JSON array, or the text of
/// its error where there is no array of strings.
pub uninterp spec fn json_strings(text: Seq<char>) -> Result<Seq<Seq<char>>, Seq<char>>;

/// `serde_json::from_str` into a `Vec<String>`, with the error as text.
#[verifier::external_body]
pub(crate) fn read_json_strings(text: &str) -> (r: Result<Vec<String>, String>)
    ensures
        match json_strings(text@) {
            Ok(items) => r is Ok && text::texts(r->Ok_0@) == items,
            Err(message) => r is Err && r->Err_0@ == message,
        },
{
    match serde_json::from_str::<Vec<String>>(text) {
        Ok(items) => Ok(items),
        Err(error) => Err(error.to_string()),
    }
}

/// What [`str::to_lowercase`] returns for the given text.
pub uninterp spec fn lowercase(text: Seq<char>) -> Seq<char>;

/// [`str::to_lowercase`].
#[verifier::external_body]
pub(crate) fn to_lower(text: &str) -> (r: String)
    ensures
        r@ == lowercase(text@),
{
    text.to_lowercase()
}

/// What the `Debug` formatting of a `str` writes for the given text.
pub uninterp spec fn debug_text(text: Seq<char>) -> Seq<char>;

/// The `Debug` formatting of a `str`.
#[verifier::external_body]
pub(crate) fn debug(text: &str) -> (r: String)
    ensures
        r@ == debug_text(text@),
{
    format!("{text:?}")
}

/// Whether [`char::is_alphanumeric`] holds of the given character.
pub uninterp spec fn alphanumeric(c: char) -> bool;

/// [`char::is_alphanumeric`].
#[verifier::external_body]
pub(crate) fn is_alphanumeric(c: char) -> (r: bool)
    ensures
        r == alphanumeric(c),
{
    c.is_alphanumeric()
}

/// [`String::from_utf8`], of which the error keeps nothing: bytes are a text exactly
/// where they are valid UTF-8, and the text is the one that they encode.
#[verifier::external_body]
pub(crate) fn read_utf8(bytes: Vec<u8>) -> (r: Option<String>)
    ensures
        r is Some <==> vstd::utf8::valid_utf8(bytes@),
        r is Some ==> vstd::utf8::encode_utf8(r->0@) == bytes@,
{
    String::from_utf8(bytes).ok()
}

/// How many whole milliseconds a duration has.
pub uninterp spec fn duration_millis(elapsed: std::time::Duration) -> u128;

/// `std::time::Duration::as_millis`, which depends on the duration alone.
#[verifier::external_body]
pub(crate) fn whole_millis(elapsed: std::time::Duration) -> (r: u128)
    ensures
        r == duration_millis(elapsed),
{
    elapsed.as_millis()
}

/// `std::time::SystemTime`: a reading of the clock, of which nothing inside is known.
#[verifier::external_type_specification]
#[verifier::external_body]
pub struct ExSystemTime(std::time::SystemTime);

/// `std::time::SystemTime::now`. What the clock reads is up to the machine.
#[verifier::external_body]
pub(crate) fn read_clock() -> (r: std::time::SystemTime) {
    std::time::SystemTime::now()
}

/// How long after the Unix epoch a reading was made; nothing where it was before.
pub uninterp spec fn elapsed_at(reading: std::time::SystemTime) -> Option<std::time::Duration>;

/// `std::time::SystemTime::duration_since` the Unix epoch, which depends on the reading
/// alone; of its failure only that it failed is kept.
#[verifier::external_body]
pub(crate) fn since_epoch(reading: std::time::SystemTime) -> (r: Option<std::time::Duration>)
    ensures
        r == elapsed_at(reading),
{
    reading.duration_since(std::time::UNIX_EPOCH).ok()
}

} // verus!
