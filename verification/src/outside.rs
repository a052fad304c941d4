//! The calls into other crates and into the standard library's Unicode tables
//! that the panel's rules rest on, each with what is taken for granted of it.
use sha2::Digest;
use vstd::prelude::*;
use vstd::string::*;
use vstd::utf8::{decode_utf8, encode_utf8, is_ascii_chars, valid_utf8};

use crate::numbers::is_digit;
use crate::text::{ascii_lower, opt_text, parts, text_outcome, Cut};

verus! {

/// What a backup id looks like.
pub const BACKUP_ID_PATTERN: &'static str = r"^[a-zA-Z0-9_-]+$";

/// What a server version looks like.
pub const VERSION_PATTERN: &'static str = r"^\d{1,2}\.\d{1,3}\.\d{1,3}\.\d{1,3}$";

/// Whether the pattern finds a match in the text, as `regex::Regex::is_match`
/// tells; `None` where `regex::Regex::new` refuses the pattern.
pub uninterp spec fn regex_match(pattern: Seq<char>, text: Seq<char>) -> Option<bool>;

/// The text of the first group in the pattern's first match, as
/// `regex::Regex::captures` finds it.
pub uninterp spec fn regex_group(pattern: Seq<char>, text: Seq<char>) -> Option<Seq<char>>;

/// The SHA-256 digest of the bytes, as `sha2::Sha256` computes it.
pub uninterp spec fn sha256_digest(bytes: Seq<u8>) -> Seq<u8>;

/// The text in upper case, as `str::to_uppercase` gives it.
pub uninterp spec fn uppercase(s: Seq<char>) -> Seq<char>;

/// The text in lower case, as `str::to_lowercase` gives it.
pub uninterp spec fn lowercase(s: Seq<char>) -> Seq<char>;

/// The bytes as text, as `String::from_utf8_lossy` gives it.
pub uninterp spec fn utf8_lossy(bytes: Seq<u8>) -> Seq<char>;

/// The characters that a backup id is made of.
pub open spec fn is_id_char(c: char) -> bool {
    ||| 'a' <= c && c <= 'z'
    ||| 'A' <= c && c <= 'Z'
    ||| is_digit(c)
    ||| c == '_'
    ||| c == '-'
}

/// At least one character, and only those of a backup id.
pub open spec fn is_id_text(s: Seq<char>) -> bool {
    &&& s.len() > 0
    &&& forall|i: int| 0 <= i < s.len() ==> is_id_char(#[trigger] s[i])
}

/// A run of one to `most` decimal digits.
pub open spec fn is_number_field(s: Seq<char>, most: int) -> bool {
    &&& 1 <= s.len() <= most
    &&& forall|i: int| 0 <= i < s.len() ==> is_digit(#[trigger] s[i])
}

/// Four fields of digits with points between them, the first one of at most two
/// digits, the others of at most three.
pub open spec fn is_version_text(s: Seq<char>) -> bool {
    let p = parts(s, Cut::At('.'));
    &&& p.len() == 4
    &&& is_number_field(p[0], 2)
    &&& is_number_field(p[1], 3)
    &&& is_number_field(p[2], 3)
    &&& is_number_field(p[3], 3)
}

/// Whether the pattern finds a match in the text, by `regex::Regex::new` and
/// `regex::Regex::is_match`; `None` where the pattern is refused.
///
/// Taken for granted: the result depends on the pattern and the text alone; the
/// backup id pattern matches a run of letters, digits, `_` and `-` that fills
/// the text; the version pattern matches, of the texts in ASCII, four fields of
/// digits. In other texts it also takes the decimal digits of other scripts,
/// which no clause describes.
#[verifier::external_body]
pub(crate) fn regex_is_match(pattern: &str, text: &str) -> (r: Option<bool>)
    ensures
        r == regex_match(pattern@, text@),
        pattern@ == BACKUP_ID_PATTERN@ ==> r == Some(is_id_text(text@)),
        pattern@ == VERSION_PATTERN@ ==> r is Some,
        pattern@ == VERSION_PATTERN@ && is_ascii_chars(text@) ==> r == Some(is_version_text(text@)),
{
    match regex::Regex::new(pattern) {
        Ok(compiled) => Some(compiled.is_match(text)),
        Err(_) => None,
    }
}

/// The text of the first group in the pattern's first match, by
/// `regex::Regex::captures`; `None` where there is no match or no such group.
///
/// Taken for granted: the result depends on the pattern and the text alone.
#[verifier::external_body]
pub(crate) fn regex_first_group(pattern: &str, text: &str) -> (r: Option<String>)
    ensures
        opt_text(r) == regex_group(pattern@, text@),
{
    match regex::Regex::new(pattern) {
        Ok(compiled) => compiled.captures(text).and_then(|found| found.get(1)).map(
            |group| group.as_str().to_string(),
        ),
        Err(_) => None,
    }
}

/// The SHA-256 digest of the bytes, by `sha2::Sha256`.
///
/// Taken for granted: the digest depends on the bytes alone and is 32 bytes
/// long.
#[verifier::external_body]
pub(crate) fn sha256(bytes: &[u8]) -> (r: Vec<u8>)
    ensures
        r@ == sha256_digest(bytes@),
        r@.len() == 32,
{
    let mut hasher = sha2::Sha256::new();
    hasher.update(bytes);
    hasher.finalize().to_vec()
}

/// A hexadecimal digit in lower case.
pub open spec fn is_lower_hex(c: char) -> bool {
    is_digit(c) || ('a' <= c && c <= 'f')
}

/// The text of a random UUID: groups of 8, 4, 4, 4 and 12 hexadecimal digits in
/// lower case with hyphens between them, the third group starting with `4`, the
/// fourth with `8`, `9`, `a` or `b`.
pub open spec fn is_uuid_v4(s: Seq<char>) -> bool {
    &&& s.len() == 36
    &&& s[8] == '-' && s[13] == '-' && s[18] == '-' && s[23] == '-'
    &&& forall|i: int|
        0 <= i < 36 && i != 8 && i != 13 && i != 18 && i != 23 ==> is_lower_hex(#[trigger] s[i])
    &&& s[14] == '4'
    &&& s[19] == '8' || s[19] == '9' || s[19] == 'a' || s[19] == 'b'
}

/// A fresh random UUID as text, by `uuid::Uuid::new_v4`.
///
/// Taken for granted: the shape of the text. Which UUID comes out is chance.
#[verifier::external_body]
pub(crate) fn random_uuid() -> (r: String)
    ensures
        is_uuid_v4(r@),
{
    uuid::Uuid::new_v4().to_string()
}

/// `c` in upper case where it is an ASCII letter, else itself.
pub open spec fn ascii_upper_char(c: char) -> char {
    if 'a' <= c && c <= 'z' {
        ((c as u32 - 32) as u32) as char
    } else {
        c
    }
}

/// `s` with its ASCII letters in upper case.
pub open spec fn ascii_upper(s: Seq<char>) -> Seq<char> {
    s.map_values(|c: char| ascii_upper_char(c))
}

/// The text in upper case; on a text in ASCII, with `a` to `z` changed and nothing
/// else.
pub open spec fn upper_text(s: Seq<char>) -> Seq<char> {
    if is_ascii_chars(s) {
        ascii_upper(s)
    } else {
        uppercase(s)
    }
}

/// The text in lower case; on a text in ASCII, with `A` to `Z` changed and nothing
/// else.
pub open spec fn lower_text(s: Seq<char>) -> Seq<char> {
    if is_ascii_chars(s) {
        ascii_lower(s)
    } else {
        lowercase(s)
    }
}

/// `str::to_uppercase` puts the text in upper case by the Unicode tables, which
/// on a text in ASCII changes `a` to `z` and nothing else.
pub assume_specification[ str::to_uppercase ](s: &str) -> (r: String)
    ensures
        r@ == uppercase(s@),
        is_ascii_chars(s@) ==> r@ == ascii_upper(s@),
;

/// `str::to_lowercase` puts the text in lower case by the Unicode tables, which
/// on a text in ASCII changes `A` to `Z` and nothing else.
pub assume_specification[ str::to_lowercase ](s: &str) -> (r: String)
    ensures
        r@ == lowercase(s@),
        is_ascii_chars(s@) ==> r@ == ascii_lower(s@),
;

/// The bytes as text where they are valid UTF-8, by `String::from_utf8`.
#[verifier::external_body]
pub(crate) fn utf8_text(bytes: Vec<u8>) -> (r: Option<String>)
    ensures
        opt_text(r) == (if valid_utf8(bytes@) {
            Some(decode_utf8(bytes@))
        } else {
            None
        }),
{
    String::from_utf8(bytes).ok()
}

/// The bytes as text, with replacement characters where they are not UTF-8, by
/// `String::from_utf8_lossy`.
///
/// Taken for granted: the text depends on the bytes alone, and valid UTF-8
/// comes out as the text that it encodes.
#[verifier::external_body]
pub(crate) fn lossy_text(bytes: &[u8]) -> (r: String)
    ensures
        r@ == utf8_lossy(bytes@),
        valid_utf8(bytes@) ==> r@ == decode_utf8(bytes@),
{
    String::from_utf8_lossy(bytes).into_owned()
}

/// The text read as JSON and written again without spaces, as `serde_json::from_str`
/// and the `Display` of `serde_json::Value` give it, or the words of the fault.
pub uninterp spec fn json_value(text: Seq<char>) -> Result<Seq<char>, Seq<char>>;

/// The text read as JSON, by `serde_json::from_str` into a `serde_json::Value`, and
/// the value as compact text; or the words of the `serde_json::Error`.
///
/// Taken for granted: the outcome depends on the text alone. Which texts are JSON,
/// and how a value is written, is left to the crate.
#[verifier::external_body]
pub(crate) fn parse_json(text: &str) -> (r: Result<String, String>)
    ensures
        text_outcome(r) == json_value(text@),
{
    match serde_json::from_str::<serde_json::Value>(text) {
        Ok(value) => Ok(value.to_string()),
        Err(fault) => Err(fault.to_string()),
    }
}

/// Why the bytes are no zip archive, in the words that `zip::ZipArchive::new` gives;
/// `None` where they are one.
pub uninterp spec fn archive_fault(bytes: Seq<u8>) -> Option<Seq<char>>;

/// Opens the bytes as a zip archive, by `zip::ZipArchive::new`, and tells the words
/// of the `zip::result::ZipError` where that fails.
///
/// Taken for granted: the outcome depends on the bytes alone. Which bytes are an
/// archive is left to the crate. Nothing is unpacked.
#[verifier::external_body]
pub(crate) fn open_archive(bytes: &Vec<u8>) -> (r: Option<String>)
    ensures
        opt_text(r) == archive_fault(bytes@),
{
    match zip::ZipArchive::new(std::io::Cursor::new(bytes.as_slice())) {
        Ok(_) => None,
        Err(fault) => Some(fault.to_string()),
    }
}

/// A byte that the value of a header can hold: a tab, and all but the control
/// characters.
pub open spec fn is_header_byte(b: u8) -> bool {
    b == 9 || (b >= 32 && b != 127)
}

/// Whether the text can be the value of a header.
pub open spec fn is_header_text(text: Seq<char>) -> bool {
    forall|i: int|
        0 <= i < encode_utf8(text).len() ==> is_header_byte(#[trigger] encode_utf8(text)[i])
}

/// Whether the text can be the value of a header, by
/// `axum::http::HeaderValue::from_str`.
///
/// Taken for granted: a text is accepted where each byte of it is one that
/// `is_header_byte` describes.
#[verifier::external_body]
pub(crate) fn is_header_value(text: &str) -> (b: bool)
    ensures
        b == is_header_text(text@),
{
    axum::http::HeaderValue::from_str(text).is_ok()
}

} // verus!
