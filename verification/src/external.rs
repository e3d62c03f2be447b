//! Trusted items: the calls into std (where vstd gives no specification)
//! and into outside crates that the verified code makes, each with the
//! contract it is believed to meet.

use vstd::prelude::*;
use vstd::utf8::{decode_utf8, encode_utf8, valid_utf8};
use std::time::{Duration, SystemTime, SystemTimeError, UNIX_EPOCH};

verus! {

// ----- names for results that take pages to state -----

/// What `str::to_lowercase` returns for a string: the Unicode lowercase
/// mapping, which may change the number of characters.
pub uninterp spec fn lowercase_of(s: Seq<char>) -> Seq<char>;

/// What `String::from_utf8_lossy` returns for some bytes: the decoded text,
/// each ill-formed sequence replaced by U+FFFD.
pub uninterp spec fn utf8_lossy_of(bytes: Seq<u8>) -> Seq<char>;

/// Text made of ASCII characters only.
pub open spec fn is_ascii_text(s: Seq<char>) -> bool {
    forall|i: int| 0 <= i < s.len() ==> (#[trigger] s[i] as u32) < 128
}

/// The ASCII lowercase of each character: `A` to `Z` become `a` to `z`,
/// any other character stays.
pub open spec fn ascii_lowercase(s: Seq<char>) -> Seq<char> {
    Seq::new(
        s.len(),
        |i: int| if 'A' <= s[i] && s[i] <= 'Z' { ((s[i] as u32) + 32) as char } else { s[i] },
    )
}

/// What `str::to_lowercase` gives: on ASCII text the ASCII lowercase of each
/// character, on other text the named result.
pub open spec fn lowercase_text(s: Seq<char>) -> Seq<char> {
    if is_ascii_text(s) {
        ascii_lowercase(s)
    } else {
        lowercase_of(s)
    }
}

/// What `String::from_utf8_lossy` gives: on well-formed UTF-8 the decoded
/// text, on other bytes the named result.
pub open spec fn lossy_text(bytes: Seq<u8>) -> Seq<char> {
    if valid_utf8(bytes) {
        decode_utf8(bytes)
    } else {
        utf8_lossy_of(bytes)
    }
}

// ----- percent_encoding -----

/// An ASCII hexadecimal digit (`char::to_digit(16)` succeeds).
pub open spec fn is_hex_byte(b: u8) -> bool {
    (48 <= b && b <= 57) || (65 <= b && b <= 70) || (97 <= b && b <= 102)
}

/// The value of an ASCII hexadecimal digit.
pub open spec fn hex_byte_value(b: u8) -> int {
    if b <= 57 {
        b - 48
    } else if b <= 70 {
        b - 55
    } else {
        b - 87
    }
}

/// Percent-decoding: each `%` followed by two hexadecimal digits becomes
/// the byte they spell; every other byte, a lone `%` included, stays.
pub open spec fn percent_decoded(b: Seq<u8>) -> Seq<u8>
    decreases b.len(),
{
    if b.len() == 0 {
        Seq::<u8>::empty()
    } else if b[0] == 37 && b.len() >= 3 && is_hex_byte(b[1]) && is_hex_byte(b[2]) {
        seq![(hex_byte_value(b[1]) * 16 + hex_byte_value(b[2])) as u8] + percent_decoded(b.skip(3))
    } else {
        seq![b[0]] + percent_decoded(b.drop_first())
    }
}

/// `percent_encoding::percent_decode_str`, collected into bytes: decodes the
/// UTF-8 bytes of `s` as `percent_decoded` states (`after_percent_sign` in
/// the crate's source reads two `to_digit(16)` digits, else the `%` stays).
#[verifier::external_body]
pub(crate) fn percent_decode_bytes(s: &str) -> (r: Vec<u8>)
    ensures
        r@ == percent_decoded(encode_utf8(s@)),
{
    percent_encoding::percent_decode_str(s).collect()
}

// ----- serde_json -----

/// What `serde_json::from_slice::<Value>(body)` followed by
/// `value[key].as_str()` gives: `None` where the body is not JSON, else the
/// string member `key` of the top-level value, if there is one.
pub uninterp spec fn json_str_member_of(body: Seq<u8>, key: Seq<char>) -> Option<Option<Seq<char>>>;

/// The view of an optional optional string.
pub open spec fn opt_opt_view(o: Option<Option<String>>) -> Option<Option<Seq<char>>> {
    match o {
        Some(Some(s)) => Some(Some(s@)),
        Some(None) => Some(None),
        None => None,
    }
}

/// `serde_json::from_slice::<serde_json::Value>` and then `value[key].as_str()`;
/// the result is named by `json_str_member_of`.
#[verifier::external_body]
pub(crate) fn json_str_member(body: &[u8], key: &str) -> (r: Option<Option<String>>)
    ensures
        opt_opt_view(r) == json_str_member_of(body@, key@),
{
    match serde_json::from_slice::<serde_json::Value>(body) {
        Ok(v) => Some(v[key].as_str().map(|s| s.to_string())),
        Err(_) => None,
    }
}

// ----- tiny_http -----

/// Every byte is ASCII.
pub open spec fn ascii_bytes(b: Seq<u8>) -> bool {
    forall|i: int| 0 <= i < b.len() ==> #[trigger] b[i] < 128
}

/// `tiny_http::Header::from_bytes`, reporting whether it accepts the pair:
/// it does exactly when both the field name and the value are ASCII (it
/// builds both with `AsciiString::from_ascii`).
#[verifier::external_body]
pub(crate) fn header_accepted(name: &[u8], value: &[u8]) -> (r: bool)
    ensures
        r == (ascii_bytes(name@) && ascii_bytes(value@)),
{
    tiny_http::Header::from_bytes(name, value).is_ok()
}

// ----- std -----

/// `String::from_iter` over characters: the string holds exactly those
/// characters, in order.
#[verifier::external_body]
pub(crate) fn string_from_chars(v: &Vec<char>) -> (s: String)
    ensures
        s@ == v@,
{
    v.iter().collect()
}

/// `str::to_lowercase`; its result is named by `lowercase_of`. Lowercase
/// is the Unicode `Lowercase` mapping, which on ASCII text maps `A` to `Z`
/// to `a` to `z` one character each and leaves the rest alone.
#[verifier::external_body]
pub(crate) fn to_lowercase(s: &str) -> (r: String)
    ensures
        r@ == lowercase_of(s@),
        is_ascii_text(s@) ==> r@ == ascii_lowercase(s@),
{
    s.to_lowercase()
}

/// `std::str::from_utf8`: succeeds exactly on well-formed UTF-8 and then
/// gives the decoded characters.
#[verifier::external_body]
pub(crate) fn utf8_decode(bytes: &[u8]) -> (r: Option<String>)
    ensures
        r is Some <==> valid_utf8(bytes@),
        r matches Some(s) ==> s@ == decode_utf8(bytes@),
{
    match std::str::from_utf8(bytes) {
        Ok(s) => Some(s.to_string()),
        Err(_) => None,
    }
}

/// `String::from_utf8_lossy`; its result is named by `utf8_lossy_of`. On
/// well-formed UTF-8 it is the decoded text unchanged, as its documentation
/// states.
#[verifier::external_body]
pub(crate) fn utf8_lossy(bytes: &[u8]) -> (r: String)
    ensures
        r@ == utf8_lossy_of(bytes@),
        valid_utf8(bytes@) ==> r@ == decode_utf8(bytes@),
{
    String::from_utf8_lossy(bytes).into_owned()
}

#[verifier::external_type_specification]
#[verifier::external_body]
pub struct ExSystemTime(SystemTime);

#[verifier::external_type_specification]
#[verifier::external_body]
pub struct ExSystemTimeError(SystemTimeError);

/// `SystemTime::now`: the clock, of which nothing can be promised.
#[verifier::external_body]
pub(crate) fn clock_now() -> (t: SystemTime) {
    SystemTime::now()
}

/// `SystemTime::duration_since(UNIX_EPOCH)`: fails when the clock reads a
/// time before the epoch; nothing more can be promised.
#[verifier::external_body]
pub(crate) fn since_unix_epoch(t: &SystemTime) -> (r: Result<Duration, SystemTimeError>) {
    t.duration_since(UNIX_EPOCH)
}

/// `Duration::as_nanos`; a `Duration` is opaque here, so nothing is stated.
#[verifier::external_body]
pub(crate) fn duration_nanos(d: &Duration) -> (n: u128) {
    d.as_nanos()
}

} // verus!
