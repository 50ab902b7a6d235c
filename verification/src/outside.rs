//! The calls this library makes into `rand`, `rustc_serialize` and std
//! functions that vstd gives no specification, each with the contract that is
//! believed of it.

use vstd::prelude::*;
use crate::limits::json_within_limits;
use rand::Rng;
use rustc_serialize::json::Json;
use std::str::FromStr;

verus! {

/// `c` is one of `A`-`Z`, `a`-`z`, `0`-`9`.
pub open spec fn is_ascii_alnum(c: char) -> bool {
    ||| ('a' as u32 <= c as u32 && c as u32 <= 'z' as u32)
    ||| ('A' as u32 <= c as u32 && c as u32 <= 'Z' as u32)
    ||| ('0' as u32 <= c as u32 && c as u32 <= '9' as u32)
}

/// Whether `rustc_serialize`'s JSON parser (`Json::from_str`) accepts `text`
/// as one JSON document.
pub uninterp spec fn spec_json_accepts(text: Seq<char>) -> bool;

/// One draw from `rand`'s stream of random ASCII letters and digits
/// (`Rng::gen_ascii_chars` on the thread-local generator, then `next`).
/// Its source returns `Some` of a character picked from `A`-`Z`, `a`-`z`,
/// `0`-`9` on every call; which character comes is chance, and nothing more
/// is claimed of it.
#[verifier::external_body]
pub(crate) fn random_ascii_char() -> (r: Option<char>)
    ensures
        r.is_some(),
        is_ascii_alnum(r.unwrap()),
{
    let mut rng = rand::thread_rng();
    rng.gen_ascii_chars().next()
}

/// Whether std's `char::is_alphanumeric` holds of `c` (the Unicode
/// `Alphabetic` property or a numeric general category).
pub uninterp spec fn spec_char_is_alphanumeric(c: char) -> bool;

/// std's `char::is_alphanumeric`. Its answer is a function of `c`; beyond
/// that, only what its documentation plainly gives is claimed: ASCII letters
/// and digits are alphanumeric. What it answers for other characters is left
/// unsaid.
#[verifier::external_body]
pub(crate) fn char_is_alphanumeric(c: char) -> (r: bool)
    ensures
        r == spec_char_is_alphanumeric(c),
        is_ascii_alnum(c) ==> r,
{
    c.is_alphanumeric()
}

/// Parses `text` with `rustc_serialize::json::Json::from_str` and reports
/// whether it succeeded; the answer depends on the text alone. The parser
/// does not return on some text (deep nesting, long open object keys, an
/// exponent past `usize::MAX`, more array positions than a `u32` counts);
/// `json_within_limits`, whose module says how each is kept out, is required.
#[verifier::external_body]
pub(crate) fn json_accepts(text: &str) -> (r: bool)
    requires
        json_within_limits(text@),
    ensures
        r == spec_json_accepts(text@),
{
    Json::from_str(text).is_ok()
}

/// std's `String::push`: appends one character.
#[verifier::external_body]
pub(crate) fn push_char(s: &mut String, c: char)
    ensures
        final(s)@ == old(s)@.push(c),
{
    s.push(c)
}

/// The error `rustc_serialize`'s JSON encoder reports.
#[verifier::external_type_specification]
#[verifier::external_body]
pub struct ExEncoderError(rustc_serialize::json::EncoderError);

/// std's I/O error.
#[verifier::external_type_specification]
#[verifier::external_body]
pub struct ExIoError(std::io::Error);

} // verus!
