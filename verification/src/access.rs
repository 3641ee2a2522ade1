//! Who may change the shared settings.

use crate::settings::same_text;
use axum::http::{HeaderMap, HeaderValue};
use vstd::prelude::*;

verus! {

/// The headers of a request.
#[verifier::external_type_specification]
#[verifier::external_body]
#[verifier::reject_recursive_types(T)]
pub struct ExHeaderMap<T>(HeaderMap<T>);

/// The value of one header.
#[verifier::external_type_specification]
#[verifier::external_body]
pub struct ExHeaderValue(HeaderValue);

/// What a header map holds: under each name, in small letters, the bytes of its first value.
pub uninterp spec fn first_values(headers: HeaderMap<HeaderValue>) -> Map<Seq<char>, Seq<u8>>;

/// The bytes that a header value holds.
pub uninterp spec fn value_bytes(value: HeaderValue) -> Seq<u8>;

/// Whether `name` is made of small letters, digits and dashes, as header names are kept.
pub open spec fn is_plain_name(name: Seq<char>) -> bool {
    &&& 0 < name.len() < 100
    &&& forall|i: int|
        0 <= i < name.len() ==> {
            ||| 'a' <= #[trigger] name[i] <= 'z'
            ||| '0' <= name[i] <= '9'
            ||| name[i] == '-'
        }
}

/// Whether a byte is a visible ASCII character, a space or a tab.
pub open spec fn is_visible(byte: u8) -> bool {
    32 <= byte < 127 || byte == 9
}

/// The text of a header value: none where one of its bytes is not visible.
pub open spec fn visible_text(bytes: Seq<u8>) -> Option<Seq<char>> {
    if forall|i: int| 0 <= i < bytes.len() ==> is_visible(#[trigger] bytes[i]) {
        Some(bytes.map_values(|byte: u8| byte as char))
    } else {
        None
    }
}

/// `HeaderMap::get`: the first value under a name, or nothing where the map has none.
#[verifier::external_body]
fn first_value<'a>(headers: &'a HeaderMap<HeaderValue>, name: &str) -> (r: Option<&'a HeaderValue>)
    requires
        is_plain_name(name@),
    ensures
        match r {
            Some(value) => {
                &&& first_values(*headers).contains_key(name@)
                &&& value_bytes(*value) == first_values(*headers)[name@]
            },
            None => !first_values(*headers).contains_key(name@),
        },
{
    headers.get(name)
}

/// `HeaderValue::to_str`: the value as text, where all its bytes are visible.
#[verifier::external_body]
fn text_of(value: &HeaderValue) -> (r: Option<&str>)
    ensures
        match r {
            Some(text) => visible_text(value_bytes(*value)) == Some(text@),
            None => visible_text(value_bytes(*value)) is None,
        },
{
    value.to_str().ok()
}

/// Whether a request with this token in its header may change the settings: any may where no
/// token is asked for, and otherwise the one with the same token.
pub open spec fn is_entitled(given: Option<Seq<char>>, expected: Option<Seq<char>>) -> bool {
    match expected {
        None => true,
        Some(token) => given == Some(token),
    }
}

/// The token that the headers give.
pub open spec fn given_token(fields: Map<Seq<char>, Seq<u8>>) -> Option<Seq<char>> {
    if fields.contains_key("x-admin-token"@) {
        visible_text(fields["x-admin-token"@])
    } else {
        None
    }
}

/// The characters of a text that may be missing.
pub open spec fn option_view(text: Option<String>) -> Option<Seq<char>> {
    match text {
        None => None,
        Some(t) => Some(t@),
    }
}

/// Whether a request with this token may change the settings.
pub fn token_matches(given: Option<&str>, expected: &Option<String>) -> (r: bool)
    ensures
        r == is_entitled(
            match given {
                None => None,
                Some(text) => Some(text@),
            },
            option_view(*expected),
        ),
{
    match expected {
        None => true,
        Some(token) => match given {
            None => false,
            Some(text) => same_text(token, text),
        },
    }
}

/// Whether a request with these headers may change the settings.
pub fn is_authorized(headers: &HeaderMap<HeaderValue>, admin_token: &Option<String>) -> (r: bool)
    ensures
        r == is_entitled(given_token(first_values(*headers)), option_view(*admin_token)),
{
    proof {
        reveal_strlit("x-admin-token");
    }
    match first_value(headers, "x-admin-token") {
        None => token_matches(None, admin_token),
        Some(value) => token_matches(text_of(value), admin_token),
    }
}

/// The token that is asked for: an empty one counts as none.
pub fn effective_token(configured: Option<String>) -> (r: Option<String>)
    ensures
        r == match configured {
            Some(token) => if token@.len() == 0 {
                None
            } else {
                configured
            },
            None => None,
        },
{
    match configured {
        None => None,
        Some(token) => {
            if token.as_str().is_empty() {
                None
            } else {
                Some(token)
            }
        },
    }
}

} // verus!
