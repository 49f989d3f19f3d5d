//! Absolute URLs, as the `url` crate parses, resolves and writes them.
//!
//! A [`Url`] is opaque to the verifier. What its methods return is named
//! here, one name for each method, and the wrappers are believed to return
//! what the names say. The functions at the end are verified: they test the
//! lengths that the setters of `Url` cannot take before they call them, and
//! the host of a URL.
use vstd::prelude::*;
use vstd::string::*;
use vstd::utf8::encode_utf8;
use url::{ParseError, Url};
use crate::text::same_text;

verus! {

#[verifier::external_type_specification]
#[verifier::external_body]
pub struct ExUrl(Url);

#[verifier::external_type_specification]
#[verifier::external_body]
pub struct ExParseError(ParseError);

/// What `Url::parse` makes of `text`.
pub uninterp spec fn parsed(text: Seq<char>) -> Result<Url, ParseError>;

/// What `Url::join` makes of `reference`, read with `base` as its base.
pub uninterp spec fn joined(base: Url, reference: Seq<char>) -> Result<Url, ParseError>;

/// Whether `error` is `ParseError::RelativeUrlWithoutBase`.
pub uninterp spec fn lacks_base(error: ParseError) -> bool;

/// What `Url::domain` returns for `url`.
pub uninterp spec fn domain_of(url: Url) -> Option<Seq<char>>;

/// What `Url::path_segments` yields for `url`, collected.
pub uninterp spec fn segments_of(url: Url) -> Option<Seq<Seq<char>>>;

/// What `Url::fragment` returns for `url`.
pub uninterp spec fn fragment_of(url: Url) -> Option<Seq<char>>;

/// `url` after `Url::set_path` with `path`.
pub uninterp spec fn with_path(url: Url, path: Seq<char>) -> Url;

/// `url` after `Url::set_fragment` with `fragment`.
pub uninterp spec fn with_fragment(url: Url, fragment: Option<Seq<char>>) -> Url;

/// The serialization of `url`, as `Url::as_str` returns it.
pub uninterp spec fn text_of(url: Url) -> Seq<char>;

/// The number of bytes that `text` takes in UTF-8.
pub open spec fn byte_len(text: Seq<char>) -> nat {
    encode_utf8(text).len()
}

/// The longest serialization, in bytes, of a URL whose path or fragment is
/// set here.
pub const MAX_URL_BYTES: usize = 0x4000_0000;

/// The longest path, in bytes, that is set on a URL here.
pub const MAX_PATH_BYTES: usize = 0x1000_0000;

/// Calls `Url::parse`. The result is named, not described.
#[verifier::external_body]
pub(crate) fn parse(text: &str) -> (result: Result<Url, ParseError>)
    ensures
        result == parsed(text@),
{
    Url::parse(text)
}

/// Calls `Url::join`. The result is named, not described.
#[verifier::external_body]
pub(crate) fn join(base: &Url, reference: &str) -> (result: Result<Url, ParseError>)
    ensures
        result == joined(*base, reference@),
{
    base.join(reference)
}

/// Tells `ParseError::RelativeUrlWithoutBase` from the other variants of
/// `ParseError`.
#[verifier::external_body]
pub(crate) fn is_relative_without_base(error: &ParseError) -> (result: bool)
    ensures
        result == lacks_base(*error),
{
    matches!(error, ParseError::RelativeUrlWithoutBase)
}

/// Calls `Url::domain` and copies what it returns.
#[verifier::external_body]
pub(crate) fn domain(url: &Url) -> (result: Option<String>)
    ensures
        result.deep_view() == domain_of(*url),
{
    url.domain().map(String::from)
}

/// Calls `Url::path_segments` and collects the segments that it yields.
#[verifier::external_body]
pub(crate) fn path_segments(url: &Url) -> (result: Option<Vec<String>>)
    ensures
        result.deep_view() == segments_of(*url),
{
    url.path_segments().map(|segments| segments.map(String::from).collect())
}

/// Calls `Url::fragment` and copies what it returns.
#[verifier::external_body]
pub(crate) fn fragment(url: &Url) -> (result: Option<String>)
    ensures
        result.deep_view() == fragment_of(*url),
{
    url.fragment().map(String::from)
}

/// Calls `Url::set_path` on a copy of `url`. `set_path` panics where the
/// serialization outgrows 32 bits; it writes at most three bytes for each
/// byte of `path`, so the two bounds keep it far below that.
#[verifier::external_body]
pub(crate) fn set_path(url: &Url, path: &str) -> (result: Url)
    requires
        byte_len(text_of(*url)) <= MAX_URL_BYTES,
        byte_len(path@) <= MAX_PATH_BYTES,
    ensures
        result == with_path(*url, path@),
{
    let mut result = url.clone();
    result.set_path(path);
    result
}

/// Calls `Url::set_fragment` on a copy of `url`. To write a fragment,
/// `set_fragment` panics where the serialization that it starts from does not
/// fit in 32 bits; to take one away it only shortens the serialization.
#[verifier::external_body]
pub(crate) fn set_fragment(url: &Url, fragment: Option<&str>) -> (result: Url)
    requires
        fragment is Some ==> byte_len(text_of(*url)) <= MAX_URL_BYTES,
    ensures
        result == with_fragment(*url, fragment.deep_view()),
{
    let mut result = url.clone();
    result.set_fragment(fragment);
    result
}

/// Calls `Url::as_str`.
#[verifier::external_body]
pub(crate) fn as_text(url: &Url) -> (result: &str)
    ensures
        result@ == text_of(*url),
{
    url.as_str()
}

/// Whether `Url::set_path` can write `path` into `url`.
pub open spec fn path_fits(url: Url, path: Seq<char>) -> bool {
    byte_len(text_of(url)) <= MAX_URL_BYTES && byte_len(path) <= MAX_PATH_BYTES
}

/// Whether `Url::set_fragment` can write `fragment` into `url`.
pub open spec fn fragment_fits(url: Url, fragment: Option<Seq<char>>) -> bool {
    fragment is Some ==> byte_len(text_of(url)) <= MAX_URL_BYTES
}

/// `url` with `path` in place of its path, or `None` where the two are too
/// long for that.
pub fn replace_path(url: &Url, path: &str) -> (result: Option<Url>)
    ensures
        result == if path_fits(*url, path@) {
            Some(with_path(*url, path@))
        } else {
            None
        },
{
    if as_text(url).as_bytes().len() <= MAX_URL_BYTES && path.as_bytes().len() <= MAX_PATH_BYTES {
        Some(set_path(url, path))
    } else {
        None
    }
}

/// `url` with `fragment` in place of its fragment, or `None` where `url` is
/// too long for that.
pub fn replace_fragment(url: &Url, fragment: Option<&str>) -> (result: Option<Url>)
    ensures
        result == if fragment_fits(*url, fragment.deep_view()) {
            Some(with_fragment(*url, fragment.deep_view()))
        } else {
            None
        },
{
    if fragment.is_none() || as_text(url).as_bytes().len() <= MAX_URL_BYTES {
        Some(set_fragment(url, fragment))
    } else {
        None
    }
}

/// The host whose repositories are supported.
pub open spec fn supported_host() -> Seq<char> {
    "github.com"@
}

/// Whether `url` is on the supported host.
pub open spec fn on_supported_host(url: Url) -> bool {
    domain_of(url) == Some(supported_host())
}

/// Whether `domain` is the supported host.
pub fn is_supported_host(domain: &Option<String>) -> (result: bool)
    ensures
        result == (domain.deep_view() == Some(supported_host())),
{
    match domain {
        Some(name) => same_text(name.as_str(), "github.com"),
        None => false,
    }
}

/// Whether `url` is on the supported host.
pub fn is_on_supported_host(url: &Url) -> (result: bool)
    ensures
        result == on_supported_host(*url),
{
    is_supported_host(&domain(url))
}

} // verus!
