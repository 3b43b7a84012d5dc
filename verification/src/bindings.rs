//! The calls into `url`, `percent_encoding` and `scraper`. Each is a thin
//! function whose contract is taken on trust; everything else in the crate
//! is proved from these contracts.

use vstd::prelude::*;
use vstd::string::StringSliceAdditionalSpecFns;
use vstd::utf8::{decode_utf8, encode_utf8, valid_utf8};

verus! {

/// What the crawler reads off an absolute URL once it has been parsed.
pub struct UrlParts {
    /// The scheme, lower-cased, without the `:`.
    pub scheme: String,
    /// The host, if the URL has one.
    pub host: Option<String>,
    /// The path, percent-encoded.
    pub path: String,
    /// The query string as it is written, without the `?`, if there is one.
    pub query: Option<String>,
    /// The whole URL written out again with its query and fragment removed.
    pub stripped: String,
}

/// The mathematical content of a [`UrlParts`].
pub struct UrlPartsView {
    pub scheme: Seq<char>,
    pub host: Option<Seq<char>>,
    pub path: Seq<char>,
    pub query: Option<Seq<char>>,
    pub stripped: Seq<char>,
}

impl View for UrlParts {
    type V = UrlPartsView;

    open spec fn view(&self) -> UrlPartsView {
        UrlPartsView {
            scheme: self.scheme@,
            host: self.host.deep_view(),
            path: self.path@,
            query: self.query.deep_view(),
            stripped: self.stripped@,
        }
    }
}

/// The content of an optional [`UrlParts`].
pub open spec fn parts_view(parsed: Option<UrlParts>) -> Option<UrlPartsView> {
    match parsed {
        Some(parts) => Some(parts@),
        None => None,
    }
}

/// What `url::Url::parse` makes of `text`: `None` where it reports an error,
/// else the scheme, host, path and query of the parsed URL and its
/// serialisation after the query and the fragment have been cleared.
pub uninterp spec fn parsed_url(text: Seq<char>) -> Option<UrlPartsView>;

/// Parses `text` with `url::Url::parse` and reads the result through
/// `scheme`, `host_str`, `path`, `query`, and, after `set_query(None)`
/// and `set_fragment(None)`, `as_str`. The parser is a function of its input,
/// so the contract only gives its answer a name.
#[verifier::external_body]
pub(crate) fn parse_url(text: &str) -> (r: Option<UrlParts>)
    ensures
        parts_view(r) == parsed_url(text@),
{
    let mut url = url::Url::parse(text).ok()?;
    let scheme = url.scheme().to_string();
    let host = url.host_str().map(|h| h.to_string());
    let path = url.path().to_string();
    let query = url.query().map(|q| q.to_string());
    url.set_query(None);
    url.set_fragment(None);
    Some(UrlParts { scheme, host, path, query, stripped: url.as_str().to_string() })
}

/// Whether `b` is an ASCII hexadecimal digit.
pub open spec fn is_hex_digit(b: u8) -> bool {
    ||| 0x30 <= b <= 0x39
    ||| 0x41 <= b <= 0x46
    ||| 0x61 <= b <= 0x66
}

/// The number that the hexadecimal digit `b` stands for.
pub open spec fn hex_value(b: u8) -> int {
    if 0x30 <= b <= 0x39 {
        b - 0x30
    } else if 0x41 <= b <= 0x46 {
        b - 0x41 + 10
    } else {
        b - 0x61 + 10
    }
}

/// Percent-decoding of bytes: every `%` that two hexadecimal digits follow
/// becomes the byte they write; every other byte stays.
pub open spec fn percent_decoded(bytes: Seq<u8>) -> Seq<u8>
    decreases bytes.len(),
{
    if bytes.len() == 0 {
        bytes
    } else if bytes[0] == 0x25 && bytes.len() >= 3 && is_hex_digit(bytes[1]) && is_hex_digit(
        bytes[2],
    ) {
        seq![(hex_value(bytes[1]) * 16 + hex_value(bytes[2])) as u8] + percent_decoded(
            bytes.skip(3),
        )
    } else {
        seq![bytes[0]] + percent_decoded(bytes.drop_first())
    }
}

/// The text that lossy UTF-8 decoding makes of bytes that are not valid
/// UTF-8: each malformed stretch gives way to U+FFFD.
pub uninterp spec fn repaired_text(bytes: Seq<u8>) -> Seq<char>;

/// Lossy UTF-8 decoding: valid bytes decode to the text they encode.
pub open spec fn lossy_text(bytes: Seq<u8>) -> Seq<char> {
    if valid_utf8(bytes) {
        decode_utf8(bytes)
    } else {
        repaired_text(bytes)
    }
}

/// `text` percent-decoded and read back as UTF-8, lossily.
pub open spec fn percent_decoded_text(text: Seq<char>) -> Seq<char> {
    lossy_text(percent_decoded(encode_utf8(text)))
}

/// `percent_encoding::percent_decode_str` followed by `decode_utf8_lossy`.
/// The first decodes every `%XX` in the UTF-8 bytes of `text` and leaves all
/// else; the second returns the text those bytes encode where they are valid
/// UTF-8, and otherwise a repaired text that depends on the bytes alone.
/// Lossy decoding keeps what is valid and puts U+FFFD for what is not, so
/// every ASCII character of the result is one of the decoded bytes.
#[verifier::external_body]
pub(crate) fn percent_decode_lossy(text: &str) -> (r: String)
    ensures
        valid_utf8(percent_decoded(text.spec_bytes())) ==> r@ == decode_utf8(
            percent_decoded(text.spec_bytes()),
        ),
        !valid_utf8(percent_decoded(text.spec_bytes())) ==> r@ == repaired_text(
            percent_decoded(text.spec_bytes()),
        ),
        forall|c: char|
            (c as u32) < 0x80 && #[trigger] r@.contains(c) ==> percent_decoded(
                text.spec_bytes(),
            ).contains((c as u32) as u8),
{
    percent_encoding::percent_decode_str(text).decode_utf8_lossy().into_owned()
}

/// What `scraper` finds in the HTML document `body`: `None` where `selector`
/// is not a selector group it can parse, else, for each element that matches
/// it, in the order in which the parsed tree holds its nodes, the value of
/// the element's attribute `attribute`, if it has one.
pub uninterp spec fn selected_attributes(
    body: Seq<char>,
    selector: Seq<char>,
    attribute: Seq<char>,
) -> Option<Seq<Option<Seq<char>>>>;

/// Parses `body` with `scraper::Html::parse_document` and `selector` with
/// `scraper::Selector::parse`, walks the matches of `Html::select` and asks
/// each for `attribute` through `Element::attr`. All of it is a function of
/// the three texts, so the contract only gives the answer a name. The parser
/// holds text in buffers that grow to a power of two of a `u32` and panics
/// where there is none, and it may write one byte of the body as three; so
/// only a body whose threefold length is at most 2^31 is admitted.
#[verifier::external_body]
pub(crate) fn select_attribute(body: &str, selector: &str, attribute: &str) -> (r: Option<
    Vec<Option<String>>,
>)
    requires
        3 * body.spec_bytes().len() <= 0x8000_0000,
    ensures
        r.deep_view() == selected_attributes(body@, selector@, attribute@),
{
    let selector = scraper::Selector::parse(selector).ok()?;
    let document = scraper::Html::parse_document(body);
    Some(document.select(&selector).map(|e| e.value().attr(attribute).map(|v| v.to_string())).collect())
}

} // verus!
