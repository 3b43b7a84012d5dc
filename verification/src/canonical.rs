//! The URL canonicaliser: from a raw hyperlink to the identity of the page it
//! names, or to a rejection.

use crate::bindings::{
    parse_url, parsed_url, parts_view, percent_decode_lossy, percent_decoded_text, UrlParts,
    UrlPartsView,
};
use crate::marks::{
    ascii_byte, lemma_decoded_character, lemma_escapes_of_the_marks,
    lemma_marks_of_a_part, lemma_marks_of_joined, marks_come_from,
};
use crate::stable::lemma_escaping_adds_only_the_escape;
use crate::text::{
    chars_of, contains_char, contains_text, equal, join, lemma_take_until, matches_at, occurs_at,
    replace, replace_all, slice, starts_with, string_of, take_from_until, take_until, trim,
    trimmed,
};
use vstd::prelude::*;
use vstd::string::StringSliceAdditionalSpecFns;

verus! {

/// The only scheme that is accepted.
pub const SECURE_SCHEME: &'static str = "https";

/// The host of the one site that is crawled.
pub const SITE_HOST: &'static str = "fr.wikipedia.org";

/// The origin of the one site that is crawled.
pub const SITE_ORIGIN: &'static str = "https://fr.wikipedia.org";

/// Every canonical URL is this prefix followed by a page title.
pub const WIKI_PREFIX: &'static str = "https://fr.wikipedia.org/wiki/";

/// The path that every page of the wiki lives under.
pub const WIKI_PATH: &'static str = "/wiki/";

/// The path of the index endpoint, which takes the title as a parameter.
pub const INDEX_PATH: &'static str = "/w/index.php";

/// The parameter of the index endpoint that holds the title.
pub const TITLE_KEY: &'static str = "title";

/// The apostrophe as a title may write it.
pub const APOSTROPHE: &'static str = "'";

/// The escape of the apostrophe: the one form in which a canonical URL
/// writes it.
pub const APOSTROPHE_ESCAPE: &'static str = "%27";

/// The origin of the one site that is crawled.
pub open spec fn site_origin() -> Seq<char> {
    SITE_ORIGIN@
}

/// Every canonical URL is this prefix followed by a page title.
pub open spec fn wiki_prefix() -> Seq<char> {
    WIKI_PREFIX@
}

/// The escape of the apostrophe.
pub open spec fn apostrophe_escape() -> Seq<char> {
    APOSTROPHE_ESCAPE@
}

/// A link to a place on the page that holds it.
pub open spec fn is_fragment(link: Seq<char>) -> bool {
    link.len() > 0 && link[0] == '#'
}

/// A protocol-relative link is given the secure scheme; others stay.
pub open spec fn absolute_form(link: Seq<char>) -> Seq<char> {
    if occurs_at(link, "//"@, 0) {
        "https:"@ + link
    } else {
        link
    }
}

/// A link that begins with `/`: a path on the site of the page.
pub open spec fn is_path_relative(link: Seq<char>) -> bool {
    link.len() > 0 && link[0] == '/'
}

/// The name of a pair of a query string: what stands before its first `=`.
pub open spec fn pair_name(pair: Seq<char>) -> Seq<char> {
    take_until(pair, '=')
}

/// The value of a pair of a query string: what follows its first `=`, as
/// it is written; nothing where the pair holds no `=`.
pub open spec fn pair_value(pair: Seq<char>) -> Seq<char> {
    if pair_name(pair).len() < pair.len() {
        pair.skip(pair_name(pair).len() + 1 as int)
    } else {
        Seq::empty()
    }
}

/// The value, as it is written, of the first pair of `query` whose name is
/// exactly `key`. The pairs of a query are what `&` separates.
pub open spec fn raw_value(query: Seq<char>, key: Seq<char>) -> Option<Seq<char>>
    decreases query.len(),
{
    let pair = take_until(query, '&');
    if pair_name(pair) == key {
        Some(pair_value(pair))
    } else if pair.len() < query.len() {
        raw_value(query.skip(pair.len() + 1 as int), key)
    } else {
        None
    }
}

/// The query of a path-relative link to the index endpoint: the link is the
/// path of the endpoint followed by `?`, and the query runs to the first
/// `#`.
pub open spec fn index_query(link: Seq<char>) -> Option<Seq<char>> {
    if occurs_at(link, INDEX_PATH@ + "?"@, 0) {
        Some(take_until(link.skip(INDEX_PATH@.len() + 1 as int), '#'))
    } else {
        None
    }
}

/// The candidate that a title parameter stands for, if there is one.
pub open spec fn title_candidate(query: Option<Seq<char>>) -> Option<Seq<char>> {
    match query {
        Some(q) => match raw_value(q, TITLE_KEY@) {
            Some(title) => Some(wiki_prefix() + title),
            None => None,
        },
        None => None,
    }
}

/// The candidate that a path-relative link stands for: the title parameter
/// of a link to the index endpoint, still encoded, or the wiki path itself.
pub open spec fn relative_candidate(link: Seq<char>) -> Option<Seq<char>> {
    if index_query(link) is Some {
        title_candidate(index_query(link))
    } else if occurs_at(link, WIKI_PATH@, 0) {
        Some(site_origin() + link)
    } else {
        None
    }
}

/// The candidate that a parsed absolute URL stands for. Only the secure
/// scheme and the one host pass; the index endpoint gives its title
/// parameter, still encoded, a wiki path gives the URL without query and
/// fragment.
pub open spec fn absolute_candidate(parsed: Option<UrlPartsView>) -> Option<Seq<char>> {
    match parsed {
        None => None,
        Some(parts) => {
            if parts.scheme != SECURE_SCHEME@ {
                None
            } else if parts.host != Some(SITE_HOST@) {
                None
            } else if parts.path == INDEX_PATH@ {
                title_candidate(parts.query)
            } else if occurs_at(parts.path, WIKI_PATH@, 0) {
                Some(parts.stripped)
            } else {
                None
            }
        },
    }
}

/// A title without what follows its first `?` or `#`: no query string and
/// no fragment belong to it.
pub open spec fn bare_title(title: Seq<char>) -> Seq<char> {
    take_until(take_until(title, '?'), '#')
}

/// A stretch of a title between apostrophe escapes, as a canonical URL
/// writes it: percent-decoded, each apostrophe as its escape.
pub open spec fn written(piece: Seq<char>) -> Seq<char> {
    replace_all(percent_decoded_text(piece), APOSTROPHE@, apostrophe_escape())
}

/// What is left of a title to decode, after the stretch `piece` that no
/// apostrophe escape has ended yet.
pub open spec fn decoded_from(rest: Seq<char>, piece: Seq<char>) -> Seq<char>
    decreases rest.len(),
{
    if rest.len() == 0 {
        written(piece)
    } else if apostrophe_escape().len() > 0 && occurs_at(rest, apostrophe_escape(), 0) {
        written(piece) + apostrophe_escape() + decoded_from(
            rest.skip(apostrophe_escape().len() as int),
            Seq::empty(),
        )
    } else {
        decoded_from(rest.drop_first(), piece.push(rest[0]))
    }
}

/// A title as a canonical URL writes it: the title is cut at each apostrophe
/// escape, each stretch is percent-decoded with its apostrophes escaped, and
/// the stretches are joined by the escape again.
pub open spec fn decoded_title(title: Seq<char>) -> Seq<char> {
    decoded_from(title, Seq::empty())
}

/// The canonical URL of a candidate: the prefix and the decoded bare title,
/// unless the candidate lacks the prefix or the title names a namespace.
pub open spec fn finished(candidate: Seq<char>) -> Option<Seq<char>> {
    if occurs_at(candidate, wiki_prefix(), 0) {
        let title = decoded_title(bare_title(candidate.skip(wiki_prefix().len() as int)));
        if title.contains(':') {
            None
        } else {
            Some(wiki_prefix() + title)
        }
    } else {
        None
    }
}

/// The link as it is handed to the parser: trimmed and made absolute.
pub open spec fn prepared(raw: Seq<char>) -> Seq<char> {
    absolute_form(trimmed(raw))
}

/// The candidate of a prepared link, given what the parser made of it.
pub open spec fn candidate_of_prepared(link: Seq<char>, parsed: Option<UrlPartsView>) -> Option<
    Seq<char>,
> {
    if is_path_relative(link) {
        relative_candidate(link)
    } else {
        absolute_candidate(parsed)
    }
}

/// The canonical URL of a prepared link, given what the parser made of it.
pub open spec fn canonical_of_prepared(link: Seq<char>, parsed: Option<UrlPartsView>) -> Option<
    Seq<char>,
> {
    match candidate_of_prepared(link, parsed) {
        Some(c) => finished(c),
        None => None,
    }
}

/// The canonical URL of `raw`, given what the parser made of `prepared(raw)`.
pub open spec fn canonical_given(raw: Seq<char>, parsed: Option<UrlPartsView>) -> Option<
    Seq<char>,
> {
    if is_fragment(trimmed(raw)) {
        None
    } else {
        canonical_of_prepared(prepared(raw), parsed)
    }
}

/// The canonical URL of `raw`, or `None` where `raw` is rejected.
pub open spec fn canonical(raw: Seq<char>) -> Option<Seq<char>> {
    canonical_given(raw, parsed_url(prepared(raw)))
}

/// A title that holds no query string and no fragment.
pub open spec fn is_bare(title: Seq<char>) -> bool {
    !title.contains('?') && !title.contains('#')
}

/// The title holds an escape of `?` or of `#`: `%3F`, `%3f` or `%23`.
pub open spec fn holds_mark_escape(title: Seq<char>) -> bool {
    ||| contains_text(title, "%3F"@)
    ||| contains_text(title, "%3f"@)
    ||| contains_text(title, "%23"@)
}

/// No query string, no fragment: unless the bare title of the candidate
/// holds an escape of `?` or of `#`, the URL holds neither.
pub open spec fn keeps_marks_out(url: Seq<char>, candidate: Seq<char>) -> bool {
    !holds_mark_escape(bare_title(candidate.skip(wiki_prefix().len() as int))) ==> is_bare(url)
}

/// A canonical URL begins with the prefix; what follows holds no `:` and is
/// the decoding of a title without query string and fragment.
pub open spec fn is_canonical_shape(url: Seq<char>) -> bool {
    &&& occurs_at(url, wiki_prefix(), 0)
    &&& !url.skip(wiki_prefix().len() as int).contains(':')
    &&& exists|title: Seq<char>|
        is_bare(title) && url.skip(wiki_prefix().len() as int) == #[trigger] decoded_title(title)
}

/// A bare title holds no query string and no fragment.
pub proof fn lemma_bare_title(title: Seq<char>)
    ensures
        is_bare(bare_title(title)),
{
    let cut = take_until(title, '?');
    let bare = take_until(cut, '#');
    lemma_take_until(title, '?');
    lemma_take_until(cut, '#');
    if bare.contains('?') {
        let i = choose|i: int| 0 <= i < bare.len() && bare[i] == '?';
        assert(cut.take(bare.len() as int)[i] == cut[i]);
        assert(cut.contains('?'));
    }
}

/// Whatever passes the last stage has the canonical shape.
pub proof fn lemma_finished_shape(candidate: Seq<char>)
    ensures
        finished(candidate) matches Some(url) ==> is_canonical_shape(url),
{
    if finished(candidate) is Some {
        let url = finished(candidate)->0;
        let bare = bare_title(candidate.skip(wiki_prefix().len() as int));
        lemma_bare_title(candidate.skip(wiki_prefix().len() as int));
        assert(url.subrange(0, wiki_prefix().len() as int) =~= wiki_prefix());
        assert(url.skip(wiki_prefix().len() as int) =~= decoded_title(bare));
    }
}

/// The view of an optional character vector.
pub open spec fn text_of(v: Option<Vec<char>>) -> Option<Seq<char>> {
    match v {
        Some(chars) => Some(chars@),
        None => None,
    }
}

/// The value, as it is written, of the first pair of `query` whose name is
/// exactly `key`.
pub fn find_raw_value(query: &Vec<char>, key: &Vec<char>) -> (r: Option<Vec<char>>)
    ensures
        text_of(r) == raw_value(query@, key@),
{
    let mut start: usize = 0;
    proof {
        assert(query@.skip(0) =~= query@);
    }
    while start <= query.len()
        invariant
            start <= query.len(),
            raw_value(query@, key@) == raw_value(query@.skip(start as int), key@),
        decreases query.len() - start,
    {
        let pair = take_from_until(query, start, '&');
        let name = take_from_until(&pair, 0, '=');
        proof {
            lemma_take_until(query@.skip(start as int), '&');
            lemma_take_until(pair@, '=');
            assert(pair@.skip(0) =~= pair@);
        }
        if equal(&name, key) {
            if name.len() < pair.len() {
                let value = slice(&pair, name.len() + 1, pair.len());
                proof {
                    assert(pair@.subrange(name@.len() + 1 as int, pair@.len() as int) =~= pair@.skip(
                        name@.len() + 1 as int,
                    ));
                }
                return Some(value);
            } else {
                return Some(Vec::new());
            }
        }
        if pair.len() >= query.len() - start {
            return None;
        }
        proof {
            assert(query@.skip(start as int).skip(pair@.len() + 1 as int) =~= query@.skip(
                start + pair@.len() + 1,
            ));
        }
        start = start + pair.len() + 1;
    }
    None
}

/// The candidate that a title parameter stands for, if there is one.
pub fn candidate_of_query(query: &Vec<char>) -> (r: Option<Vec<char>>)
    ensures
        text_of(r) == title_candidate(Some(query@)),
{
    match find_raw_value(query, &chars_of(TITLE_KEY)) {
        Some(title) => Some(join(&chars_of(WIKI_PREFIX), &title)),
        None => None,
    }
}

/// The candidate of a path-relative link.
pub fn candidate_of_relative(link: &Vec<char>) -> (r: Option<Vec<char>>)
    ensures
        text_of(r) == relative_candidate(link@),
{
    let endpoint = join(&chars_of(INDEX_PATH), &chars_of("?"));
    if starts_with(link, &endpoint) {
        proof {
            reveal_strlit("?");
        }
        let query = take_from_until(link, endpoint.len(), '#');
        candidate_of_query(&query)
    } else if starts_with(link, &chars_of(WIKI_PATH)) {
        Some(join(&chars_of(SITE_ORIGIN), link))
    } else {
        None
    }
}

/// The candidate of an absolute URL, from what the parser made of it.
pub fn candidate_of_absolute(parsed: &Option<UrlParts>) -> (r: Option<Vec<char>>)
    ensures
        text_of(r) == absolute_candidate(parts_view(*parsed)),
{
    match parsed {
        None => None,
        Some(parts) => {
            if !equal(&chars_of(parts.scheme.as_str()), &chars_of(SECURE_SCHEME)) {
                return None;
            }
            match &parts.host {
                Some(host) => {
                    if !equal(&chars_of(host.as_str()), &chars_of(SITE_HOST)) {
                        return None;
                    }
                },
                None => {
                    return None;
                },
            }
            let path = chars_of(parts.path.as_str());
            if equal(&path, &chars_of(INDEX_PATH)) {
                match &parts.query {
                    Some(query) => candidate_of_query(&chars_of(query.as_str())),
                    None => None,
                }
            } else if starts_with(&path, &chars_of(WIKI_PATH)) {
                Some(chars_of(parts.stripped.as_str()))
            } else {
                None
            }
        },
    }
}

/// A stretch of a title between apostrophe escapes, as a canonical URL
/// writes it. It holds `?` or `#` only where the stretch holds them or an
/// escape of them.
pub fn write_piece(piece: &Vec<char>) -> (r: Vec<char>)
    ensures
        r@ == written(piece@),
        marks_come_from(r@, piece@),
{
    let text = string_of(piece);
    let decoded = percent_decode_lossy(text.as_str());
    let r = replace(&chars_of(decoded.as_str()), &chars_of(APOSTROPHE), &chars_of(APOSTROPHE_ESCAPE));
    proof {
        assert(ascii_byte('?') == 0x3F && ascii_byte('#') == 0x23);
        if r@.contains('?') {
            lemma_escaping_adds_only_the_escape(decoded@, '?');
            lemma_decoded_character(piece@, '?');
        }
        if r@.contains('#') {
            lemma_escaping_adds_only_the_escape(decoded@, '#');
            lemma_decoded_character(piece@, '#');
        }
    }
    r
}

/// The title as a canonical URL writes it. It holds `?` or `#` only where
/// the title holds them or an escape of them.
pub fn decode_title(title: &Vec<char>) -> (r: Vec<char>)
    ensures
        r@ == decoded_title(title@),
        marks_come_from(r@, title@),
{
    let escape = chars_of(APOSTROPHE_ESCAPE);
    let mut out: Vec<char> = Vec::new();
    let mut piece: Vec<char> = Vec::new();
    let mut i: usize = 0;
    let ghost mut start: int = 0;
    proof {
        reveal_strlit("%27");
        assert(title@.skip(0) =~= title@);
        assert(piece@ =~= title@.subrange(0, 0));
    }
    while i < title.len()
        invariant
            i <= title.len(),
            0 <= start <= i,
            escape@ == apostrophe_escape(),
            !escape@.contains('?') && !escape@.contains('#'),
            piece@ == title@.subrange(start, i as int),
            marks_come_from(out@, title@),
            decoded_title(title@) == out@ + decoded_from(title@.skip(i as int), piece@),
        decreases title.len() - i,
    {
        let ghost rest = title@.skip(i as int);
        let ghost before = out@;
        let ghost stretch = piece@;
        if escape.len() > 0 && matches_at(title, &escape, i) {
            proof {
                assert(title@.subrange(i as int, i + escape@.len()) =~= rest.subrange(
                    0,
                    escape@.len() as int,
                ));
                assert(rest.skip(escape@.len() as int) =~= title@.skip(i + escape@.len()));
            }
            let text = write_piece(&piece);
            proof {
                lemma_marks_of_a_part(text@, title@, start, i as int);
                lemma_marks_of_joined(out@, text@, title@);
                lemma_marks_of_joined(out@ + text@, escape@, title@);
            }
            out = join(&join(&out, &text), &escape);
            piece = Vec::new();
            i += escape.len();
            proof {
                start = i as int;
                assert(piece@ =~= title@.subrange(start, i as int));
                assert(before + (written(stretch) + escape@ + decoded_from(
                    title@.skip(i as int),
                    Seq::empty(),
                )) =~= out@ + decoded_from(title@.skip(i as int), piece@));
            }
        } else {
            proof {
                if escape@.len() > 0 && occurs_at(rest, escape@, 0) {
                    assert(title@.subrange(i as int, i + escape@.len()) =~= rest.subrange(
                        0,
                        escape@.len() as int,
                    ));
                }
                assert(rest.drop_first() =~= title@.skip(i + 1));
            }
            piece.push(title[i]);
            i += 1;
            proof {
                assert(piece@ =~= title@.subrange(start, i as int));
            }
        }
    }
    let text = write_piece(&piece);
    proof {
        lemma_marks_of_a_part(text@, title@, start, i as int);
        lemma_marks_of_joined(out@, text@, title@);
    }
    join(&out, &text)
}

/// The canonical URL of a candidate, or `None` where it is rejected. The
/// URL holds no `?` and no `#` unless the bare title escapes one.
pub fn finish_candidate(candidate: &Vec<char>) -> (r: Option<Vec<char>>)
    ensures
        text_of(r) == finished(candidate@),
        r matches Some(url) ==> keeps_marks_out(url@, candidate@),
{
    let prefix = chars_of(WIKI_PREFIX);
    if !starts_with(candidate, &prefix) {
        return None;
    }
    let cut = take_from_until(candidate, prefix.len(), '?');
    let bare = take_from_until(&cut, 0, '#');
    proof {
        assert(cut@.skip(0) =~= cut@);
    }
    let title = decode_title(&bare);
    proof {
        reveal_strlit("https://fr.wikipedia.org/wiki/");
        lemma_bare_title(candidate@.skip(wiki_prefix().len() as int));
        lemma_escapes_of_the_marks(bare@);
        let url = prefix@ + title@;
        if !holds_mark_escape(bare@) {
            assert forall|c: char| (c == '?' || c == '#') implies !url.contains(c) by {
                if url.contains(c) {
                    let i = choose|i: int| 0 <= i < url.len() && url[i] == c;
                    if i >= prefix@.len() {
                        assert(title@[i - prefix@.len()] == c);
                        assert(title@.contains(c));
                    }
                }
            }
        }
    }
    if contains_char(&title, ':') {
        None
    } else {
        Some(join(&prefix, &title))
    }
}

/// The link as it is handed to the parser, or `None` for a link to a place
/// on the same page.
pub fn prepare(raw: &str) -> (r: Option<Vec<char>>)
    ensures
        is_fragment(trimmed(raw@)) <==> r is None,
        r matches Some(link) ==> link@ == prepared(raw@),
{
    let link = trim(&chars_of(raw));
    if link.len() > 0 && link[0] == '#' {
        None
    } else if starts_with(&link, &chars_of("//")) {
        Some(join(&chars_of("https:"), &link))
    } else {
        Some(link)
    }
}

/// Whether `link` begins with `/`.
pub fn is_relative(link: &Vec<char>) -> (r: bool)
    ensures
        r == is_path_relative(link@),
{
    link.len() > 0 && link[0] == '/'
}

/// The canonical URL of a prepared link, given what the parser made of it.
pub fn clean_prepared(link: &Vec<char>, parsed: &Option<UrlParts>) -> (r: Option<String>)
    ensures
        r.deep_view() == canonical_of_prepared(link@, parts_view(*parsed)),
        r matches Some(url) ==> is_canonical_shape(url@) && keeps_marks_out(
            url@,
            candidate_of_prepared(link@, parts_view(*parsed))->0,
        ),
{
    proof {
        if candidate_of_prepared(link@, parts_view(*parsed)) is Some {
            lemma_finished_shape(candidate_of_prepared(link@, parts_view(*parsed))->0);
        }
    }
    let candidate = if is_relative(link) {
        candidate_of_relative(link)
    } else {
        candidate_of_absolute(parsed)
    };
    match candidate {
        Some(c) => match finish_candidate(&c) {
            Some(url) => Some(string_of(&url)),
            None => None,
        },
        None => None,
    }
}

/// The canonical URL of `raw`, or `None` where it is rejected, given what
/// the parser made of the prepared link.
pub fn clean_url_given(raw: &str, parsed: &Option<UrlParts>) -> (r: Option<String>)
    ensures
        r.deep_view() == canonical_given(raw@, parts_view(*parsed)),
        r matches Some(url) ==> is_canonical_shape(url@) && keeps_marks_out(
            url@,
            candidate_of_prepared(prepared(raw@), parts_view(*parsed))->0,
        ),
{
    match prepare(raw) {
        Some(link) => clean_prepared(&link, parsed),
        None => None,
    }
}

/// The canonical URL of the hyperlink `url_str`, or `None` where the link is
/// rejected: a fragment, a link off the site or off the wiki path, a link to
/// the index endpoint without a title, one the parser refuses, or one whose
/// decoded title names a namespace. The URL holds no query string and no
/// fragment: no `?` and no `#`, unless the title that was decoded escapes
/// one.
pub fn clean_url(url_str: &str) -> (r: Option<String>)
    ensures
        r.deep_view() == canonical(url_str@),
        r matches Some(url) ==> is_canonical_shape(url@) && keeps_marks_out(
            url@,
            candidate_of_prepared(prepared(url_str@), parsed_url(prepared(url_str@)))->0,
        ),
{
    match prepare(url_str) {
        Some(link) => {
            let parsed = if is_relative(&link) {
                None
            } else {
                parse_url(string_of(&link).as_str())
            };
            clean_prepared(&link, &parsed)
        },
        None => None,
    }
}

} // verus!
