//! Titles whose only escapes are apostrophes. Such a title is decoded to
//! itself with each apostrophe escaped: the two ways of writing an
//! apostrophe give one identity, the output holds no query string and no
//! fragment, a wiki path and an index link of the same title give the same
//! URL, and that URL, read back by the parser as it is written,
//! canonicalises to itself.

use crate::bindings::{percent_decoded, percent_decoded_text, UrlPartsView};
use crate::canonical::{
    apostrophe_escape, bare_title, candidate_of_prepared, canonical_given, decoded_from,
    decoded_title, finished, holds_mark_escape, index_query, is_bare, is_fragment,
    is_path_relative, lemma_bare_title, pair_name, pair_value, prepared, raw_value,
    relative_candidate, site_origin, wiki_prefix, written, APOSTROPHE, INDEX_PATH,
    SECURE_SCHEME, SITE_HOST, TITLE_KEY, WIKI_PATH,
};
use crate::text::{
    contains_text, is_part_of, is_whitespace, lemma_part_of_part, lemma_replace_without_match,
    lemma_skip_is_a_part, lemma_take_until, lemma_take_until_head, lemma_take_until_is_a_part,
    lemma_text_of_a_part, lemma_trimmed_is_a_part, occurs_at, part_at, replace_all, take_until,
    trimmed,
};
use vstd::prelude::*;
use vstd::utf8::{
    char_is_scalar, char_u32_cast, encode_scalar, encode_utf8, encode_utf8_decode_utf8,
    encode_utf8_valid_utf8,
};

verus! {

/// Every `%` of the title begins an apostrophe escape: the title holds no
/// other escape, and no `%` that stands alone.
pub open spec fn has_only_apostrophe_escapes(title: Seq<char>) -> bool
    decreases title.len(),
{
    if title.len() == 0 {
        true
    } else if apostrophe_escape().len() > 0 && occurs_at(title, apostrophe_escape(), 0) {
        has_only_apostrophe_escapes(title.skip(apostrophe_escape().len() as int))
    } else {
        title[0] != '%' && has_only_apostrophe_escapes(title.drop_first())
    }
}

/// A title in the form in which a canonical URL writes it: no escape but
/// the apostrophe's, and no apostrophe that is not escaped.
pub open spec fn is_settled_form(title: Seq<char>) -> bool {
    has_only_apostrophe_escapes(title) && !title.contains('\'')
}

/// `text` with each apostrophe written as its escape.
pub open spec fn escaped(text: Seq<char>) -> Seq<char> {
    replace_all(text, APOSTROPHE@, apostrophe_escape())
}

/// The parser reads the canonical URL of `title` as it is written: secure
/// scheme, the site's host, the wiki path, nothing changed.
pub open spec fn reads_back(title: Seq<char>, parts: UrlPartsView) -> bool {
    &&& parts.scheme == SECURE_SCHEME@
    &&& parts.host == Some(SITE_HOST@)
    &&& parts.path == WIKI_PATH@ + title
    &&& parts.stripped == wiki_prefix() + title
}

/// No byte of the UTF-8 encoding of a scalar other than `%` is the byte `%`.
proof fn lemma_scalar_bytes(v: u32)
    by (bit_vector)
    requires
        v != 0x25,
    ensures
        v <= 0x7F ==> (v & 0x7F) as u8 != 0x25u8,
        (0xC0u8 | ((v >> 6) & 0x1F) as u8) != 0x25u8,
        (0xE0u8 | ((v >> 12) & 0x0F) as u8) != 0x25u8,
        (0xF0u8 | ((v >> 18) & 0x7) as u8) != 0x25u8,
        (0x80u8 | (v & 0x3F) as u8) != 0x25u8,
        (0x80u8 | ((v >> 6) & 0x3F) as u8) != 0x25u8,
        (0x80u8 | ((v >> 12) & 0x3F) as u8) != 0x25u8,
{
}

/// The UTF-8 bytes of a text without `%` hold no `%` byte.
pub proof fn lemma_encoding_has_no_percent(text: Seq<char>)
    requires
        !text.contains('%'),
    ensures
        !encode_utf8(text).contains(0x25u8),
    decreases text.len(),
{
    if text.len() > 0 {
        let rest = text.drop_first();
        assert(text[0] != '%') by {
            if text[0] == '%' {
                assert(text.contains('%'));
            }
        }
        assert(!rest.contains('%')) by {
            if rest.contains('%') {
                let i = choose|i: int| 0 <= i < rest.len() && rest[i] == '%';
                assert(text[i + 1] == '%');
            }
        }
        lemma_encoding_has_no_percent(rest);
        let v: u32 = text[0] as u32;
        char_is_scalar(text[0]);
        assert(v != 0x25) by {
            if v == 0x25 {
                char_u32_cast(text[0], v);
                char_u32_cast('%', v);
            }
        }
        lemma_scalar_bytes(v);
        let head = encode_scalar(v);
        let tail = encode_utf8(rest);
        assert forall|i: int| 0 <= i < head.len() implies head[i] != 0x25u8 by {}
        if encode_utf8(text).contains(0x25u8) {
            let i = choose|i: int| 0 <= i < (head + tail).len() && (head + tail)[i] == 0x25u8;
            if i >= head.len() {
                assert(tail[i - head.len()] == 0x25u8);
            }
        }
    }
}

/// Bytes without `%` are their own percent-decoding.
pub proof fn lemma_nothing_to_decode(bytes: Seq<u8>)
    requires
        !bytes.contains(0x25u8),
    ensures
        percent_decoded(bytes) == bytes,
    decreases bytes.len(),
{
    if bytes.len() > 0 {
        let rest = bytes.drop_first();
        assert(bytes[0] != 0x25u8) by {
            if bytes[0] == 0x25u8 {
                assert(bytes.contains(0x25u8));
            }
        }
        assert(!rest.contains(0x25u8)) by {
            if rest.contains(0x25u8) {
                let i = choose|i: int| 0 <= i < rest.len() && rest[i] == 0x25u8;
                assert(bytes[i + 1] == 0x25u8);
            }
        }
        lemma_nothing_to_decode(rest);
        assert(seq![bytes[0]] + rest =~= bytes);
    }
}

/// A text without `%` is its own decoding.
pub proof fn lemma_decoding_keeps_text(text: Seq<char>)
    requires
        !text.contains('%'),
    ensures
        percent_decoded_text(text) == text,
{
    lemma_encoding_has_no_percent(text);
    lemma_nothing_to_decode(encode_utf8(text));
    encode_utf8_valid_utf8(text);
    encode_utf8_decode_utf8(text);
}

/// Escaping the apostrophes of two texts and joining them is escaping the
/// apostrophes of the two joined.
pub proof fn lemma_escaping_distributes(a: Seq<char>, b: Seq<char>)
    ensures
        escaped(a + b) == escaped(a) + escaped(b),
    decreases a.len(),
{
    reveal_strlit("'");
    if a.len() == 0 {
        assert(a + b =~= b);
        assert(escaped(a) + escaped(b) =~= escaped(b));
    } else {
        let rest = a.drop_first();
        lemma_escaping_distributes(rest, b);
        assert((a + b).drop_first() =~= rest + b);
        assert((a + b).skip(1) =~= rest + b);
        assert(a.skip(1) =~= rest);
        if a[0] == '\'' {
            assert(a.subrange(0, 1) =~= APOSTROPHE@);
            assert((a + b).subrange(0, 1) =~= APOSTROPHE@);
            assert(apostrophe_escape() + (escaped(rest) + escaped(b)) =~= (apostrophe_escape()
                + escaped(rest)) + escaped(b));
        } else {
            assert(!occurs_at(a, APOSTROPHE@, 0)) by {
                if occurs_at(a, APOSTROPHE@, 0) {
                    assert(a.subrange(0, 1)[0] == '\'');
                }
            }
            assert(!occurs_at(a + b, APOSTROPHE@, 0)) by {
                if occurs_at(a + b, APOSTROPHE@, 0) {
                    assert((a + b).subrange(0, 1)[0] == '\'');
                }
            }
            assert(seq![a[0]] + (escaped(rest) + escaped(b)) =~= (seq![a[0]] + escaped(rest))
                + escaped(b));
        }
    }
}

/// Escaping adds only the characters of the escape.
pub proof fn lemma_escaping_adds_only_the_escape(text: Seq<char>, c: char)
    requires
        escaped(text).contains(c),
    ensures
        text.contains(c) || c == '%' || c == '2' || c == '7',
    decreases text.len(),
{
    reveal_strlit("'");
    reveal_strlit("%27");
    if text.len() > 0 {
        let rest = if occurs_at(text, APOSTROPHE@, 0) {
            text.skip(1)
        } else {
            text.drop_first()
        };
        let head = if occurs_at(text, APOSTROPHE@, 0) {
            apostrophe_escape()
        } else {
            seq![text[0]]
        };
        assert(escaped(text) == head + escaped(rest));
        let i = choose|i: int| 0 <= i < escaped(text).len() && escaped(text)[i] == c;
        if i >= head.len() {
            assert(escaped(rest)[i - head.len()] == c);
            assert(escaped(rest).contains(c));
            lemma_escaping_adds_only_the_escape(rest, c);
            if rest.contains(c) {
                let j = choose|j: int| 0 <= j < rest.len() && rest[j] == c;
                assert(text[j + 1] == c);
            }
        } else if !occurs_at(text, APOSTROPHE@, 0) {
            assert(text[0] == c);
        }
    }
}

/// A stretch without `%` is written as itself with its apostrophes escaped.
pub proof fn lemma_written_without_percent(piece: Seq<char>)
    requires
        !piece.contains('%'),
    ensures
        written(piece) == escaped(piece),
{
    lemma_decoding_keeps_text(piece);
}

/// What is left of a title whose only escapes are apostrophes decodes, with
/// the stretch before it, to the two joined with each apostrophe escaped.
pub proof fn lemma_decoded_from(rest: Seq<char>, piece: Seq<char>)
    requires
        has_only_apostrophe_escapes(rest),
        !piece.contains('%'),
    ensures
        decoded_from(rest, piece) == escaped(piece + rest),
    decreases rest.len(),
{
    reveal_strlit("%27");
    reveal_strlit("'");
    let escape = apostrophe_escape();
    lemma_written_without_percent(piece);
    if rest.len() == 0 {
        assert(piece + rest =~= piece);
    } else if occurs_at(rest, escape, 0) {
        let tail = rest.skip(3);
        assert(!Seq::<char>::empty().contains('%'));
        lemma_decoded_from(tail, Seq::empty());
        assert(Seq::<char>::empty() + tail =~= tail);
        assert(rest =~= escape + tail) by {
            assert(rest.subrange(0, 3) =~= escape);
        }
        lemma_escaping_the_apostrophe();
        lemma_escaping_distributes(escape, tail);
        lemma_escaping_distributes(piece, escape + tail);
        assert(piece + rest =~= piece + (escape + tail));
        assert(escaped(piece) + escape + escaped(tail) =~= escaped(piece) + (escape + escaped(tail)));
    } else {
        let tail = rest.drop_first();
        let longer = piece.push(rest[0]);
        assert(!longer.contains('%')) by {
            if longer.contains('%') {
                let i = choose|i: int| 0 <= i < longer.len() && longer[i] == '%';
                if i < piece.len() {
                    assert(piece[i] == '%');
                }
            }
        }
        lemma_decoded_from(tail, longer);
        assert(longer + tail =~= piece + rest);
    }
}

/// Apostrophe fidelity. A title whose only escapes are apostrophes is
/// decoded to itself with each apostrophe escaped.
pub proof fn lemma_apostrophes_are_escaped(title: Seq<char>)
    requires
        has_only_apostrophe_escapes(title),
    ensures
        decoded_title(title) == escaped(title),
{
    lemma_decoded_from(title, Seq::empty());
    assert(Seq::<char>::empty() + title =~= title);
}

/// The apostrophe is written as its escape, and the escape as itself.
pub proof fn lemma_escaping_the_apostrophe()
    ensures
        escaped(APOSTROPHE@) == apostrophe_escape(),
        escaped(apostrophe_escape()) == apostrophe_escape(),
{
    reveal_strlit("%27");
    reveal_strlit("'");
    let escape = apostrophe_escape();
    assert(!contains_text(escape, APOSTROPHE@)) by {
        if contains_text(escape, APOSTROPHE@) {
            let at = choose|at: int| occurs_at(escape, APOSTROPHE@, at);
            assert(escape.subrange(at, at + 1)[0] == '\'');
        }
    }
    lemma_replace_without_match(escape, APOSTROPHE@, escape);
    let nothing = Seq::<char>::empty();
    assert(occurs_at(APOSTROPHE@, APOSTROPHE@, 0)) by {
        assert(APOSTROPHE@.subrange(0, 1) =~= APOSTROPHE@);
    }
    assert(APOSTROPHE@.skip(1) =~= nothing);
    assert(replace_all(nothing, APOSTROPHE@, escape) == nothing);
    assert(escape + nothing =~= escape);
}

/// Apostrophe fidelity. An apostrophe and its escape, in the same place of a
/// title whose only escapes are apostrophes, give the same decoded title.
pub proof fn lemma_one_identity_for_the_apostrophe(head: Seq<char>, tail: Seq<char>)
    requires
        has_only_apostrophe_escapes(head + APOSTROPHE@ + tail),
        has_only_apostrophe_escapes(head + apostrophe_escape() + tail),
    ensures
        decoded_title(head + APOSTROPHE@ + tail) == decoded_title(
            head + apostrophe_escape() + tail,
        ),
{
    let escape = apostrophe_escape();
    lemma_apostrophes_are_escaped(head + APOSTROPHE@ + tail);
    lemma_apostrophes_are_escaped(head + escape + tail);
    lemma_escaping_the_apostrophe();
    lemma_escaping_distributes(head + APOSTROPHE@, tail);
    lemma_escaping_distributes(head, APOSTROPHE@);
    lemma_escaping_distributes(head + escape, tail);
    lemma_escaping_distributes(head, escape);
}

/// One pass settles. Escaping the apostrophes of a title whose only escapes
/// are apostrophes gives a title in settled form.
pub proof fn lemma_escaping_settles(title: Seq<char>)
    requires
        has_only_apostrophe_escapes(title),
    ensures
        is_settled_form(escaped(title)),
    decreases title.len(),
{
    reveal_strlit("%27");
    reveal_strlit("'");
    let escape = apostrophe_escape();
    if title.len() > 0 {
        if occurs_at(title, escape, 0) || title[0] == '\'' {
            let tail = if occurs_at(title, escape, 0) {
                title.skip(3)
            } else {
                title.drop_first()
            };
            lemma_escaping_settles(tail);
            lemma_escaping_the_apostrophe();
            if occurs_at(title, escape, 0) {
                assert(title =~= escape + tail) by {
                    assert(title.subrange(0, 3) =~= escape);
                }
                lemma_escaping_distributes(escape, tail);
            } else {
                assert(title =~= APOSTROPHE@ + tail);
                lemma_escaping_distributes(APOSTROPHE@, tail);
            }
            let after = escape + escaped(tail);
            assert(escaped(title) == after);
            assert(occurs_at(after, escape, 0)) by {
                assert(after.subrange(0, 3) =~= escape);
            }
            assert(after.skip(3) =~= escaped(tail));
            if after.contains('\'') {
                let i = choose|i: int| 0 <= i < after.len() && after[i] == '\'';
                assert(escaped(tail)[i - 3] == '\'');
                assert(escaped(tail).contains('\''));
            }
        } else {
            let tail = title.drop_first();
            lemma_escaping_settles(tail);
            assert(!occurs_at(title, APOSTROPHE@, 0)) by {
                if occurs_at(title, APOSTROPHE@, 0) {
                    assert(title.subrange(0, 1)[0] == '\'');
                }
            }
            let after = seq![title[0]] + escaped(tail);
            assert(escaped(title) == after);
            assert(!occurs_at(after, escape, 0)) by {
                if occurs_at(after, escape, 0) {
                    assert(after.subrange(0, 3)[0] == '%');
                }
            }
            assert(after.drop_first() =~= escaped(tail));
            if after.contains('\'') {
                let i = choose|i: int| 0 <= i < after.len() && after[i] == '\'';
                assert(escaped(tail)[i - 1] == '\'');
                assert(escaped(tail).contains('\''));
            }
        }
    }
}

/// A title in settled form is decoded to itself.
pub proof fn lemma_settled_title_is_kept(title: Seq<char>)
    requires
        is_settled_form(title),
    ensures
        decoded_title(title) == title,
{
    reveal_strlit("'");
    lemma_apostrophes_are_escaped(title);
    assert(!contains_text(title, APOSTROPHE@)) by {
        if contains_text(title, APOSTROPHE@) {
            let at = choose|at: int| occurs_at(title, APOSTROPHE@, at);
            assert(title.subrange(at, at + 1)[0] == '\'');
            assert(title[at] == '\'');
        }
    }
    lemma_replace_without_match(title, APOSTROPHE@, apostrophe_escape());
}

/// A title without query string and fragment is its own bare title.
pub proof fn lemma_bare_title_is_kept(title: Seq<char>)
    requires
        is_bare(title),
    ensures
        bare_title(title) == title,
{
    lemma_take_until_head(title, Seq::empty(), '?');
    lemma_take_until_head(title, Seq::empty(), '#');
    assert(title + Seq::<char>::empty() =~= title);
}

/// No query string, no fragment. Where the bare title of a candidate holds
/// no escape but the apostrophe's, the canonical URL holds neither `?` nor
/// `#`, whatever query string and fragment the candidate carried.
pub proof fn lemma_output_has_no_query_or_fragment(candidate: Seq<char>)
    requires
        finished(candidate) is Some,
        has_only_apostrophe_escapes(bare_title(candidate.skip(wiki_prefix().len() as int))),
    ensures
        !finished(candidate)->0.contains('?'),
        !finished(candidate)->0.contains('#'),
{
    reveal_strlit("https://fr.wikipedia.org/wiki/");
    let bare = bare_title(candidate.skip(wiki_prefix().len() as int));
    let url = finished(candidate)->0;
    lemma_bare_title(candidate.skip(wiki_prefix().len() as int));
    lemma_apostrophes_are_escaped(bare);
    assert(url == wiki_prefix() + escaped(bare));
    assert forall|c: char| (c == '?' || c == '#') implies !url.contains(c) by {
        if url.contains(c) {
            let i = choose|i: int| 0 <= i < url.len() && url[i] == c;
            if i >= wiki_prefix().len() {
                assert(escaped(bare)[i - wiki_prefix().len()] == c);
                assert(escaped(bare).contains(c));
                lemma_escaping_adds_only_the_escape(bare, c);
            }
        }
    }
}

/// The canonical URL of a title in settled form, without `:`, query string
/// and fragment, passes the last stage unchanged.
pub proof fn lemma_settled_url_is_finished(title: Seq<char>)
    requires
        is_settled_form(title),
        is_bare(title),
        !title.contains(':'),
    ensures
        finished(wiki_prefix() + title) == Some(wiki_prefix() + title),
{
    let url = wiki_prefix() + title;
    assert(url.subrange(0, wiki_prefix().len() as int) =~= wiki_prefix());
    assert(url.skip(wiki_prefix().len() as int) =~= title);
    lemma_bare_title_is_kept(title);
    lemma_settled_title_is_kept(title);
}

/// A wiki path is accepted. The path of a title in settled form, without
/// `:`, query string and fragment, and not ending in whitespace, gives the
/// canonical URL of the title, whatever the parser would say.
pub proof fn lemma_wiki_link_is_accepted(title: Seq<char>, parsed: Option<UrlPartsView>)
    requires
        is_settled_form(title),
        is_bare(title),
        !title.contains(':'),
        title.len() > 0 ==> !is_whitespace(title.last()),
    ensures
        canonical_given(WIKI_PATH@ + title, parsed) == Some(wiki_prefix() + title),
{
    let link = WIKI_PATH@ + title;
    reveal_strlit("https://fr.wikipedia.org/wiki/");
    reveal_strlit("https://fr.wikipedia.org");
    reveal_strlit("//");
    reveal_strlit("/wiki/");
    reveal_strlit("/w/index.php");
    reveal_strlit("?");
    assert(link.last() == if title.len() > 0 {
        title.last()
    } else {
        '/'
    });
    assert(!occurs_at(link, "//"@, 0)) by {
        if occurs_at(link, "//"@, 0) {
            assert(link.subrange(0, 2)[1] == '/');
        }
    }
    assert(index_query(link) is None) by {
        if occurs_at(link, INDEX_PATH@ + "?"@, 0) {
            assert(link.subrange(0, 13)[2] == '/');
        }
    }
    assert(occurs_at(link, WIKI_PATH@, 0)) by {
        assert(link.subrange(0, 6) =~= WIKI_PATH@);
    }
    assert(site_origin() + link =~= wiki_prefix() + title);
    lemma_settled_url_is_finished(title);
}

/// Query rewrite. A link to the index endpoint whose first parameter is the
/// title stands for the same candidate as the wiki path of that title.
pub proof fn lemma_query_rewrite(title: Seq<char>, rest: Seq<char>)
    requires
        !title.contains('&'),
        !title.contains('#'),
        !title.contains('='),
        rest.len() == 0 || rest[0] == '#' || (rest[0] == '&' && !rest.contains('#')),
    ensures
        relative_candidate(INDEX_PATH@ + "?title="@ + title + rest) == Some(
            wiki_prefix() + title,
        ),
        relative_candidate(WIKI_PATH@ + title) == Some(wiki_prefix() + title),
{
    reveal_strlit("https://fr.wikipedia.org/wiki/");
    reveal_strlit("https://fr.wikipedia.org");
    reveal_strlit("/wiki/");
    reveal_strlit("/w/index.php");
    reveal_strlit("?title=");
    reveal_strlit("?");
    reveal_strlit("title");
    let link = INDEX_PATH@ + "?title="@ + title + rest;
    let name = TITLE_KEY@;
    let pair = name + seq!['='] + title;
    let nothing = Seq::<char>::empty();
    assert(occurs_at(link, INDEX_PATH@ + "?"@, 0)) by {
        assert(link.subrange(0, 13) =~= INDEX_PATH@ + "?"@);
    }
    assert(link.skip(13) =~= pair + rest);
    assert forall|c: char| (c == '&' || c == '#') implies !pair.contains(c) by {
        if pair.contains(c) {
            let i = choose|i: int| 0 <= i < pair.len() && pair[i] == c;
            if i >= 6 {
                assert(title[i - 6] == c);
                assert(title.contains(c));
            }
        }
    }
    let query = take_until(pair + rest, '#');
    if rest.len() == 0 || rest[0] == '#' {
        lemma_take_until_head(pair, rest, '#');
        lemma_take_until_head(pair, nothing, '&');
        assert(pair + nothing =~= pair);
        assert(take_until(query, '&') == pair);
    } else {
        assert(!(pair + rest).contains('#')) by {
            if (pair + rest).contains('#') {
                let i = choose|i: int| 0 <= i < (pair + rest).len() && (pair + rest)[i] == '#';
                if i < pair.len() {
                    assert(pair[i] == '#');
                    assert(pair.contains('#'));
                } else {
                    assert(rest[i - pair.len()] == '#');
                    assert(rest.contains('#'));
                }
            }
        }
        lemma_take_until_head(pair + rest, nothing, '#');
        assert(pair + rest + nothing =~= pair + rest);
        lemma_take_until_head(pair, rest, '&');
        assert(take_until(query, '&') == pair);
    }
    assert(!name.contains('=')) by {
        if name.contains('=') {
            let i = choose|i: int| 0 <= i < name.len() && name[i] == '=';
            assert(name[i] != '=');
        }
    }
    lemma_take_until_head(name, seq!['='] + title, '=');
    assert(name + (seq!['='] + title) =~= pair);
    assert(pair_name(pair) == name);
    assert(pair.skip(6) =~= title);
    assert(pair_value(pair) == title);
    assert(raw_value(query, TITLE_KEY@) == Some(title));

    let path = WIKI_PATH@ + title;
    assert(index_query(path) is None) by {
        if occurs_at(path, INDEX_PATH@ + "?"@, 0) {
            assert(path.subrange(0, 13)[2] == '/');
        }
    }
    assert(occurs_at(path, WIKI_PATH@, 0)) by {
        assert(path.subrange(0, 6) =~= WIKI_PATH@);
    }
    assert(site_origin() + path =~= wiki_prefix() + title);
}

/// Idempotence. A canonical URL that does not end in whitespace is kept by
/// a second pass wherever the parser reads it as a page of the wiki whose
/// title decodes back to the title of the URL.
pub proof fn lemma_canonical_is_fixed_point(url: Seq<char>, parts: UrlPartsView)
    requires
        occurs_at(url, wiki_prefix(), 0),
        !is_whitespace(url.last()),
        !url.skip(wiki_prefix().len() as int).contains(':'),
        parts.scheme == SECURE_SCHEME@,
        parts.host == Some(SITE_HOST@),
        parts.path != INDEX_PATH@,
        occurs_at(parts.path, WIKI_PATH@, 0),
        occurs_at(parts.stripped, wiki_prefix(), 0),
        decoded_title(bare_title(parts.stripped.skip(wiki_prefix().len() as int))) == url.skip(
            wiki_prefix().len() as int,
        ),
    ensures
        canonical_given(url, Some(parts)) == Some(url),
{
    reveal_strlit("https://fr.wikipedia.org/wiki/");
    reveal_strlit("//");
    assert(url[0] == 'h') by {
        assert(url.subrange(0, 30)[0] == 'h');
    }
    assert(!occurs_at(url, "//"@, 0)) by {
        if occurs_at(url, "//"@, 0) {
            assert(url.subrange(0, 2)[0] == '/');
        }
    }
    assert(trimmed(url) == url);
    assert(wiki_prefix() + url.skip(wiki_prefix().len() as int) =~= url) by {
        assert(url.subrange(0, 30) =~= wiki_prefix());
    }
}

/// Idempotence on settled titles. The canonical URL of a title in settled
/// form that does not end in whitespace, read back by the parser as it is
/// written, canonicalises to itself.
pub proof fn lemma_settled_canonical_is_fixed_point(title: Seq<char>, parts: UrlPartsView)
    requires
        is_settled_form(title),
        is_bare(title),
        !title.contains(':'),
        title.len() > 0 ==> !is_whitespace(title.last()),
        reads_back(title, parts),
    ensures
        canonical_given(wiki_prefix() + title, Some(parts)) == Some(wiki_prefix() + title),
{
    let url = wiki_prefix() + title;
    reveal_strlit("https://fr.wikipedia.org/wiki/");
    reveal_strlit("/wiki/");
    reveal_strlit("/w/index.php");
    assert(url.last() == if title.len() > 0 {
        title.last()
    } else {
        '/'
    });
    assert(url.subrange(0, 30) =~= wiki_prefix());
    assert(url.skip(30) =~= title);
    assert(parts.path != INDEX_PATH@) by {
        assert(parts.path[2] == 'i');
    }
    assert(occurs_at(parts.path, WIKI_PATH@, 0)) by {
        assert(parts.path.subrange(0, 6) =~= WIKI_PATH@);
    }
    lemma_bare_title_is_kept(title);
    lemma_settled_title_is_kept(title);
    lemma_canonical_is_fixed_point(url, parts);
}

/// Idempotence. Where the bare title of a candidate holds no escape but
/// the apostrophe's, a second pass over the canonical URL changes nothing,
/// given that the URL does not end in whitespace and that the parser reads
/// it back as it is written.
pub proof fn lemma_second_pass_changes_nothing(candidate: Seq<char>, parts: UrlPartsView)
    requires
        finished(candidate) is Some,
        has_only_apostrophe_escapes(bare_title(candidate.skip(wiki_prefix().len() as int))),
        !is_whitespace(finished(candidate)->0.last()),
        reads_back(finished(candidate)->0.skip(wiki_prefix().len() as int), parts),
    ensures
        canonical_given(finished(candidate)->0, Some(parts)) == finished(candidate),
{
    let bare = bare_title(candidate.skip(wiki_prefix().len() as int));
    let url = finished(candidate)->0;
    let title = escaped(bare);
    lemma_apostrophes_are_escaped(bare);
    lemma_escaping_settles(bare);
    lemma_output_has_no_query_or_fragment(candidate);
    assert(url == wiki_prefix() + title);
    assert(url.skip(wiki_prefix().len() as int) =~= title);
    assert(is_bare(title)) by {
        if title.contains('?') {
            let i = choose|i: int| 0 <= i < title.len() && title[i] == '?';
            assert(url[i + wiki_prefix().len()] == '?');
            assert(url.contains('?'));
        }
        if title.contains('#') {
            let i = choose|i: int| 0 <= i < title.len() && title[i] == '#';
            assert(url[i + wiki_prefix().len()] == '#');
            assert(url.contains('#'));
        }
    }
    if title.len() > 0 {
        assert(url.last() == title.last());
    }
    lemma_settled_canonical_is_fixed_point(title, parts);
}

/// The value of a pair of a query is a part of the query.
pub proof fn lemma_raw_value_is_a_part(query: Seq<char>, key: Seq<char>)
    requires
        raw_value(query, key) is Some,
    ensures
        is_part_of(raw_value(query, key)->0, query),
    decreases query.len(),
{
    let pair = take_until(query, '&');
    lemma_take_until(query, '&');
    lemma_take_until_is_a_part(query, '&');
    if pair_name(pair) == key {
        lemma_take_until(pair, '=');
        if pair_name(pair).len() < pair.len() {
            lemma_skip_is_a_part(pair, pair_name(pair).len() + 1 as int);
        } else {
            assert(pair_value(pair) =~= pair.subrange(0, 0));
            assert(part_at(pair_value(pair), pair, 0, 0));
        }
        lemma_part_of_part(pair_value(pair), pair, query);
    } else {
        let rest = query.skip(pair.len() + 1 as int);
        lemma_raw_value_is_a_part(rest, key);
        lemma_skip_is_a_part(query, pair.len() + 1 as int);
        lemma_part_of_part(raw_value(rest, key)->0, rest, query);
    }
}

/// The bare title of the candidate of a path-relative link is a part of the
/// link.
pub proof fn lemma_relative_title_is_a_part(link: Seq<char>)
    requires
        relative_candidate(link) is Some,
    ensures
        is_part_of(
            bare_title(relative_candidate(link)->0.skip(wiki_prefix().len() as int)),
            link,
        ),
{
    reveal_strlit("https://fr.wikipedia.org/wiki/");
    reveal_strlit("https://fr.wikipedia.org");
    reveal_strlit("/wiki/");
    reveal_strlit("/w/index.php");
    reveal_strlit("?");
    let candidate = relative_candidate(link)->0;
    let title = candidate.skip(wiki_prefix().len() as int);
    if index_query(link) is Some {
        let rest = link.skip(13);
        let query = index_query(link)->0;
        lemma_raw_value_is_a_part(query, TITLE_KEY@);
        assert(title =~= raw_value(query, TITLE_KEY@)->0);
        lemma_take_until_is_a_part(rest, '#');
        lemma_skip_is_a_part(link, 13);
        lemma_part_of_part(query, rest, link);
        lemma_part_of_part(title, query, link);
    } else {
        assert(title =~= link.skip(6));
        lemma_skip_is_a_part(link, 6);
    }
    let cut = take_until(title, '?');
    lemma_take_until_is_a_part(title, '?');
    lemma_take_until_is_a_part(cut, '#');
    lemma_part_of_part(bare_title(title), cut, title);
    lemma_part_of_part(bare_title(title), title, link);
}

/// No query string, no fragment, from the link itself. The bare title of
/// the candidate of a path-relative link escapes no `?` and no `#` where the
/// link as it was given holds no `%3F`, `%3f` and `%23`.
pub proof fn lemma_relative_link_escapes_no_mark(raw: Seq<char>, parsed: Option<UrlPartsView>)
    requires
        !is_fragment(trimmed(raw)),
        is_path_relative(prepared(raw)),
        candidate_of_prepared(prepared(raw), parsed) is Some,
        !holds_mark_escape(raw),
    ensures
        !holds_mark_escape(
            bare_title(
                candidate_of_prepared(prepared(raw), parsed)->0.skip(wiki_prefix().len() as int),
            ),
        ),
{
    reveal_strlit("https:");
    reveal_strlit("//");
    let link = prepared(raw);
    assert(link == trimmed(raw)) by {
        if occurs_at(trimmed(raw), "//"@, 0) {
            assert(link[0] == 'h');
        }
    }
    let bare = bare_title(relative_candidate(link)->0.skip(wiki_prefix().len() as int));
    lemma_relative_title_is_a_part(link);
    lemma_trimmed_is_a_part(raw);
    lemma_part_of_part(bare, link, raw);
    if contains_text(bare, "%3F"@) {
        lemma_text_of_a_part(bare, raw, "%3F"@);
    }
    if contains_text(bare, "%3f"@) {
        lemma_text_of_a_part(bare, raw, "%3f"@);
    }
    if contains_text(bare, "%23"@) {
        lemma_text_of_a_part(bare, raw, "%23"@);
    }
}

} // verus!
