//! Where a decoded text has its ASCII characters from. Percent-decoding and
//! lossy UTF-8 decoding make no ASCII character out of nothing: each one
//! stands in the text itself or is written there as an escape. So a title
//! that holds no `?` and no `#`, and no escape of either, decodes to one
//! that holds neither.

use crate::bindings::{hex_value, is_hex_digit, percent_decoded};
use crate::text::occurs_at;
use vstd::prelude::*;
use vstd::utf8::{char_is_scalar, char_u32_cast, encode_scalar, encode_utf8};

verus! {

/// The byte that writes the ASCII character `c`.
pub open spec fn ascii_byte(c: char) -> u8 {
    (c as u32) as u8
}

/// At index `at`, `text` holds the percent-escape of the byte `byte`: a `%`
/// and two hexadecimal digits that write it.
pub open spec fn escapes_at(text: Seq<char>, byte: u8, at: int) -> bool {
    &&& 0 <= at
    &&& at + 2 < text.len()
    &&& text[at] == '%'
    &&& (text[at + 1] as u32) < 0x80
    &&& (text[at + 2] as u32) < 0x80
    &&& is_hex_digit(ascii_byte(text[at + 1]))
    &&& is_hex_digit(ascii_byte(text[at + 2]))
    &&& hex_value(ascii_byte(text[at + 1])) * 16 + hex_value(ascii_byte(text[at + 2])) == byte
}

/// Somewhere `text` holds the percent-escape of the byte `byte`.
pub open spec fn holds_escape_of(text: Seq<char>, byte: u8) -> bool {
    exists|at: int| escapes_at(text, byte, at)
}

/// `?` and `#` stand in `out` only where `source` holds them or an escape
/// of them: `%3F`, `%3f` or `%23`.
pub open spec fn marks_come_from(out: Seq<char>, source: Seq<char>) -> bool {
    &&& out.contains('?') ==> source.contains('?') || holds_escape_of(source, 0x3F)
    &&& out.contains('#') ==> source.contains('#') || holds_escape_of(source, 0x23)
}

/// At index `at`, `bytes` hold the percent-escape of `byte`.
pub open spec fn byte_escape_at(bytes: Seq<u8>, byte: u8, at: int) -> bool {
    &&& 0 <= at
    &&& at + 2 < bytes.len()
    &&& bytes[at] == 0x25
    &&& is_hex_digit(bytes[at + 1])
    &&& is_hex_digit(bytes[at + 2])
    &&& hex_value(bytes[at + 1]) * 16 + hex_value(bytes[at + 2]) == byte
}

/// The one byte of a scalar below 0x80 is the scalar; every byte of a
/// longer encoding is 0x80 or more.
proof fn lemma_scalar_encoding(v: u32)
    by (bit_vector)
    ensures
        v <= 0x7F ==> ((v & 0x7F) as u8) as u32 == v,
        (0xC0u8 | ((v >> 6) & 0x1F) as u8) >= 0x80u8,
        (0xE0u8 | ((v >> 12) & 0x0F) as u8) >= 0x80u8,
        (0xF0u8 | ((v >> 18) & 0x7) as u8) >= 0x80u8,
        (0x80u8 | (v & 0x3F) as u8) >= 0x80u8,
        (0x80u8 | ((v >> 6) & 0x3F) as u8) >= 0x80u8,
        (0x80u8 | ((v >> 12) & 0x3F) as u8) >= 0x80u8,
{
}

/// The encoding of a text begins with that of its first character, which is
/// one byte below 0x80, the character itself, or bytes of 0x80 and more.
pub proof fn lemma_first_character(text: Seq<char>)
    requires
        text.len() > 0,
    ensures
        encode_utf8(text) == encode_scalar(text[0] as u32) + encode_utf8(text.drop_first()),
        encode_scalar(text[0] as u32).len() >= 1,
        (text[0] as u32) < 0x80 ==> encode_scalar(text[0] as u32).len() == 1 && encode_scalar(
            text[0] as u32,
        )[0] as u32 == text[0] as u32,
        (text[0] as u32) >= 0x80 ==> forall|t: int|
            0 <= t < encode_scalar(text[0] as u32).len() ==> #[trigger] encode_scalar(
                text[0] as u32,
            )[t] >= 0x80,
{
    let v: u32 = text[0] as u32;
    char_is_scalar(text[0]);
    lemma_scalar_encoding(v);
}

/// Where the first `k` bytes of the encoding of a text are below 0x80, they
/// are its first `k` characters.
pub proof fn lemma_ascii_prefix(text: Seq<char>, k: nat)
    requires
        k <= encode_utf8(text).len(),
        forall|t: int| 0 <= t < k ==> #[trigger] encode_utf8(text)[t] < 0x80,
    ensures
        k <= text.len(),
        forall|t: int| 0 <= t < k ==> (#[trigger] text[t]) as u32 == encode_utf8(text)[t] as u32,
    decreases k,
{
    if k > 0 {
        let bytes = encode_utf8(text);
        assert(text.len() > 0);
        lemma_first_character(text);
        let head = encode_scalar(text[0] as u32);
        let rest = text.drop_first();
        let tail = encode_utf8(rest);
        assert(bytes[0] == head[0]);
        assert(bytes[0] < 0x80);
        assert(head.len() == 1);
        assert forall|t: int| 0 <= t < k - 1 implies #[trigger] tail[t] < 0x80 by {
            assert(bytes[t + 1] == tail[t]);
        }
        lemma_ascii_prefix(rest, (k - 1) as nat);
        assert forall|t: int| 0 <= t < k implies (#[trigger] text[t]) as u32 == bytes[t] as u32 by {
            if t > 0 {
                assert(text[t] == rest[t - 1]);
                assert(bytes[t] == tail[t - 1]);
            }
        }
    }
}

/// Where `k` bytes of the encoding of a text, from index `at` on, are below
/// 0x80, they are `k` characters of the text in a row. Returns where.
pub proof fn lemma_ascii_run(text: Seq<char>, at: int, k: nat) -> (j: int)
    requires
        0 <= at,
        k > 0,
        at + k <= encode_utf8(text).len(),
        forall|t: int| 0 <= t < k ==> #[trigger] encode_utf8(text)[at + t] < 0x80,
    ensures
        0 <= j,
        j + k <= text.len(),
        forall|t: int|
            0 <= t < k ==> (#[trigger] text[j + t]) as u32 == encode_utf8(text)[at + t] as u32,
    decreases text.len(),
{
    let bytes = encode_utf8(text);
    assert(text.len() > 0);
    lemma_first_character(text);
    let head = encode_scalar(text[0] as u32);
    let rest = text.drop_first();
    let tail = encode_utf8(rest);
    if at == 0 {
        assert forall|t: int| 0 <= t < k implies #[trigger] bytes[t] < 0x80 by {
            assert(bytes[at + t] < 0x80);
        }
        lemma_ascii_prefix(text, k);
        0
    } else if at < head.len() {
        assert(bytes[at + 0] == head[at]);
        assert(false);
        0
    } else {
        assert forall|t: int| 0 <= t < k implies #[trigger] tail[at - head.len() + t] < 0x80 by {
            assert(bytes[at + t] == tail[at - head.len() + t]);
        }
        let inner = lemma_ascii_run(rest, at - head.len(), k);
        assert forall|t: int| 0 <= t < k implies (#[trigger] text[inner + 1 + t]) as u32
            == bytes[at + t] as u32 by {
            assert(text[inner + 1 + t] == rest[inner + t]);
            assert(bytes[at + t] == tail[at - head.len() + t]);
        }
        inner + 1
    }
}

/// A byte of the percent-decoding of bytes stands among them or is written
/// there as an escape. Returns where.
pub proof fn lemma_decoded_byte(bytes: Seq<u8>, byte: u8) -> (at: int)
    requires
        percent_decoded(bytes).contains(byte),
    ensures
        0 <= at < bytes.len(),
        bytes[at] == byte || byte_escape_at(bytes, byte, at),
    decreases bytes.len(),
{
    let decoded = percent_decoded(bytes);
    let k = choose|k: int| 0 <= k < decoded.len() && decoded[k] == byte;
    assert(bytes.len() > 0);
    if bytes[0] == 0x25 && bytes.len() >= 3 && is_hex_digit(bytes[1]) && is_hex_digit(bytes[2]) {
        let rest = bytes.skip(3);
        if k == 0 {
            0
        } else {
            assert(percent_decoded(rest)[k - 1] == byte);
            assert(percent_decoded(rest).contains(byte));
            let inner = lemma_decoded_byte(rest, byte);
            assert(rest[inner] == bytes[inner + 3]);
            if byte_escape_at(rest, byte, inner) {
                assert(rest[inner + 1] == bytes[inner + 4]);
                assert(rest[inner + 2] == bytes[inner + 5]);
            }
            inner + 3
        }
    } else {
        let rest = bytes.drop_first();
        if k == 0 {
            0
        } else {
            assert(percent_decoded(rest)[k - 1] == byte);
            assert(percent_decoded(rest).contains(byte));
            let inner = lemma_decoded_byte(rest, byte);
            assert(rest[inner] == bytes[inner + 1]);
            if byte_escape_at(rest, byte, inner) {
                assert(rest[inner + 1] == bytes[inner + 2]);
                assert(rest[inner + 2] == bytes[inner + 3]);
            }
            inner + 1
        }
    }
}

/// An ASCII character whose byte stands in the percent-decoding of a text
/// stands in the text or is written there as an escape.
pub proof fn lemma_decoded_character(text: Seq<char>, c: char)
    requires
        (c as u32) < 0x80,
        percent_decoded(encode_utf8(text)).contains(ascii_byte(c)),
    ensures
        text.contains(c) || holds_escape_of(text, ascii_byte(c)),
{
    let bytes = encode_utf8(text);
    let byte = ascii_byte(c);
    let at = lemma_decoded_byte(bytes, byte);
    if bytes[at] == byte {
        let j = lemma_ascii_run(text, at, 1);
        assert(text[j + 0] as u32 == c as u32);
        char_u32_cast(text[j], c as u32);
        char_u32_cast(c, c as u32);
        assert(text[j] == c);
    } else {
        assert forall|t: int| 0 <= t < 3 implies #[trigger] bytes[at + t] < 0x80 by {}
        let j = lemma_ascii_run(text, at, 3);
        assert(text[j + 0] as u32 == 0x25);
        char_u32_cast(text[j], 0x25);
        char_u32_cast('%', 0x25);
        assert(text[j + 1] as u32 == bytes[at + 1] as u32);
        assert(text[j + 2] as u32 == bytes[at + 2] as u32);
        assert(escapes_at(text, byte, j));
    }
}

/// What comes from a part of a text comes from the text.
pub proof fn lemma_marks_of_a_part(out: Seq<char>, source: Seq<char>, from: int, to: int)
    requires
        0 <= from <= to <= source.len(),
        marks_come_from(out, source.subrange(from, to)),
    ensures
        marks_come_from(out, source),
{
    let part = source.subrange(from, to);
    assert forall|c: char| part.contains(c) implies source.contains(c) by {
        let i = choose|i: int| 0 <= i < part.len() && part[i] == c;
        assert(source[from + i] == c);
    }
    assert forall|byte: u8| holds_escape_of(part, byte) implies holds_escape_of(source, byte) by {
        let at = choose|at: int| escapes_at(part, byte, at);
        assert(part[at] == source[from + at]);
        assert(part[at + 1] == source[from + at + 1]);
        assert(part[at + 2] == source[from + at + 2]);
        assert(escapes_at(source, byte, from + at));
    }
}

/// What two texts have from a source, the two joined have from it.
pub proof fn lemma_marks_of_joined(a: Seq<char>, b: Seq<char>, source: Seq<char>)
    requires
        marks_come_from(a, source),
        marks_come_from(b, source),
    ensures
        marks_come_from(a + b, source),
{
    assert forall|c: char| (a + b).contains(c) implies a.contains(c) || b.contains(c) by {
        let i = choose|i: int| 0 <= i < (a + b).len() && (a + b)[i] == c;
        if i < a.len() {
            assert(a[i] == c);
        } else {
            assert(b[i - a.len()] == c);
        }
    }
}

/// The escapes of `?` and `#` are `%3F`, `%3f` and `%23`.
pub proof fn lemma_escapes_of_the_marks(text: Seq<char>)
    ensures
        holds_escape_of(text, 0x3F) ==> exists|at: int|
            occurs_at(text, "%3F"@, at) || occurs_at(text, "%3f"@, at),
        holds_escape_of(text, 0x23) ==> exists|at: int| occurs_at(text, "%23"@, at),
{
    reveal_strlit("%3F");
    reveal_strlit("%3f");
    reveal_strlit("%23");
    if holds_escape_of(text, 0x3F) {
        let at = choose|at: int| escapes_at(text, 0x3F, at);
        let high = text[at + 1];
        let low = text[at + 2];
        assert(high as u32 == 0x33);
        char_u32_cast(high, 0x33);
        char_u32_cast('3', 0x33);
        assert(low as u32 == 0x46 || low as u32 == 0x66);
        if low as u32 == 0x46 {
            char_u32_cast(low, 0x46);
            char_u32_cast('F', 0x46);
            assert(text.subrange(at, at + 3) =~= "%3F"@);
            assert(occurs_at(text, "%3F"@, at));
        } else {
            char_u32_cast(low, 0x66);
            char_u32_cast('f', 0x66);
            assert(text.subrange(at, at + 3) =~= "%3f"@);
            assert(occurs_at(text, "%3f"@, at));
        }
    }
    if holds_escape_of(text, 0x23) {
        let at = choose|at: int| escapes_at(text, 0x23, at);
        let high = text[at + 1];
        let low = text[at + 2];
        assert(high as u32 == 0x32);
        char_u32_cast(high, 0x32);
        char_u32_cast('2', 0x32);
        assert(low as u32 == 0x33);
        char_u32_cast(low, 0x33);
        char_u32_cast('3', 0x33);
        assert(text.subrange(at, at + 3) =~= "%23"@);
        assert(occurs_at(text, "%23"@, at));
    }
}

} // verus!
