//! Character sequences: the searching and rewriting primitives that the
//! canonicaliser is built from, each stated over `Seq<char>`.

use vstd::prelude::*;

verus! {

/// Unicode `White_Space`: the characters that trimming removes.
pub open spec fn is_whitespace(c: char) -> bool {
    let u = c as u32;
    ||| 0x09 <= u <= 0x0D
    ||| u == 0x20
    ||| u == 0x85
    ||| u == 0xA0
    ||| u == 0x1680
    ||| 0x2000 <= u <= 0x200A
    ||| u == 0x2028
    ||| u == 0x2029
    ||| u == 0x202F
    ||| u == 0x205F
    ||| u == 0x3000
}

/// `s` without its leading whitespace.
pub open spec fn trim_start(s: Seq<char>) -> Seq<char>
    decreases s.len(),
{
    if s.len() > 0 && is_whitespace(s[0]) {
        trim_start(s.drop_first())
    } else {
        s
    }
}

/// `s` without its trailing whitespace.
pub open spec fn trim_end(s: Seq<char>) -> Seq<char>
    decreases s.len(),
{
    if s.len() > 0 && is_whitespace(s.last()) {
        trim_end(s.drop_last())
    } else {
        s
    }
}

/// `s` without leading and trailing whitespace.
pub open spec fn trimmed(s: Seq<char>) -> Seq<char> {
    trim_end(trim_start(s))
}

/// `pat` stands in `s` at index `at`.
pub open spec fn occurs_at(s: Seq<char>, pat: Seq<char>, at: int) -> bool {
    &&& 0 <= at
    &&& at + pat.len() <= s.len()
    &&& s.subrange(at, at + pat.len()) == pat
}

/// `pat` stands somewhere in `s`.
pub open spec fn contains_text(s: Seq<char>, pat: Seq<char>) -> bool {
    exists|at: int| occurs_at(s, pat, at)
}

/// The longest prefix of `s` that does not hold `stop`.
pub open spec fn take_until(s: Seq<char>, stop: char) -> Seq<char>
    decreases s.len(),
{
    if s.len() == 0 || s[0] == stop {
        Seq::empty()
    } else {
        seq![s[0]] + take_until(s.drop_first(), stop)
    }
}

/// What follows the last `sep` of `s`; the whole of `s` where it holds none.
pub open spec fn last_segment(s: Seq<char>, sep: char) -> Seq<char>
    decreases s.len(),
{
    if s.len() == 0 || s.last() == sep {
        Seq::empty()
    } else {
        last_segment(s.drop_last(), sep).push(s.last())
    }
}

/// `s` with every occurrence of `from` replaced by `to`, matching from the
/// left and never inside a match already made. An empty `from` matches
/// nowhere.
pub open spec fn replace_all(s: Seq<char>, from: Seq<char>, to: Seq<char>) -> Seq<char>
    decreases s.len(),
{
    if s.len() == 0 {
        s
    } else if from.len() > 0 && occurs_at(s, from, 0) {
        to + replace_all(s.skip(from.len() as int), from, to)
    } else {
        seq![s[0]] + replace_all(s.drop_first(), from, to)
    }
}

/// Replacing a pattern that does not occur changes nothing.
pub proof fn lemma_replace_without_match(text: Seq<char>, from: Seq<char>, to: Seq<char>)
    requires
        !contains_text(text, from),
    ensures
        replace_all(text, from, to) == text,
    decreases text.len(),
{
    if text.len() > 0 {
        let rest = text.drop_first();
        assert(!contains_text(rest, from)) by {
            if contains_text(rest, from) {
                let at = choose|at: int| occurs_at(rest, from, at);
                assert(rest.subrange(at, at + from.len()) =~= text.subrange(
                    at + 1,
                    at + 1 + from.len(),
                ));
                assert(occurs_at(text, from, at + 1));
            }
        }
        lemma_replace_without_match(rest, from, to);
    }
}

/// `part` stands in `whole` as one stretch.
pub open spec fn is_part_of(part: Seq<char>, whole: Seq<char>) -> bool {
    exists|from: int, to: int| part_at(part, whole, from, to)
}

/// `part` is the stretch of `whole` from `from` up to `to`.
pub open spec fn part_at(part: Seq<char>, whole: Seq<char>, from: int, to: int) -> bool {
    0 <= from <= to <= whole.len() && part == whole.subrange(from, to)
}

/// A part of a part is a part.
pub proof fn lemma_part_of_part(inner: Seq<char>, middle: Seq<char>, whole: Seq<char>)
    requires
        is_part_of(inner, middle),
        is_part_of(middle, whole),
    ensures
        is_part_of(inner, whole),
{
    let (a, b) = choose|a: int, b: int| part_at(inner, middle, a, b);
    let (c, d) = choose|c: int, d: int| part_at(middle, whole, c, d);
    assert(inner =~= whole.subrange(c + a, c + b));
    assert(part_at(inner, whole, c + a, c + b));
}

/// What stands in a part stands in the whole.
pub proof fn lemma_text_of_a_part(part: Seq<char>, whole: Seq<char>, pat: Seq<char>)
    requires
        is_part_of(part, whole),
        contains_text(part, pat),
    ensures
        contains_text(whole, pat),
{
    let (a, b) = choose|a: int, b: int| part_at(part, whole, a, b);
    let at = choose|at: int| occurs_at(part, pat, at);
    assert(part.subrange(at, at + pat.len()) =~= whole.subrange(a + at, a + at + pat.len()));
    assert(occurs_at(whole, pat, a + at));
}

/// A trimmed text is a part of the text.
pub proof fn lemma_trimmed_is_a_part(s: Seq<char>)
    ensures
        is_part_of(trimmed(s), s),
{
    lemma_trim_start_is_a_part(s);
    lemma_trim_end_is_a_part(trim_start(s));
    lemma_part_of_part(trimmed(s), trim_start(s), s);
}

/// A text without its leading whitespace is a part of the text.
pub proof fn lemma_trim_start_is_a_part(s: Seq<char>)
    ensures
        is_part_of(trim_start(s), s),
    decreases s.len(),
{
    if s.len() > 0 && is_whitespace(s[0]) {
        let rest = s.drop_first();
        lemma_trim_start_is_a_part(rest);
        assert(rest =~= s.subrange(1, s.len() as int));
        assert(part_at(rest, s, 1, s.len() as int));
        lemma_part_of_part(trim_start(s), rest, s);
    } else {
        assert(s =~= s.subrange(0, s.len() as int));
        assert(part_at(s, s, 0, s.len() as int));
    }
}

/// A text without its trailing whitespace is a part of the text.
pub proof fn lemma_trim_end_is_a_part(s: Seq<char>)
    ensures
        is_part_of(trim_end(s), s),
    decreases s.len(),
{
    if s.len() > 0 && is_whitespace(s.last()) {
        let rest = s.drop_last();
        lemma_trim_end_is_a_part(rest);
        assert(rest =~= s.subrange(0, s.len() - 1));
        assert(part_at(rest, s, 0, s.len() - 1));
        lemma_part_of_part(trim_end(s), rest, s);
    } else {
        assert(s =~= s.subrange(0, s.len() as int));
        assert(part_at(s, s, 0, s.len() as int));
    }
}

/// What `take_until` gives is a part of the text.
pub proof fn lemma_take_until_is_a_part(s: Seq<char>, stop: char)
    ensures
        is_part_of(take_until(s, stop), s),
{
    lemma_take_until(s, stop);
    let n = take_until(s, stop).len() as int;
    assert(s.take(n) =~= s.subrange(0, n));
    assert(part_at(take_until(s, stop), s, 0, n));
}

/// What is left of a text after its first characters is a part of it.
pub proof fn lemma_skip_is_a_part(s: Seq<char>, n: int)
    requires
        0 <= n <= s.len(),
    ensures
        is_part_of(s.skip(n), s),
{
    assert(s.skip(n) =~= s.subrange(n, s.len() as int));
    assert(part_at(s.skip(n), s, n, s.len() as int));
}

/// What `take_until` gives is a prefix, holds no `stop`, and ends at the
/// end of the text or before a `stop`.
pub proof fn lemma_take_until(s: Seq<char>, stop: char)
    ensures
        take_until(s, stop).len() <= s.len(),
        take_until(s, stop) == s.take(take_until(s, stop).len() as int),
        !take_until(s, stop).contains(stop),
        take_until(s, stop).len() < s.len() ==> s[take_until(s, stop).len() as int] == stop,
    decreases s.len(),
{
    let r = take_until(s, stop);
    if s.len() > 0 && s[0] != stop {
        let rest = s.drop_first();
        let tail = take_until(rest, stop);
        lemma_take_until(rest, stop);
        assert(r == seq![s[0]] + tail);
        assert forall|i: int| 0 <= i < r.len() implies r[i] == s[i] by {
            if i > 0 {
                assert(tail[i - 1] == rest.take(tail.len() as int)[i - 1]);
            }
        }
        assert(r =~= s.take(r.len() as int));
        if r.contains(stop) {
            let i = choose|i: int| 0 <= i < r.len() && r[i] == stop;
            assert(tail[i - 1] == stop);
            assert(tail.contains(stop));
        }
        if r.len() < s.len() {
            assert(rest[tail.len() as int] == s[r.len() as int]);
        }
    } else {
        assert(r =~= s.take(0));
    }
}

/// What comes before the first `stop` of a text that holds none in its
/// head and breaks off there is the head.
pub proof fn lemma_take_until_head(head: Seq<char>, tail: Seq<char>, stop: char)
    requires
        !head.contains(stop),
        tail.len() > 0 ==> tail[0] == stop,
    ensures
        take_until(head + tail, stop) == head,
    decreases head.len(),
{
    if head.len() == 0 {
        assert(head + tail =~= tail);
    } else {
        let rest = head.drop_first();
        assert(head[0] != stop) by {
            if head[0] == stop {
                assert(head.contains(stop));
            }
        }
        assert(!rest.contains(stop)) by {
            if rest.contains(stop) {
                let i = choose|i: int| 0 <= i < rest.len() && rest[i] == stop;
                assert(head[i + 1] == stop);
            }
        }
        lemma_take_until_head(rest, tail, stop);
        assert((head + tail).drop_first() =~= rest + tail);
    }
}

/// The characters of `s`, in order.
pub fn chars_of(s: &str) -> (out: Vec<char>)
    ensures
        out@ == s@,
{
    broadcast use vstd::string::group_string_axioms;

    let mut out: Vec<char> = Vec::new();
    for c in it: s.chars()
        invariant
            it.seq() == s@,
            out@ == it.history(),
    {
        out.push(c);
    }
    out
}

/// Appends one character to a string: `String::push`.
#[verifier::external_body]
fn push_char(s: &mut String, c: char)
    ensures
        final(s)@ == old(s)@.push(c),
{
    s.push(c)
}

/// The string that holds exactly the characters of `chars`.
pub fn string_of(chars: &Vec<char>) -> (out: String)
    ensures
        out@ == chars@,
{
    let mut out = String::new();
    let mut i: usize = 0;
    while i < chars.len()
        invariant
            i <= chars.len(),
            out@ == chars@.take(i as int),
        decreases chars.len() - i,
    {
        push_char(&mut out, chars[i]);
        i += 1;
    }
    out
}

/// Whether `c` is whitespace.
pub fn is_whitespace_char(c: char) -> (r: bool)
    ensures
        r == is_whitespace(c),
{
    let u: u32 = c as u32;
    (0x09 <= u && u <= 0x0D) || u == 0x20 || u == 0x85 || u == 0xA0 || u == 0x1680 || (0x2000 <= u
        && u <= 0x200A) || u == 0x2028 || u == 0x2029 || u == 0x202F || u == 0x205F || u == 0x3000
}

/// The characters of `s` from `from` up to, not including, `to`.
pub fn slice(s: &Vec<char>, from: usize, to: usize) -> (out: Vec<char>)
    requires
        from <= to <= s.len(),
    ensures
        out@ == s@.subrange(from as int, to as int),
{
    let mut out: Vec<char> = Vec::new();
    let mut i: usize = from;
    while i < to
        invariant
            from <= i <= to <= s.len(),
            out@ == s@.subrange(from as int, i as int),
        decreases to - i,
    {
        out.push(s[i]);
        i += 1;
    }
    out
}

/// `a` followed by `b`.
pub fn join(a: &Vec<char>, b: &Vec<char>) -> (out: Vec<char>)
    ensures
        out@ == a@ + b@,
{
    let mut out: Vec<char> = Vec::new();
    let mut i: usize = 0;
    while i < a.len()
        invariant
            i <= a.len(),
            out@ == a@.take(i as int),
        decreases a.len() - i,
    {
        out.push(a[i]);
        i += 1;
    }
    let mut j: usize = 0;
    while j < b.len()
        invariant
            j <= b.len(),
            out@ == a@ + b@.take(j as int),
        decreases b.len() - j,
    {
        out.push(b[j]);
        j += 1;
    }
    out
}

/// `s` without leading and trailing whitespace.
pub fn trim(s: &Vec<char>) -> (out: Vec<char>)
    ensures
        out@ == trimmed(s@),
{
    let mut a: usize = 0;
    proof {
        assert(s@.skip(0) =~= s@);
    }
    while a < s.len() && is_whitespace_char(s[a])
        invariant
            a <= s.len(),
            trim_start(s@) == trim_start(s@.skip(a as int)),
        decreases s.len() - a,
    {
        proof {
            assert(s@.skip(a as int).drop_first() =~= s@.skip(a + 1));
        }
        a += 1;
    }
    let mut b: usize = s.len();
    while b > a && is_whitespace_char(s[b - 1])
        invariant
            a <= b <= s.len(),
            trimmed(s@) == trim_end(s@.subrange(a as int, b as int)),
        decreases b - a,
    {
        proof {
            assert(s@.subrange(a as int, b as int).drop_last() =~= s@.subrange(a as int, b - 1));
        }
        b -= 1;
    }
    slice(s, a, b)
}

/// Whether `pat` stands in `s` at index `at`.
pub fn matches_at(s: &Vec<char>, pat: &Vec<char>, at: usize) -> (found: bool)
    ensures
        found == occurs_at(s@, pat@, at as int),
{
    if at > s.len() || pat.len() > s.len() - at {
        return false;
    }
    let mut k: usize = 0;
    while k < pat.len()
        invariant
            k <= pat.len(),
            at + pat.len() <= s.len(),
            forall|j: int| 0 <= j < k ==> s@[at + j] == pat@[j],
        decreases pat.len() - k,
    {
        if s[at + k] != pat[k] {
            return false;
        }
        k += 1;
    }
    proof {
        assert(s@.subrange(at as int, at + pat@.len()) =~= pat@);
    }
    true
}

/// Whether `s` begins with `pat`.
pub fn starts_with(s: &Vec<char>, pat: &Vec<char>) -> (r: bool)
    ensures
        r == occurs_at(s@, pat@, 0),
{
    matches_at(s, pat, 0)
}

/// Whether `a` and `b` hold the same characters.
pub fn equal(a: &Vec<char>, b: &Vec<char>) -> (r: bool)
    ensures
        r == (a@ == b@),
{
    if a.len() != b.len() {
        return false;
    }
    let same = matches_at(a, b, 0);
    proof {
        assert(a@.subrange(0, a@.len() as int) =~= a@);
    }
    same
}

/// Whether `c` is one of the characters of `s`.
pub fn contains_char(s: &Vec<char>, c: char) -> (r: bool)
    ensures
        r == s@.contains(c),
{
    let mut i: usize = 0;
    while i < s.len()
        invariant
            i <= s.len(),
            forall|j: int| 0 <= j < i ==> s@[j] != c,
        decreases s.len() - i,
    {
        if s[i] == c {
            return true;
        }
        i += 1;
    }
    false
}

/// The characters of `s` from `from` up to the first `stop`, or to the end.
pub fn take_from_until(s: &Vec<char>, from: usize, stop: char) -> (out: Vec<char>)
    requires
        from <= s.len(),
    ensures
        out@ == take_until(s@.skip(from as int), stop),
{
    let mut out: Vec<char> = Vec::new();
    let mut i: usize = from;
    while i < s.len() && s[i] != stop
        invariant
            from <= i <= s.len(),
            take_until(s@.skip(from as int), stop) == out@ + take_until(s@.skip(i as int), stop),
        decreases s.len() - i,
    {
        proof {
            assert(s@.skip(i as int).drop_first() =~= s@.skip(i + 1));
            assert(out@.push(s@[i as int]) + take_until(s@.skip(i + 1), stop) =~= out@ + (seq![
                s@[i as int],
            ] + take_until(s@.skip(i + 1), stop)));
        }
        out.push(s[i]);
        i += 1;
    }
    out
}

/// What follows the last `sep` of `s`; the whole of `s` where it holds none.
pub fn after_last(s: &Vec<char>, sep: char) -> (out: Vec<char>)
    ensures
        out@ == last_segment(s@, sep),
{
    let mut start: usize = s.len();
    proof {
        assert(s@.subrange(0, s@.len() as int) =~= s@);
    }
    while start > 0 && s[start - 1] != sep
        invariant
            start <= s.len(),
            last_segment(s@, sep) == last_segment(s@.subrange(0, start as int), sep) + s@.subrange(
                start as int,
                s@.len() as int,
            ),
        decreases start,
    {
        proof {
            let head = s@.subrange(0, start as int);
            assert(head.drop_last() =~= s@.subrange(0, start - 1));
            assert(last_segment(head.drop_last(), sep).push(head.last()) + s@.subrange(
                start as int,
                s@.len() as int,
            ) =~= last_segment(head.drop_last(), sep) + s@.subrange(
                start - 1,
                s@.len() as int,
            ));
        }
        start -= 1;
    }
    proof {
        assert(Seq::<char>::empty() + s@.subrange(start as int, s@.len() as int) =~= s@.subrange(
            start as int,
            s@.len() as int,
        ));
    }
    slice(s, start, s.len())
}

/// `s` with every occurrence of `from` replaced by `to`.
pub fn replace(s: &Vec<char>, from: &Vec<char>, to: &Vec<char>) -> (out: Vec<char>)
    ensures
        out@ == replace_all(s@, from@, to@),
{
    let mut out: Vec<char> = Vec::new();
    let mut i: usize = 0;
    proof {
        assert(s@.skip(0) =~= s@);
    }
    while i < s.len()
        invariant
            i <= s.len(),
            replace_all(s@, from@, to@) == out@ + replace_all(s@.skip(i as int), from@, to@),
        decreases s.len() - i,
    {
        let ghost rest = s@.skip(i as int);
        let ghost before = out@;
        if from.len() > 0 && matches_at(s, from, i) {
            proof {
                assert(s@.subrange(i as int, i + from@.len()) =~= rest.subrange(
                    0,
                    from@.len() as int,
                ));
                assert(rest.skip(from@.len() as int) =~= s@.skip(i + from@.len()));
            }
            out = join(&out, to);
            i += from.len();
            proof {
                assert(before + (to@ + replace_all(s@.skip(i as int), from@, to@)) =~= (before
                    + to@) + replace_all(s@.skip(i as int), from@, to@));
            }
        } else {
            proof {
                if from@.len() > 0 && occurs_at(rest, from@, 0) {
                    assert(s@.subrange(i as int, i + from@.len()) =~= rest.subrange(
                        0,
                        from@.len() as int,
                    ));
                }
                assert(rest.drop_first() =~= s@.skip(i + 1));
                assert(before + (seq![s@[i as int]] + replace_all(s@.skip(i + 1), from@, to@))
                    =~= before.push(s@[i as int]) + replace_all(s@.skip(i + 1), from@, to@));
            }
            out.push(s[i]);
            i += 1;
        }
    }
    out
}

} // verus!
