//! Strings as character sequences: conversions, Unicode character classes
//! and the splitting of text into lines.

use vstd::prelude::*;
use vstd::std_specs::iter::IteratorSpec;
use vstd::utf8::*;

verus! {

/// The lowercase form of a text under the Unicode case mapping.
pub uninterp spec fn lowercase_text(s: Seq<char>) -> Seq<char>;

/// Whether a character has the Unicode `Alphabetic` property.
pub uninterp spec fn alphabetic(c: char) -> bool;

/// Whether a character has the Unicode `White_Space` property.
pub uninterp spec fn white_space(c: char) -> bool;

/// `str::to_lowercase`: the result is the Unicode lowercase form of the
/// whole string, a function of its characters alone.
#[verifier::external_body]
pub(crate) fn to_lowercase(s: &str) -> (r: String)
    ensures
        r@ == lowercase_text(s@),
{
    s.to_lowercase()
}

/// `char::is_alphabetic`: the answer is the character's `Alphabetic` property.
#[verifier::external_body]
pub(crate) fn is_alphabetic(c: char) -> (b: bool)
    ensures
        b == alphabetic(c),
{
    c.is_alphabetic()
}

/// `char::is_whitespace`: the answer is the character's `White_Space` property.
#[verifier::external_body]
pub(crate) fn is_whitespace(c: char) -> (b: bool)
    ensures
        b == white_space(c),
{
    c.is_whitespace()
}

/// `String::push`: the character is appended at the end.
#[verifier::external_body]
pub(crate) fn push_char(s: &mut String, c: char)
    ensures
        final(s)@ == old(s)@.push(c),
{
    s.push(c)
}

/// `core::str::from_utf8`: succeeds exactly on well-formed UTF-8, and the
/// string then holds the characters that the bytes encode.
#[verifier::external_body]
pub(crate) fn utf8_text(bytes: &[u8]) -> (r: Option<&str>)
    ensures
        r is Some <==> valid_utf8(bytes@),
        r matches Some(s) ==> s@ == decode_utf8(bytes@),
{
    match core::str::from_utf8(bytes) {
        Ok(s) => Some(s),
        Err(_) => None,
    }
}

/// The texts held by a sequence of strings.
pub open spec fn texts(v: Seq<String>) -> Seq<Seq<char>> {
    Seq::new(v.len(), |i: int| v[i]@)
}

/// The texts of a sequence with one more string.
pub proof fn lemma_texts_push(v: Seq<String>, s: String)
    ensures
        texts(v.push(s)) == texts(v).push(s@),
{
    assert(texts(v.push(s)) =~= texts(v).push(s@));
}

/// The characters of `s`, in order.
pub fn chars_of(s: &str) -> (v: Vec<char>)
    ensures
        v@ == s@,
{
    let mut v: Vec<char> = Vec::new();
    let chars = s.chars();
    for c in it: chars
        invariant
            it.seq() == s@,
            v@ == s@.take(it.index() as int),
    {
        v.push(c);
    }
    v
}

/// The string made of the characters `chars[from..to]`.
pub fn string_of(chars: &Vec<char>, from: usize, to: usize) -> (s: String)
    requires
        from <= to <= chars.len(),
    ensures
        s@ == chars@.subrange(from as int, to as int),
{
    let mut s = String::new();
    let mut i: usize = from;
    while i < to
        invariant
            from <= i <= to <= chars.len(),
            s@ == chars@.subrange(from as int, i as int),
        decreases to - i,
    {
        push_char(&mut s, chars[i]);
        i += 1;
        assert(s@ == chars@.subrange(from as int, i as int));
    }
    s
}

/// Length of the longest prefix of `s` that holds no item marked by `stop`.
pub open spec fn run_len<T>(s: Seq<T>, stop: spec_fn(T) -> bool) -> nat
    decreases s.len(),
{
    if s.len() == 0 || stop(s[0]) {
        0
    } else {
        1 + run_len(s.skip(1), stop)
    }
}

/// A run is no longer than its sequence, and not empty where the first item is unmarked.
pub proof fn lemma_run_len_bounds<T>(s: Seq<T>, stop: spec_fn(T) -> bool)
    ensures
        run_len(s, stop) <= s.len(),
        s.len() > 0 && !stop(s[0]) ==> run_len(s, stop) >= 1,
    decreases s.len(),
{
    if s.len() > 0 && !stop(s[0]) {
        lemma_run_len_bounds(s.skip(1), stop);
    }
}

/// A run that is known item by item: `n` unmarked items, then the end of
/// the sequence or a marked item.
pub proof fn lemma_run_len_is<T>(s: Seq<T>, stop: spec_fn(T) -> bool, n: int)
    requires
        0 <= n <= s.len(),
        forall|k: int| 0 <= k < n ==> !stop(#[trigger] s[k]),
        n == s.len() || stop(s[n]),
    ensures
        run_len(s, stop) == n,
    decreases n,
{
    if n > 0 {
        let rest = s.skip(1);
        assert forall|k: int| 0 <= k < n - 1 implies !stop(#[trigger] rest[k]) by {
            assert(rest[k] == s[k + 1]);
        }
        lemma_run_len_is(rest, stop, n - 1);
    }
}

/// A run ends at the end of the sequence or before a marked item, and
/// holds no marked item.
pub proof fn lemma_run_len_stops<T>(s: Seq<T>, stop: spec_fn(T) -> bool)
    ensures
        run_len(s, stop) <= s.len(),
        run_len(s, stop) < s.len() ==> stop(s[run_len(s, stop) as int]),
        forall|k: int| 0 <= k < run_len(s, stop) ==> !stop(#[trigger] s[k]),
    decreases s.len(),
{
    if s.len() > 0 && !stop(s[0]) {
        let rest = s.skip(1);
        lemma_run_len_stops(rest, stop);
        assert forall|k: int| 0 <= k < run_len(s, stop) implies !stop(#[trigger] s[k]) by {
            if k > 0 {
                assert(s[k] == rest[k - 1]);
            }
        }
    }
}

/// The line feed, at which lines end.
pub open spec fn is_newline(c: char) -> bool {
    c == '\n'
}

/// A line's content once its terminator `\n` is gone: a carriage return
/// that stood before the terminator belongs to it and goes too.
pub open spec fn without_carriage_return(line: Seq<char>) -> Seq<char> {
    if line.len() > 0 && line.last() == '\r' {
        line.drop_last()
    } else {
        line
    }
}

/// The lines of a text. A line ends at `\n` or `\r\n`, neither of which is
/// part of it; the last line needs no terminator, and a text that ends in one
/// has no further, empty line after it.
pub open spec fn split_lines(text: Seq<char>) -> Seq<Seq<char>>
    decreases text.len(),
{
    let n = run_len(text, |c: char| is_newline(c)) as int;
    if text.len() == 0 {
        Seq::empty()
    } else if n >= text.len() {
        seq![text]
    } else {
        seq![without_carriage_return(text.take(n))] + split_lines(text.skip(n + 1))
    }
}

/// Whether some line holds a character.
pub open spec fn has_text(lines: Seq<Seq<char>>) -> bool {
    exists|k: int| 0 <= k < lines.len() && (#[trigger] lines[k]).len() > 0
}

/// A text that holds a character other than a line feed and a carriage
/// return has a line that is not empty.
pub proof fn lemma_line_with_text(text: Seq<char>, i: int)
    requires
        0 <= i < text.len(),
        text[i] != '\n',
        text[i] != '\r',
    ensures
        has_text(split_lines(text)),
    decreases text.len(),
{
    let stop = |c: char| is_newline(c);
    let n = run_len(text, stop) as int;
    lemma_run_len_stops(text, stop);
    let lines = split_lines(text);
    if n >= text.len() {
        assert(lines[0] == text);
    } else if i < n {
        let first = without_carriage_return(text.take(n));
        assert(text.take(n)[i] == text[i]);
        assert(first.len() > i);
        assert(lines[0] == first);
    } else {
        assert(i > n);
        let rest = text.skip(n + 1);
        assert(rest[i - n - 1] == text[i]);
        lemma_line_with_text(rest, i - n - 1);
        let later = split_lines(rest);
        let k = choose|k: int| 0 <= k < later.len() && (#[trigger] later[k]).len() > 0;
        assert(lines[k + 1] == later[k]);
    }
}

/// Splits `text` into its lines.
pub fn lines_of(text: &str) -> (lines: Vec<String>)
    ensures
        texts(lines@) == split_lines(text@),
{
    let chars = chars_of(text);
    let n = chars.len();
    let mut lines: Vec<String> = Vec::new();
    let mut start: usize = 0;
    proof {
        assert(chars@.skip(0) == chars@);
        assert(texts(lines@) + split_lines(chars@) == split_lines(chars@));
    }
    while start < n
        invariant
            n == chars.len(),
            chars@ == text@,
            start <= n,
            texts(lines@) + split_lines(chars@.skip(start as int)) == split_lines(chars@),
        decreases n - start,
    {
        let ghost rest = chars@.skip(start as int);
        let ghost stop = |c: char| is_newline(c);
        let mut end: usize = start;
        while end < n && chars[end] != '\n'
            invariant
                n == chars.len(),
                start <= end <= n,
                forall|k: int| start <= k < end ==> chars@[k] != '\n',
            decreases n - end,
        {
            end += 1;
        }
        proof {
            assert forall|k: int| 0 <= k < end - start implies !stop(#[trigger] rest[k]) by {
                assert(rest[k] == chars@[start + k]);
            }
            lemma_run_len_is(rest, stop, end - start);
        }
        let ghost before = texts(lines@);
        if end == n {
            let line = string_of(&chars, start, n);
            proof {
                assert(line@ == rest);
                lemma_texts_push(lines@, line);
                assert(split_lines(rest) == seq![rest]);
                assert(split_lines(chars@.skip(n as int)) == Seq::<Seq<char>>::empty());
            }
            lines.push(line);
            start = n;
            assert(texts(lines@) + split_lines(chars@.skip(start as int)) == before + seq![rest]);
        } else {
            let stripped_end = if end > start && chars[end - 1] == '\r' {
                end - 1
            } else {
                end
            };
            let line = string_of(&chars, start, stripped_end);
            proof {
                let raw = rest.take(end - start);
                assert(raw == chars@.subrange(start as int, end as int));
                assert(line@ == without_carriage_return(raw));
                lemma_texts_push(lines@, line);
                assert(rest.skip(end - start + 1) == chars@.skip(end + 1));
                assert(split_lines(rest) == seq![line@] + split_lines(chars@.skip(end + 1)));
            }
            lines.push(line);
            start = end + 1;
            assert(texts(lines@) + split_lines(chars@.skip(start as int)) == before + split_lines(
                rest,
            ));
        }
    }
    assert(split_lines(chars@.skip(start as int)) == Seq::<Seq<char>>::empty());
    lines
}

} // verus!
