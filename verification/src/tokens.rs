//! From text lines to tokens: lowercase words that hold a Cyrillic letter and
//! carry at most one trailing punctuation mark.

use vstd::prelude::*;
use crate::letters::{
    any_russian_letter_lower, has_russian_lower, is_russian_letter_lower, russian_lower,
};
use crate::text::{
    alphabetic, chars_of, is_alphabetic, is_whitespace, lemma_run_len_bounds, lemma_run_len_is,
    lemma_texts_push, lowercase_text, run_len, string_of, texts, to_lowercase, white_space,
};

verus! {

/// A token has fewer characters than this.
pub const TOKEN_LENGTH_LIMIT: usize = 30;

/// The runs of characters between gaps: `gaps` marks, place by place, the
/// characters of `chars` that part the runs and belong to none.
pub open spec fn runs(chars: Seq<char>, gaps: Seq<bool>) -> Seq<Seq<char>>
    decreases chars.len(),
{
    if chars.len() == 0 || gaps.len() != chars.len() {
        Seq::empty()
    } else if gaps[0] {
        runs(chars.skip(1), gaps.skip(1))
    } else {
        let n = run_len(gaps, |gap: bool| gap) as int;
        proof {
            lemma_run_len_bounds(gaps, |gap: bool| gap);
        }
        seq![chars.take(n)] + runs(chars.skip(n), gaps.skip(n))
    }
}

/// For each character of a line, whether it is white space.
pub open spec fn white_space_marks(line: Seq<char>) -> Seq<bool> {
    Seq::new(line.len(), |i: int| white_space(line[i]))
}

/// The words of a line: its maximal runs of characters that are not white space.
pub open spec fn words(line: Seq<char>) -> Seq<Seq<char>> {
    runs(line, white_space_marks(line))
}

/// Brackets and quotes, which are taken out of a word wherever they stand.
pub open spec fn bracket(c: char) -> bool {
    c == '(' || c == ')' || c == '«' || c == '»' || c == '"' || c == '[' || c == ']' || c == '<'
        || c == '>'
}

/// A text without its brackets and quotes.
pub open spec fn unbracketed(s: Seq<char>) -> Seq<char> {
    s.filter(|c: char| !bracket(c))
}

/// A character that a clean word does not hold: neither a letter nor a hyphen.
pub open spec fn disqualifies(c: char) -> bool {
    !alphabetic(c) && !russian_lower(c) && c != '-'
}

/// Where the first disqualifying character of `s` stands; 0 when it has none.
pub open spec fn first_disqualifying(s: Seq<char>) -> nat {
    let n = run_len(s, |c: char| disqualifies(c));
    if n >= s.len() {
        0
    } else {
        n
    }
}

/// The punctuation marks that may close a token.
pub open spec fn closing_mark(c: char) -> bool {
    c == '.' || c == ',' || c == '?' || c == '!' || c == ':' || c == ';' || c == ')'
}

/// The shape test on a candidate whose first disqualifying character stands
/// at `idx`: that index is 0, or it is the last one and a closing mark stands there.
pub open spec fn well_shaped(s: Seq<char>, idx: nat) -> bool {
    idx == 0 || (idx == s.len() - 1 && closing_mark(s.last()))
}

/// Whether a candidate with its first disqualifying character at `idx` is kept.
pub open spec fn kept(s: Seq<char>, idx: nat) -> bool {
    &&& s.len() > 0
    &&& s.len() < TOKEN_LENGTH_LIMIT
    &&& has_russian_lower(s)
    &&& well_shaped(s, idx)
}

/// Whether a lowercase, unbracketed candidate is a token.
pub open spec fn accepted(s: Seq<char>) -> bool {
    kept(s, first_disqualifying(s))
}

/// The token that a lowercase word gives, if it gives one.
pub open spec fn token_of_lowered(lowered: Seq<char>) -> Option<Seq<char>> {
    let candidate = unbracketed(lowered);
    if accepted(candidate) {
        Some(candidate)
    } else {
        None
    }
}

/// The token that a word gives, if it gives one.
pub open spec fn token_of(word: Seq<char>) -> Option<Seq<char>> {
    token_of_lowered(lowercase_text(word))
}

/// The tokens of a line, in the order of its words.
pub open spec fn line_tokens(line: Seq<char>) -> Seq<Seq<char>> {
    words(line).filter_map(|w: Seq<char>| token_of(w))
}

/// The tokens of some lines, line after line.
pub open spec fn corpus_tokens(lines: Seq<Seq<char>>) -> Seq<Seq<char>>
    decreases lines.len(),
{
    if lines.len() == 0 {
        Seq::empty()
    } else {
        corpus_tokens(lines.drop_last()) + line_tokens(lines.last())
    }
}

/// A word whose lowercase, unbracketed form has `TOKEN_LENGTH_LIMIT` characters
/// or more gives no token, whatever it holds.
pub proof fn lemma_long_word_rejected(word: Seq<char>)
    requires
        unbracketed(lowercase_text(word)).len() >= TOKEN_LENGTH_LIMIT,
    ensures
        token_of(word) is None,
{
}

/// A word without a lowercase Cyrillic letter in its lowercase form gives no token.
pub proof fn lemma_word_without_cyrillic_rejected(word: Seq<char>)
    requires
        !has_russian_lower(lowercase_text(word)),
    ensures
        token_of(word) is None,
{
    let lowered = lowercase_text(word);
    let candidate = unbracketed(lowered);
    if has_russian_lower(candidate) {
        let i = choose|i: int| 0 <= i < candidate.len() && russian_lower(#[trigger] candidate[i]);
        lowered.lemma_filter_contains_rev(|c: char| !bracket(c), candidate[i]);
        let j = choose|j: int| 0 <= j < lowered.len() && lowered[j] == candidate[i];
        assert(russian_lower(lowered[j]));
    }
}

/// The runs of `chars` between the places that `gaps` marks.
pub fn split_runs(chars: &Vec<char>, gaps: &Vec<bool>) -> (found: Vec<String>)
    requires
        gaps@.len() == chars@.len(),
    ensures
        texts(found@) == runs(chars@, gaps@),
{
    let n = chars.len();
    let mut found: Vec<String> = Vec::new();
    let mut start: usize = 0;
    proof {
        assert(chars@.skip(0) == chars@);
        assert(gaps@.skip(0) == gaps@);
        assert(texts(found@) + runs(chars@, gaps@) == runs(chars@, gaps@));
    }
    while start < n
        invariant
            n == chars.len(),
            n == gaps.len(),
            start <= n,
            texts(found@) + runs(chars@.skip(start as int), gaps@.skip(start as int)) == runs(
                chars@,
                gaps@,
            ),
        decreases n - start,
    {
        let ghost rest = chars@.skip(start as int);
        let ghost marks = gaps@.skip(start as int);
        assert(marks[0] == gaps@[start as int]);
        if gaps[start] {
            assert(rest.skip(1) == chars@.skip(start + 1));
            assert(marks.skip(1) == gaps@.skip(start + 1));
            start += 1;
        } else {
            let mut end: usize = start + 1;
            while end < n && !gaps[end]
                invariant
                    n == gaps.len(),
                    start < end <= n,
                    forall|k: int| start <= k < end ==> !gaps@[k],
                decreases n - end,
            {
                end += 1;
            }
            let word = string_of(chars, start, end);
            proof {
                let stop = |gap: bool| gap;
                assert forall|k: int| 0 <= k < end - start implies !stop(#[trigger] marks[k]) by {
                    assert(marks[k] == gaps@[start + k]);
                }
                lemma_run_len_is(marks, stop, end - start);
                assert(word@ == rest.take(end - start));
                assert(rest.skip(end - start) == chars@.skip(end as int));
                assert(marks.skip(end - start) == gaps@.skip(end as int));
                lemma_texts_push(found@, word);
                assert(runs(rest, marks) == seq![word@] + runs(
                    chars@.skip(end as int),
                    gaps@.skip(end as int),
                ));
            }
            let ghost before = texts(found@);
            found.push(word);
            start = end;
            assert(texts(found@) + runs(chars@.skip(start as int), gaps@.skip(start as int))
                == before + runs(rest, marks));
        }
    }
    assert(runs(chars@.skip(start as int), gaps@.skip(start as int)) == Seq::<Seq<char>>::empty());
    found
}

/// For each character of `chars`, whether it is white space.
pub fn mark_white_space(chars: &Vec<char>) -> (gaps: Vec<bool>)
    ensures
        gaps@ == white_space_marks(chars@),
{
    let mut gaps: Vec<bool> = Vec::new();
    let mut i: usize = 0;
    while i < chars.len()
        invariant
            i <= chars.len(),
            gaps@.len() == i,
            forall|k: int| 0 <= k < i ==> gaps@[k] == white_space(chars@[k]),
        decreases chars.len() - i,
    {
        gaps.push(is_whitespace(chars[i]));
        i += 1;
    }
    assert(gaps@ == white_space_marks(chars@));
    gaps
}

/// The words of `line`.
pub fn split_words(line: &str) -> (found: Vec<String>)
    ensures
        texts(found@) == words(line@),
{
    let chars = chars_of(line);
    let gaps = mark_white_space(&chars);
    split_runs(&chars, &gaps)
}

/// Whether `c` is a bracket or quote that is taken out of words.
pub fn is_bracket(c: char) -> (b: bool)
    ensures
        b == bracket(c),
{
    c == '(' || c == ')' || c == '«' || c == '»' || c == '"' || c == '[' || c == ']' || c == '<'
        || c == '>'
}

/// Whether `c` is a punctuation mark that may close a token.
pub fn is_closing_mark(c: char) -> (b: bool)
    ensures
        b == closing_mark(c),
{
    c == '.' || c == ',' || c == '?' || c == '!' || c == ':' || c == ';' || c == ')'
}

/// The characters of `chars` that are no brackets or quotes.
pub fn strip_brackets(chars: &Vec<char>) -> (stripped: Vec<char>)
    ensures
        stripped@ == unbracketed(chars@),
{
    let ghost keep = |c: char| !bracket(c);
    let mut stripped: Vec<char> = Vec::new();
    let mut i: usize = 0;
    assert(chars@.take(0) == Seq::<char>::empty());
    while i < chars.len()
        invariant
            i <= chars.len(),
            keep == (|c: char| !bracket(c)),
            stripped@ == chars@.take(i as int).filter(keep),
        decreases chars.len() - i,
    {
        proof {
            chars@.take(i as int).lemma_filter_push(chars@[i as int], keep);
            assert(chars@.take(i + 1) == chars@.take(i as int).push(chars@[i as int]));
        }
        if !is_bracket(chars[i]) {
            stripped.push(chars[i]);
        }
        i += 1;
    }
    assert(chars@.take(chars.len() as int) == chars@);
    stripped
}

/// Where the first character of `chars` that is neither a letter nor a
/// hyphen stands; 0 when there is none.
pub fn first_disqualifying_index(chars: &Vec<char>) -> (idx: usize)
    ensures
        idx == first_disqualifying(chars@),
{
    let ghost stop = |c: char| disqualifies(c);
    let mut i: usize = 0;
    while i < chars.len()
        invariant
            i <= chars.len(),
            stop == (|c: char| disqualifies(c)),
            forall|k: int| 0 <= k < i ==> !disqualifies(chars@[k]),
        decreases chars.len() - i,
    {
        let c = chars[i];
        if !is_alphabetic(c) && !is_russian_letter_lower(c) && c != '-' {
            proof {
                lemma_run_len_is(chars@, stop, i as int);
            }
            return i;
        }
        i += 1;
    }
    proof {
        lemma_run_len_is(chars@, stop, chars.len() as int);
    }
    0
}

/// Whether a lowercase, unbracketed candidate is kept, given the place
/// `idx` of its first disqualifying character.
pub fn keeps_candidate(chars: &Vec<char>, idx: usize) -> (b: bool)
    ensures
        b == kept(chars@, idx as nat),
{
    let n = chars.len();
    if n == 0 || n >= TOKEN_LENGTH_LIMIT || !any_russian_letter_lower(chars) {
        return false;
    }
    idx == 0 || (idx == n - 1 && is_closing_mark(chars[n - 1]))
}

/// The token that the lowercase word `lowered` gives, if it gives one.
pub fn token_from_lowered(lowered: &str) -> (token: Option<String>)
    ensures
        token is Some <==> token_of_lowered(lowered@) is Some,
        token matches Some(t) ==> Some(t@) == token_of_lowered(lowered@),
{
    let chars = chars_of(lowered);
    let candidate = strip_brackets(&chars);
    let idx = first_disqualifying_index(&candidate);
    if keeps_candidate(&candidate, idx) {
        let token = string_of(&candidate, 0, candidate.len());
        assert(candidate@.subrange(0, candidate.len() as int) == candidate@);
        Some(token)
    } else {
        None
    }
}

/// The token that `word` gives, if it gives one.
pub fn token_from_word(word: &str) -> (token: Option<String>)
    ensures
        token is Some <==> token_of(word@) is Some,
        token matches Some(t) ==> Some(t@) == token_of(word@),
{
    let lowered = to_lowercase(word);
    token_from_lowered(lowered.as_str())
}

/// Appends the tokens of `line` to `all_words`.
pub fn add_line_to_all_words(line: &str, all_words: &mut Vec<String>)
    ensures
        texts(final(all_words)@) == texts(old(all_words)@) + line_tokens(line@),
{
    let ghost f = |w: Seq<char>| token_of(w);
    let found = split_words(line);
    let mut i: usize = 0;
    assert(texts(found@).take(0).filter_map(f) == Seq::<Seq<char>>::empty());
    while i < found.len()
        invariant
            i <= found.len(),
            f == (|w: Seq<char>| token_of(w)),
            texts(found@) == words(line@),
            texts(all_words@) == texts(old(all_words)@) + texts(found@).take(i as int).filter_map(
                f,
            ),
        decreases found.len() - i,
    {
        proof {
            texts(found@).lemma_filter_map_take_succ(f, i as int);
            assert(texts(found@)[i as int] == found@[i as int]@);
        }
        match token_from_word(found[i].as_str()) {
            Some(token) => {
                proof {
                    lemma_texts_push(all_words@, token);
                }
                all_words.push(token);
            },
            None => {},
        }
        i += 1;
    }
    assert(texts(found@).take(found.len() as int) == texts(found@));
}

/// Appends the tokens of `lines`, line after line, to `all_words`.
pub fn add_lines_to_all_words(lines: &Vec<String>, all_words: &mut Vec<String>)
    ensures
        texts(final(all_words)@) == texts(old(all_words)@) + corpus_tokens(texts(lines@)),
{
    let mut i: usize = 0;
    assert(texts(lines@).take(0) == Seq::<Seq<char>>::empty());
    while i < lines.len()
        invariant
            i <= lines.len(),
            texts(all_words@) == texts(old(all_words)@) + corpus_tokens(
                texts(lines@).take(i as int),
            ),
        decreases lines.len() - i,
    {
        proof {
            let upto = texts(lines@).take(i + 1);
            assert(upto.drop_last() == texts(lines@).take(i as int));
            assert(upto.last() == lines@[i as int]@);
        }
        add_line_to_all_words(lines[i].as_str(), all_words);
        i += 1;
    }
    assert(texts(lines@).take(lines.len() as int) == texts(lines@));
}

} // verus!
