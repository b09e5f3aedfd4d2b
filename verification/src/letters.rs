//! Character classes used by the token filter.

use vstd::prelude::*;
use crate::text::chars_of;

verus! {

/// Lowercase Cyrillic letters of the basic alphabet, U+0430 (`а`) to U+044F (`я`).
pub open spec fn russian_lower(c: char) -> bool {
    'а' <= c && c <= 'я'
}

/// Uppercase Cyrillic letters of the basic alphabet, U+0410 (`А`) to U+042F (`Я`).
pub open spec fn russian_upper(c: char) -> bool {
    'А' <= c && c <= 'Я'
}

/// Whether some character of `s` is a lowercase Cyrillic letter.
pub open spec fn has_russian_lower(s: Seq<char>) -> bool {
    exists|i: int| 0 <= i < s.len() && russian_lower(#[trigger] s[i])
}

/// Whether `c` is a lowercase Cyrillic letter, `а` to `я`.
pub fn is_russian_letter_lower(c: char) -> (b: bool)
    ensures
        b == russian_lower(c),
{
    'а' <= c && c <= 'я'
}

/// Whether `c` is a Cyrillic letter of either case, `а` to `я` or `А` to `Я`.
pub fn is_russian_letter(c: char) -> (b: bool)
    ensures
        b == (russian_lower(c) || russian_upper(c)),
{
    ('а' <= c && c <= 'я') || ('А' <= c && c <= 'Я')
}

/// Whether some character of `s` is a lowercase Cyrillic letter.
pub fn has_russian_letter_lower(s: &String) -> (b: bool)
    ensures
        b == has_russian_lower(s@),
{
    let chars = chars_of(s.as_str());
    any_russian_letter_lower(&chars)
}

/// Whether some character of `chars` is a lowercase Cyrillic letter.
pub fn any_russian_letter_lower(chars: &Vec<char>) -> (b: bool)
    ensures
        b == has_russian_lower(chars@),
{
    let mut i: usize = 0;
    while i < chars.len()
        invariant
            i <= chars.len(),
            forall|k: int| 0 <= k < i ==> !russian_lower(chars@[k]),
        decreases chars.len() - i,
    {
        if is_russian_letter_lower(chars[i]) {
            return true;
        }
        i += 1;
    }
    false
}

} // verus!
