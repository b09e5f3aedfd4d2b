//! What the command line asks for: the number of words and the debug flag.

use vstd::prelude::*;
use crate::text::{chars_of, lowercase_text, to_lowercase};

verus! {

/// The number of words to generate when none is asked for.
pub const DEFAULT_WORD_COUNT: i16 = 100;

/// The least number of words that can be asked for.
pub const MIN_WORD_COUNT: i16 = 2;

/// The decimal digits `0` to `9`.
pub open spec fn is_digit(c: char) -> bool {
    '0' <= c && c <= '9'
}

/// Whether a text holds decimal digits only.
pub open spec fn all_digits(s: Seq<char>) -> bool {
    forall|i: int| 0 <= i < s.len() ==> is_digit(#[trigger] s[i])
}

/// The number that decimal digits write.
pub open spec fn decimal_value(s: Seq<char>) -> nat
    decreases s.len(),
{
    if s.len() == 0 {
        0
    } else {
        decimal_value(s.drop_last()) * 10 + ((s.last() as u32) - ('0' as u32)) as nat
    }
}

/// The 16-bit signed number that a text writes: an optional sign, then one
/// decimal digit or more, and nothing else; none where the text is of another
/// form or the number does not fit.
pub open spec fn parsed_i16(s: Seq<char>) -> Option<int> {
    let signed = s.len() > 0 && (s[0] == '-' || s[0] == '+');
    let digits = if signed {
        s.skip(1)
    } else {
        s
    };
    let magnitude = decimal_value(digits) as int;
    let value = if signed && s[0] == '-' {
        -magnitude
    } else {
        magnitude
    };
    if digits.len() > 0 && all_digits(digits) && i16::MIN <= value <= i16::MAX {
        Some(value)
    } else {
        None
    }
}

/// Leading digits write no more than all the digits.
pub proof fn lemma_decimal_value_grows(s: Seq<char>, i: int)
    requires
        0 <= i <= s.len(),
        all_digits(s),
    ensures
        decimal_value(s.take(i)) <= decimal_value(s),
    decreases s.len() - i,
{
    if i < s.len() {
        assert(s.take(i + 1).drop_last() == s.take(i));
        assert(is_digit(s[i]));
        lemma_decimal_value_grows(s, i + 1);
    } else {
        assert(s.take(i) == s);
    }
}

/// The number that `a` writes, or 0 where it writes none.
#[verifier::loop_isolation(false)]
pub fn atoi16(a: &str) -> (n: i16)
    ensures
        n == match parsed_i16(a@) {
            Some(v) => v,
            None => 0,
        },
{
    let chars = chars_of(a);
    let len = chars.len();
    let signed = len > 0 && (chars[0] == '-' || chars[0] == '+');
    let negative = signed && chars[0] == '-';
    let start: usize = if signed {
        1
    } else {
        0
    };
    let ghost digits = chars@.skip(start as int);
    assert(digits == if signed {
        a@.skip(1)
    } else {
        a@
    });
    if start == len {
        return 0;
    }
    let mut magnitude: u32 = 0;
    let mut i: usize = start;
    assert(digits.take(0) == Seq::<char>::empty());
    while i < len
        invariant
            start <= i <= len,
            len == chars.len(),
            digits == chars@.skip(start as int),
            all_digits(digits.take(i - start)),
            magnitude == decimal_value(digits.take(i - start)),
            magnitude <= 32768,
        decreases len - i,
    {
        let c = chars[i];
        assert(digits[i - start] == c);
        if !('0' <= c && c <= '9') {
            return 0;
        }
        proof {
            let upto = digits.take(i - start + 1);
            assert(upto.drop_last() == digits.take(i - start));
            assert(upto.last() == c);
            assert forall|k: int| 0 <= k < upto.len() implies is_digit(#[trigger] upto[k]) by {
                if k < i - start {
                    assert(upto[k] == digits.take(i - start)[k]);
                }
            }
        }
        magnitude = magnitude * 10 + (c as u32 - '0' as u32);
        i += 1;
        assert(magnitude == decimal_value(digits.take(i - start)));
        if magnitude > 32768 {
            proof {
                if all_digits(digits) {
                    lemma_decimal_value_grows(digits, i - start);
                }
            }
            return 0;
        }
    }
    assert(digits.take(len - start) == digits);
    if negative {
        if magnitude == 32768 {
            i16::MIN
        } else {
            -(magnitude as i16)
        }
    } else if magnitude == 32768 {
        0
    } else {
        magnitude as i16
    }
}

/// The number of words that an argument asks for: `DEFAULT_WORD_COUNT`
/// without an argument, the argument's number where it is `MIN_WORD_COUNT` or
/// more, and none where the argument asks for less or writes no number.
pub open spec fn requested(arg: Option<Seq<char>>) -> Option<int> {
    match arg {
        None => Some(DEFAULT_WORD_COUNT as int),
        Some(s) => match parsed_i16(s) {
            Some(v) if v >= MIN_WORD_COUNT => Some(v),
            _ => None,
        },
    }
}

/// The number of words that the argument after the path asks for.
pub fn word_count(arg: Option<&str>) -> (count: Option<i16>)
    ensures
        (match count {
            Some(n) => Some(n as int),
            None => None,
        }) == requested(
            match arg {
                Some(s) => Some(s@),
                None => None,
            },
        ),
{
    match arg {
        None => Some(DEFAULT_WORD_COUNT),
        Some(s) => {
            let n = atoi16(s);
            if n < MIN_WORD_COUNT {
                None
            } else {
                Some(n)
            }
        },
    }
}

/// Whether a command-line key switches the debug output on: `--d` or
/// `--debug`, in any case of the letters.
pub fn is_debug_key(key: &str) -> (b: bool)
    ensures
        b == (lowercase_text(key@) == "--d"@ || lowercase_text(key@) == "--debug"@),
{
    let lowered = to_lowercase(key);
    let short = "--d".to_owned();
    let long = "--debug".to_owned();
    lowered == short || lowered == long
}

} // verus!
