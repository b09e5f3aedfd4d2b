//! Deciding how a file's bytes are encoded and turning them into lines.
//!
//! Bytes that form well-formed UTF-8 are taken as UTF-8. Anything else is
//! taken as Windows-1251 when enough of its leading bytes are Cyrillic letters
//! of that encoding, and is set aside as unreadable otherwise.

use vstd::prelude::*;
use vstd::utf8::*;
use crate::text::{has_text, lemma_line_with_text, lines_of, split_lines, texts, utf8_text};

verus! {

/// How many leading bytes of a file the guess looks at.
pub const SAMPLE_LIMIT: usize = 4096;

/// The share of Cyrillic bytes, in percent, from which a file counts as Windows-1251.
pub const LEGACY_THRESHOLD: usize = 60;

/// The longest input that can be decoded: the decoder sizes its buffer at
/// three bytes for each input byte, rounded up to a power of two.
pub open spec fn decodable_len(len: nat) -> bool {
    len <= usize::MAX / 8
}

/// What Windows-1251 bytes decode to, taken from their first byte on with no
/// byte-order mark looked for.
pub uninterp spec fn windows_1251_text(bytes: Seq<u8>) -> Seq<char>;

/// The bytes that stand for Cyrillic letters in Windows-1251: `А` to `я`
/// from 192 on, and `Ё` and `ё` at 168 and 184.
pub open spec fn legacy_letter(b: u8) -> bool {
    b >= 192 || b == 168 || b == 184
}

/// The Cyrillic letter for which a byte stands in Windows-1251: the bytes
/// from 192 on are the letters from U+0410 on in the same order.
pub open spec fn cyrillic_letter(b: u8) -> char
    recommends
        legacy_letter(b),
{
    if b == 168 {
        'Ё'
    } else if b == 184 {
        'ё'
    } else {
        ((b - 192 + 0x410) as u32) as char
    }
}

/// `encoding_rs::Encoding::decode_without_bom_handling` on `WINDOWS_1251`:
/// the text depends on the bytes alone and has one character for each byte,
/// the encoding being a single-byte one, and where a byte stands for a
/// Cyrillic letter, that letter stands at its place. The decoder's buffer size
/// must not overflow, which `decodable_len` sees to.
#[verifier::external_body]
pub(crate) fn decode_windows_1251(bytes: &[u8]) -> (text: String)
    requires
        decodable_len(bytes@.len()),
    ensures
        text@ == windows_1251_text(bytes@),
        text@.len() == bytes@.len(),
        forall|i: int|
            0 <= i < bytes@.len() && legacy_letter(bytes@[i]) ==> #[trigger] text@[i]
                == cyrillic_letter(bytes@[i]),
{
    let (text, _) = encoding_rs::WINDOWS_1251.decode_without_bom_handling(bytes);
    text.into_owned()
}

/// How many bytes of `bytes` are Windows-1251 Cyrillic letters.
pub open spec fn legacy_count(bytes: Seq<u8>) -> nat
    decreases bytes.len(),
{
    if bytes.len() == 0 {
        0
    } else {
        legacy_count(bytes.drop_last()) + if legacy_letter(bytes.last()) {
            1nat
        } else {
            0nat
        }
    }
}

/// The part of a file that the guess looks at.
pub open spec fn sample(bytes: Seq<u8>) -> Seq<u8> {
    if bytes.len() > SAMPLE_LIMIT {
        bytes.take(SAMPLE_LIMIT as int)
    } else {
        bytes
    }
}

/// The share of Windows-1251 Cyrillic letters among the sampled bytes, in
/// whole percent, rounded down; 0 for an empty file.
pub open spec fn legacy_percent(bytes: Seq<u8>) -> nat {
    let inspected = sample(bytes);
    if inspected.len() == 0 {
        0
    } else {
        (100 * legacy_count(inspected) / inspected.len()) as nat
    }
}

/// The text of a file, where it has one.
pub open spec fn resolved_text(bytes: Seq<u8>) -> Option<Seq<char>> {
    if valid_utf8(bytes) {
        Some(decode_utf8(bytes))
    } else if legacy_percent(bytes) >= LEGACY_THRESHOLD {
        Some(windows_1251_text(bytes))
    } else {
        None
    }
}

/// The lines of a file; none for a file without a text.
pub open spec fn resolved_lines(bytes: Seq<u8>) -> Seq<Seq<char>> {
    match resolved_text(bytes) {
        Some(text) => split_lines(text),
        None => Seq::empty(),
    }
}

/// Whether `b` stands for a Cyrillic letter in Windows-1251.
/// A sequence in which Cyrillic bytes were counted holds one.
pub proof fn lemma_legacy_letter_exists(bytes: Seq<u8>)
    requires
        legacy_count(bytes) > 0,
    ensures
        exists|i: int| 0 <= i < bytes.len() && legacy_letter(#[trigger] bytes[i]),
    decreases bytes.len(),
{
    if legacy_letter(bytes.last()) {
        assert(legacy_letter(bytes[bytes.len() - 1]));
    } else {
        lemma_legacy_letter_exists(bytes.drop_last());
        let i = choose|i: int|
            0 <= i < bytes.drop_last().len() && legacy_letter(#[trigger] bytes.drop_last()[i]);
        assert(legacy_letter(bytes[i]));
    }
}

/// Whether `b` stands for a Cyrillic letter in Windows-1251.
pub fn is_legacy_letter(b: u8) -> (r: bool)
    ensures
        r == legacy_letter(b),
{
    b >= 192 || b == 168 || b == 184
}

/// The share of Windows-1251 Cyrillic letters among the first `SAMPLE_LIMIT`
/// bytes, in percent.
pub fn legacy_share(bytes: &[u8]) -> (percent: usize)
    ensures
        percent == legacy_percent(bytes@),
        percent <= 100,
{
    let inspected = if bytes.len() > SAMPLE_LIMIT {
        SAMPLE_LIMIT
    } else {
        bytes.len()
    };
    assert(sample(bytes@) == bytes@.take(inspected as int));
    if inspected == 0 {
        return 0;
    }
    let mut count: usize = 0;
    let mut i: usize = 0;
    while i < inspected
        invariant
            i <= inspected <= bytes.len(),
            inspected <= SAMPLE_LIMIT,
            count == legacy_count(bytes@.take(i as int)),
            count <= i,
        decreases inspected - i,
    {
        assert(bytes@.take(i + 1).drop_last() == bytes@.take(i as int));
        if is_legacy_letter(bytes[i]) {
            count += 1;
        }
        i += 1;
    }
    assert(100 * count / (inspected as int) <= 100) by (nonlinear_arith)
        requires
            count <= inspected,
            inspected > 0,
    ;
    100 * count / inspected
}

/// The lines of `bytes` read as UTF-8, where they are well-formed UTF-8.
pub fn utf8_lines(bytes: &[u8]) -> (r: Option<Vec<String>>)
    ensures
        r is Some <==> valid_utf8(bytes@),
        r matches Some(lines) ==> texts(lines@) == split_lines(decode_utf8(bytes@)),
{
    match utf8_text(bytes) {
        Some(text) => Some(lines_of(text)),
        None => None,
    }
}

/// The lines of `bytes` read as Windows-1251, where at least
/// `LEGACY_THRESHOLD` percent of the sampled bytes are Cyrillic letters of
/// that encoding; no lines otherwise. Where there are lines, one of them
/// holds a character. Only bytes that are decoded need to be of a length
/// that the decoder can take.
pub fn windows_1251_lines(bytes: &[u8]) -> (lines: Vec<String>)
    requires
        legacy_percent(bytes@) >= LEGACY_THRESHOLD ==> decodable_len(bytes@.len()),
    ensures
        texts(lines@) == if legacy_percent(bytes@) >= LEGACY_THRESHOLD {
            split_lines(windows_1251_text(bytes@))
        } else {
            Seq::empty()
        },
        legacy_percent(bytes@) >= LEGACY_THRESHOLD <==> lines@.len() > 0,
        legacy_percent(bytes@) >= LEGACY_THRESHOLD <==> has_text(texts(lines@)),
{
    if legacy_share(bytes) < LEGACY_THRESHOLD {
        let lines: Vec<String> = Vec::new();
        assert(texts(lines@) == Seq::<Seq<char>>::empty());
        lines
    } else {
        let text = decode_windows_1251(bytes);
        proof {
            let inspected = sample(bytes@);
            assert(inspected.len() > 0);
            assert(legacy_count(inspected) > 0) by {
                let len = inspected.len() as int;
                assert(0int / len == 0) by (nonlinear_arith)
                    requires
                        len > 0,
                ;
            }
            lemma_legacy_letter_exists(inspected);
            let i = choose|i: int|
                0 <= i < inspected.len() && legacy_letter(#[trigger] inspected[i]);
            assert(inspected[i] == bytes@[i]);
            assert(text@[i] == cyrillic_letter(bytes@[i]));
            lemma_line_with_text(text@, i);
        }
        let lines = lines_of(text.as_str());
        assert(texts(lines@).len() > 0);
        lines
    }
}

/// The lines of a file: as UTF-8 where the bytes are that, else as
/// Windows-1251 where they look like it, else none. A file that is not
/// UTF-8 has lines, one of which holds a character, when its share of
/// Windows-1251 Cyrillic letters reaches `LEGACY_THRESHOLD` percent, and none
/// below that, whatever follows the sampled bytes.
pub fn resolve_lines(bytes: &[u8]) -> (lines: Vec<String>)
    requires
        !valid_utf8(bytes@) && legacy_percent(bytes@) >= LEGACY_THRESHOLD ==> decodable_len(
            bytes@.len(),
        ),
    ensures
        texts(lines@) == resolved_lines(bytes@),
        !valid_utf8(bytes@) ==> (legacy_percent(bytes@) >= LEGACY_THRESHOLD <==> lines@.len() > 0),
        !valid_utf8(bytes@) ==> (legacy_percent(bytes@) >= LEGACY_THRESHOLD <==> has_text(
            texts(lines@),
        )),
{
    match utf8_lines(bytes) {
        Some(lines) => lines,
        None => windows_1251_lines(bytes),
    }
}

} // verus!
