//! Text: what raw bytes hold, and the white space around it.

use vstd::prelude::*;
use vstd::string::*;
use vstd::utf8::{decode_utf8, valid_utf8};

verus! {

/// The text that is made of bytes that are no UTF-8: replacement characters
/// stand for what cannot be read.
pub uninterp spec fn repaired_utf8(bytes: Seq<u8>) -> Seq<char>;

/// The text that raw bytes hold, taken as UTF-8 as far as they are.
pub open spec fn lossy_utf8(bytes: Seq<u8>) -> Seq<char> {
    if valid_utf8(bytes) {
        decode_utf8(bytes)
    } else {
        repaired_utf8(bytes)
    }
}

/// The text that raw bytes hold, by `String::from_utf8_lossy`. Claims that
/// bytes in UTF-8 give their text, and that the text is a function of the bytes
/// where they are not; where replacement characters stand is left unsaid.
#[verifier::external_body]
pub(crate) fn lossy_text(bytes: &[u8]) -> (s: String)
    ensures
        s@ == if valid_utf8(bytes@) {
            decode_utf8(bytes@)
        } else {
            repaired_utf8(bytes@)
        },
{
    String::from_utf8_lossy(bytes).into_owned()
}

/// Whether a character is white space, as Unicode has it.
pub open spec fn is_white(c: char) -> bool {
    ||| '\u{9}' <= c <= '\u{D}'
    ||| c == '\u{20}'
    ||| c == '\u{85}'
    ||| c == '\u{A0}'
    ||| c == '\u{1680}'
    ||| '\u{2000}' <= c <= '\u{200A}'
    ||| c == '\u{2028}'
    ||| c == '\u{2029}'
    ||| c == '\u{202F}'
    ||| c == '\u{205F}'
    ||| c == '\u{3000}'
}

fn white(c: char) -> (r: bool)
    ensures
        r == is_white(c),
{
    ('\u{9}' <= c && c <= '\u{D}') || c == '\u{20}' || c == '\u{85}' || c == '\u{A0}' || c == '\u{1680}' || ('\u{2000}'
        <= c && c <= '\u{200A}') || c == '\u{2028}' || c == '\u{2029}' || c == '\u{202F}' || c == '\u{205F}' || c
        == '\u{3000}'
}

/// Where the white space at the front of a text ends, from `i` on.
pub open spec fn text_start(s: Seq<char>, i: int) -> int
    decreases s.len() - i,
{
    if 0 <= i < s.len() && is_white(s[i]) {
        text_start(s, i + 1)
    } else {
        i
    }
}

/// Where the white space at the end of a text starts, from `i` back to `start`.
pub open spec fn text_end(s: Seq<char>, start: int, i: int) -> int
    decreases i - start,
{
    if start < i <= s.len() && is_white(s[i - 1]) {
        text_end(s, start, i - 1)
    } else {
        i
    }
}

/// A text without the white space at its ends.
pub open spec fn trimmed(s: Seq<char>) -> Seq<char> {
    let start = text_start(s, 0);
    s.subrange(start, text_end(s, start, s.len() as int))
}

/// A text without the white space at its ends.
pub(crate) fn trim_text(s: &str) -> (r: String)
    ensures
        r@ == trimmed(s@),
{
    let len: usize = s.unicode_len();
    let mut start: usize = 0;
    while start < len && white(s.get_char(start))
        invariant
            start <= len,
            len == s@.len(),
            text_start(s@, 0) == text_start(s@, start as int),
        decreases len - start,
    {
        start += 1;
    }
    let mut end: usize = len;
    while end > start && white(s.get_char(end - 1))
        invariant
            start <= end <= len,
            len == s@.len(),
            text_end(s@, start as int, len as int) == text_end(s@, start as int, end as int),
        decreases end,
    {
        end -= 1;
    }
    s.substring_char(start, end).to_owned()
}

proof fn lemma_text_start(s: Seq<char>, i: int)
    requires
        0 <= i <= s.len(),
    ensures
        i <= text_start(s, i) <= s.len(),
        text_start(s, i) < s.len() ==> !is_white(s[text_start(s, i)]),
        forall|k: int| i <= k < text_start(s, i) ==> is_white(#[trigger] s[k]),
    decreases s.len() - i,
{
    if i < s.len() && is_white(s[i]) {
        lemma_text_start(s, i + 1);
    }
}

proof fn lemma_text_end(s: Seq<char>, start: int, i: int)
    requires
        0 <= start <= i <= s.len(),
    ensures
        start <= text_end(s, start, i) <= i,
        text_end(s, start, i) > start ==> !is_white(s[text_end(s, start, i) - 1]),
        forall|k: int| text_end(s, start, i) <= k < i ==> is_white(#[trigger] s[k]),
    decreases i - start,
{
    if start < i && is_white(s[i - 1]) {
        lemma_text_end(s, start, i - 1);
    }
}

/// Trimming takes away white space and nothing else, and leaves none at either
/// end; a text without white space at its ends stays as it is.
pub proof fn law_trimming_takes_white_space(s: Seq<char>)
    ensures
        ({
            let start = text_start(s, 0);
            let end = text_end(s, start, s.len() as int);
            let t = trimmed(s);
            &&& t == s.subrange(start, end)
            &&& forall|k: int| 0 <= k < start || end <= k < s.len() ==> is_white(#[trigger] s[k])
            &&& t.len() > 0 ==> !is_white(t[0]) && !is_white(t.last())
            &&& (s.len() > 0 ==> !is_white(s[0]) && !is_white(s.last())) ==> t == s
        }),
{
    let start = text_start(s, 0);
    lemma_text_start(s, 0);
    lemma_text_end(s, start, s.len() as int);
    assert(s.subrange(0, s.len() as int) =~= s);
}

/// White space is what Unicode takes for it; among the characters of one byte
/// these are the space, the tab, and the ones that end a line or a page.
pub proof fn law_white_space_is_blank(c: char)
    ensures
        c == ' ' || c == '\t' || c == '\n' || c == '\r' || c == '\u{B}' || c == '\u{C}' ==> is_white(c),
        c < '\u{80}' && is_white(c) ==> c == ' ' || c == '\t' || c == '\n' || c == '\r' || c == '\u{B}' || c == '\u{C}',
        c == '\u{85}' || c == '\u{A0}' || c == '\u{1680}' || c == '\u{2028}' || c == '\u{2029}' || c == '\u{202F}' || c
            == '\u{205F}' || c == '\u{3000}' ==> is_white(c),
        '\u{2000}' <= c <= '\u{200A}' ==> is_white(c),
        '\u{80}' <= c < '\u{2000}' && is_white(c) ==> c == '\u{85}' || c == '\u{A0}' || c == '\u{1680}',
        '\u{200A}' < c && is_white(c) ==> c == '\u{2028}' || c == '\u{2029}' || c == '\u{202F}' || c == '\u{205F}' || c
            == '\u{3000}',
{
}

/// A text without white space at its ends stays as it is, and one that is all
/// white space becomes empty; trimming twice is trimming once.
pub proof fn law_trimming_ends(s: Seq<char>)
    ensures
        trimmed(trimmed(s)) == trimmed(s),
        (forall|k: int| 0 <= k < s.len() ==> is_white(#[trigger] s[k])) ==> trimmed(s).len() == 0,
        trimmed(s).len() == 0 ==> (forall|k: int| 0 <= k < s.len() ==> is_white(#[trigger] s[k])),
{
    law_trimming_takes_white_space(s);
    law_trimming_takes_white_space(trimmed(s));
    let start = text_start(s, 0);
    lemma_text_start(s, 0);
    lemma_text_end(s, start, s.len() as int);
}

} // verus!
