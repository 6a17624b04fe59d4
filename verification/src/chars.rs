//! Character classes, the trimming of text and the building of strings.
use vstd::prelude::*;

verus! {

/// The ASCII whitespace characters: space, tab, line feed, form feed and
/// carriage return.
pub open spec fn ascii_whitespace(c: char) -> bool {
    c == ' ' || c == '\t' || c == '\n' || c == '\x0C' || c == '\r'
}

/// The characters with the Unicode property `White_Space`.
pub open spec fn whitespace(c: char) -> bool {
    ||| '\u{9}' <= c <= '\u{D}'
    ||| c == ' '
    ||| c == '\u{85}'
    ||| c == '\u{A0}'
    ||| c == '\u{1680}'
    ||| '\u{2000}' <= c <= '\u{200A}'
    ||| c == '\u{2028}'
    ||| c == '\u{2029}'
    ||| c == '\u{202F}'
    ||| c == '\u{205F}'
    ||| c == '\u{3000}'
}

/// Whether `c` is an ASCII whitespace character.
pub fn is_ascii_whitespace(c: char) -> (b: bool)
    ensures
        b == ascii_whitespace(c),
{
    c == ' ' || c == '\t' || c == '\n' || c == '\x0C' || c == '\r'
}

/// Whether `c` is a whitespace character of Unicode.
pub fn is_whitespace(c: char) -> (b: bool)
    ensures
        b == whitespace(c),
{
    ('\u{9}' <= c && c <= '\u{D}') || c == ' ' || c == '\u{85}' || c == '\u{A0}' || c
        == '\u{1680}' || ('\u{2000}' <= c && c <= '\u{200A}') || c == '\u{2028}' || c
        == '\u{2029}' || c == '\u{202F}' || c == '\u{205F}' || c == '\u{3000}'
}

/// `text` without the whitespace at its front.
pub open spec fn trim_start(text: Seq<char>) -> Seq<char>
    decreases text.len(),
{
    if text.len() > 0 && whitespace(text.first()) {
        trim_start(text.drop_first())
    } else {
        text
    }
}

/// `text` without the whitespace at its end.
pub open spec fn trim_end(text: Seq<char>) -> Seq<char>
    decreases text.len(),
{
    if text.len() > 0 && whitespace(text.last()) {
        trim_end(text.drop_last())
    } else {
        text
    }
}

/// `text` without the whitespace at either end.
pub open spec fn trim(text: Seq<char>) -> Seq<char> {
    trim_end(trim_start(text))
}

/// The bounds of `trim(text)` within `text`.
pub fn trim_bounds(text: &[char]) -> (bounds: (usize, usize))
    ensures
        bounds.0 <= bounds.1 <= text@.len(),
        text@.subrange(bounds.0 as int, bounds.1 as int) == trim(text@),
{
    let mut start: usize = 0;
    proof {
        assert(text@.skip(0) =~= text@);
    }
    while start < text.len() && is_whitespace(text[start])
        invariant
            start <= text@.len(),
            trim_start(text@) == trim_start(text@.skip(start as int)),
        decreases text@.len() - start,
    {
        proof {
            assert(text@.skip(start as int).drop_first() =~= text@.skip(start + 1));
        }
        start = start + 1;
    }
    let mut end: usize = text.len();
    proof {
        assert(text@.subrange(start as int, end as int) =~= text@.skip(start as int));
    }
    while start < end && is_whitespace(text[end - 1])
        invariant
            start <= end <= text@.len(),
            trim(text@) == trim_end(text@.subrange(start as int, end as int)),
        decreases end - start,
    {
        proof {
            assert(text@.subrange(start as int, end as int).drop_last() =~= text@.subrange(
                start as int,
                end - 1,
            ));
        }
        end = end - 1;
    }
    (start, end)
}

/// Trimmed text has no whitespace at either end, and text without
/// whitespace at its ends is its own trimming.
pub proof fn lemma_trim_ends(text: Seq<char>)
    ensures
        trim(text).len() > 0 ==> !whitespace(trim(text).first()) && !whitespace(
            trim(text).last(),
        ),
        trim(text).len() <= text.len(),
        text.len() > 0 && !whitespace(text.first()) && !whitespace(text.last()) ==> trim(text)
            == text,
{
    lemma_trim_start(text);
    lemma_trim_end(trim_start(text));
}

proof fn lemma_trim_start(text: Seq<char>)
    ensures
        trim_start(text).len() <= text.len(),
        trim_start(text).len() > 0 ==> !whitespace(trim_start(text).first()),
        trim_start(text) == text.skip(text.len() - trim_start(text).len()),
    decreases text.len(),
{
    if text.len() > 0 && whitespace(text.first()) {
        lemma_trim_start(text.drop_first());
        let kept = trim_start(text).len();
        assert(text.drop_first().skip(text.len() - 1 - kept) =~= text.skip(text.len() - kept));
    } else {
        assert(text.skip(0) =~= text);
    }
}

proof fn lemma_trim_end(text: Seq<char>)
    ensures
        trim_end(text).len() <= text.len(),
        trim_end(text).len() > 0 ==> !whitespace(trim_end(text).last()),
        trim_end(text) == text.take(trim_end(text).len() as int),
    decreases text.len(),
{
    if text.len() > 0 && whitespace(text.last()) {
        lemma_trim_end(text.drop_last());
        let kept = trim_end(text).len();
        assert(text.drop_last().take(kept as int) =~= text.take(kept as int));
    } else {
        assert(text.take(text.len() as int) =~= text);
    }
}

/// `String::push` of the standard library.
///
/// Trusted: the call appends `c` to `text` and changes nothing else of it.
#[verifier::external_body]
pub(crate) fn push_char(text: &mut String, c: char)
    ensures
        final(text)@ == old(text)@.push(c),
{
    text.push(c)
}

/// A string that holds `chars`.
pub fn string_of(chars: &[char]) -> (text: String)
    ensures
        text@ == chars@,
{
    let mut text = String::new();
    let mut i: usize = 0;
    while i < chars.len()
        invariant
            i <= chars@.len(),
            text@ == chars@.take(i as int),
        decreases chars@.len() - i,
    {
        push_char(&mut text, chars[i]);
        proof {
            assert(chars@.take(i as int).push(chars@[i as int]) =~= chars@.take(i + 1));
        }
        i = i + 1;
    }
    proof {
        assert(chars@.take(chars@.len() as int) =~= chars@);
    }
    text
}

} // verus!
