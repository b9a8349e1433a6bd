//! Character-level helpers shared by the parser, the search and the preview.

use vstd::prelude::*;

verus! {

/// Whether `c` has the Unicode `White_Space` property (what `char::is_whitespace` tests).
pub open spec fn is_space_char(c: char) -> bool {
    ||| ('\u{9}' <= c && c <= '\u{d}')
    ||| c == ' '
    ||| c == '\u{85}'
    ||| c == '\u{a0}'
    ||| c == '\u{1680}'
    ||| ('\u{2000}' <= c && c <= '\u{200a}')
    ||| c == '\u{2028}'
    ||| c == '\u{2029}'
    ||| c == '\u{202f}'
    ||| c == '\u{205f}'
    ||| c == '\u{3000}'
}

/// Whether `c` is one of the ASCII digits `0` to `9`.
pub open spec fn is_digit_char(c: char) -> bool {
    '0' <= c && c <= '9'
}

/// The length of the longest prefix of `t` in which no character satisfies `stop`.
pub open spec fn span_len(t: Seq<char>, stop: spec_fn(char) -> bool) -> nat
    decreases t.len(),
{
    if t.len() == 0 || stop(t[0]) {
        0
    } else {
        1 + span_len(t.drop_first(), stop)
    }
}

/// `span_len` is the first position of a stop character, or the length.
pub proof fn lemma_span_len(t: Seq<char>, stop: spec_fn(char) -> bool, m: int)
    requires
        0 <= m <= t.len(),
        forall|k: int| 0 <= k < m ==> !stop(#[trigger] t[k]),
        m == t.len() || stop(t[m]),
    ensures
        span_len(t, stop) == m,
    decreases m,
{
    if m > 0 {
        lemma_span_len(t.drop_first(), stop, m - 1);
    }
}

/// `span_len` never exceeds the length, and every character before it is no stop character.
pub proof fn lemma_span_len_bounds(t: Seq<char>, stop: spec_fn(char) -> bool)
    ensures
        span_len(t, stop) <= t.len(),
        forall|k: int| 0 <= k < span_len(t, stop) ==> !stop(#[trigger] t[k]),
        span_len(t, stop) < t.len() ==> stop(t[span_len(t, stop) as int]),
    decreases t.len(),
{
    if t.len() > 0 && !stop(t[0]) {
        lemma_span_len_bounds(t.drop_first(), stop);
        assert forall|k: int| 0 <= k < span_len(t, stop) implies !stop(#[trigger] t[k]) by {
            if k > 0 {
                assert(t[k] == t.drop_first()[k - 1]);
            }
        }
    }
}

/// Tests `char::is_whitespace`.
pub fn is_space(c: char) -> (b: bool)
    ensures
        b == is_space_char(c),
{
    ('\u{9}' <= c && c <= '\u{d}') || c == ' ' || c == '\u{85}' || c == '\u{a0}' || c == '\u{1680}'
        || ('\u{2000}' <= c && c <= '\u{200a}') || c == '\u{2028}' || c == '\u{2029}' || c
        == '\u{202f}' || c == '\u{205f}' || c == '\u{3000}'
}

/// Tests `char::is_ascii_digit`.
pub fn is_digit(c: char) -> (b: bool)
    ensures
        b == is_digit_char(c),
{
    '0' <= c && c <= '9'
}

/// The characters of `s`, in order.
pub fn chars_of(s: &str) -> (out: Vec<char>)
    ensures
        out@ == s@,
{
    broadcast use vstd::string::group_string_axioms;

    let mut out: Vec<char> = Vec::new();
    for c in it: s.chars()
        invariant
            out@ == it.seq().take(it.index()),
    {
        out.push(c);
    }
    out
}

/// A copy of `v[from..to]`.
pub fn copy_range(v: &Vec<char>, from: usize, to: usize) -> (out: Vec<char>)
    requires
        from <= to <= v.len(),
    ensures
        out@ == v@.subrange(from as int, to as int),
{
    let mut out: Vec<char> = Vec::new();
    let mut i = from;
    while i < to
        invariant
            from <= i <= to <= v.len(),
            out@ == v@.subrange(from as int, i as int),
        decreases to - i,
    {
        out.push(v[i]);
        i += 1;
    }
    out
}

/// Appends the characters of `tail` to `v`.
pub fn push_all(v: &mut Vec<char>, tail: &Vec<char>)
    ensures
        final(v)@ == old(v)@ + tail@,
{
    let mut i: usize = 0;
    while i < tail.len()
        invariant
            i <= tail.len(),
            v@ == old(v)@ + tail@.take(i as int),
        decreases tail.len() - i,
    {
        v.push(tail[i]);
        i += 1;
        assert(tail@.take(i as int) =~= tail@.take(i - 1) + seq![tail@[i - 1]]);
    }
    assert(tail@.take(tail.len() as int) =~= tail@);
}

/// Collects characters into a `String` (`String: FromIterator<&char>`); the result holds
/// exactly `chars`, in order.
#[verifier::external_body]
pub(crate) fn string_from_chars(chars: &Vec<char>) -> (out: String)
    ensures
        out@ == chars@,
{
    chars.iter().collect()
}

} // verus!
