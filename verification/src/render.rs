//! What the result list shows: a one-line preview of each command, and the labels of the
//! visible results.

use vstd::prelude::*;
use crate::history::HistoryEntry;
use crate::text::{
    chars_of, copy_range, is_space, is_space_char, lemma_span_len, lemma_span_len_bounds, push_all, span_len,
    string_from_chars,
};

verus! {

/// The most characters a preview holds.
pub const MULTILINE_PREVIEW_MAX_CHARS: usize = 120;

/// The length of the leading run of non-whitespace characters of `t`.
pub open spec fn word_len(t: Seq<char>) -> nat {
    span_len(t, space_stop())
}

/// Whitespace, as a stop condition for `span_len`.
pub open spec fn space_stop() -> spec_fn(char) -> bool {
    |c: char| is_space_char(c)
}

/// The maximal runs of non-whitespace characters of `s`, in order (what
/// `str::split_whitespace` yields).
pub open spec fn words(s: Seq<char>) -> Seq<Seq<char>>
    decreases s.len(),
{
    if s.len() == 0 {
        seq![]
    } else if is_space_char(s[0]) {
        words(s.drop_first())
    } else {
        let k = word_len(s);
        proof {
            lemma_span_len_bounds(s, space_stop());
        }
        // `k` is at least one (the first character is no whitespace) and at most the length
        if 0 < k <= s.len() {
            seq![s.take(k as int)] + words(s.skip(k as int))
        } else {
            seq![]
        }
    }
}

/// The words joined by single spaces.
pub open spec fn join_words(ws: Seq<Seq<char>>) -> Seq<char>
    decreases ws.len(),
{
    if ws.len() == 0 {
        seq![]
    } else if ws.len() == 1 {
        ws[0]
    } else {
        join_words(ws.drop_last()) + seq![' '] + ws.last()
    }
}

/// `s` with every run of whitespace turned into one space, and none at either end.
pub open spec fn compact_whitespace(s: Seq<char>) -> Seq<char> {
    join_words(words(s))
}

/// `s` without its trailing whitespace.
pub open spec fn trim_end(s: Seq<char>) -> Seq<char>
    decreases s.len(),
{
    if s.len() > 0 && is_space_char(s.last()) {
        trim_end(s.drop_last())
    } else {
        s
    }
}

/// The three dots that mark an omission.
pub open spec fn ellipsis() -> Seq<char> {
    seq!['.', '.', '.']
}

/// Whether `s` ends with three dots.
pub open spec fn ends_with_ellipsis(s: Seq<char>) -> bool {
    s.len() >= 3 && s.skip(s.len() - 3) == ellipsis()
}

/// `value` if it has at most `max_chars` characters; otherwise `max_chars` dots when that is
/// at most three, else its first `max_chars - 3` characters without trailing whitespace,
/// then three dots.
pub open spec fn truncated(value: Seq<char>, max_chars: nat) -> Seq<char> {
    if value.len() <= max_chars {
        value
    } else if max_chars <= 3 {
        Seq::new(max_chars, |i: int| '.')
    } else {
        trim_end(value.take(max_chars - 3)) + ellipsis()
    }
}

/// The one-line preview of a command: whitespace compacted, cut to
/// `MULTILINE_PREVIEW_MAX_CHARS` characters, and marked with three dots when the command
/// spans several lines.
pub open spec fn preview_of(command: Seq<char>) -> Seq<char> {
    let multiline = command.contains('\n') || command.contains('\r');
    let preview = truncated(compact_whitespace(command), MULTILINE_PREVIEW_MAX_CHARS as nat);
    if multiline && !ends_with_ellipsis(preview) {
        truncated(preview + ellipsis(), MULTILINE_PREVIEW_MAX_CHARS as nat)
    } else {
        preview
    }
}

/// The words of `s` from a word's first character `i` on: that word, up to the next
/// whitespace `j`, then the words from `j` on.
proof fn lemma_words_step(s: Seq<char>, i: int, j: int)
    requires
        0 <= i < j <= s.len(),
        !is_space_char(s[i]),
        forall|k: int| i <= k < j ==> !is_space_char(#[trigger] s[k]),
        j == s.len() || is_space_char(s[j]),
    ensures
        words(s.skip(i)) == seq![s.subrange(i, j)] + words(s.skip(j)),
{
    let t = s.skip(i);
    let sp = space_stop();
    assert forall|k: int| 0 <= k < j - i implies !sp(#[trigger] t[k]) by {
        assert(t[k] == s[i + k]);
    }
    lemma_span_len(t, sp, j - i);
    assert(t.take(j - i) =~= s.subrange(i, j));
    assert(t.skip(j - i) =~= s.skip(j));
}

/// Joining one more word adds a space and the word, unless it is the first.
proof fn lemma_join_push(ws: Seq<Seq<char>>, w: Seq<char>)
    ensures
        join_words(ws.push(w)) == if ws.len() == 0 {
            w
        } else {
            join_words(ws) + seq![' '] + w
        },
{
    assert(ws.push(w).drop_last() =~= ws);
}

/// `s` with its whitespace compacted.
fn compact(s: &Vec<char>) -> (out: Vec<char>)
    ensures
        out@ == compact_whitespace(s@),
{
    let n = s.len();
    let mut out: Vec<char> = Vec::new();
    let ghost mut emitted: Seq<Seq<char>> = seq![];
    let mut i: usize = 0;
    let mut any_word = false;
    assert(s@.skip(0) =~= s@);
    while i < n
        invariant
            n == s.len(),
            i <= n,
            any_word == (emitted.len() > 0),
            words(s@) == emitted + words(s@.skip(i as int)),
            out@ == join_words(emitted),
        decreases n - i,
    {
        if is_space(s[i]) {
            assert(s@.skip(i as int).drop_first() =~= s@.skip(i + 1));
            i += 1;
        } else {
            let mut j = i + 1;
            while j < n && !is_space(s[j])
                invariant
                    n == s.len(),
                    i < j <= n,
                    forall|k: int| i <= k < j ==> !is_space_char(#[trigger] s@[k]),
                decreases n - j,
            {
                j += 1;
            }
            proof {
                lemma_words_step(s@, i as int, j as int);
                lemma_join_push(emitted, s@.subrange(i as int, j as int));
                assert(emitted + (seq![s@.subrange(i as int, j as int)] + words(s@.skip(j as int)))
                    =~= emitted.push(s@.subrange(i as int, j as int)) + words(s@.skip(j as int)));
            }
            if any_word {
                out.push(' ');
            }
            let word = copy_range(s, i, j);
            push_all(&mut out, &word);
            proof {
                if emitted.len() > 0 {
                    assert(out@ =~= join_words(emitted) + seq![' '] + word@);
                } else {
                    assert(out@ =~= word@);
                }
                emitted = emitted.push(word@);
            }
            any_word = true;
            i = j;
        }
    }
    assert(s@.skip(n as int) =~= Seq::<char>::empty());
    assert(emitted + Seq::<Seq<char>>::empty() =~= emitted);
    out
}

/// Appends three dots to `v`.
fn push_ellipsis(v: &mut Vec<char>)
    ensures
        final(v)@ == old(v)@ + ellipsis(),
{
    v.push('.');
    v.push('.');
    v.push('.');
    assert(v@ =~= old(v)@ + ellipsis());
}

/// `value` cut to at most `max_chars` characters as `truncated` says.
fn truncate_chars(value: &Vec<char>, max_chars: usize) -> (out: Vec<char>)
    ensures
        out@ == truncated(value@, max_chars as nat),
{
    if value.len() <= max_chars {
        let out = copy_range(value, 0, value.len());
        assert(out@ =~= value@);
        return out;
    }
    if max_chars <= 3 {
        let mut dots: Vec<char> = Vec::new();
        let mut i: usize = 0;
        while i < max_chars
            invariant
                i <= max_chars,
                dots@ == Seq::new(i as nat, |k: int| '.'),
            decreases max_chars - i,
        {
            dots.push('.');
            i += 1;
            assert(dots@ =~= Seq::new(i as nat, |k: int| '.'));
        }
        return dots;
    }
    let keep = max_chars - 3;
    let mut k = keep;
    while k > 0 && is_space(value[k - 1])
        invariant
            k <= keep < value.len(),
            trim_end(value@.take(keep as int)) == trim_end(value@.take(k as int)),
        decreases k,
    {
        assert(value@.take(k as int).drop_last() =~= value@.take(k - 1));
        k -= 1;
    }
    let mut out = copy_range(value, 0, k);
    assert(out@ =~= value@.take(k as int));
    push_ellipsis(&mut out);
    out
}

/// `value` if it has at most `max_chars` characters; otherwise cut so that it has
/// `max_chars` characters or fewer, ending in three dots (or only dots when `max_chars` is
/// three or less).
pub fn truncate_with_ellipsis(value: &str, max_chars: usize) -> (out: String)
    ensures
        out@ == truncated(value@, max_chars as nat),
{
    let chars = chars_of(value);
    string_from_chars(&truncate_chars(&chars, max_chars))
}

/// Whether `v` holds a line break (`\n` or `\r`).
fn has_line_break(v: &Vec<char>) -> (b: bool)
    ensures
        b == (v@.contains('\n') || v@.contains('\r')),
{
    let mut i: usize = 0;
    while i < v.len()
        invariant
            i <= v.len(),
            forall|k: int| 0 <= k < i ==> #[trigger] v@[k] != '\n' && v@[k] != '\r',
        decreases v.len() - i,
    {
        if v[i] == '\n' || v[i] == '\r' {
            assert(v@[i as int] == '\n' || v@[i as int] == '\r');
            return true;
        }
        i += 1;
    }
    false
}

/// Whether `v` ends with three dots.
fn ends_with_dots(v: &Vec<char>) -> (b: bool)
    ensures
        b == ends_with_ellipsis(v@),
{
    let n = v.len();
    if n < 3 {
        return false;
    }
    let b = v[n - 3] == '.' && v[n - 2] == '.' && v[n - 1] == '.';
    if b {
        assert(v@.skip(n - 3) =~= ellipsis());
    } else {
        assert(v@.skip(n - 3) != ellipsis() ) by {
            let t = v@.skip(n - 3);
            assert(t[0] == v@[n - 3]);
            assert(t[1] == v@[n - 2]);
            assert(t[2] == v@[n - 1]);
        }
    }
    b
}

/// The one-line preview of a command shown in the result list.
pub fn command_preview(command: &str) -> (preview: String)
    ensures
        preview@ == preview_of(command@),
{
    let chars = chars_of(command);
    let is_multiline = has_line_break(&chars);
    let compacted = compact(&chars);
    let mut preview = truncate_chars(&compacted, MULTILINE_PREVIEW_MAX_CHARS);
    if is_multiline && !ends_with_dots(&preview) {
        push_ellipsis(&mut preview);
        preview = truncate_chars(&preview, MULTILINE_PREVIEW_MAX_CHARS);
    }
    string_from_chars(&preview)
}

/// The character of a decimal digit.
pub open spec fn digit_char(d: nat) -> char {
    if d == 0 {
        '0'
    } else if d == 1 {
        '1'
    } else if d == 2 {
        '2'
    } else if d == 3 {
        '3'
    } else if d == 4 {
        '4'
    } else if d == 5 {
        '5'
    } else if d == 6 {
        '6'
    } else if d == 7 {
        '7'
    } else if d == 8 {
        '8'
    } else {
        '9'
    }
}

/// The decimal notation of `n`, without leading zeros.
pub open spec fn decimal(n: nat) -> Seq<char>
    decreases n,
{
    if n < 10 {
        seq![digit_char(n)]
    } else {
        decimal(n / 10).push(digit_char(n % 10))
    }
}

/// The label of a visible result: its position in the list, a space and the preview of the
/// command.
pub open spec fn result_label(position: nat, command: Seq<char>) -> Seq<char> {
    decimal(position) + seq![' '] + preview_of(command)
}

/// The matches from `start` on, at most `max_results` of them (none when `start` is past
/// the last match).
pub open spec fn visible_matches(matches: Seq<usize>, start: nat, max_results: nat) -> Seq<usize> {
    if start >= matches.len() {
        seq![]
    } else if matches.len() - start <= max_results {
        matches.skip(start as int)
    } else {
        matches.subrange(start as int, (start + max_results) as int)
    }
}

/// The labels of the visible results, in order.
pub open spec fn visible_labels(
    history: Seq<HistoryEntry>,
    matches: Seq<usize>,
    start: nat,
    max_results: nat,
) -> Seq<Seq<char>> {
    let shown = visible_matches(matches, start, max_results);
    Seq::new(shown.len(), |i: int| result_label(i as nat, history[shown[i] as int].command@))
}

/// Appends the decimal digits of `n` to `out`.
fn push_decimal(out: &mut Vec<char>, n: usize)
    ensures
        final(out)@ == old(out)@ + decimal(n as nat),
    decreases n,
{
    if n >= 10 {
        push_decimal(out, n / 10);
    }
    let d = n % 10;
    let c = if d == 0 {
        '0'
    } else if d == 1 {
        '1'
    } else if d == 2 {
        '2'
    } else if d == 3 {
        '3'
    } else if d == 4 {
        '4'
    } else if d == 5 {
        '5'
    } else if d == 6 {
        '6'
    } else if d == 7 {
        '7'
    } else if d == 8 {
        '8'
    } else {
        '9'
    };
    out.push(c);
    assert(out@ =~= old(out)@ + decimal(n as nat));
}

/// The labels of the results in the window that starts at `match_window_start`: at most
/// `max_results` of them, each `<position> <preview>`. None when the window is past the last
/// match (the list then shows that nothing matches).
pub fn result_labels(
    history: &[HistoryEntry],
    matches: &[usize],
    match_window_start: usize,
    max_results: usize,
) -> (labels: Vec<String>)
    requires
        forall|j: int|
            #![trigger matches@[j]]
            match_window_start <= j < matches@.len() && j - match_window_start < max_results
                ==> matches@[j] < history@.len(),
    ensures
        labels@.map_values(|l: String| l@) == visible_labels(
            history@,
            matches@,
            match_window_start as nat,
            max_results as nat,
        ),
{
    let ghost shown = visible_matches(matches@, match_window_start as nat, max_results as nat);
    let mut labels: Vec<String> = Vec::new();
    if match_window_start >= matches.len() {
        assert(labels@.map_values(|l: String| l@) =~= visible_labels(history@, matches@, match_window_start as nat, max_results as nat));
        return labels;
    }
    let count = if matches.len() - match_window_start <= max_results {
        matches.len() - match_window_start
    } else {
        max_results
    };
    let mut i: usize = 0;
    while i < count
        invariant
            match_window_start < matches.len(),
            count == shown.len(),
            count <= matches.len() - match_window_start,
            shown == visible_matches(matches@, match_window_start as nat, max_results as nat),
            forall|k: int| 0 <= k < count ==> shown[k] == #[trigger] matches@[match_window_start + k],
            forall|j: int|
                #![trigger matches@[j]]
                match_window_start <= j < matches@.len() && j - match_window_start < max_results
                    ==> matches@[j] < history@.len(),
            i <= count,
            labels@.map_values(|l: String| l@) == Seq::new(
                i as nat,
                |k: int| result_label(k as nat, history@[shown[k] as int].command@),
            ),
        decreases count - i,
    {
        let index = matches[match_window_start + i];
        assert(shown[i as int] == matches@[match_window_start + i]);
        let mut label: Vec<char> = Vec::new();
        push_decimal(&mut label, i);
        label.push(' ');
        let preview = command_preview(history[index].command.as_str());
        let preview_chars = chars_of(preview.as_str());
        push_all(&mut label, &preview_chars);
        let text = string_from_chars(&label);
        let ghost before = labels@.map_values(|l: String| l@);
        labels.push(text);
        assert(labels@.map_values(|l: String| l@) =~= before.push(text@));
        assert(text@ =~= result_label(i as nat, history@[shown[i as int] as int].command@));
        i += 1;
        assert(labels@.map_values(|l: String| l@) =~= Seq::new(
            i as nat,
            |k: int| result_label(k as nat, history@[shown[k] as int].command@),
        ));
    }
    labels
}

proof fn lemma_trim_end_shorter(s: Seq<char>)
    ensures
        trim_end(s).len() <= s.len(),
    decreases s.len(),
{
    if s.len() > 0 && is_space_char(s.last()) {
        lemma_trim_end_shorter(s.drop_last());
    }
}

/// Law: a truncated text has at most `max_chars` characters, and a text that fits is left as
/// it is.
pub proof fn lemma_truncated_fits(value: Seq<char>, max_chars: nat)
    ensures
        truncated(value, max_chars).len() <= max_chars,
        value.len() <= max_chars ==> truncated(value, max_chars) == value,
        value.len() > max_chars && max_chars > 3 ==> ends_with_ellipsis(truncated(value, max_chars)),
{
    if value.len() > max_chars && max_chars > 3 {
        lemma_trim_end_shorter(value.take(max_chars - 3));
        let t = trim_end(value.take(max_chars - 3)) + ellipsis();
        assert(t.skip(t.len() - 3) =~= ellipsis());
    }
}

/// Law: a preview never has more than `MULTILINE_PREVIEW_MAX_CHARS` characters, and the
/// preview of a command that spans several lines ends with three dots.
pub proof fn lemma_preview_fits(command: Seq<char>)
    ensures
        preview_of(command).len() <= MULTILINE_PREVIEW_MAX_CHARS,
        command.contains('\n') || command.contains('\r') ==> ends_with_ellipsis(preview_of(command)),
{
    let max = MULTILINE_PREVIEW_MAX_CHARS as nat;
    let preview = truncated(compact_whitespace(command), max);
    lemma_truncated_fits(compact_whitespace(command), max);
    lemma_truncated_fits(preview + ellipsis(), max);
    if (command.contains('\n') || command.contains('\r')) && !ends_with_ellipsis(preview) {
        let longer = preview + ellipsis();
        if longer.len() <= max {
            assert(longer.skip(longer.len() - 3) =~= ellipsis());
        }
    }
}

/// A word: non-empty, with no whitespace.
pub open spec fn is_word(w: Seq<char>) -> bool {
    w.len() > 0 && forall|k: int| 0 <= k < w.len() ==> !is_space_char(#[trigger] w[k])
}

/// A text in compact form: no whitespace but single spaces between other characters.
pub open spec fn is_compact(c: Seq<char>) -> bool {
    &&& forall|k: int| 0 <= k < c.len() && is_space_char(#[trigger] c[k]) ==> c[k] == ' ' && 0 < k
        && k + 1 < c.len() && !is_space_char(c[k + 1])
}

proof fn lemma_words_are_words(s: Seq<char>)
    ensures
        forall|j: int| 0 <= j < words(s).len() ==> is_word(#[trigger] words(s)[j]),
    decreases s.len(),
{
    if s.len() > 0 {
        if is_space_char(s[0]) {
            lemma_words_are_words(s.drop_first());
            assert(words(s) == words(s.drop_first()));
        } else {
            let sp = space_stop();
            let k = word_len(s);
            lemma_span_len_bounds(s, sp);
            lemma_words_are_words(s.skip(k as int));
            let w = s.take(k as int);
            assert(words(s) == seq![w] + words(s.skip(k as int)));
            assert forall|m: int| 0 <= m < w.len() implies !is_space_char(#[trigger] w[m]) by {
                assert(!sp(s[m]));
            }
            let ws = words(s);
            assert(is_word(w));
            assert forall|j: int| 0 <= j < ws.len() implies is_word(#[trigger] ws[j]) by {
                if j == 0 {
                    assert(ws[0] == w);
                } else {
                    assert(ws[j] == words(s.skip(k as int))[j - 1]);
                }
            }
        }
    }
}

proof fn lemma_join_compact(ws: Seq<Seq<char>>)
    requires
        forall|j: int| 0 <= j < ws.len() ==> is_word(#[trigger] ws[j]),
    ensures
        is_compact(join_words(ws)),
        ws.len() > 0 ==> join_words(ws).len() > 0 && !is_space_char(join_words(ws)[0])
            && !is_space_char(join_words(ws).last()),
    decreases ws.len(),
{
    if ws.len() == 1 {
        assert(is_word(ws[0]));
    } else if ws.len() > 1 {
        let init = ws.drop_last();
        assert forall|j: int| 0 <= j < init.len() implies is_word(#[trigger] init[j]) by {
            assert(init[j] == ws[j]);
        }
        lemma_join_compact(init);
        let a = join_words(init);
        let w = ws.last();
        assert(is_word(ws[ws.len() - 1]));
        let c = join_words(ws);
        assert(c == a + seq![' '] + w);
        assert forall|k: int| 0 <= k < c.len() && is_space_char(#[trigger] c[k]) implies c[k] == ' '
            && 0 < k && k + 1 < c.len() && !is_space_char(c[k + 1]) by {
            if k < a.len() {
                assert(c[k] == a[k]);
                assert(0 < k && k + 1 < a.len() + 1);
                if k + 1 < a.len() {
                    assert(c[k + 1] == a[k + 1]);
                } else {
                    assert(a[k] == a.last());
                }
            } else if k == a.len() {
                assert(c[k + 1] == w[0]);
            } else {
                assert(c[k] == w[k - a.len() - 1]);
            }
        }
        assert(c[0] == a[0]);
        assert(c.last() == w.last());
    }
}

/// Law: compacted whitespace leaves no whitespace but single spaces, each between two other
/// characters (so none at either end and never two in a row).
pub proof fn lemma_compact_whitespace(s: Seq<char>)
    ensures
        is_compact(compact_whitespace(s)),
{
    lemma_words_are_words(s);
    lemma_join_compact(words(s));
}

/// Law: the labels of the window that starts at `start` are one per match from `start` on, at
/// most `max_results` of them; label `k` is `k`, a space and the preview of the command (the
/// `command` field, not the searchable text) of the entry that match `start + k` names.
pub proof fn lemma_visible_labels(
    history: Seq<HistoryEntry>,
    matches: Seq<usize>,
    start: nat,
    max_results: nat,
)
    ensures
        visible_labels(history, matches, start, max_results).len() == if start >= matches.len() {
            0
        } else if matches.len() - start <= max_results {
            (matches.len() - start) as nat
        } else {
            max_results
        },
        forall|k: int|
            0 <= k < visible_labels(history, matches, start, max_results).len() ==> #[trigger] visible_labels(
                history,
                matches,
                start,
                max_results,
            )[k] == decimal(k as nat) + seq![' '] + preview_of(history[matches[start + k] as int].command@),
{
    let shown = visible_matches(matches, start, max_results);
    let labels = visible_labels(history, matches, start, max_results);
    assert forall|k: int| 0 <= k < labels.len() implies #[trigger] labels[k] == decimal(k as nat) + seq![' ']
        + preview_of(history[matches[start + k] as int].command@) by {
        assert(shown[k] == matches[start + k]);
    }
}

} // verus!
