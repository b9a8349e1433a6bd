//! History entries and the zsh history file format.
//!
//! A zsh history file holds one command per line; with `EXTENDED_HISTORY` a
//! command starts with a header `: <start>:<elapsed>;` and may run over several
//! lines. Entries come out newest first.

use vstd::prelude::*;
use vstd::string::StringExecFns;
use crate::text::{
    chars_of, copy_range, is_digit, is_digit_char, lemma_span_len, push_all, span_len, string_from_chars,
};

verus! {

/// One command of the shell history.
#[derive(Debug, Clone, PartialEq, Eq)]
pub struct HistoryEntry {
    /// The command line, possibly over several lines.
    pub command: String,
    /// The extended-history header (`: <start>:<elapsed>`), or empty.
    pub metadata: String,
    /// The text that a search is matched against.
    pub searchable_text: String,
}

/// What a `HistoryEntry` holds, as character sequences.
pub struct EntryView {
    pub command: Seq<char>,
    pub metadata: Seq<char>,
    pub searchable_text: Seq<char>,
}

impl View for HistoryEntry {
    type V = EntryView;

    open spec fn view(&self) -> EntryView {
        EntryView {
            command: self.command@,
            metadata: self.metadata@,
            searchable_text: self.searchable_text@,
        }
    }
}

/// The views of a sequence of entries.
pub open spec fn entries_view(entries: Seq<HistoryEntry>) -> Seq<EntryView> {
    entries.map_values(|e: HistoryEntry| e@)
}

/// The text searched for an entry: the metadata, a space and the command when metadata is
/// searched and present; the command alone otherwise.
pub open spec fn searchable_text_of(
    command: Seq<char>,
    metadata: Seq<char>,
    search_history_metadata: bool,
) -> Seq<char> {
    if search_history_metadata && metadata.len() > 0 {
        metadata + seq![' '] + command
    } else {
        command
    }
}

/// The entry built from a command and its metadata.
pub open spec fn entry_of(
    command: Seq<char>,
    metadata: Seq<char>,
    search_history_metadata: bool,
) -> EntryView {
    EntryView {
        command,
        metadata,
        searchable_text: searchable_text_of(command, metadata, search_history_metadata),
    }
}

impl HistoryEntry {
    /// Builds an entry; its searchable text includes the metadata when asked to and when
    /// there is any.
    pub fn new(command: String, metadata: String, search_history_metadata: bool) -> (entry: Self)
        ensures
            entry@ == entry_of(command@, metadata@, search_history_metadata),
    {
        let searchable_text = if search_history_metadata && !metadata.as_str().is_empty() {
            proof {
                reveal_strlit(" ");
            }
            let mut text = metadata.clone();
            text.append(" ");
            text.append(command.as_str());
            assert(text@ == metadata@ + seq![' '] + command@);
            text
        } else {
            command.clone()
        };
        HistoryEntry { command, metadata, searchable_text }
    }
}


/// Whether `c` ends a line.
pub open spec fn is_newline(c: char) -> bool {
    c == '\n'
}

/// Line endings, as a stop condition for `span_len`.
pub open spec fn newline_stop() -> spec_fn(char) -> bool {
    |c: char| is_newline(c)
}

/// Non-digits, as a stop condition for `span_len`.
pub open spec fn non_digit_stop() -> spec_fn(char) -> bool {
    |c: char| !is_digit_char(c)
}

/// `t` without one trailing carriage return.
pub open spec fn strip_cr(t: Seq<char>) -> Seq<char> {
    if t.len() > 0 && t.last() == '\r' {
        t.drop_last()
    } else {
        t
    }
}

/// The lines of `s` as `str::lines` yields them: split at `\n`, each line without its
/// `\n` and without a `\r` just before it; a final line ending adds no empty line.
pub open spec fn split_lines(s: Seq<char>) -> Seq<Seq<char>>
    decreases s.len(),
{
    if s.len() == 0 {
        seq![]
    } else {
        let k = span_len(s, newline_stop());
        if k >= s.len() {
            seq![s]
        } else {
            seq![strip_cr(s.take(k as int))] + split_lines(s.skip(k as int + 1))
        }
    }
}

/// The number of ASCII digits in a row from position `i` of `s`.
pub open spec fn digit_run(s: Seq<char>, i: int) -> nat {
    span_len(s.skip(i), non_digit_stop())
}

/// The position of the `;` that ends an extended-history header `: <digits>:<digits>;`
/// at the start of `line`, if the line starts with one.
pub open spec fn extended_header_end(line: Seq<char>) -> Option<int> {
    if line.len() >= 2 && line[0] == ':' && line[1] == ' ' {
        let t: int = 2 + digit_run(line, 2) as int;
        let d: int = t + 1 + digit_run(line, t + 1) as int;
        if t > 2 && t < line.len() && line[t] == ':' && d > t + 1 && d < line.len() && line[d]
            == ';' {
            Some(d)
        } else {
            None
        }
    } else {
        None
    }
}

/// The header (without its `;`) and the command of an extended-history line.
pub open spec fn extended_parts(line: Seq<char>) -> Option<(Seq<char>, Seq<char>)> {
    match extended_header_end(line) {
        Some(d) => Some((line.take(d), line.skip(d + 1))),
        None => None,
    }
}

/// The parser's state between two lines: the entries so far, in file order, and the
/// extended command being read (its command and its header), if any.
pub struct ParseState {
    pub entries: Seq<EntryView>,
    pub current: Option<(Seq<char>, Seq<char>)>,
}

/// `entries` with the pending extended command added, unless it is empty.
pub open spec fn flush_pending(
    entries: Seq<EntryView>,
    current: Option<(Seq<char>, Seq<char>)>,
    search_history_metadata: bool,
) -> Seq<EntryView> {
    match current {
        Some((command, metadata)) => if command.len() > 0 {
            entries.push(entry_of(command, metadata, search_history_metadata))
        } else {
            entries
        },
        None => entries,
    }
}

/// The effect of one line: an extended line starts a new command; any other line continues
/// the command being read, or, before the first extended line, is a command of its own
/// unless it is empty.
pub open spec fn parse_line(st: ParseState, line: Seq<char>, search_history_metadata: bool) -> ParseState {
    match extended_parts(line) {
        Some((metadata, command)) => ParseState {
            entries: flush_pending(st.entries, st.current, search_history_metadata),
            current: Some((command, metadata)),
        },
        None => match st.current {
            Some((command, metadata)) => ParseState {
                entries: st.entries,
                current: Some((command + seq!['\n'] + line, metadata)),
            },
            None => if line.len() > 0 {
                ParseState {
                    entries: st.entries.push(entry_of(line, Seq::empty(), search_history_metadata)),
                    current: None,
                }
            } else {
                st
            },
        },
    }
}

/// The state after reading `lines` in order.
pub open spec fn parse_lines(lines: Seq<Seq<char>>, search_history_metadata: bool) -> ParseState
    decreases lines.len(),
{
    if lines.len() == 0 {
        ParseState { entries: seq![], current: None }
    } else {
        parse_line(
            parse_lines(lines.drop_last(), search_history_metadata),
            lines.last(),
            search_history_metadata,
        )
    }
}

/// The entries of a history file, newest first.
pub open spec fn parsed_history(contents: Seq<char>, search_history_metadata: bool) -> Seq<EntryView> {
    let st = parse_lines(split_lines(contents), search_history_metadata);
    flush_pending(st.entries, st.current, search_history_metadata).reverse()
}

/// The lines of `chars`, as `split_lines` gives them.
fn lines_of(chars: &Vec<char>) -> (lines: Vec<Vec<char>>)
    ensures
        lines@.map_values(|l: Vec<char>| l@) == split_lines(chars@),
{
    let ghost s = chars@;
    let ghost nl = newline_stop();
    let mut lines: Vec<Vec<char>> = Vec::new();
    let mut start: usize = 0;
    let mut i: usize = 0;
    assert(s.skip(0) =~= s);
    assert(lines@.map_values(|l: Vec<char>| l@) =~= Seq::<Seq<char>>::empty());
    while i < chars.len()
        invariant
            s == chars@,
            nl == newline_stop(),
            start <= i <= chars.len(),
            forall|k: int| start <= k < i ==> chars@[k] != '\n',
            lines@.map_values(|l: Vec<char>| l@) + split_lines(s.skip(start as int)) == split_lines(s),
        decreases chars.len() - i,
    {
        if chars[i] == '\n' {
            let ghost rest = s.skip(start as int);
            proof {
                assert forall|k: int| 0 <= k < i - start implies !nl(#[trigger] rest[k]) by {
                    assert(rest[k] == s[start + k]);
                }
                lemma_span_len(rest, nl, i - start);
                assert(rest.take(i - start) =~= s.subrange(start as int, i as int));
                assert(rest.skip(i - start + 1) =~= s.skip(i + 1));
            }
            let mut end = i;
            if end > start && chars[end - 1] == '\r' {
                end = end - 1;
            }
            let line = copy_range(chars, start, end);
            assert(line@ =~= strip_cr(s.subrange(start as int, i as int)));
            let ghost before = lines@.map_values(|l: Vec<char>| l@);
            lines.push(line);
            assert(lines@.map_values(|l: Vec<char>| l@) =~= before.push(line@));
            start = i + 1;
        }
        i += 1;
    }
    if start < chars.len() {
        let ghost rest = s.skip(start as int);
        proof {
            assert forall|k: int| 0 <= k < rest.len() implies !nl(#[trigger] rest[k]) by {
                assert(rest[k] == s[start + k]);
            }
            lemma_span_len(rest, nl, rest.len() as int);
        }
        let line = copy_range(chars, start, chars.len());
        assert(line@ =~= rest);
        let ghost before = lines@.map_values(|l: Vec<char>| l@);
        lines.push(line);
        assert(lines@.map_values(|l: Vec<char>| l@) =~= before.push(line@));
    } else {
        assert(s.skip(start as int) =~= Seq::<char>::empty());
    }
    lines
}

/// The header and the command of an extended-history line (`: <start>:<elapsed>;<command>`),
/// or `None` for any other line.
fn parse_extended_history_line(line: &Vec<char>) -> (parts: Option<(Vec<char>, Vec<char>)>)
    ensures
        match parts {
            Some((metadata, command)) => extended_parts(line@) == Some((metadata@, command@)),
            None => extended_parts(line@) is None,
        },
{
    let n = line.len();
    if n < 2 || line[0] != ':' || line[1] != ' ' {
        return None;
    }
    let ghost not_digit = non_digit_stop();
    let mut t: usize = 2;
    while t < n && is_digit(line[t])
        invariant
            2 <= t <= n == line.len(),
            forall|k: int| 2 <= k < t ==> is_digit_char(#[trigger] line@[k]),
        decreases n - t,
    {
        t += 1;
    }
    proof {
        let rest = line@.skip(2);
        assert forall|k: int| 0 <= k < t - 2 implies !not_digit(#[trigger] rest[k]) by {
            assert(rest[k] == line@[k + 2]);
        }
        lemma_span_len(rest, not_digit, t - 2);
    }
    if t == 2 || t >= n || line[t] != ':' {
        return None;
    }
    let mut d: usize = t + 1;
    while d < n && is_digit(line[d])
        invariant
            t + 1 <= d <= n == line.len(),
            forall|k: int| t + 1 <= k < d ==> is_digit_char(#[trigger] line@[k]),
        decreases n - d,
    {
        d += 1;
    }
    proof {
        let rest = line@.skip(t + 1);
        assert forall|k: int| 0 <= k < d - t - 1 implies !not_digit(#[trigger] rest[k]) by {
            assert(rest[k] == line@[k + t + 1]);
        }
        lemma_span_len(rest, not_digit, d - t - 1);
    }
    if d == t + 1 || d >= n || line[d] != ';' {
        return None;
    }
    let metadata = copy_range(line, 0, d);
    let command = copy_range(line, d + 1, n);
    assert(metadata@ =~= line@.take(d as int));
    assert(command@ =~= line@.skip(d + 1));
    Some((metadata, command))
}

/// The view of the extended command being read.
pub open spec fn pending_view(command: Option<Vec<char>>, metadata: Seq<char>) -> Option<(Seq<char>, Seq<char>)> {
    match command {
        Some(c) => Some((c@, metadata)),
        None => None,
    }
}

/// Adds the pending command to `entries`, unless there is none or it is empty.
fn push_history_entry(
    entries: &mut Vec<HistoryEntry>,
    command: Option<Vec<char>>,
    metadata: &Vec<char>,
    search_history_metadata: bool,
)
    ensures
        entries_view(final(entries)@) == flush_pending(
            entries_view(old(entries)@),
            pending_view(command, metadata@),
            search_history_metadata,
        ),
{
    if let Some(command) = command {
        if command.len() > 0 {
            let entry = HistoryEntry::new(
                string_from_chars(&command),
                string_from_chars(metadata),
                search_history_metadata,
            );
            let ghost before = entries@;
            entries.push(entry);
            assert(entries_view(entries@) =~= entries_view(before).push(entry@));
        }
    }
}

/// `v` in the opposite order.
fn reversed(v: Vec<HistoryEntry>) -> (out: Vec<HistoryEntry>)
    ensures
        out@ == v@.reverse(),
{
    let ghost orig = v@;
    let mut v = v;
    let mut out: Vec<HistoryEntry> = Vec::new();
    while v.len() > 0
        invariant
            v@ == orig.take(v.len() as int),
            out.len() + v.len() == orig.len(),
            forall|j: int| 0 <= j < out.len() ==> out@[j] == orig[orig.len() - 1 - j],
        decreases v.len(),
    {
        let e = v.pop().unwrap();
        out.push(e);
        assert(v@ =~= orig.take(v.len() as int));
    }
    assert(out@ =~= orig.reverse());
    out
}

/// The entries of a zsh history file's contents, newest first. Extended lines
/// (`: <start>:<elapsed>;<command>`) start a command and the lines after them continue it;
/// lines before the first extended line are commands of their own; empty commands are
/// dropped.
pub fn parse_zsh_history(contents: &str, search_history_metadata: bool) -> (entries: Vec<HistoryEntry>)
    ensures
        entries_view(entries@) == parsed_history(contents@, search_history_metadata),
{
    let chars = chars_of(contents);
    let lines = lines_of(&chars);
    let ghost line_views = lines@.map_values(|l: Vec<char>| l@);
    let mut entries: Vec<HistoryEntry> = Vec::new();
    let mut current_command: Option<Vec<char>> = None;
    let mut current_metadata: Vec<char> = Vec::new();
    let mut i: usize = 0;
    while i < lines.len()
        invariant
            line_views == lines@.map_values(|l: Vec<char>| l@),
            line_views == split_lines(contents@),
            i <= lines.len(),
            ({
                let st = parse_lines(line_views.take(i as int), search_history_metadata);
                &&& entries_view(entries@) == st.entries
                &&& pending_view(current_command, current_metadata@) == st.current
            }),
        decreases lines.len() - i,
    {
        let line = &lines[i];
        proof {
            assert(line_views.take(i + 1).drop_last() =~= line_views.take(i as int));
            assert(line_views[i as int] == line@);
        }
        match parse_extended_history_line(line) {
            Some((metadata, command)) => {
                push_history_entry(&mut entries, current_command, &current_metadata, search_history_metadata);
                current_command = Some(command);
                current_metadata = metadata;
            },
            None => {
                match current_command {
                    Some(command) => {
                        let mut command = command;
                        command.push('\n');
                        push_all(&mut command, line);
                        current_command = Some(command);
                    },
                    None => {
                        if line.len() > 0 {
                            let entry = HistoryEntry::new(
                                string_from_chars(line),
                                String::new(),
                                search_history_metadata,
                            );
                            let ghost before = entries@;
                            entries.push(entry);
                            assert(entries_view(entries@) =~= entries_view(before).push(entry@));
                        }
                        current_command = None;
                    },
                }
            },
        }
        i += 1;
    }
    assert(line_views.take(lines.len() as int) =~= line_views);
    push_history_entry(&mut entries, current_command, &current_metadata, search_history_metadata);
    let out = reversed(entries);
    assert(entries_view(out@) =~= entries_view(entries@).reverse());
    out
}

/// The commands of `entries`, in order.
pub open spec fn commands_of(entries: Seq<EntryView>) -> Seq<Seq<char>> {
    entries.map_values(|e: EntryView| e.command)
}

/// `entries` without every entry whose command an earlier entry already has.
pub open spec fn first_of_each_command(entries: Seq<EntryView>) -> Seq<EntryView>
    decreases entries.len(),
{
    if entries.len() == 0 {
        seq![]
    } else {
        let kept = first_of_each_command(entries.drop_last());
        if commands_of(entries.drop_last()).contains(entries.last().command) {
            kept
        } else {
            kept.push(entries.last())
        }
    }
}

/// The entries unchanged when duplicates are shown; otherwise only the first entry (the
/// newest, in parsed order) of each command.
pub fn filter_duplicate_commands(entries: Vec<HistoryEntry>, show_duplicates: bool) -> (out: Vec<HistoryEntry>)
    ensures
        show_duplicates ==> out@ == entries@,
        !show_duplicates ==> entries_view(out@) == first_of_each_command(entries_view(entries@)),
{
    if show_duplicates {
        return entries;
    }
    let ghost all = entries_view(entries@);
    let mut seen = vstd::hash_set::StringHashSet::new();
    let mut out: Vec<HistoryEntry> = Vec::new();
    for entry in it: entries.into_iter()
        invariant
            all == entries_view(it.seq()),
            entries_view(out@) == first_of_each_command(all.take(it.index())),
            forall|c: Seq<char>|
                #![trigger seen@.contains(c)]
                seen@.contains(c) <==> commands_of(all.take(it.index())).contains(c),
    {
        let ghost k = it.index();
        let ghost prefix = all.take(k);
        proof {
            assert(all.take(k + 1).drop_last() =~= prefix);
            assert(all[k] == entry@);
            assert(commands_of(all.take(k + 1)) =~= commands_of(prefix).push(entry.command@));
            assert forall|c: Seq<char>| #![trigger seen@.contains(c)]
                seen@.insert(entry.command@).contains(c) <==> commands_of(all.take(k + 1)).contains(c) by {
                let cs = commands_of(prefix);
                if c == entry.command@ {
                    assert(commands_of(all.take(k + 1))[k] == c);
                } else if cs.contains(c) {
                    let j = choose|j: int| 0 <= j < cs.len() && cs[j] == c;
                    assert(commands_of(all.take(k + 1))[j] == c);
                } else if commands_of(all.take(k + 1)).contains(c) {
                    let longer = commands_of(all.take(k + 1));
                    let j = choose|j: int| 0 <= j < longer.len() && longer[j] == c;
                    assert(cs[j] == c);
                }
            }
        }
        if seen.insert(entry.command.clone()) {
            let ghost before = out@;
            out.push(entry);
            assert(entries_view(out@) =~= entries_view(before).push(all[k]));
        }
    }
    assert(all.take(all.len() as int) =~= all);
    out
}

/// Every entry of a parser state has a non-empty command.
pub open spec fn all_commands_nonempty(entries: Seq<EntryView>) -> bool {
    forall|j: int| 0 <= j < entries.len() ==> (#[trigger] entries[j]).command.len() > 0
}

proof fn lemma_parse_lines_nonempty(lines: Seq<Seq<char>>, search_history_metadata: bool)
    ensures
        all_commands_nonempty(parse_lines(lines, search_history_metadata).entries),
        all_commands_nonempty(
            flush_pending(
                parse_lines(lines, search_history_metadata).entries,
                parse_lines(lines, search_history_metadata).current,
                search_history_metadata,
            ),
        ),
    decreases lines.len(),
{
    if lines.len() > 0 {
        lemma_parse_lines_nonempty(lines.drop_last(), search_history_metadata);
    }
    let st = parse_lines(lines, search_history_metadata);
    let flushed = flush_pending(st.entries, st.current, search_history_metadata);
    assert forall|j: int| 0 <= j < flushed.len() implies (#[trigger] flushed[j]).command.len() > 0 by {
        if j < st.entries.len() {
            assert(flushed[j] == st.entries[j]);
        }
    }
}

/// Law: no parsed history entry has an empty command.
pub proof fn lemma_parsed_commands_nonempty(contents: Seq<char>, search_history_metadata: bool)
    ensures
        forall|j: int|
            0 <= j < parsed_history(contents, search_history_metadata).len() ==> (#[trigger] parsed_history(
                contents,
                search_history_metadata,
            )[j]).command.len() > 0,
{
    let lines = split_lines(contents);
    lemma_parse_lines_nonempty(lines, search_history_metadata);
    let st = parse_lines(lines, search_history_metadata);
    let flushed = flush_pending(st.entries, st.current, search_history_metadata);
    assert forall|j: int| 0 <= j < flushed.reverse().len() implies (#[trigger] flushed.reverse()[j]).command.len() > 0 by {
        assert(flushed.reverse()[j] == flushed[flushed.len() - 1 - j]);
    }
}

/// Law: after duplicate filtering no two entries share a command, and exactly the commands
/// of the input remain.
pub proof fn lemma_filtered_commands(entries: Seq<EntryView>)
    ensures
        forall|a: int, b: int|
            0 <= a < b < first_of_each_command(entries).len() ==> (#[trigger] first_of_each_command(
                entries,
            )[a]).command != (#[trigger] first_of_each_command(entries)[b]).command,
        forall|c: Seq<char>|
            #[trigger] commands_of(entries).contains(c) <==> commands_of(
                first_of_each_command(entries),
            ).contains(c),
    decreases entries.len(),
{
    if entries.len() > 0 {
        let init = entries.drop_last();
        let last = entries.last();
        lemma_filtered_commands(init);
        let kept = first_of_each_command(init);
        let out = first_of_each_command(entries);
        assert(commands_of(entries) =~= commands_of(init).push(last.command));
        if commands_of(init).contains(last.command) {
            assert forall|c: Seq<char>| #[trigger] commands_of(entries).contains(c) <==> commands_of(out).contains(c) by {
                if commands_of(entries).contains(c) && c != last.command {
                    let j = choose|j: int| 0 <= j < commands_of(entries).len() && commands_of(entries)[j] == c;
                    assert(commands_of(init)[j] == c);
                }
                if commands_of(init).contains(c) {
                    let j = choose|j: int| 0 <= j < commands_of(init).len() && commands_of(init)[j] == c;
                    assert(commands_of(entries)[j] == c);
                }
            }
        } else {
            assert(commands_of(out) =~= commands_of(kept).push(last.command));
            assert forall|c: Seq<char>| #[trigger] commands_of(entries).contains(c) <==> commands_of(out).contains(c) by {
                if commands_of(entries).contains(c) {
                    if c == last.command {
                        assert(commands_of(out)[commands_of(out).len() - 1] == c);
                    } else {
                        let j = choose|j: int| 0 <= j < commands_of(entries).len() && commands_of(entries)[j] == c;
                        assert(commands_of(init)[j] == c);
                        assert(commands_of(init).contains(c));
                        assert(commands_of(kept).contains(c));
                        let k = choose|k: int| 0 <= k < commands_of(kept).len() && commands_of(kept)[k] == c;
                        assert(commands_of(out)[k] == c);
                    }
                }
                if commands_of(out).contains(c) {
                    let k = choose|k: int| 0 <= k < commands_of(out).len() && commands_of(out)[k] == c;
                    if k < kept.len() {
                        assert(commands_of(kept)[k] == c);
                        assert(commands_of(kept).contains(c));
                        assert(commands_of(init).contains(c));
                        let j = choose|j: int| 0 <= j < commands_of(init).len() && commands_of(init)[j] == c;
                        assert(commands_of(entries)[j] == c);
                    } else {
                        assert(commands_of(entries)[entries.len() - 1] == c);
                    }
                }
            }
            assert forall|a: int, b: int| 0 <= a < b < out.len() implies (#[trigger] out[a]).command != (#[trigger] out[b]).command by {
                if b == out.len() - 1 {
                    assert(out[a] == kept[a]);
                    assert(commands_of(kept)[a] == kept[a].command);
                    if kept[a].command == last.command {
                        assert(commands_of(kept).contains(last.command));
                    }
                } else {
                    assert(out[a] == kept[a]);
                    assert(out[b] == kept[b]);
                }
            }
        }
    }
}

/// Filtering leaves a history whose commands are already distinct unchanged.
proof fn lemma_filter_distinct_unchanged(entries: Seq<EntryView>)
    requires
        forall|a: int, b: int|
            0 <= a < b < entries.len() ==> (#[trigger] entries[a]).command != (#[trigger] entries[b]).command,
    ensures
        first_of_each_command(entries) == entries,
    decreases entries.len(),
{
    if entries.len() > 0 {
        let init = entries.drop_last();
        assert forall|a: int, b: int| 0 <= a < b < init.len() implies (#[trigger] init[a]).command != (#[trigger] init[b]).command by {
            assert(init[a] == entries[a]);
            assert(init[b] == entries[b]);
        }
        lemma_filter_distinct_unchanged(init);
        if commands_of(init).contains(entries.last().command) {
            let j = choose|j: int| 0 <= j < commands_of(init).len() && commands_of(init)[j] == entries.last().command;
            assert(entries[j].command == entries[entries.len() - 1].command);
        }
        assert(init.push(entries.last()) =~= entries);
    }
}

/// Law: filtering duplicates a second time changes nothing.
pub proof fn lemma_filter_idempotent(entries: Seq<EntryView>)
    ensures
        first_of_each_command(first_of_each_command(entries)) == first_of_each_command(entries),
{
    lemma_filtered_commands(entries);
    lemma_filter_distinct_unchanged(first_of_each_command(entries));
}

/// The end of the first line of `a + b` is that of `a` when `a` holds a line ending.
proof fn lemma_line_len_concat(a: Seq<char>, b: Seq<char>)
    requires
        span_len(a, newline_stop()) < a.len(),
    ensures
        span_len(a + b, newline_stop()) == span_len(a, newline_stop()),
{
    let nl = newline_stop();
    let k = span_len(a, nl);
    crate::text::lemma_span_len_bounds(a, nl);
    assert forall|m: int| 0 <= m < k implies !nl(#[trigger] (a + b)[m]) by {
        assert((a + b)[m] == a[m]);
    }
    assert((a + b)[k as int] == a[k as int]);
    lemma_span_len(a + b, nl, k as int);
}

/// Splitting at a line boundary: the lines of `a + b` are those of `a`, then those of `b`,
/// when `a` is empty or ends with a line ending.
proof fn lemma_split_lines_concat(a: Seq<char>, b: Seq<char>)
    requires
        a.len() == 0 || a.last() == '\n',
    ensures
        split_lines(a + b) == split_lines(a) + split_lines(b),
    decreases a.len(),
{
    let nl = newline_stop();
    if a.len() == 0 {
        assert(a + b =~= b);
        assert(split_lines(a) + split_lines(b) =~= split_lines(b));
    } else {
        crate::text::lemma_span_len_bounds(a, nl);
        let k = span_len(a, nl);
        if k >= a.len() {
            assert(nl(a[a.len() - 1]));
        }
        lemma_line_len_concat(a, b);
        let rest = a.skip(k as int + 1);
        if rest.len() > 0 {
            assert(rest.last() == a.last());
        }
        lemma_split_lines_concat(rest, b);
        assert((a + b).take(k as int) =~= a.take(k as int));
        assert((a + b).skip(k as int + 1) =~= rest + b);
        assert(split_lines(a + b) =~= seq![strip_cr(a.take(k as int))] + split_lines(rest + b));
        assert(split_lines(a) =~= seq![strip_cr(a.take(k as int))] + split_lines(rest));
    }
}

/// Adding earlier entries in front commutes with flushing.
proof fn lemma_flush_prefix(
    earlier: Seq<EntryView>,
    entries: Seq<EntryView>,
    current: Option<(Seq<char>, Seq<char>)>,
    search_history_metadata: bool,
)
    ensures
        flush_pending(earlier + entries, current, search_history_metadata) == earlier
            + flush_pending(entries, current, search_history_metadata),
{
    match current {
        Some((command, metadata)) => {
            if command.len() > 0 {
                assert((earlier + entries).push(entry_of(command, metadata, search_history_metadata))
                    =~= earlier + entries.push(entry_of(command, metadata, search_history_metadata)));
            }
        },
        None => {},
    }
}

/// Earlier entries in front of the state are carried through one line unchanged.
proof fn lemma_parse_line_prefix(
    earlier: Seq<EntryView>,
    st: ParseState,
    line: Seq<char>,
    search_history_metadata: bool,
)
    ensures
        parse_line(
            ParseState { entries: earlier + st.entries, current: st.current },
            line,
            search_history_metadata,
        ) == (ParseState {
            entries: earlier + parse_line(st, line, search_history_metadata).entries,
            current: parse_line(st, line, search_history_metadata).current,
        }),
{
    let f = search_history_metadata;
    match extended_parts(line) {
        Some(_) => {
            lemma_flush_prefix(earlier, st.entries, st.current, f);
        },
        None => match st.current {
            Some(_) => {},
            None => {
                if line.len() > 0 {
                    assert((earlier + st.entries).push(entry_of(line, Seq::empty(), f)) =~= earlier
                        + st.entries.push(entry_of(line, Seq::empty(), f)));
                } else {
                    assert(parse_line(st, line, f) == st);
                }
            },
        },
    }
}

/// Reading the lines of a second file after a first one: when the second file starts with an
/// extended line, the first file's entries (with its pending command) come before the entries
/// the second file gives on its own.
proof fn lemma_parse_lines_concat(first: Seq<Seq<char>>, second: Seq<Seq<char>>, search_history_metadata: bool)
    requires
        second.len() > 0,
        extended_parts(second[0]) is Some,
    ensures
        parse_lines(first + second, search_history_metadata) == (ParseState {
            entries: flush_pending(
                parse_lines(first, search_history_metadata).entries,
                parse_lines(first, search_history_metadata).current,
                search_history_metadata,
            ) + parse_lines(second, search_history_metadata).entries,
            current: parse_lines(second, search_history_metadata).current,
        }),
    decreases second.len(),
{
    let f = search_history_metadata;
    let before = parse_lines(first, f);
    let earlier = flush_pending(before.entries, before.current, f);
    let line = second.last();
    let joined = first + second;
    assert(joined.last() == line);
    if second.len() == 1 {
        assert(joined.drop_last() =~= first);
        assert(second.drop_last() =~= Seq::<Seq<char>>::empty());
        assert(line == second[0]);
        let empty = ParseState { entries: seq![], current: None };
        assert(parse_lines(second.drop_last(), f) == empty);
        assert(parse_lines(joined, f) == parse_line(before, line, f));
        assert(parse_lines(second, f) == parse_line(empty, line, f));
        assert(flush_pending(empty.entries, empty.current, f) == empty.entries);
        assert(earlier + Seq::<EntryView>::empty() =~= earlier);
    } else {
        let init = second.drop_last();
        assert(init[0] == second[0]);
        lemma_parse_lines_concat(first, init, f);
        assert(joined.drop_last() =~= first + init);
        let st = parse_lines(init, f);
        assert(parse_lines(joined, f) == parse_line(parse_lines(first + init, f), line, f));
        assert(parse_lines(first + init, f) == ParseState { entries: earlier + st.entries, current: st.current });
        lemma_parse_line_prefix(earlier, st, line, f);
        assert(parse_lines(second, f) == parse_line(st, line, f));
    }
}

/// Law: a history file joined from two parts, the first empty or ending with a line ending
/// and the second empty or starting with an extended line, parses to the entries of the
/// second part followed by those of the first (newest first).
pub proof fn lemma_parse_concat(a: Seq<char>, b: Seq<char>, search_history_metadata: bool)
    requires
        a.len() == 0 || a.last() == '\n',
        b.len() == 0 || extended_parts(split_lines(b)[0]) is Some,
    ensures
        parsed_history(a + b, search_history_metadata) == parsed_history(b, search_history_metadata)
            + parsed_history(a, search_history_metadata),
{
    lemma_split_lines_concat(a, b);
    let f = search_history_metadata;
    let la = split_lines(a);
    let lb = split_lines(b);
    let sa = parse_lines(la, f);
    let ea = flush_pending(sa.entries, sa.current, f);
    if lb.len() == 0 {
        assert(la + lb =~= la);
        assert(parsed_history(b, f) =~= Seq::<EntryView>::empty());
        assert(parsed_history(b, f) + parsed_history(a, f) =~= parsed_history(a, f));
    } else {
        lemma_parse_lines_concat(la, lb, f);
        let sb = parse_lines(lb, f);
        let sab = parse_lines(la + lb, f);
        assert(sab.entries == ea + sb.entries && sab.current == sb.current);
        lemma_flush_prefix(ea, sb.entries, sb.current, f);
        let eb = flush_pending(sb.entries, sb.current, f);
        assert(flush_pending(sab.entries, sab.current, f) == ea + eb);
        assert((ea + eb).reverse() =~= eb.reverse() + ea.reverse());
    }
}

/// A non-empty run of ASCII digits.
pub open spec fn is_digits(s: Seq<char>) -> bool {
    s.len() > 0 && forall|i: int| 0 <= i < s.len() ==> is_digit_char(#[trigger] s[i])
}

/// The extended-history header `: <start>:<elapsed>`.
pub open spec fn header_of(start: Seq<char>, elapsed: Seq<char>) -> Seq<char> {
    seq![':', ' '] + start + seq![':'] + elapsed
}

/// The digit run at position `i` of `line` is `run`, when a non-digit follows it.
proof fn lemma_digit_run_of(line: Seq<char>, i: int, run: Seq<char>)
    requires
        0 <= i,
        i + run.len() < line.len(),
        forall|k: int| 0 <= k < run.len() ==> is_digit_char(#[trigger] run[k]),
        forall|k: int| 0 <= k < run.len() ==> line[i + k] == #[trigger] run[k],
        !is_digit_char(line[i + run.len()]),
    ensures
        digit_run(line, i) == run.len(),
{
    let rest = line.skip(i);
    let stop = non_digit_stop();
    assert forall|k: int| 0 <= k < run.len() implies !stop(#[trigger] rest[k]) by {
        assert(rest[k] == line[i + k]);
        assert(line[i + k] == run[k]);
    }
    assert(rest[run.len() as int] == line[i + run.len()]);
    lemma_span_len(rest, stop, run.len() as int);
}

/// Law: a line `: <start>:<elapsed>;<command>`, for any non-empty digit runs `start` and
/// `elapsed` (of any length) and any command, is an extended line whose header is
/// `: <start>:<elapsed>` and whose command is the rest of the line.
pub proof fn lemma_extended_line(start: Seq<char>, elapsed: Seq<char>, command: Seq<char>)
    requires
        is_digits(start),
        is_digits(elapsed),
    ensures
        extended_parts(header_of(start, elapsed) + seq![';'] + command) == Some(
            (header_of(start, elapsed), command),
        ),
{
    let header = header_of(start, elapsed);
    let line = header + seq![';'] + command;
    let t: int = 2 + start.len() as int;
    let d: int = t + 1 + elapsed.len();
    assert(line[0] == ':' && line[1] == ' ');
    assert forall|k: int| 0 <= k < start.len() implies line[2 + k] == #[trigger] start[k] by {
        assert(line[2 + k] == header[2 + k]);
    }
    assert(line[t as int] == ':');
    lemma_digit_run_of(line, 2, start);
    assert forall|k: int| 0 <= k < elapsed.len() implies line[t + 1 + k] == #[trigger] elapsed[k] by {
        assert(line[t + 1 + k] == header[t + 1 + k]);
    }
    assert(line[d as int] == ';');
    lemma_digit_run_of(line, t + 1, elapsed);
    assert(extended_header_end(line) == Some(d as int));
    assert(line.take(d as int) =~= header);
    assert(line.skip(d + 1) =~= command);
}

/// Law: every extended line has that shape: its header is `: <start>:<elapsed>` for two
/// non-empty digit runs, and the line is the header, `;` and the command.
pub proof fn lemma_extended_line_shape(line: Seq<char>)
    requires
        extended_parts(line) is Some,
    ensures
        exists|start: Seq<char>, elapsed: Seq<char>|
            #![trigger header_of(start, elapsed)]
            is_digits(start) && is_digits(elapsed) && extended_parts(line).unwrap().0 == header_of(
                start,
                elapsed,
            ) && line == header_of(start, elapsed) + seq![';'] + extended_parts(line).unwrap().1,
{
    let t: int = 2 + digit_run(line, 2) as int;
    let d: int = t + 1 + digit_run(line, t + 1) as int;
    let stop = non_digit_stop();
    crate::text::lemma_span_len_bounds(line.skip(2), stop);
    crate::text::lemma_span_len_bounds(line.skip(t + 1), stop);
    let start = line.subrange(2, t);
    let elapsed = line.subrange(t + 1, d);
    assert forall|i: int| 0 <= i < start.len() implies is_digit_char(#[trigger] start[i]) by {
        assert(start[i] == line.skip(2)[i]);
    }
    assert forall|i: int| 0 <= i < elapsed.len() implies is_digit_char(#[trigger] elapsed[i]) by {
        assert(elapsed[i] == line.skip(t + 1)[i]);
    }
    assert(line.take(d) =~= header_of(start, elapsed));
    assert(line =~= header_of(start, elapsed) + seq![';'] + line.skip(d + 1));
}

/// A line without a line ending in it, and not ending in a carriage return, followed by a line
/// ending, is one line.
proof fn lemma_single_line(line: Seq<char>)
    requires
        forall|k: int| 0 <= k < line.len() ==> #[trigger] line[k] != '\n',
        line.len() > 0 ==> line.last() != '\r',
    ensures
        split_lines(line + seq!['\n']) == seq![line],
{
    let text = line + seq!['\n'];
    let nl = newline_stop();
    assert forall|k: int| 0 <= k < line.len() implies !nl(#[trigger] text[k]) by {
        assert(text[k] == line[k]);
    }
    assert(text[line.len() as int] == '\n');
    lemma_span_len(text, nl, line.len() as int);
    assert(text.take(line.len() as int) =~= line);
    assert(text.skip(line.len() as int + 1) =~= Seq::<char>::empty());
    assert(strip_cr(line) == line);
    let k = span_len(text, nl);
    assert(k == line.len());
    assert(split_lines(text.skip(k as int + 1)) == Seq::<Seq<char>>::empty());
    assert(split_lines(text) == seq![strip_cr(text.take(k as int))] + split_lines(text.skip(k as int + 1)));
    assert(split_lines(text) =~= seq![line]);
}

/// An extended line holds no line ending when its command holds none.
proof fn lemma_extended_line_single(start: Seq<char>, elapsed: Seq<char>, command: Seq<char>)
    requires
        is_digits(start),
        is_digits(elapsed),
        command.len() > 0,
        !command.contains('\n'),
        command.last() != '\r',
    ensures
        ({
            let line = header_of(start, elapsed) + seq![';'] + command;
            &&& forall|k: int| 0 <= k < line.len() ==> #[trigger] line[k] != '\n'
            &&& line.len() > 0 && line.last() != '\r'
        }),
{
    let header = header_of(start, elapsed);
    let line = header + seq![';'] + command;
    assert forall|k: int| 0 <= k < line.len() implies #[trigger] line[k] != '\n' by {
        if k >= header.len() + 1 {
            assert(line[k] == command[k - header.len() - 1]);
        } else if k < header.len() {
            assert(line[k] == header[k]);
            if 2 <= k < 2 + start.len() {
                assert(header[k] == start[k - 2]);
                assert(is_digit_char(start[k - 2]));
            } else if 3 + start.len() <= k {
                assert(header[k] == elapsed[k - 3 - start.len()]);
                assert(is_digit_char(elapsed[k - 3 - start.len()]));
            }
        }
    }
    assert(line.last() == command.last());
}

/// Law: a file of one extended line `: <start>:<elapsed>;<command>` with a line ending gives
/// one entry, with that header and command, when the command is a non-empty single line.
pub proof fn lemma_parse_extended_line(
    start: Seq<char>,
    elapsed: Seq<char>,
    command: Seq<char>,
    search_history_metadata: bool,
)
    requires
        is_digits(start),
        is_digits(elapsed),
        command.len() > 0,
        !command.contains('\n'),
        command.last() != '\r',
    ensures
        parsed_history(header_of(start, elapsed) + seq![';'] + command + seq!['\n'], search_history_metadata)
            == seq![entry_of(command, header_of(start, elapsed), search_history_metadata)],
{
    let f = search_history_metadata;
    let header = header_of(start, elapsed);
    let line = header + seq![';'] + command;
    lemma_extended_line(start, elapsed, command);
    lemma_extended_line_single(start, elapsed, command);
    lemma_single_line(line);
    let lines = split_lines(line + seq!['\n']);
    assert(lines.drop_last() =~= Seq::<Seq<char>>::empty());
    assert(parse_lines(lines.drop_last(), f) == ParseState { entries: seq![], current: None });
    assert(lines.last() == line);
    let st = parse_lines(lines, f);
    assert(st == parse_line(ParseState { entries: seq![], current: None }, line, f));
    assert(st.current == Some((command, header)));
    assert(flush_pending(st.entries, st.current, f) =~= seq![entry_of(command, header, f)]);
    assert(seq![entry_of(command, header, f)].reverse() =~= seq![entry_of(command, header, f)]);
}

/// Law: two extended lines, each with a line ending, give two entries, the later line first.
#[verifier::rlimit(40)]
pub proof fn lemma_parse_two_extended_lines(
    start1: Seq<char>,
    elapsed1: Seq<char>,
    command1: Seq<char>,
    start2: Seq<char>,
    elapsed2: Seq<char>,
    command2: Seq<char>,
    search_history_metadata: bool,
)
    requires
        is_digits(start1),
        is_digits(elapsed1),
        command1.len() > 0,
        !command1.contains('\n'),
        command1.last() != '\r',
        is_digits(start2),
        is_digits(elapsed2),
        command2.len() > 0,
        !command2.contains('\n'),
        command2.last() != '\r',
    ensures
        parsed_history(
            header_of(start1, elapsed1) + seq![';'] + command1 + seq!['\n'] + (header_of(start2, elapsed2)
                + seq![';'] + command2 + seq!['\n']),
            search_history_metadata,
        ) == seq![
            entry_of(command2, header_of(start2, elapsed2), search_history_metadata),
            entry_of(command1, header_of(start1, elapsed1), search_history_metadata),
        ],
{
    let f = search_history_metadata;
    let a = header_of(start1, elapsed1) + seq![';'] + command1 + seq!['\n'];
    let b = header_of(start2, elapsed2) + seq![';'] + command2 + seq!['\n'];
    lemma_parse_extended_line(start1, elapsed1, command1, f);
    lemma_parse_extended_line(start2, elapsed2, command2, f);
    // the first line of `b` is its extended line
    let line2 = header_of(start2, elapsed2) + seq![';'] + command2;
    lemma_extended_line(start2, elapsed2, command2);
    lemma_extended_line_single(start2, elapsed2, command2);
    lemma_single_line(line2);
    assert(b =~= line2 + seq!['\n']);
    assert(split_lines(b)[0] == line2);
    assert(a.last() == '\n');
    lemma_parse_concat(a, b, f);
    let e1 = entry_of(command1, header_of(start1, elapsed1), f);
    let e2 = entry_of(command2, header_of(start2, elapsed2), f);
    assert(seq![e2] + seq![e1] =~= seq![e2, e1]);
}

} // verus!
