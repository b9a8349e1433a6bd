//! Ranked search over the history: entries whose text contains the query come first,
//! then entries that hold the query's characters in order; both ignore case.

use vstd::prelude::*;
use std::collections::HashSet;
use crate::history::HistoryEntry;
use crate::text::chars_of;

verus! {

broadcast use vstd::std_specs::hash::group_hash_axioms;

/// What `str::to_lowercase` returns for a text.
pub uninterp spec fn lowercase(text: Seq<char>) -> Seq<char>;

/// Whether every character of `t` is ASCII.
pub open spec fn is_ascii_text(t: Seq<char>) -> bool {
    forall|i: int| 0 <= i < t.len() ==> #[trigger] t[i] <= '\u{7f}'
}

/// `c` with `A` to `Z` mapped to `a` to `z`.
pub open spec fn ascii_lower_char(c: char) -> char {
    if 'A' <= c && c <= 'Z' {
        (c as int + 32) as char
    } else {
        c
    }
}

/// `c` with `a` to `z` mapped to `A` to `Z`.
pub open spec fn ascii_upper_char(c: char) -> char {
    if 'a' <= c && c <= 'z' {
        (c as int - 32) as char
    } else {
        c
    }
}

/// `t` with its ASCII letters in lowercase (what `str::to_ascii_lowercase` returns).
pub open spec fn ascii_lowercase(t: Seq<char>) -> Seq<char> {
    t.map_values(|c: char| ascii_lower_char(c))
}

/// `t` with its ASCII letters in uppercase (what `str::to_ascii_uppercase` returns).
pub open spec fn ascii_uppercase(t: Seq<char>) -> Seq<char> {
    t.map_values(|c: char| ascii_upper_char(c))
}

/// The lowercase form of a text that the search compares: for an ASCII text its letters
/// lowered one by one, for any other text what `str::to_lowercase` returns.
pub open spec fn case_folded(t: Seq<char>) -> Seq<char> {
    if is_ascii_text(t) {
        ascii_lowercase(t)
    } else {
        lowercase(t)
    }
}

/// Calls `str::to_lowercase`. Its result is `lowercase` of the text (the Unicode lowercase
/// mapping, which depends on the text alone); for an ASCII text it is the text with `A` to
/// `Z` turned into `a` to `z` and every other character kept (the Unicode mapping of ASCII,
/// which std's documentation of `str::to_ascii_lowercase` and `char::to_lowercase` gives).
/// Nothing else is stated of it.
#[verifier::external_body]
fn to_lowercase(text: &str) -> (lower: String)
    ensures
        lower@ == lowercase(text@),
        is_ascii_text(text@) ==> lower@ == ascii_lowercase(text@),
{
    text.to_lowercase()
}

/// Whether `needle` occurs as a contiguous part of `haystack`.
pub open spec fn contains_text(haystack: Seq<char>, needle: Seq<char>) -> bool {
    exists|i: int|
        0 <= i && i + needle.len() <= haystack.len() && #[trigger] haystack.subrange(
            i,
            i + needle.len(),
        ) == needle
}

/// Whether the characters of `needle` occur in `haystack` in order (not necessarily next to
/// each other), each matched to the earliest character that fits.
pub open spec fn is_subsequence(needle: Seq<char>, haystack: Seq<char>) -> bool
    decreases haystack.len(),
{
    if needle.len() == 0 {
        true
    } else if haystack.len() == 0 {
        false
    } else if needle[0] == haystack[0] {
        is_subsequence(needle.drop_first(), haystack.drop_first())
    } else {
        is_subsequence(needle, haystack.drop_first())
    }
}

/// A case-insensitive substring match.
pub open spec fn normal_match(query: Seq<char>, candidate: Seq<char>) -> bool {
    contains_text(case_folded(candidate), case_folded(query))
}

/// A case-insensitive in-order (fuzzy) match.
pub open spec fn fuzzy_match(query: Seq<char>, candidate: Seq<char>) -> bool {
    is_subsequence(case_folded(query), case_folded(candidate))
}

/// The searchable texts of the entries.
pub open spec fn searchable_texts(history: Seq<HistoryEntry>) -> Seq<Seq<char>> {
    history.map_values(|e: HistoryEntry| e.searchable_text@)
}

/// The indices below `n` that satisfy `keep`, in increasing order.
pub open spec fn indices_where(n: nat, keep: spec_fn(int) -> bool) -> Seq<usize>
    decreases n,
{
    if n == 0 {
        seq![]
    } else {
        let before = indices_where((n - 1) as nat, keep);
        if keep(n - 1) {
            before.push((n - 1) as usize)
        } else {
            before
        }
    }
}

/// The indices below `n` whose text matches the query as a substring, in increasing order.
pub open spec fn normal_indices(texts: Seq<Seq<char>>, query: Seq<char>, n: nat) -> Seq<usize> {
    indices_where(n, |i: int| normal_match(query, texts[i]))
}

/// The indices below `n` whose text matches the query fuzzily but not as a substring, in
/// increasing order.
pub open spec fn fuzzy_only_indices(texts: Seq<Seq<char>>, query: Seq<char>, n: nat) -> Seq<usize> {
    indices_where(n, |i: int| !normal_match(query, texts[i]) && fuzzy_match(query, texts[i]))
}

/// The selection over `k` indices is a prefix of the selection over `m >= k` indices.
pub proof fn lemma_indices_where_prefix(k: nat, m: nat, keep: spec_fn(int) -> bool)
    requires
        k <= m,
    ensures
        indices_where(k, keep).len() <= indices_where(m, keep).len(),
        indices_where(m, keep).take(indices_where(k, keep).len() as int) == indices_where(k, keep),
    decreases m,
{
    if k < m {
        lemma_indices_where_prefix(k, (m - 1) as nat, keep);
        let len = indices_where(k, keep).len() as int;
        assert(indices_where(m, keep).take(len) =~= indices_where((m - 1) as nat, keep).take(len));
    } else {
        assert(indices_where(m, keep).take(indices_where(m, keep).len() as int) =~= indices_where(m, keep));
    }
}

/// The selection holds exactly the indices below `n` that satisfy `keep`, each once, in
/// increasing order.
pub proof fn lemma_indices_where_members(n: nat, keep: spec_fn(int) -> bool)
    requires
        n <= usize::MAX + 1,
    ensures
        forall|j: int| 0 <= j < indices_where(n, keep).len() ==> {
            &&& #[trigger] indices_where(n, keep)[j] < n
            &&& keep(indices_where(n, keep)[j] as int)
        },
        forall|a: int, b: int| 0 <= a < b < indices_where(n, keep).len() ==>
            #[trigger] indices_where(n, keep)[a] < #[trigger] indices_where(n, keep)[b],
        forall|i: int| 0 <= i < n && keep(i) ==> #[trigger] indices_where(n, keep).contains(i as usize),
    decreases n,
{
    if n > 0 {
        let m = (n - 1) as nat;
        lemma_indices_where_members(m, keep);
        let before = indices_where(m, keep);
        let after = indices_where(n, keep);
        assert forall|i: int| 0 <= i < n && keep(i) implies #[trigger] after.contains(i as usize) by {
            if i < m {
                assert(before.contains(i as usize));
                let j = choose|j: int| 0 <= j < before.len() && before[j] == i as usize;
                assert(after[j] == i as usize);
            } else {
                assert(after[after.len() - 1] == i as usize);
            }
        }
    }
}

/// All matches of a non-empty query in rank order: substring matches, then fuzzy matches.
pub open spec fn ranked_matches(texts: Seq<Seq<char>>, query: Seq<char>) -> Seq<usize> {
    normal_indices(texts, query, texts.len()) + fuzzy_only_indices(texts, query, texts.len())
}

/// How many results a search keeps: `max_results`, but at least one.
pub open spec fn result_cap(max_results: usize) -> nat {
    if max_results == 0 {
        1
    } else {
        max_results as nat
    }
}

/// The result of a search: for an empty query the first `max_results` indices (the newest
/// entries); otherwise the ranked matches, cut after `result_cap(max_results)`.
pub open spec fn search_results(texts: Seq<Seq<char>>, query: Seq<char>, max_results: usize) -> Seq<usize> {
    if query.len() == 0 {
        let n = if texts.len() < max_results { texts.len() } else { max_results as nat };
        Seq::new(n, |i: int| i as usize)
    } else {
        let ranked = ranked_matches(texts, query);
        if ranked.len() <= result_cap(max_results) {
            ranked
        } else {
            ranked.take(result_cap(max_results) as int)
        }
    }
}

/// Whether `needle` occurs as a contiguous part of `haystack`.
pub fn text_contains(haystack: &Vec<char>, needle: &Vec<char>) -> (found: bool)
    ensures
        found == contains_text(haystack@, needle@),
{
    let h = haystack.len();
    let n = needle.len();
    if n > h {
        assert(!contains_text(haystack@, needle@));
        return false;
    }
    let mut i: usize = 0;
    while i <= h - n
        invariant
            h == haystack.len(),
            n == needle.len(),
            n <= h,
            i <= h - n + 1,
            forall|k: int|
                0 <= k < i ==> #[trigger] haystack@.subrange(k, k + n) != needle@,
        decreases h - n + 1 - i,
    {
        let mut j: usize = 0;
        while j < n && haystack[i + j] == needle[j]
            invariant
                h == haystack.len(),
                n == needle.len(),
                i + n <= h,
                j <= n,
                forall|m: int| 0 <= m < j ==> haystack@[i + m] == needle@[m],
            decreases n - j,
        {
            j += 1;
        }
        if j == n {
            assert(haystack@.subrange(i as int, i + n) =~= needle@);
            return true;
        }
        assert(haystack@.subrange(i as int, i + n)[j as int] != needle@[j as int]);
        i += 1;
    }
    false
}

/// Whether the characters of `needle` occur in `haystack` in order.
pub fn is_subsequence_of(needle: &Vec<char>, haystack: &Vec<char>) -> (found: bool)
    ensures
        found == is_subsequence(needle@, haystack@),
{
    let n = needle.len();
    if n == 0 {
        return true;
    }
    let mut j: usize = 0;
    let mut i: usize = 0;
    assert(needle@.skip(0) =~= needle@);
    assert(haystack@.skip(0) =~= haystack@);
    while i < haystack.len()
        invariant
            n == needle.len(),
            j < n,
            i <= haystack.len(),
            is_subsequence(needle@, haystack@) == is_subsequence(needle@.skip(j as int), haystack@.skip(i as int)),
        decreases haystack.len() - i,
    {
        let ghost rest_n = needle@.skip(j as int);
        let ghost rest_h = haystack@.skip(i as int);
        assert(rest_h.drop_first() =~= haystack@.skip(i + 1));
        assert(rest_n.drop_first() =~= needle@.skip(j + 1));
        if haystack[i] == needle[j] {
            j += 1;
            if j == n {
                assert(needle@.skip(j as int).len() == 0);
                assert(is_subsequence(needle@.skip(j as int), haystack@.skip(i + 1)));
                return true;
            }
        }
        i += 1;
    }
    assert(haystack@.skip(i as int).len() == 0);
    false
}

/// Case-insensitive substring match of the query in the candidate.
fn normal_matches(query: &str, candidate: &str) -> (b: bool)
    ensures
        b == normal_match(query@, candidate@),
{
    let candidate_lower = to_lowercase(candidate);
    let query_lower = to_lowercase(query);
    text_contains(&chars_of(candidate_lower.as_str()), &chars_of(query_lower.as_str()))
}

/// Case-insensitive in-order match of the query's characters in the candidate.
fn fuzzy_matches(query: &str, candidate: &str) -> (b: bool)
    ensures
        b == fuzzy_match(query@, candidate@),
{
    let query_lower = to_lowercase(query);
    let candidate_lower = to_lowercase(candidate);
    is_subsequence_of(&chars_of(query_lower.as_str()), &chars_of(candidate_lower.as_str()))
}

/// Dropping the first needle character keeps a subsequence a subsequence; putting a
/// character in front of the haystack does too.
proof fn lemma_subsequence_monotone(needle: Seq<char>, haystack: Seq<char>, c: char)
    ensures
        is_subsequence(needle, haystack) && needle.len() > 0 ==> is_subsequence(needle.drop_first(), haystack),
        is_subsequence(needle, haystack) ==> is_subsequence(needle, seq![c] + haystack),
    decreases haystack.len(), 1int,
{
    lemma_subsequence_drop_needle(needle, haystack);
    let longer = seq![c] + haystack;
    assert(longer.drop_first() =~= haystack);
    if needle.len() > 0 && is_subsequence(needle, haystack) && needle[0] == c {
        lemma_subsequence_drop_needle(needle, haystack);
    }
}

proof fn lemma_subsequence_drop_needle(needle: Seq<char>, haystack: Seq<char>)
    ensures
        is_subsequence(needle, haystack) && needle.len() > 0 ==> is_subsequence(needle.drop_first(), haystack),
    decreases haystack.len(), 0int,
{
    if is_subsequence(needle, haystack) && needle.len() > 0 && haystack.len() > 0 {
        let rest = haystack.drop_first();
        assert(seq![haystack[0]] + rest =~= haystack);
        if needle[0] == haystack[0] {
            lemma_subsequence_monotone(needle.drop_first(), rest, haystack[0]);
        } else {
            lemma_subsequence_drop_needle(needle, rest);
            lemma_subsequence_monotone(needle.drop_first(), rest, haystack[0]);
        }
    }
}

/// A needle followed by anything has the needle as a subsequence.
proof fn lemma_subsequence_of_prefix(needle: Seq<char>, tail: Seq<char>)
    ensures
        is_subsequence(needle, needle + tail),
    decreases needle.len(),
{
    if needle.len() > 0 {
        assert((needle + tail).drop_first() =~= needle.drop_first() + tail);
        lemma_subsequence_of_prefix(needle.drop_first(), tail);
    }
}

/// Anything put in front of the haystack keeps a subsequence a subsequence.
proof fn lemma_subsequence_extend_front(needle: Seq<char>, front: Seq<char>, haystack: Seq<char>)
    requires
        is_subsequence(needle, haystack),
    ensures
        is_subsequence(needle, front + haystack),
    decreases front.len(),
{
    if front.len() > 0 {
        lemma_subsequence_extend_front(needle, front.drop_first(), haystack);
        lemma_subsequence_monotone(needle, front.drop_first() + haystack, front[0]);
        assert(seq![front[0]] + (front.drop_first() + haystack) =~= front + haystack);
    }
}

/// Law: a text that contains the needle has it as a subsequence too, so every substring
/// match is also a fuzzy match.
pub proof fn lemma_contains_is_subsequence(haystack: Seq<char>, needle: Seq<char>)
    requires
        contains_text(haystack, needle),
    ensures
        is_subsequence(needle, haystack),
{
    let i = choose|i: int|
        0 <= i && i + needle.len() <= haystack.len() && #[trigger] haystack.subrange(i, i + needle.len()) == needle;
    let front = haystack.take(i);
    let tail = haystack.skip(i + needle.len());
    lemma_subsequence_of_prefix(needle, tail);
    lemma_subsequence_extend_front(needle, front, needle + tail);
    assert(front + (needle + tail) =~= haystack);
}

/// Law: the ranked matches of a query list every entry whose text matches it fuzzily (a
/// substring match is one too) and no other, each once, substring matches first.
pub proof fn lemma_ranked_matches(texts: Seq<Seq<char>>, query: Seq<char>)
    requires
        texts.len() <= usize::MAX,
    ensures
        forall|i: int|
            0 <= i < texts.len() ==> (ranked_matches(texts, query).contains(i as usize) <==> fuzzy_match(
                query,
                #[trigger] texts[i],
            )),
        forall|j: int|
            0 <= j < ranked_matches(texts, query).len() ==> #[trigger] ranked_matches(texts, query)[j]
                < texts.len(),
        forall|a: int, b: int|
            0 <= a < b < ranked_matches(texts, query).len() ==> #[trigger] ranked_matches(texts, query)[a]
                != #[trigger] ranked_matches(texts, query)[b],
        forall|j: int|
            0 <= j < normal_indices(texts, query, texts.len()).len() ==> normal_match(
                query,
                texts[#[trigger] ranked_matches(texts, query)[j] as int],
            ),
{
    let normal = |i: int| normal_match(query, texts[i]);
    let fuzzy_only = |i: int| !normal_match(query, texts[i]) && fuzzy_match(query, texts[i]);
    let n = texts.len();
    lemma_indices_where_members(n, normal);
    lemma_indices_where_members(n, fuzzy_only);
    let a_part = indices_where(n, normal);
    let b_part = indices_where(n, fuzzy_only);
    let ranked = ranked_matches(texts, query);
    assert(ranked == a_part + b_part);
    assert forall|i: int| 0 <= i < texts.len() implies (ranked.contains(i as usize) <==> fuzzy_match(query, #[trigger] texts[i])) by {
        if normal(i) {
            lemma_contains_is_subsequence(case_folded(texts[i]), case_folded(query));
            assert(a_part.contains(i as usize));
            let j = choose|j: int| 0 <= j < a_part.len() && a_part[j] == i as usize;
            assert(ranked[j] == i as usize);
        } else if fuzzy_only(i) {
            assert(b_part.contains(i as usize));
            let j = choose|j: int| 0 <= j < b_part.len() && b_part[j] == i as usize;
            assert(ranked[a_part.len() + j] == i as usize);
        }
        if ranked.contains(i as usize) {
            let j = choose|j: int| 0 <= j < ranked.len() && ranked[j] == i as usize;
            if j < a_part.len() {
                assert(a_part[j] == i as usize);
                lemma_contains_is_subsequence(case_folded(texts[i]), case_folded(query));
            } else {
                assert(b_part[j - a_part.len()] == i as usize);
            }
        }
    }
    assert forall|j: int| 0 <= j < ranked.len() implies #[trigger] ranked[j] < texts.len() by {
        if j < a_part.len() {
            assert(ranked[j] == a_part[j]);
        } else {
            assert(ranked[j] == b_part[j - a_part.len()]);
        }
    }
    assert forall|x: int, y: int| 0 <= x < y < ranked.len() implies #[trigger] ranked[x] != #[trigger] ranked[y] by {
        if y < a_part.len() {
            assert(ranked[x] == a_part[x] && ranked[y] == a_part[y]);
        } else if x >= a_part.len() {
            assert(ranked[x] == b_part[x - a_part.len()] && ranked[y] == b_part[y - a_part.len()]);
        } else {
            assert(ranked[x] == a_part[x] && ranked[y] == b_part[y - a_part.len()]);
            assert(normal(ranked[x] as int));
            assert(fuzzy_only(ranked[y] as int));
        }
    }
    assert forall|j: int| 0 <= j < a_part.len() implies normal_match(query, texts[#[trigger] ranked[j] as int]) by {
        assert(ranked[j] == a_part[j]);
    }
}

/// Law: a search result is the start of the ranked matches (for a non-empty query) or the
/// first indices (for an empty one), and never longer than `result_cap(max_results)`.
pub proof fn lemma_search_results_prefix(texts: Seq<Seq<char>>, query: Seq<char>, max_results: usize)
    ensures
        search_results(texts, query, max_results).len() <= result_cap(max_results),
        query.len() > 0 ==> ranked_matches(texts, query).take(
            search_results(texts, query, max_results).len() as int,
        ) == search_results(texts, query, max_results),
        query.len() == 0 ==> forall|j: int|
            0 <= j < search_results(texts, query, max_results).len() ==> #[trigger] search_results(
                texts,
                query,
                max_results,
            )[j] == j,
{
    if query.len() > 0 {
        let ranked = ranked_matches(texts, query);
        if ranked.len() <= result_cap(max_results) {
            assert(ranked.take(ranked.len() as int) =~= ranked);
        }
    }
}

/// Law: every index a search returns is an index of the history, and none comes twice.
pub proof fn lemma_search_results_valid(texts: Seq<Seq<char>>, query: Seq<char>, max_results: usize)
    requires
        texts.len() <= usize::MAX,
    ensures
        forall|j: int|
            0 <= j < search_results(texts, query, max_results).len() ==> #[trigger] search_results(
                texts,
                query,
                max_results,
            )[j] < texts.len(),
        forall|a: int, b: int|
            0 <= a < b < search_results(texts, query, max_results).len() ==> #[trigger] search_results(
                texts,
                query,
                max_results,
            )[a] != #[trigger] search_results(texts, query, max_results)[b],
{
    let r = search_results(texts, query, max_results);
    lemma_search_results_prefix(texts, query, max_results);
    if query.len() > 0 {
        lemma_ranked_matches(texts, query);
        let ranked = ranked_matches(texts, query);
        assert forall|j: int| 0 <= j < r.len() implies #[trigger] r[j] < texts.len() by {
            assert(r[j] == ranked[j]);
        }
        assert forall|a: int, b: int| 0 <= a < b < r.len() implies #[trigger] r[a] != #[trigger] r[b] by {
            assert(r[a] == ranked[a] && r[b] == ranked[b]);
        }
    }
}

/// Law: the search compares every text in its `str::to_lowercase` form. A text that holds a
/// non-ASCII character is compared exactly as `str::to_lowercase` returns it; an ASCII text is
/// compared with `A` to `Z` lowered and every other character kept (which is what
/// `str::to_lowercase` returns for it), so it holds no ASCII capital letter.
pub proof fn lemma_case_folded(t: Seq<char>)
    ensures
        !is_ascii_text(t) ==> case_folded(t) == lowercase(t),
        is_ascii_text(t) ==> case_folded(t).len() == t.len(),
        is_ascii_text(t) ==> forall|i: int|
            0 <= i < t.len() ==> #[trigger] case_folded(t)[i] == if 'A' <= t[i] && t[i] <= 'Z' {
                (t[i] as int + 32) as char
            } else {
                t[i]
            },
        is_ascii_text(t) ==> forall|i: int|
            0 <= i < t.len() ==> !('A' <= #[trigger] case_folded(t)[i] && case_folded(t)[i] <= 'Z'),
{
}

/// The ASCII upper- and lowercase forms of an ASCII text fold to the same text.
proof fn lemma_fold_ascii_case(q: Seq<char>)
    requires
        is_ascii_text(q),
    ensures
        ascii_uppercase(q).len() == q.len(),
        ascii_lowercase(q).len() == q.len(),
        case_folded(ascii_uppercase(q)) == case_folded(q),
        case_folded(ascii_lowercase(q)) == case_folded(q),
{
    let up = ascii_uppercase(q);
    let low = ascii_lowercase(q);
    assert forall|i: int| 0 <= i < up.len() implies #[trigger] up[i] <= '\u{7f}' by {
        assert(q[i] <= '\u{7f}');
    }
    assert forall|i: int| 0 <= i < low.len() implies #[trigger] low[i] <= '\u{7f}' by {
        assert(q[i] <= '\u{7f}');
    }
    assert(ascii_lowercase(up) =~= ascii_lowercase(q));
    assert(ascii_lowercase(low) =~= ascii_lowercase(q));
}

/// Two queries of the same length that fold to the same text give the same search result.
proof fn lemma_search_same_fold(texts: Seq<Seq<char>>, q1: Seq<char>, q2: Seq<char>, max_results: usize)
    requires
        q1.len() == q2.len(),
        case_folded(q1) == case_folded(q2),
    ensures
        search_results(texts, q1, max_results) == search_results(texts, q2, max_results),
{
    assert((|i: int| normal_match(q1, texts[i])) =~= (|i: int| normal_match(q2, texts[i])));
    assert((|i: int| !normal_match(q1, texts[i]) && fuzzy_match(q1, texts[i])) =~= (|i: int|
        !normal_match(q2, texts[i]) && fuzzy_match(q2, texts[i])));
    assert(ranked_matches(texts, q1) == ranked_matches(texts, q2));
}

/// Law: for an ASCII query, the search ignores case: the query in ASCII uppercase or in ASCII
/// lowercase gives the same result.
pub proof fn lemma_search_ignores_ascii_case(texts: Seq<Seq<char>>, query: Seq<char>, max_results: usize)
    requires
        is_ascii_text(query),
    ensures
        search_results(texts, ascii_uppercase(query), max_results) == search_results(texts, query, max_results),
        search_results(texts, ascii_lowercase(query), max_results) == search_results(texts, query, max_results),
{
    lemma_fold_ascii_case(query);
    lemma_search_same_fold(texts, ascii_uppercase(query), query, max_results);
    lemma_search_same_fold(texts, ascii_lowercase(query), query, max_results);
}

/// The entries that match `query`, as indices into `history`: for an empty query the first
/// `max_results` entries; otherwise the entries whose searchable text contains the query,
/// then those that hold its characters in order, both ignoring case, at most
/// `max_results` of them (at least one when there is a match).
pub fn search_history(history: &[HistoryEntry], query: &str, max_results: usize) -> (matches: Vec<usize>)
    ensures
        matches@ == search_results(searchable_texts(history@), query@, max_results),
{
    let ghost texts = searchable_texts(history@);
    if query.is_empty() {
        let n = if history.len() < max_results {
            history.len()
        } else {
            max_results
        };
        let mut all: Vec<usize> = Vec::new();
        let mut i: usize = 0;
        while i < n
            invariant
                i <= n,
                all@ == Seq::new(i as nat, |k: int| k as usize),
            decreases n - i,
        {
            all.push(i);
            i += 1;
            assert(all@ =~= Seq::new(i as nat, |k: int| k as usize));
        }
        return all;
    }
    let ghost normal = |i: int| normal_match(query@, texts[i]);
    let ghost fuzzy_only = |i: int| !normal_match(query@, texts[i]) && fuzzy_match(query@, texts[i]);
    let ghost ranked = ranked_matches(texts, query@);
    let ghost cap = result_cap(max_results);
    let mut matches: Vec<usize> = Vec::new();
    let mut seen: HashSet<usize> = HashSet::new();
    let mut index: usize = 0;
    while index < history.len()
        invariant
            texts == searchable_texts(history@),
            normal == (|i: int| normal_match(query@, texts[i])),
            ranked == ranked_matches(texts, query@),
            cap == result_cap(max_results),
            query@.len() > 0,
            index <= history.len(),
            matches@ == indices_where(index as nat, normal),
            matches.len() < cap,
            forall|k: usize| #![trigger seen@.contains(k)] seen@.contains(k) <==> (k < index && normal(k as int)),
        decreases history.len() - index,
    {
        if normal_matches(query, history[index].searchable_text.as_str()) {
            matches.push(index);
            seen.insert(index);
            assert(matches@ =~= indices_where((index + 1) as nat, normal));
            if matches.len() >= max_results {
                proof {
                    lemma_indices_where_prefix((index + 1) as nat, texts.len(), normal);
                    assert(ranked.take(cap as int) =~= matches@);
                }
                return matches;
            }
        }
        index += 1;
    }
    assert(matches@ == normal_indices(texts, query@, texts.len()));
    let mut index: usize = 0;
    while index < history.len()
        invariant
            texts == searchable_texts(history@),
            normal == (|i: int| normal_match(query@, texts[i])),
            fuzzy_only == (|i: int| !normal_match(query@, texts[i]) && fuzzy_match(query@, texts[i])),
            ranked == ranked_matches(texts, query@),
            cap == result_cap(max_results),
            query@.len() > 0,
            index <= history.len(),
            matches@ == normal_indices(texts, query@, texts.len()) + indices_where(index as nat, fuzzy_only),
            matches.len() < cap,
            forall|k: usize| #![trigger seen@.contains(k)] seen@.contains(k) <==> (k < history.len() && normal(k as int)),
        decreases history.len() - index,
    {
        if !seen.contains(&index) && fuzzy_matches(query, history[index].searchable_text.as_str()) {
            matches.push(index);
            assert(indices_where((index + 1) as nat, fuzzy_only) =~= indices_where(index as nat, fuzzy_only).push(index));
            assert(matches@ =~= normal_indices(texts, query@, texts.len()) + indices_where((index + 1) as nat, fuzzy_only));
            if matches.len() >= max_results {
                proof {
                    lemma_indices_where_prefix((index + 1) as nat, texts.len(), fuzzy_only);
                    assert(ranked.take(cap as int) =~= matches@);
                }
                return matches;
            }
        } else {
            assert(indices_where((index + 1) as nat, fuzzy_only) =~= indices_where(index as nat, fuzzy_only));
        }
        index += 1;
    }
    matches
}

} // verus!
