//! Query terms, snippets around matches, and the per-document results of a
//! search. Ranking by BM25 scores is done by the caller, from the term
//! statistics that each result carries.
use vstd::prelude::*;
use crate::text::{push_str_chars, 
    chars_of, find_first_from, first_occurrence_from, contains_seq, occurs_at, string_from_chars,
    sub_chars, to_lowercase, unicode_lowercase, utf8_len, str_byte_len, extend_chars,
};
use crate::textfmt::{trim, trim_chars};
use crate::model::{IndexedOccurrence, SearchMatch};
use crate::order::{compare_strs, Ranked, stable_sorted, stable_sort};
use crate::matching::{term_ranges_spec, range_views, find_all_term_ranges, char_at_byte, highlight_spec, highlight_once, byte_offsets, char_at_byte_by};

pub use crate::engine::{SearchEngine, SearchOptions, truncate_to};
pub use crate::matching::{highlight_term, highlight_term_checked};

verus! {

// ---------------------------------------------------------------------------
// Snippets
// ---------------------------------------------------------------------------
pub open spec fn term_views(terms: Seq<String>) -> Seq<Seq<char>> {
    terms.map_values(|t: String| t@)
}

/// Highlights each of `terms` in turn; `None` where one of the steps has
/// no result.
pub open spec fn highlight_all(s: Seq<char>, terms: Seq<Seq<char>>) -> Option<Seq<char>>
    decreases terms.len(),
{
    if terms.len() == 0 {
        Some(s)
    } else {
        match highlight_all(s, terms.drop_last()) {
            Some(x) => highlight_spec(x, terms.last()),
            None => None,
        }
    }
}

/// Line breaks turned into spaces.
pub open spec fn newline_to_space(s: Seq<char>) -> Seq<char> {
    s.map_values(|c: char| if c == '\n' { ' ' } else { c })
}

pub open spec fn ellipsis() -> Seq<char> {
    seq!['.', '.', '.']
}

/// The characters `ws..we` of `content` on one line, with the terms
/// highlighted, trimmed, and with `...` where text was cut off before or
/// after.
pub open spec fn framed(content: Seq<char>, ws: int, we: int, terms: Seq<Seq<char>>) -> Option<Seq<char>> {
    match highlight_all(newline_to_space(content.subrange(ws, we)), terms) {
        Some(h) => Some(
            (if ws > 0 { ellipsis() } else { Seq::empty() }) + trim(h) + (if we < content.len() {
                ellipsis()
            } else {
                Seq::empty()
            }),
        ),
        None => None,
    }
}

/// The first of `terms` that occurs in `lower`.
pub open spec fn first_contained(lower: Seq<char>, terms: Seq<Seq<char>>) -> Option<Seq<char>>
    decreases terms.len(),
{
    if terms.len() == 0 {
        None
    } else if contains_seq(lower, terms[0]) {
        Some(terms[0])
    } else {
        first_contained(lower, terms.drop_first())
    }
}

/// `a - b`, or 0 where that is negative.
pub open spec fn sat_sub(a: int, b: int) -> int {
    if a >= b { a - b } else { 0 }
}

pub open spec fn min_int(a: int, b: int) -> int {
    if a <= b { a } else { b }
}

/// Where a snippet of `content` starts: a third of the window before the
/// first occurrence (without case) of the first term that occurs; `None`
/// where that occurrence does not start on a character of `content`.
pub open spec fn snippet_start(content: Seq<char>, terms: Seq<Seq<char>>, max_chars: int) -> Option<int> {
    let lower = unicode_lowercase(content);
    match first_contained(lower, terms) {
        None => Some(0),
        Some(t) => match first_occurrence_from(lower, t, 0) {
            None => Some(0),
            Some(p) => match char_at_byte(content, utf8_len(lower.take(p)) as int) {
                Some(i) => Some(sat_sub(i, max_chars / 3)),
                None => None,
            },
        },
    }
}

/// A snippet of at most `max_chars` characters of `content` around the
/// first term found, with all terms highlighted.
pub open spec fn snippet_spec(content: Seq<char>, terms: Seq<Seq<char>>, max_chars: int) -> Option<Seq<char>> {
    if content.len() == 0 {
        Some(Seq::empty())
    } else {
        match snippet_start(content, terms, max_chars) {
            Some(st) => framed(content, st, min_int(st + max_chars, content.len() as int), terms),
            None => None,
        }
    }
}

/// A snippet of `content` around the characters `start..end`: a third of
/// the window before, two thirds after; `None` where the characters are not
/// in `content` or end before they start.
pub open spec fn snippet_around_spec(
    content: Seq<char>,
    start: int,
    end: int,
    terms: Seq<Seq<char>>,
    max_chars: int,
) -> Option<Seq<char>> {
    let ws = sat_sub(start, max_chars / 3);
    let we = min_int(end + max_chars * 2 / 3, content.len() as int);
    if content.len() == 0 {
        Some(Seq::empty())
    } else if start > content.len() || end > content.len() || ws > we {
        None
    } else {
        framed(content, ws, we, terms)
    }
}

/// Highlights every term of `terms` in turn.
fn highlight_each(s: String, terms: &[String]) -> (r: Option<String>)
    ensures
        match r {
            Some(v) => highlight_all(s@, term_views(terms@)) == Some(v@),
            None => highlight_all(s@, term_views(terms@)) is None,
        },
{
    let ghost orig = s@;
    let mut cur = s;
    let mut k: usize = 0;
    while k < terms.len()
        invariant
            k <= terms@.len(),
            orig == s@,
            highlight_all(orig, term_views(terms@).take(k as int)) == Some(cur@),
        decreases terms.len() - k,
    {
        let ghost prev = cur@;
        assert(term_views(terms@).take(k + 1).drop_last() == term_views(terms@).take(k as int));
        match highlight_once(cur.as_str(), terms[k].as_str()) {
            Some(next) => {
                cur = next;
            },
            None => {
                proof {
                    let tv = term_views(terms@);
                    assert(highlight_all(orig, tv.take(k + 1)) is None);
                    lemma_highlight_all_none(orig, tv, k as int + 1);
                    assert(orig == s@);
                }
                return None;
            },
        }
        k = k + 1;
    }
    assert(term_views(terms@).take(terms@.len() as int) == term_views(terms@));
    Some(cur)
}

/// Highlighting one term is that term's highlighting.
pub proof fn lemma_highlight_all_one(s: Seq<char>, t: Seq<char>)
    ensures
        highlight_all(s, seq![t]) == highlight_spec(s, t),
{
    let one = seq![t];
    assert(one.len() == 1 && one.last() == t);
    assert(one.drop_last() == Seq::<Seq<char>>::empty());
    assert(highlight_all(s, one.drop_last()) == Some(s));
}

/// Highlighting several terms highlights each of them in turn, every one
/// and not only the first: the terms `a` then `b` give what `b` gives on
/// the result of `a`.
pub proof fn lemma_highlight_all_in_turn(s: Seq<char>, a: Seq<Seq<char>>, b: Seq<Seq<char>>)
    ensures
        highlight_all(s, a + b) == match highlight_all(s, a) {
            Some(x) => highlight_all(x, b),
            None => None,
        },
    decreases b.len(),
{
    if b.len() == 0 {
        assert(a + b == a);
    } else {
        lemma_highlight_all_in_turn(s, a, b.drop_last());
        assert((a + b).drop_last() == a + b.drop_last());
        assert((a + b).last() == b.last());
    }
}

/// Each term, once the terms before it are highlighted, is highlighted in
/// the result: the terms `a` then `t` give `t`'s highlighting of what `a`
/// gives.
pub proof fn lemma_highlight_all_last(s: Seq<char>, a: Seq<Seq<char>>, t: Seq<char>)
    ensures
        highlight_all(s, a.push(t)) == match highlight_all(s, a) {
            Some(x) => highlight_spec(x, t),
            None => None,
        },
{
    lemma_highlight_all_in_turn(s, a, seq![t]);
    assert(a + seq![t] == a.push(t));
    if let Some(x) = highlight_all(s, a) {
        lemma_highlight_all_one(x, t);
    }
}

/// Once a step has no result, no later one has.
proof fn lemma_highlight_all_none(s: Seq<char>, terms: Seq<Seq<char>>, k: int)
    requires
        0 <= k <= terms.len(),
        highlight_all(s, terms.take(k)) is None,
    ensures
        highlight_all(s, terms) is None,
    decreases terms.len() - k,
{
    if k < terms.len() {
        assert(terms.take(k + 1).drop_last() == terms.take(k));
        lemma_highlight_all_none(s, terms, k + 1);
    } else {
        assert(terms.take(k) == terms);
    }
}

fn newline_to_space_chars(s: &[char]) -> (out: Vec<char>)
    ensures
        out@ == newline_to_space(s@),
{
    let mut out: Vec<char> = Vec::new();
    let mut i: usize = 0;
    while i < s.len()
        invariant
            i <= s.len(),
            out@ == newline_to_space(s@.take(i as int)),
        decreases s.len() - i,
    {
        let c = s[i];
        out.push(if c == '\n' { ' ' } else { c });
        i = i + 1;
        assert(newline_to_space(s@.take(i as int)) =~= newline_to_space(s@.take(i - 1)).push(
            if c == '\n' { ' ' } else { c },
        ));
    }
    assert(s@.take(s.len() as int) == s@);
    out
}

fn push_ellipsis(out: &mut Vec<char>)
    ensures
        final(out)@ == old(out)@ + ellipsis(),
{
    out.push('.');
    out.push('.');
    out.push('.');
    assert(final(out)@ =~= old(out)@ + ellipsis());
}

/// The framed window `ws..we` of `content`.
fn frame(content: &[char], ws: usize, we: usize, terms: &[String]) -> (r: Option<String>)
    requires
        ws <= we <= content.len(),
    ensures
        match r {
            Some(v) => framed(content@, ws as int, we as int, term_views(terms@)) == Some(v@),
            None => framed(content@, ws as int, we as int, term_views(terms@)) is None,
        },
{
    let window = sub_chars(content, ws, we);
    let flat = newline_to_space_chars(window.as_slice());
    let text = string_from_chars(flat.as_slice());
    let highlighted = highlight_each(text, terms)?;
    let hc = chars_of(highlighted.as_str());
    let body = trim_chars(hc.as_slice());
    let mut out: Vec<char> = Vec::new();
    if ws > 0 {
        push_ellipsis(&mut out);
    }
    extend_chars(&mut out, body.as_slice());
    if we < content.len() {
        push_ellipsis(&mut out);
    }
    assert(out@ =~= (if ws > 0 { ellipsis() } else { Seq::empty() }) + trim(hc@) + (if we < content@.len() {
        ellipsis()
    } else {
        Seq::empty()
    }));
    Some(string_from_chars(out.as_slice()))
}

/// Index of the first of `terms` that occurs in `lower`.
fn find_first_contained(lower: &[char], terms: &[String]) -> (r: Option<Vec<char>>)
    ensures
        match r {
            Some(t) => first_contained(lower@, term_views(terms@)) == Some(t@),
            None => first_contained(lower@, term_views(terms@)) is None,
        },
{
    let mut k: usize = 0;
    assert(term_views(terms@).skip(0) == term_views(terms@));
    while k < terms.len()
        invariant
            k <= terms@.len(),
            first_contained(lower@, term_views(terms@)) == first_contained(
                lower@,
                term_views(terms@).skip(k as int),
            ),
        decreases terms.len() - k,
    {
        let t = chars_of(terms[k].as_str());
        let ghost tv = term_views(terms@).skip(k as int);
        assert(tv[0] == t@);
        assert(tv.drop_first() == term_views(terms@).skip(k + 1));
        match find_first_from(lower, t.as_slice(), 0) {
            Some(at) => {
                assert(occurs_at(lower@, t@, at as int));
                return Some(t);
            },
            None => {
                proof {
                    reveal(first_occurrence_from);
                    assert(!contains_seq(lower@, t@));
                }
            },
        }
        k = k + 1;
    }
    assert(term_views(terms@).skip(terms@.len() as int).len() == 0);
    None
}

/// The character position in `content` at which `term` first occurs in
/// the lowercased content: `Some(None)` where it does not occur, `None`
/// where the occurrence does not start on a character of `content`.
pub fn find_char_index_case_insensitive(content: &str, term: &str) -> (r: Option<Option<usize>>)
    ensures
        ({
            let lower = unicode_lowercase(content@);
            match first_occurrence_from(lower, term@, 0) {
                None => r == Some(None::<usize>),
                Some(p) => match char_at_byte(content@, utf8_len(lower.take(p)) as int) {
                    Some(i) => (r matches Some(Some(j)) && j == i) && i <= content@.len(),
                    None => r is None,
                },
            }
        }),
{
    let chars = chars_of(content);
    let _content_bytes = str_byte_len(content);
    let lower_text = to_lowercase(content);
    let _lower_bytes = str_byte_len(lower_text.as_str());
    let lower = chars_of(lower_text.as_str());
    let t = chars_of(term);
    match find_first_from(lower.as_slice(), t.as_slice(), 0) {
        None => Some(None),
        Some(p) => {
            let offsets = byte_offsets(lower.as_slice());
            let b = offsets[p];
            let content_offsets = byte_offsets(chars.as_slice());
            match char_at_byte_by(Ghost(chars@), &content_offsets, b) {
                Some(i) => Some(Some(i)),
                None => None,
            }
        },
    }
}

/// A snippet of at most `max_chars` characters of `content` around the
/// first term that occurs in it, without regard to case, with every term
/// highlighted; `None` where a match found in the lowercased text cannot be
/// carried back to the text.
pub(crate) fn snippet_once(content: &str, terms: &[String], max_chars: usize) -> (r: Option<String>)
    ensures
        match r {
            Some(v) => snippet_spec(content@, term_views(terms@), max_chars as int) == Some(v@),
            None => snippet_spec(content@, term_views(terms@), max_chars as int) is None,
        },
{
    let chars = chars_of(content);
    let _content_bytes = str_byte_len(content);
    let lower_text = to_lowercase(content);
    let _lower_bytes = str_byte_len(lower_text.as_str());
    let lower = chars_of(lower_text.as_str());
    if chars.len() == 0 {
        return Some(String::new());
    }
    let start: usize = match find_first_contained(lower.as_slice(), terms) {
        None => 0,
        Some(t) => {
            let ts = string_from_chars(t.as_slice());
            match find_char_index_case_insensitive(content, ts.as_str()) {
                None => {
                    return None;
                },
                Some(None) => 0,
                Some(Some(i)) => if i >= max_chars / 3 {
                    i - max_chars / 3
                } else {
                    0
                },
            }
        },
    };
    assert(snippet_start(content@, term_views(terms@), max_chars as int) == Some(start as int));
    let end: usize = if max_chars >= chars.len() - start {
        chars.len()
    } else {
        start + max_chars
    };
    frame(chars.as_slice(), start, end, terms)
}

/// A snippet of at most `max_chars` characters of `content` around the
/// first term that occurs in it (compared without case), on one line, with
/// every term in brackets and `...` where text was cut off.
pub fn make_snippet(content: &str, terms: &[String], max_chars: usize) -> (r: String)
    requires
        snippet_spec(content@, term_views(terms@), max_chars as int) is Some,
    ensures
        snippet_spec(content@, term_views(terms@), max_chars as int) == Some(r@),
{
    snippet_once(content, terms, max_chars).unwrap()
}

/// `make_snippet` where its matches can be carried back to the text, else
/// `None`.
pub fn make_snippet_checked(content: &str, terms: &[String], max_chars: usize) -> (r: Option<String>)
    ensures
        match r {
            Some(v) => snippet_spec(content@, term_views(terms@), max_chars as int) == Some(v@),
            None => snippet_spec(content@, term_views(terms@), max_chars as int) is None,
        },
{
    if snippet_once(content, terms, max_chars).is_some() {
        Some(make_snippet(content, terms, max_chars))
    } else {
        None
    }
}

/// A snippet of `content` around the characters `start..end`.
pub fn make_snippet_around_range(
    content: &[char],
    start: usize,
    end: usize,
    terms: &[String],
    max_chars: usize,
) -> (r: Option<String>)
    ensures
        match r {
            Some(v) => snippet_around_spec(content@, start as int, end as int, term_views(terms@), max_chars as int) == Some(v@),
            None => snippet_around_spec(content@, start as int, end as int, term_views(terms@), max_chars as int) is None,
        },
{
    if content.len() == 0 {
        return Some(String::new());
    }
    if start > content.len() || end > content.len() {
        return None;
    }
    let ws: usize = if start >= max_chars / 3 { start - max_chars / 3 } else { 0 };
    let after: usize = (max_chars / 3) * 2 + ((max_chars % 3) * 2) / 3;
    assert(after == max_chars * 2 / 3) by (nonlinear_arith)
        requires
            after == (max_chars / 3) * 2 + ((max_chars % 3) * 2) / 3,
    ;
    let we: usize = if after >= content.len() - end {
        content.len()
    } else {
        end + after
    };
    if ws > we {
        return None;
    }
    frame(content, ws, we, terms)
}

// ---------------------------------------------------------------------------
// Matches within one document
// ---------------------------------------------------------------------------
/// An occurrence of a query term in a document, from the index.
#[derive(Debug, Clone)]
pub struct MatchedOccurrence {
    pub term: String,
    pub occurrence: IndexedOccurrence,
}

pub open spec fn occ_view(o: MatchedOccurrence) -> (Seq<char>, IndexedOccurrence) {
    (o.term@, o.occurrence)
}

pub open spec fn occ_views(v: Seq<MatchedOccurrence>) -> Seq<(Seq<char>, IndexedOccurrence)> {
    v.map_values(|o: MatchedOccurrence| occ_view(o))
}

/// A match as plain values.
pub ghost struct MatchView {
    pub snippet: Seq<char>,
    pub matched_terms: Seq<Seq<char>>,
    pub token_position: int,
    pub char_start: int,
    pub char_end: int,
    pub page: Option<u32>,
}

pub open spec fn match_view(m: SearchMatch) -> MatchView {
    MatchView {
        snippet: m.snippet@,
        matched_terms: term_views(m.matched_terms@),
        token_position: m.token_position as int,
        char_start: m.char_start as int,
        char_end: m.char_end as int,
        page: m.page,
    }
}

pub open spec fn match_views(v: Seq<SearchMatch>) -> Seq<MatchView> {
    v.map_values(|m: SearchMatch| match_view(m))
}

/// The occurrences of term `t`, in order.
pub open spec fn term_occ(occs: Seq<(Seq<char>, IndexedOccurrence)>, t: Seq<char>) -> Seq<IndexedOccurrence>
    decreases occs.len(),
{
    if occs.len() == 0 {
        Seq::empty()
    } else if occs.last().0 == t {
        term_occ(occs.drop_last(), t).push(occs.last().1)
    } else {
        term_occ(occs.drop_last(), t)
    }
}

/// The indexed occurrence that goes with the `ri`-th match of a term: the
/// `ri`-th occurrence, else the first.
pub open spec fn pick_occurrence(occ: Seq<IndexedOccurrence>, ri: int) -> Option<IndexedOccurrence> {
    if 0 <= ri < occ.len() {
        Some(occ[ri])
    } else if occ.len() > 0 {
        Some(occ[0])
    } else {
        None
    }
}

/// Characters of context in the snippet of each match.
pub open spec fn match_context() -> int {
    140
}

/// The match of term `t` at range `rg` (bytes, then characters), the
/// `ri`-th match of `t`.
pub open spec fn range_match(
    content: Seq<char>,
    t: Seq<char>,
    terms: Seq<Seq<char>>,
    occ: Seq<IndexedOccurrence>,
    ri: int,
    rg: (int, int, int, int),
) -> Option<MatchView> {
    match snippet_around_spec(content, rg.2, rg.3, terms, match_context()) {
        Some(sn) => Some(
            MatchView {
                snippet: sn,
                matched_terms: seq![t],
                token_position: match pick_occurrence(occ, ri) {
                    Some(o) => o.token_position as int,
                    None => ri,
                },
                char_start: rg.0,
                char_end: rg.1,
                page: match pick_occurrence(occ, ri) {
                    Some(o) => o.page,
                    None => None,
                },
            },
        ),
        None => None,
    }
}

/// The matches at the ranges `rgs` of term `t`, in order.
pub open spec fn range_matches(
    content: Seq<char>,
    t: Seq<char>,
    terms: Seq<Seq<char>>,
    occ: Seq<IndexedOccurrence>,
    rgs: Seq<(int, int, int, int)>,
) -> Option<Seq<MatchView>>
    decreases rgs.len(),
{
    if rgs.len() == 0 {
        Some(Seq::empty())
    } else {
        match (
            range_matches(content, t, terms, occ, rgs.drop_last()),
            range_match(content, t, terms, occ, rgs.len() - 1, rgs.last()),
        ) {
            (Some(a), Some(m)) => Some(a.push(m)),
            _ => None,
        }
    }
}

/// The matches of each term of `ts` in `content`, term after term.
pub open spec fn all_term_matches(
    content: Seq<char>,
    ts: Seq<Seq<char>>,
    terms: Seq<Seq<char>>,
    occs: Seq<(Seq<char>, IndexedOccurrence)>,
) -> Option<Seq<MatchView>>
    decreases ts.len(),
{
    if ts.len() == 0 {
        Some(Seq::empty())
    } else {
        match all_term_matches(content, ts.drop_last(), terms, occs) {
            Some(a) => match term_ranges_spec(content, ts.last()) {
                Some(rgs) => match range_matches(content, ts.last(), terms, term_occ(occs, ts.last()), rgs) {
                    Some(b) => Some(a + b),
                    None => None,
                },
                None => None,
            },
            None => None,
        }
    }
}

/// The first occurrence with the least token position.
pub open spec fn first_min(s: Seq<IndexedOccurrence>) -> Option<IndexedOccurrence>
    decreases s.len(),
{
    if s.len() == 0 {
        None
    } else {
        match first_min(s.drop_last()) {
            Some(m) => if s.last().token_position < m.token_position {
                Some(s.last())
            } else {
                Some(m)
            },
            None => Some(s.last()),
        }
    }
}

pub open spec fn title_note() -> Seq<char> {
    "Matched in title or file name: "@
}

/// The single match reported where no term occurs in the text itself: a
/// snippet of the text (or a note naming the title), at the first indexed
/// occurrence; `Some(None)` where there is neither.
pub open spec fn fallback_match(
    content: Seq<char>,
    title: Seq<char>,
    terms: Seq<Seq<char>>,
    occs: Seq<(Seq<char>, IndexedOccurrence)>,
) -> Option<Option<MatchView>> {
    match snippet_spec(content, terms, match_context()) {
        Some(fb) => {
            let fo = first_min(occs.map_values(|o: (Seq<char>, IndexedOccurrence)| o.1));
            if fb.len() > 0 || fo is Some {
                Some(
                    Some(
                        MatchView {
                            snippet: if fb.len() == 0 { title_note() + title } else { fb },
                            matched_terms: terms,
                            token_position: match fo {
                                Some(o) => o.token_position as int,
                                None => 0,
                            },
                            char_start: match fo {
                                Some(o) => o.char_start as int,
                                None => 0,
                            },
                            char_end: match fo {
                                Some(o) => o.char_end as int,
                                None => 0,
                            },
                            page: match fo {
                                Some(o) => o.page,
                                None => None,
                            },
                        },
                    ),
                )
            } else {
                Some(None)
            }
        },
        None => None,
    }
}

/// Whether every snippet of the matches can be made.
pub open spec fn matches_defined(
    content: Seq<char>,
    title: Seq<char>,
    terms: Seq<Seq<char>>,
    occs: Seq<(Seq<char>, IndexedOccurrence)>,
) -> bool {
    match all_term_matches(content, terms, terms, occs) {
        Some(u) => u.len() == 0 && terms.len() > 0 ==> fallback_match(content, title, terms, occs) is Some,
        None => false,
    }
}

/// `out` are the matches of `terms` in a document: every match of every
/// term, ordered by page, then start, then token position (a stable sort);
/// where there is none, the fallback match.
pub open spec fn matches_result(
    content: Seq<char>,
    title: Seq<char>,
    terms: Seq<Seq<char>>,
    occs: Seq<(Seq<char>, IndexedOccurrence)>,
    out: Seq<SearchMatch>,
) -> bool {
    match all_term_matches(content, terms, terms, occs) {
        Some(u) => if u.len() == 0 && terms.len() > 0 {
            match fallback_match(content, title, terms, occs) {
                Some(Some(m)) => match_views(out) == seq![m],
                Some(None) => out.len() == 0,
                None => false,
            }
        } else {
            exists|s: Seq<SearchMatch>| match_views(s) == u && stable_sorted(s, out)
        },
        None => false,
    }
}

pub open spec fn page_lt(a: Option<u32>, b: Option<u32>) -> bool {
    match (a, b) {
        (None, Some(_)) => true,
        (Some(x), Some(y)) => x < y,
        _ => false,
    }
}

impl Ranked for SearchMatch {
    /// By page (none first), then start, then token position.
    open spec fn spec_le(&self, other: &Self) -> bool {
        ||| page_lt(self.page, other.page)
        ||| self.page == other.page && self.char_start < other.char_start
        ||| self.page == other.page && self.char_start == other.char_start && self.token_position
            <= other.token_position
    }

    fn le(&self, other: &Self) -> (r: bool) {
        let lt = match (self.page, other.page) {
            (None, Some(_)) => true,
            (Some(x), Some(y)) => x < y,
            _ => false,
        };
        let same = match (self.page, other.page) {
            (None, None) => true,
            (Some(x), Some(y)) => x == y,
            _ => false,
        };
        lt || (same && self.char_start < other.char_start) || (same && self.char_start
            == other.char_start && self.token_position <= other.token_position)
    }

    proof fn lemma_total(a: &Self, b: &Self) {
    }

    proof fn lemma_trans(a: &Self, b: &Self, c: &Self) {
    }
}

/// The indexed occurrences of term `t`, in order.
fn occurrences_of_term(occs: &[MatchedOccurrence], t: &str) -> (out: Vec<IndexedOccurrence>)
    ensures
        out@ == term_occ(occ_views(occs@), t@),
{
    let mut out: Vec<IndexedOccurrence> = Vec::new();
    let mut i: usize = 0;
    while i < occs.len()
        invariant
            i <= occs@.len(),
            out@ == term_occ(occ_views(occs@).take(i as int), t@),
        decreases occs.len() - i,
    {
        assert(occ_views(occs@).take(i + 1).drop_last() == occ_views(occs@).take(i as int));
        assert(occ_views(occs@).take(i + 1).last() == occ_view(occs@[i as int]));
        if compare_strs(occs[i].term.as_str(), t) == 0 {
            out.push(occs[i].occurrence);
        }
        i = i + 1;
    }
    assert(occ_views(occs@).take(occs@.len() as int) == occ_views(occs@));
    out
}

pub open spec fn occ_positions(occs: Seq<(Seq<char>, IndexedOccurrence)>) -> Seq<IndexedOccurrence> {
    occs.map_values(|o: (Seq<char>, IndexedOccurrence)| o.1)
}

/// The first occurrence with the least token position.
fn min_occurrence(occs: &[MatchedOccurrence]) -> (r: Option<IndexedOccurrence>)
    ensures
        r == first_min(occ_positions(occ_views(occs@))),
{
    let mut best: Option<IndexedOccurrence> = None;
    let mut i: usize = 0;
    while i < occs.len()
        invariant
            i <= occs@.len(),
            best == first_min(occ_positions(occ_views(occs@)).take(i as int)),
        decreases occs.len() - i,
    {
        assert(occ_positions(occ_views(occs@)).take(i + 1).drop_last() == occ_positions(occ_views(occs@)).take(i as int));
        assert(occ_positions(occ_views(occs@)).take(i + 1).last() == occs@[i as int].occurrence);
        let o = occs[i].occurrence;
        best = match best {
            Some(m) => if o.token_position < m.token_position {
                Some(o)
            } else {
                Some(m)
            },
            None => Some(o),
        };
        i = i + 1;
    }
    assert(occ_positions(occ_views(occs@)).take(occs@.len() as int) == occ_positions(occ_views(occs@)));
    best
}

proof fn lemma_range_matches_none(
    content: Seq<char>,
    t: Seq<char>,
    terms: Seq<Seq<char>>,
    occ: Seq<IndexedOccurrence>,
    rgs: Seq<(int, int, int, int)>,
    n: int,
)
    requires
        0 <= n <= rgs.len(),
        range_matches(content, t, terms, occ, rgs.take(n)) is None,
    ensures
        range_matches(content, t, terms, occ, rgs) is None,
    decreases rgs.len() - n,
{
    if n < rgs.len() {
        assert(rgs.take(n + 1).drop_last() == rgs.take(n));
        lemma_range_matches_none(content, t, terms, occ, rgs, n + 1);
    } else {
        assert(rgs.take(n) == rgs);
    }
}

proof fn lemma_all_term_matches_none(
    content: Seq<char>,
    terms: Seq<Seq<char>>,
    occs: Seq<(Seq<char>, IndexedOccurrence)>,
    k: int,
)
    requires
        0 <= k <= terms.len(),
        all_term_matches(content, terms.take(k), terms, occs) is None,
    ensures
        all_term_matches(content, terms, terms, occs) is None,
    decreases terms.len() - k,
{
    if k < terms.len() {
        assert(terms.take(k + 1).drop_last() == terms.take(k));
        lemma_all_term_matches_none(content, terms, occs, k + 1);
    } else {
        assert(terms.take(k) == terms);
    }
}

/// The matches of term `t` (the `k`-th of `matched`) in `chars`.
#[verifier::spinoff_prover]
fn term_match_list(
    chars: &Vec<char>,
    matched: &[String],
    k: usize,
    occs: &[MatchedOccurrence],
) -> (r: Option<Vec<SearchMatch>>)
    requires
        k < matched@.len(),
    ensures
        match term_ranges_spec(chars@, matched@[k as int]@) {
            Some(rgs) => match r {
                Some(v) => range_matches(chars@, matched@[k as int]@, term_views(matched@), term_occ(occ_views(occs@), matched@[k as int]@), rgs) == Some(match_views(v@)),
                None => range_matches(chars@, matched@[k as int]@, term_views(matched@), term_occ(occ_views(occs@), matched@[k as int]@), rgs) is None,
            },
            None => r is None,
        },
{
    let t = &matched[k];
    let ghost tv = t@;
    let ghost terms = term_views(matched@);
    let occ_t = occurrences_of_term(occs, t.as_str());
    let ranges = match find_all_term_ranges(chars.as_slice(), t.as_str()) {
        Some(r) => r,
        None => {
            return None;
        },
    };
    let ghost rgs = range_views(ranges@);
    let mut out: Vec<SearchMatch> = Vec::new();
    let mut ri: usize = 0;
    assert(rgs.take(0) == Seq::<(int, int, int, int)>::empty());
    assert(match_views(out@) == Seq::<MatchView>::empty());
    while ri < ranges.len()
        invariant
            ri <= ranges@.len(),
            rgs == range_views(ranges@),
            tv == t@,
            tv == matched@[k as int]@,
            term_ranges_spec(chars@, tv) == Some(rgs),
            terms == term_views(matched@),
            occ_t@ == term_occ(occ_views(occs@), tv),
            range_matches(chars@, tv, terms, occ_t@, rgs.take(ri as int)) == Some(match_views(out@)),
        decreases ranges.len() - ri,
    {
        assert(rgs.take(ri + 1).drop_last() == rgs.take(ri as int));
        let (bs, be, i, j) = ranges[ri];
        assert(rgs.take(ri + 1).last() == (bs as int, be as int, i as int, j as int));
        let ind: Option<IndexedOccurrence> = if ri < occ_t.len() {
            Some(occ_t[ri])
        } else if occ_t.len() > 0 {
            Some(occ_t[0])
        } else {
            None
        };
        assert(ind == pick_occurrence(occ_t@, ri as int));
        let sn = match make_snippet_around_range(chars.as_slice(), i, j, matched, 140) {
            Some(x) => x,
            None => {
                proof {
                    assert(range_match(chars@, tv, terms, occ_t@, ri as int, rgs.take(ri + 1).last()) is None);
                    assert(range_matches(chars@, tv, terms, occ_t@, rgs.take(ri + 1)) is None);
                    lemma_range_matches_none(chars@, tv, terms, occ_t@, rgs, ri + 1);
                }
                return None;
            },
        };
        let mut names: Vec<String> = Vec::new();
        names.push(t.clone());
        assert(term_views(names@) == seq![tv]);
        let m = SearchMatch {
            snippet: sn,
            matched_terms: names,
            token_position: match ind {
                Some(o) => o.token_position,
                None => ri,
            },
            char_start: bs,
            char_end: be,
            page: match ind {
                Some(o) => o.page,
                None => None,
            },
        };
        let ghost before = out@;
        out.push(m);
        assert(match_views(out@) == match_views(before).push(match_view(m)));
        ri = ri + 1;
    }
    assert(rgs.take(ranges@.len() as int) == rgs);
    Some(out)
}

/// The matches of `matched` (the query terms found in the document) in
/// its text, ordered by page, then position; where none of them occurs in
/// the text, one match that says where the terms were found. `None` where
/// a snippet cannot be made.
#[verifier::spinoff_prover]
pub fn build_search_matches(
    content: &str,
    title: &str,
    matched: &[String],
    occs: &[MatchedOccurrence],
) -> (r: Option<Vec<SearchMatch>>)
    ensures
        match r {
            Some(v) => matches_result(content@, title@, term_views(matched@), occ_views(occs@), v@),
            None => !matches_defined(content@, title@, term_views(matched@), occ_views(occs@)),
        },
{
    let chars = chars_of(content);
    let ghost terms = term_views(matched@);
    let ghost ov = occ_views(occs@);
    let mut all: Vec<SearchMatch> = Vec::new();
    let mut k: usize = 0;
    assert(terms.take(0) == Seq::<Seq<char>>::empty());
    assert(match_views(all@) == Seq::<MatchView>::empty());
    while k < matched.len()
        invariant
            k <= matched@.len(),
            terms == term_views(matched@),
            ov == occ_views(occs@),
            chars@ == content@,
            all_term_matches(content@, terms.take(k as int), terms, ov) == Some(match_views(all@)),
        decreases matched.len() - k,
    {
        assert(terms.take(k + 1).drop_last() == terms.take(k as int));
        assert(terms.take(k + 1).last() == matched@[k as int]@);
        match term_match_list(&chars, matched, k, occs) {
            Some(tm) => {
                let ghost before = all@;
                let ghost added = tm@;
                let mut tm = tm;
                all.append(&mut tm);
                assert(match_views(all@) =~= match_views(before) + match_views(added));
            },
            None => {
                proof {
                    lemma_all_term_matches_none(content@, terms, ov, k + 1);
                }
                return None;
            },
        }
        k = k + 1;
    }
    assert(terms.take(matched@.len() as int) == terms);
    let ghost unsorted = all@;
    let sorted = stable_sort(all);
    if sorted.len() == 0 && matched.len() > 0 {
        let fallback = match snippet_once(content, matched, 140) {
            Some(f) => f,
            None => {
                return None;
            },
        };
        let first = min_occurrence(occs);
        let fallback_empty = chars_of(fallback.as_str()).len() == 0;
        if !fallback_empty || first.is_some() {
            let snippet = if fallback_empty {
                let mut note = String::new();
                push_str_chars(&mut note, "Matched in title or file name: ");
                push_str_chars(&mut note, title);
                note
            } else {
                fallback
            };
            let mut names: Vec<String> = Vec::new();
            let mut q: usize = 0;
            while q < matched.len()
                invariant
                    q <= matched@.len(),
                    names@.len() == q,
                    term_views(names@) == term_views(matched@).take(q as int),
                decreases matched.len() - q,
            {
                let ghost before = names@;
                names.push(matched[q].clone());
                assert(names@ == before.push(matched@[q as int]));
                q = q + 1;
                assert(term_views(names@) =~= term_views(matched@).take(q as int));
            }
            assert(term_views(matched@).take(matched@.len() as int) == term_views(matched@));
            let m = SearchMatch {
                snippet,
                matched_terms: names,
                token_position: match first {
                    Some(o) => o.token_position,
                    None => 0,
                },
                char_start: match first {
                    Some(o) => o.char_start,
                    None => 0,
                },
                char_end: match first {
                    Some(o) => o.char_end,
                    None => 0,
                },
                page: match first {
                    Some(o) => o.page,
                    None => None,
                },
            };
            let mut out: Vec<SearchMatch> = Vec::new();
            out.push(m);
            assert(match_views(out@) == seq![match_view(m)]);
            return Some(out);
        }
        return Some(sorted);
    }
    Some(sorted)
}

} // verus!
