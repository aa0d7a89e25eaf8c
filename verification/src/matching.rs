//! Case-insensitive matching of terms in text. Matches are found in the
//! lowercased text and carried back to the text as written by their byte
//! offsets; where such an offset is not a character boundary of that text,
//! there is no result (`None`).
use vstd::prelude::*;
use crate::text::{
    chars_of, find_first_from, first_occurrence_from, lemma_utf8_len_push, lemma_utf8_prefix_mono,
    lemma_utf8_prefix_strict, lemma_utf8_len_add, len_utf8, occurs_at, push_chars, sub_chars, to_lowercase,
    unicode_lowercase, utf8_len, string_from_chars, str_byte_len,
};

verus! {

/// The character position of `s` that starts at byte offset `b`, if any.
#[verifier::opaque]
pub open spec fn char_at_byte(s: Seq<char>, b: int) -> Option<int> {
    if exists|i: int| 0 <= i <= s.len() && utf8_len(s.take(i)) == b {
        Some(choose|i: int| 0 <= i <= s.len() && utf8_len(s.take(i)) == b)
    } else {
        None
    }
}

proof fn lemma_char_at_byte_is(s: Seq<char>, b: int, i: int)
    requires
        0 <= i <= s.len(),
        utf8_len(s.take(i)) == b,
    ensures
        char_at_byte(s, b) == Some(i),
{
    reveal(char_at_byte);
    let j = choose|j: int| 0 <= j <= s.len() && utf8_len(s.take(j)) == b;
    assert(0 <= j <= s.len() && utf8_len(s.take(j)) == b);
    if j < i {
        lemma_utf8_prefix_strict(s, j, i);
    } else if i < j {
        lemma_utf8_prefix_strict(s, i, j);
    }
}

/// Byte offsets of every character position: `offsets[i]` is the byte
/// length of `s[..i]`.
pub fn byte_offsets(s: &[char]) -> (offsets: Vec<usize>)
    requires
        utf8_len(s@) <= usize::MAX,
    ensures
        offsets@.len() == s@.len() + 1,
        forall|i: int| 0 <= i <= s@.len() ==> #[trigger] offsets@[i] == utf8_len(s@.take(i)),
{
    let mut offsets: Vec<usize> = Vec::new();
    offsets.push(0);
    assert(s@.take(0) == Seq::<char>::empty());
    let mut off: usize = 0;
    let mut i: usize = 0;
    while i < s.len()
        invariant
            i <= s@.len(),
            off == utf8_len(s@.take(i as int)),
            utf8_len(s@) <= usize::MAX,
            offsets@.len() == i + 1,
            forall|j: int| 0 <= j <= i ==> #[trigger] offsets@[j] == utf8_len(s@.take(j)),
        decreases s.len() - i,
    {
        proof {
            assert(s@.take(i + 1) == s@.take(i as int).push(s@[i as int]));
            lemma_utf8_len_push(s@.take(i as int), s@[i as int]);
            lemma_utf8_prefix_mono(s@, i + 1, s@.len() as int);
            assert(s@.take(s@.len() as int) == s@);
        }
        off = off + len_utf8(s[i]);
        offsets.push(off);
        i = i + 1;
    }
    offsets
}

// ---------------------------------------------------------------------------
// All ranges of a term
// ---------------------------------------------------------------------------
/// The byte ranges in `content` of the successive non-overlapping matches
/// of `t` in `lower` (the lowercased content), found from character `c` on;
/// a match is kept when both of its ends are character boundaries of the
/// content. Each range also carries the content's character positions.
#[verifier::opaque]
pub open spec fn ranges_from(content: Seq<char>, lower: Seq<char>, t: Seq<char>, c: int) -> Seq<(int, int, int, int)>
    decreases lower.len() + 1 - c,
{
    if t.len() == 0 || c < 0 || c > lower.len() {
        Seq::empty()
    } else {
        match first_occurrence_from(lower, t, c) {
            None => Seq::empty(),
            Some(p) => {
                if p >= c && p + t.len() <= lower.len() {
                    let rest = ranges_from(content, lower, t, p + t.len());
                    let bs = utf8_len(lower.take(p)) as int;
                    let be = bs + utf8_len(t);
                    match (char_at_byte(content, bs), char_at_byte(content, be)) {
                        (Some(i), Some(j)) => seq![(bs, be, i, j)] + rest,
                        _ => rest,
                    }
                } else {
                    Seq::empty()
                }
            },
        }
    }
}

/// The ranges of `term` in `content`, compared without case; `None` where
/// the lowercased term is empty, on which the search does not end.
pub open spec fn term_ranges_spec(content: Seq<char>, term: Seq<char>) -> Option<Seq<(int, int, int, int)>> {
    if content.len() == 0 || term.len() == 0 {
        Some(Seq::empty())
    } else if unicode_lowercase(term).len() == 0 {
        None
    } else {
        Some(ranges_from(content, unicode_lowercase(content), unicode_lowercase(term), 0))
    }
}


/// Position of `b` among strictly increasing `offsets`.
pub fn lookup_offset(offsets: &Vec<usize>, b: usize) -> (r: Option<usize>)
    requires
        forall|i: int, j: int| 0 <= i < j < offsets@.len() ==> offsets@[i] < offsets@[j],
    ensures
        match r {
            Some(i) => i < offsets@.len() && offsets@[i as int] == b,
            None => forall|i: int| 0 <= i < offsets@.len() ==> offsets@[i] != b,
        },
{
    let mut lo: usize = 0;
    let mut hi: usize = offsets.len();
    while lo < hi
        invariant
            lo <= hi <= offsets@.len(),
            forall|i: int, j: int| 0 <= i < j < offsets@.len() ==> offsets@[i] < offsets@[j],
            forall|i: int| 0 <= i < lo ==> offsets@[i] < b,
            forall|i: int| hi <= i < offsets@.len() ==> offsets@[i] > b,
        decreases hi - lo,
    {
        let mid = lo + (hi - lo) / 2;
        if offsets[mid] == b {
            return Some(mid);
        } else if offsets[mid] < b {
            lo = mid + 1;
        } else {
            hi = mid;
        }
    }
    None
}

/// The character position of byte offset `b`, by the table of offsets.
pub(crate) fn char_at_byte_by(Ghost(s): Ghost<Seq<char>>, offsets: &Vec<usize>, b: usize) -> (r: Option<usize>)
    requires
        offsets@.len() == s.len() + 1,
        forall|i: int| 0 <= i <= s.len() ==> #[trigger] offsets@[i] == utf8_len(s.take(i)),
    ensures
        match r {
            Some(i) => char_at_byte(s, b as int) == Some(i as int) && i <= s.len(),
            None => char_at_byte(s, b as int) is None,
        },
{
    proof {
        assert forall|i: int, j: int| 0 <= i < j < offsets@.len() implies offsets@[i] < offsets@[j] by {
            lemma_utf8_prefix_strict(s, i, j);
        }
    }
    match lookup_offset(offsets, b) {
        Some(i) => {
            proof {
                lemma_char_at_byte_is(s, b as int, i as int);
            }
            Some(i)
        },
        None => {
            proof {
                reveal(char_at_byte);
                assert forall|i: int| 0 <= i <= s.len() implies utf8_len(#[trigger] s.take(i)) != b by {
                    assert(offsets@[i] == utf8_len(s.take(i)));
                }
            }
            None
        },
    }
}

pub open spec fn range_view(x: (usize, usize, usize, usize)) -> (int, int, int, int) {
    (x.0 as int, x.1 as int, x.2 as int, x.3 as int)
}

pub open spec fn range_views(v: Seq<(usize, usize, usize, usize)>) -> Seq<(int, int, int, int)> {
    v.map_values(|x: (usize, usize, usize, usize)| range_view(x))
}

proof fn lemma_ranges_step(content: Seq<char>, lower: Seq<char>, t: Seq<char>, c: int, p: int)
    requires
        t.len() > 0,
        0 <= c <= lower.len(),
        first_occurrence_from(lower, t, c) == Some(p),
        c <= p,
        occurs_at(lower, t, p),
    ensures
        ranges_from(content, lower, t, c) == ({
            let rest = ranges_from(content, lower, t, p + t.len());
            let bs = utf8_len(lower.take(p)) as int;
            let be = bs + utf8_len(t);
            match (char_at_byte(content, bs), char_at_byte(content, be)) {
                (Some(i), Some(j)) => seq![(bs, be, i, j)] + rest,
                _ => rest,
            }
        }),
{
    reveal(ranges_from);
}

pub(crate) proof fn lemma_match_bytes(lower: Seq<char>, t: Seq<char>, p: int)
    requires
        occurs_at(lower, t, p),
    ensures
        utf8_len(lower.take(p + t.len())) == utf8_len(lower.take(p)) + utf8_len(t),
        utf8_len(lower.take(p + t.len())) <= utf8_len(lower),
{
    lemma_utf8_len_add(lower.take(p), t);
    assert(lower.take(p + t.len()) =~= lower.take(p) + t);
    lemma_utf8_prefix_mono(lower, p + t.len(), lower.len() as int);
    assert(lower.take(lower.len() as int) == lower);
}

proof fn lemma_range_views_push(v: Seq<(usize, usize, usize, usize)>, x: (usize, usize, usize, usize), rest: Seq<(int, int, int, int)>)
    ensures
        range_views(v) + (seq![range_view(x)] + rest) == range_views(v.push(x)) + rest,
{
    assert(range_views(v.push(x)) =~= range_views(v).push(range_view(x)));
    assert(range_views(v) + (seq![range_view(x)] + rest) =~= range_views(v).push(range_view(x)) + rest);
}

proof fn lemma_ranges_none(content: Seq<char>, lower: Seq<char>, t: Seq<char>, c: int)
    requires
        t.len() > 0,
        0 <= c <= lower.len(),
        first_occurrence_from(lower, t, c) is None,
    ensures
        ranges_from(content, lower, t, c) == Seq::<(int, int, int, int)>::empty(),
{
    reveal(ranges_from);
}

/// The byte ranges of `term` in `content` (with their character positions).
#[verifier::spinoff_prover]
pub fn find_all_term_ranges(content: &[char], term: &str) -> (r: Option<Vec<(usize, usize, usize, usize)>>)
    ensures
        match r {
            Some(v) => term_ranges_spec(content@, term@) == Some(range_views(v@)),
            None => term_ranges_spec(content@, term@) is None,
        },
{
    let term_chars = chars_of(term);
    if content.len() == 0 || term_chars.len() == 0 {
        let v: Vec<(usize, usize, usize, usize)> = Vec::new();
        assert(range_views(v@) =~= Seq::<(int, int, int, int)>::empty());
        return Some(v);
    }
    let content_text = string_from_chars(content);
    let _content_bytes = str_byte_len(content_text.as_str());
    let lower_text = to_lowercase(content_text.as_str());
    let _lower_bytes = str_byte_len(lower_text.as_str());
    let lower = chars_of(lower_text.as_str());
    let lower_term_text = to_lowercase(term);
    let lt = chars_of(lower_term_text.as_str());
    if lt.len() == 0 {
        return None;
    }
    let offsets = byte_offsets(lower.as_slice());
    let content_offsets = byte_offsets(content);
    let mut out: Vec<(usize, usize, usize, usize)> = Vec::new();
    let mut cursor: usize = 0;
    let mut done = false;
    assert(range_views(out@) =~= Seq::<(int, int, int, int)>::empty());
    assert(Seq::<(int, int, int, int)>::empty() + ranges_from(content@, lower@, lt@, 0) == ranges_from(content@, lower@, lt@, 0));
    while !done
        invariant
            cursor <= lower@.len(),
            lt@.len() > 0,
            lower@ == unicode_lowercase(content@),
            lt@ == unicode_lowercase(term@),
            utf8_len(lower@) <= usize::MAX,
            offsets@.len() == lower@.len() + 1,
            forall|i: int| 0 <= i <= lower@.len() ==> #[trigger] offsets@[i] == utf8_len(lower@.take(i)),
            content_offsets@.len() == content@.len() + 1,
            forall|i: int| 0 <= i <= content@.len() ==> #[trigger] content_offsets@[i] == utf8_len(content@.take(i)),
            !done ==> ranges_from(content@, lower@, lt@, 0) == range_views(out@) + ranges_from(content@, lower@, lt@, cursor as int),
            done ==> ranges_from(content@, lower@, lt@, 0) == range_views(out@),
        decreases lower@.len() + 1 - cursor, if done { 0int } else { 1int },
    {
        match find_first_from(lower.as_slice(), lt.as_slice(), cursor) {
            None => {
                proof {
                    lemma_ranges_none(content@, lower@, lt@, cursor as int);
                }
                assert(range_views(out@) + Seq::<(int, int, int, int)>::empty() == range_views(out@));
                done = true;
            },
            Some(p) => {
                assert(occurs_at(lower@, lt@, p as int));
                let lower_len = lower.len();
                let lt_len = lt.len();
                assert(p + lt_len <= lower_len);
                let pend = p + lt_len;
                let bs = offsets[p];
                let be = offsets[pend];
                proof {
                    lemma_match_bytes(lower@, lt@, p as int);
                }
                let ghost old_out = out@;
                let start_char = char_at_byte_by(Ghost(content@), &content_offsets, bs);
                let end_char = char_at_byte_by(Ghost(content@), &content_offsets, be);
                let ghost rest = ranges_from(content@, lower@, lt@, pend as int);
                proof {
                    lemma_ranges_step(content@, lower@, lt@, cursor as int, p as int);
                }
                match (start_char, end_char) {
                    (Some(i), Some(j)) => {
                        out.push((bs, be, i, j));
                        proof {
                            lemma_range_views_push(old_out, (bs, be, i, j), rest);
                        }
                    },
                    _ => {},
                }
                cursor = pend;
            },
        }
    }
    Some(out)
}


// ---------------------------------------------------------------------------
// Highlighting
// ---------------------------------------------------------------------------
/// `s[cs..]` with every successive match of `t` in `lower` found from
/// character `cl` on wrapped in `[` `]`; `None` where a match's byte range
/// does not fall on character boundaries of `s` in order.
#[verifier::opaque]
pub open spec fn highlight_from(s: Seq<char>, lower: Seq<char>, t: Seq<char>, cs: int, cl: int) -> Option<Seq<char>>
    decreases lower.len() + 1 - cl,
{
    if t.len() == 0 || cl < 0 || cl > lower.len() || cs < 0 || cs > s.len() {
        None
    } else {
        match first_occurrence_from(lower, t, cl) {
            None => Some(s.skip(cs)),
            Some(p) => {
                if p >= cl && p + t.len() <= lower.len() {
                    let bs = utf8_len(lower.take(p)) as int;
                    let be = bs + utf8_len(t);
                    match (char_at_byte(s, bs), char_at_byte(s, be)) {
                        (Some(i), Some(j)) => {
                            if cs <= i && i <= j {
                                match highlight_from(s, lower, t, j, p + t.len()) {
                                    Some(r) => Some(s.subrange(cs, i) + seq!['['] + s.subrange(i, j) + seq![']'] + r),
                                    None => None,
                                }
                            } else {
                                None
                            }
                        },
                        _ => None,
                    }
                } else {
                    None
                }
            },
        }
    }
}

/// `snippet` with every case-insensitive match of `term` in brackets.
pub open spec fn highlight_spec(snippet: Seq<char>, term: Seq<char>) -> Option<Seq<char>> {
    if term.len() == 0 {
        Some(snippet)
    } else if unicode_lowercase(term).len() == 0 {
        None
    } else {
        highlight_from(snippet, unicode_lowercase(snippet), unicode_lowercase(term), 0, 0)
    }
}

proof fn lemma_highlight_none(s: Seq<char>, lower: Seq<char>, t: Seq<char>, cs: int, cl: int)
    requires
        t.len() > 0,
        0 <= cl <= lower.len(),
        0 <= cs <= s.len(),
        first_occurrence_from(lower, t, cl) is None,
    ensures
        highlight_from(s, lower, t, cs, cl) == Some(s.skip(cs)),
{
    reveal(highlight_from);
}

proof fn lemma_highlight_step(s: Seq<char>, lower: Seq<char>, t: Seq<char>, cs: int, cl: int, p: int, i: int, j: int)
    requires
        t.len() > 0,
        0 <= cl <= lower.len(),
        0 <= cs <= s.len(),
        first_occurrence_from(lower, t, cl) == Some(p),
        cl <= p,
        occurs_at(lower, t, p),
        char_at_byte(s, utf8_len(lower.take(p)) as int) == Some(i),
        char_at_byte(s, (utf8_len(lower.take(p)) + utf8_len(t)) as int) == Some(j),
        cs <= i <= j,
    ensures
        highlight_from(s, lower, t, cs, cl) == match highlight_from(s, lower, t, j, p + t.len()) {
            Some(r) => Some(s.subrange(cs, i) + seq!['['] + s.subrange(i, j) + seq![']'] + r),
            None => None,
        },
{
    reveal(highlight_from);
}

proof fn lemma_highlight_fail(s: Seq<char>, lower: Seq<char>, t: Seq<char>, cs: int, cl: int, p: int)
    requires
        t.len() > 0,
        0 <= cl <= lower.len(),
        0 <= cs <= s.len(),
        first_occurrence_from(lower, t, cl) == Some(p),
        cl <= p,
        occurs_at(lower, t, p),
        !(char_at_byte(s, utf8_len(lower.take(p)) as int) matches Some(i) && char_at_byte(s, (utf8_len(lower.take(p)) + utf8_len(t)) as int) matches Some(j) && cs <= i <= j),
    ensures
        highlight_from(s, lower, t, cs, cl) is None,
{
    reveal(highlight_from);
}

proof fn lemma_highlight_from_len(s: Seq<char>, lower: Seq<char>, t: Seq<char>, cs: int, cl: int)
    ensures
        highlight_from(s, lower, t, cs, cl) matches Some(r) ==> r.len() >= s.len() - cs && (first_occurrence_from(
            lower,
            t,
            cl,
        ) is Some ==> r.len() >= s.len() - cs + 2),
    decreases lower.len() + 1 - cl,
{
    reveal(highlight_from);
    reveal(first_occurrence_from);
    reveal(char_at_byte);
    if t.len() == 0 || cl < 0 || cl > lower.len() || cs < 0 || cs > s.len() {
    } else {
        match first_occurrence_from(lower, t, cl) {
            None => {},
            Some(p) => {
                if p >= cl && p + t.len() <= lower.len() {
                    let bs = utf8_len(lower.take(p)) as int;
                    let be = bs + utf8_len(t);
                    match (char_at_byte(s, bs), char_at_byte(s, be)) {
                        (Some(i), Some(j)) => {
                            if cs <= i && i <= j {
                                assert(0 <= j <= s.len());
                                lemma_highlight_from_len(s, lower, t, j, p + t.len());
                            }
                        },
                        _ => {},
                    }
                }
            },
        }
    }
}

/// Highlighting keeps the snippet where the term (without case) does not
/// occur in it, and where it does, the result holds at least one more pair
/// of brackets' worth of characters than the snippet.
pub proof fn lemma_highlight_brackets(snippet: Seq<char>, term: Seq<char>)
    requires
        unicode_lowercase(term).len() > 0,
        term.len() > 0,
    ensures
        !crate::text::contains_seq(unicode_lowercase(snippet), unicode_lowercase(term)) ==> highlight_spec(
            snippet,
            term,
        ) == Some(snippet),
        crate::text::contains_seq(unicode_lowercase(snippet), unicode_lowercase(term)) ==> (highlight_spec(
            snippet,
            term,
        ) matches Some(r) ==> r.len() >= snippet.len() + 2),
{
    let lower = unicode_lowercase(snippet);
    let t = unicode_lowercase(term);
    reveal(first_occurrence_from);
    if crate::text::contains_seq(lower, t) {
        let at = choose|at: int| occurs_at(lower, t, at);
        assert(0 <= at && occurs_at(lower, t, at));
        assert(first_occurrence_from(lower, t, 0) is Some);
        lemma_highlight_from_len(snippet, lower, t, 0, 0);
    } else {
        assert(first_occurrence_from(lower, t, 0) is None);
        lemma_highlight_none(snippet, lower, t, 0, 0);
        assert(snippet.skip(0) == snippet);
    }
}

/// Wraps every case-insensitive match of `term` in `snippet` in brackets.
pub fn highlight_term(snippet: &str, term: &str) -> (r: String)
    requires
        highlight_spec(snippet@, term@) is Some,
    ensures
        highlight_spec(snippet@, term@) == Some(r@),
{
    highlight_once(snippet, term).unwrap()
}

/// `highlight_term` where the matches found in the lowercased snippet can
/// be carried back to it, else `None`.
pub fn highlight_term_checked(snippet: &str, term: &str) -> (r: Option<String>)
    ensures
        match r {
            Some(v) => highlight_spec(snippet@, term@) == Some(v@),
            None => highlight_spec(snippet@, term@) is None,
        },
{
    if highlight_once(snippet, term).is_some() {
        Some(highlight_term(snippet, term))
    } else {
        None
    }
}

/// Highlights `term` in `snippet`; `None` where the matches found in the
/// lowercased snippet cannot be carried back to it.
#[verifier::spinoff_prover]
pub(crate) fn highlight_once(snippet: &str, term: &str) -> (r: Option<String>)
    ensures
        match r {
            Some(v) => highlight_spec(snippet@, term@) == Some(v@),
            None => highlight_spec(snippet@, term@) is None,
        },
{
    let term_chars = chars_of(term);
    let s = chars_of(snippet);
    if term_chars.len() == 0 {
        return Some(string_from_chars(s.as_slice()));
    }
    let _snippet_bytes = str_byte_len(snippet);
    let lower_text = to_lowercase(snippet);
    let _lower_bytes = str_byte_len(lower_text.as_str());
    let lower = chars_of(lower_text.as_str());
    let lower_term_text = to_lowercase(term);
    let lt = chars_of(lower_term_text.as_str());
    if lt.len() == 0 {
        return None;
    }
    let offsets = byte_offsets(lower.as_slice());
    let s_offsets = byte_offsets(s.as_slice());
    let mut out: Vec<char> = Vec::new();
    let mut cl: usize = 0;
    let mut cs: usize = 0;
    let mut done = false;
    assert(out@ + Seq::<char>::empty() == out@);
    while !done
        invariant
            cl <= lower@.len(),
            cs <= s@.len(),
            lt@.len() > 0,
            term@.len() > 0,
            s@ == snippet@,
            lower@ == unicode_lowercase(snippet@),
            lt@ == unicode_lowercase(term@),
            utf8_len(lower@) <= usize::MAX,
            offsets@.len() == lower@.len() + 1,
            forall|i: int| 0 <= i <= lower@.len() ==> #[trigger] offsets@[i] == utf8_len(lower@.take(i)),
            s_offsets@.len() == s@.len() + 1,
            forall|i: int| 0 <= i <= s@.len() ==> #[trigger] s_offsets@[i] == utf8_len(s@.take(i)),
            !done ==> highlight_from(s@, lower@, lt@, 0, 0) == match highlight_from(s@, lower@, lt@, cs as int, cl as int) {
                Some(r) => Some(out@ + r),
                None => None,
            },
            done ==> highlight_from(s@, lower@, lt@, 0, 0) == Some(out@),
        decreases lower@.len() + 1 - cl, if done { 0int } else { 1int },
    {
        match find_first_from(lower.as_slice(), lt.as_slice(), cl) {
            None => {
                proof {
                    lemma_highlight_none(s@, lower@, lt@, cs as int, cl as int);
                }
                let tail = sub_chars(s.as_slice(), cs, s.len());
                let ghost before = out@;
                crate::text::extend_chars(&mut out, tail.as_slice());
                assert(tail@ == s@.skip(cs as int));
                done = true;
            },
            Some(p) => {
                assert(occurs_at(lower@, lt@, p as int));
                let lower_len = lower.len();
                let lt_len = lt.len();
                assert(p + lt_len <= lower_len);
                let pend = p + lt_len;
                let bs = offsets[p];
                let be = offsets[pend];
                proof {
                    lemma_match_bytes(lower@, lt@, p as int);
                }
                let i_opt = char_at_byte_by(Ghost(s@), &s_offsets, bs);
                let j_opt = char_at_byte_by(Ghost(s@), &s_offsets, be);
                match (i_opt, j_opt) {
                    (Some(i), Some(j)) => {
                        if cs <= i && i <= j {
                            proof {
                                lemma_highlight_step(s@, lower@, lt@, cs as int, cl as int, p as int, i as int, j as int);
                            }
                            let ghost before = out@;
                            let a = sub_chars(s.as_slice(), cs, i);
                            crate::text::extend_chars(&mut out, a.as_slice());
                            out.push('[');
                            let b = sub_chars(s.as_slice(), i, j);
                            crate::text::extend_chars(&mut out, b.as_slice());
                            out.push(']');
                            proof {
                                assert(out@ == before + (s@.subrange(cs as int, i as int) + seq!['['] + s@.subrange(i as int, j as int) + seq![']']));
                                match highlight_from(s@, lower@, lt@, j as int, pend as int) {
                                    Some(r) => {
                                        assert(before + (s@.subrange(cs as int, i as int) + seq!['['] + s@.subrange(i as int, j as int) + seq![']'] + r) == out@ + r);
                                    },
                                    None => {},
                                }
                            }
                            cs = j;
                            cl = pend;
                        } else {
                            proof {
                                lemma_highlight_fail(s@, lower@, lt@, cs as int, cl as int, p as int);
                                assert(highlight_from(s@, lower@, lt@, 0, 0) is None);
                            }
                            return None;
                        }
                    },
                    _ => {
                        proof {
                            lemma_highlight_fail(s@, lower@, lt@, cs as int, cl as int, p as int);
                            assert(highlight_from(s@, lower@, lt@, 0, 0) is None);
                        }
                        return None;
                    },
                }
            },
        }
    }
    Some(string_from_chars(out.as_slice()))
}

} // verus!
