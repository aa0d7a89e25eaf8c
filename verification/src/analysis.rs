//! Statistics of an index: the most frequent terms, the largest documents,
//! one document in detail, and their text forms.
use std::cmp::Ordering;
use vstd::prelude::*;
use crate::error::AppError;
use crate::model::{Document, InvertedIndex, Posting, TermPostings, document_position};
use crate::order::{
    Ranked, compare_strs, lemma_seq_lt_asym, lemma_seq_lt_irrefl, lemma_seq_lt_total, lemma_seq_lt_trans,
    seq_lt, stable_sort, stable_sorted,
};
use crate::engine::truncate_to;
use crate::text::{chars_of, extend_chars, string_from_chars, sub_chars};
use crate::textfmt::{
    decimal, decimal_chars, pad_end, pad_start, push_padded_end, push_padded_start, trim, trim_chars,
};

verus! {

// ---------------------------------------------------------------------------
// Building text
// ---------------------------------------------------------------------------
/// Appends the characters of `s`.
pub fn push_lit(dst: &mut Vec<char>, s: &str)
    ensures
        final(dst)@ == old(dst)@ + s@,
{
    let cs = chars_of(s);
    extend_chars(dst, cs.as_slice());
}

/// Appends the decimal form of `n`.
pub fn push_decimal(dst: &mut Vec<char>, n: u64)
    ensures
        final(dst)@ == old(dst)@ + decimal(n as nat),
{
    let d = decimal_chars(n);
    extend_chars(dst, d.as_slice());
}

/// At most `max` characters of `text`; a longer text is cut to `max - 3`
/// characters followed by `...`.
pub open spec fn truncate_display_spec(text: Seq<char>, max: nat) -> Seq<char> {
    if text.len() <= max {
        text
    } else {
        text.take(if max >= 3 { max - 3 } else { 0 }) + "..."@
    }
}

pub fn truncate_display(text: &str, max_chars: usize) -> (r: String)
    ensures
        r@ == truncate_display_spec(text@, max_chars as nat),
{
    let chars = chars_of(text);
    if chars.len() <= max_chars {
        return string_from_chars(chars.as_slice());
    }
    let keep: usize = if max_chars >= 3 { max_chars - 3 } else { 0 };
    let mut out = sub_chars(chars.as_slice(), 0, keep);
    push_lit(&mut out, "...");
    string_from_chars(out.as_slice())
}

/// The first `max` characters of `content` trimmed and on one line, with
/// `...` where it was cut.
pub open spec fn preview_spec(content: Seq<char>, max: nat) -> Seq<char> {
    let t = trim(content).map_values(|c: char| if c == '\n' { ' ' } else { c });
    if t.len() <= max {
        t
    } else {
        t.take(max as int) + "..."@
    }
}

pub fn preview_content(content: &str, max_chars: usize) -> (r: String)
    ensures
        r@ == preview_spec(content@, max_chars as nat),
{
    let cs = chars_of(content);
    let t = trim_chars(cs.as_slice());
    let mut flat: Vec<char> = Vec::new();
    let mut i: usize = 0;
    while i < t.len()
        invariant
            i <= t@.len(),
            flat@ == t@.take(i as int).map_values(|c: char| if c == '\n' { ' ' } else { c }),
        decreases t.len() - i,
    {
        let c = t[i];
        flat.push(if c == '\n' { ' ' } else { c });
        i = i + 1;
        assert(t@.take(i as int).map_values(|c: char| if c == '\n' { ' ' } else { c }) =~= t@.take(
            i - 1,
        ).map_values(|c: char| if c == '\n' { ' ' } else { c }).push(if c == '\n' { ' ' } else { c }));
    }
    assert(t@.take(t@.len() as int) == t@);
    if flat.len() <= max_chars {
        return string_from_chars(flat.as_slice());
    }
    let mut out = sub_chars(flat.as_slice(), 0, max_chars);
    push_lit(&mut out, "...");
    string_from_chars(out.as_slice())
}

// ---------------------------------------------------------------------------
// Term and document statistics
// ---------------------------------------------------------------------------
#[derive(Debug, Clone, PartialEq, Eq)]
pub struct TermStat {
    pub term: String,
    pub total_frequency: usize,
    pub document_frequency: usize,
}

#[derive(Debug, Clone, PartialEq, Eq)]
pub struct DocumentStat {
    pub doc_id: usize,
    pub title: String,
    pub path: String,
    pub token_count: usize,
    pub size_bytes: u64,
}

#[derive(Debug, Clone)]
pub struct DocumentInspection {
    pub document: DocumentStat,
    pub top_terms: Vec<TermStat>,
    pub preview: String,
}

/// What a summary of an index holds besides the average document length.
#[derive(Debug, Clone)]
pub struct IndexSummary {
    pub root: String,
    pub document_count: usize,
    pub term_count: usize,
    pub total_tokens: usize,
    pub largest_documents: Vec<DocumentStat>,
    pub top_terms: Vec<TermStat>,
}

/// Whether statistic `a` ranks before `b`: more frequent, then in more
/// documents, then by term.
pub open spec fn term_before(a: TermStat, b: TermStat) -> bool {
    ||| b.total_frequency < a.total_frequency
    ||| b.total_frequency == a.total_frequency && b.document_frequency < a.document_frequency
    ||| b.total_frequency == a.total_frequency && b.document_frequency == a.document_frequency && seq_lt(
        a.term@,
        b.term@,
    )
}

/// The order of the list of terms: most frequent first, then in the most
/// documents, then by term.
pub fn compare_terms(left: &TermStat, right: &TermStat) -> (o: Ordering)
    ensures
        (o == Ordering::Less) == term_before(*left, *right),
        (o == Ordering::Greater) == term_before(*right, *left),
        (o == Ordering::Equal) == (left.total_frequency == right.total_frequency && left.document_frequency
            == right.document_frequency && left.term@ == right.term@),
{
    if right.total_frequency < left.total_frequency {
        return Ordering::Less;
    }
    if left.total_frequency < right.total_frequency {
        return Ordering::Greater;
    }
    if right.document_frequency < left.document_frequency {
        return Ordering::Less;
    }
    if left.document_frequency < right.document_frequency {
        return Ordering::Greater;
    }
    let c = compare_strs(left.term.as_str(), right.term.as_str());
    proof {
        lemma_seq_lt_total(left.term@, right.term@);
        if seq_lt(left.term@, right.term@) {
            lemma_seq_lt_asym(left.term@, right.term@);
        }
        if left.term@ == right.term@ {
            lemma_seq_lt_irrefl(left.term@);
        }
    }
    if c < 0 {
        Ordering::Less
    } else if c > 0 {
        Ordering::Greater
    } else {
        Ordering::Equal
    }
}

impl Ranked for TermStat {
    /// Not after: `compare_terms` is not `Greater`.
    open spec fn spec_le(&self, other: &Self) -> bool {
        !term_before(*other, *self)
    }

    fn le(&self, other: &Self) -> (r: bool) {
        match compare_terms(self, other) {
            Ordering::Greater => false,
            _ => true,
        }
    }

    proof fn lemma_total(a: &Self, b: &Self) {
        lemma_seq_lt_total(a.term@, b.term@);
        if seq_lt(a.term@, b.term@) {
            lemma_seq_lt_asym(a.term@, b.term@);
        }
    }

    proof fn lemma_trans(a: &Self, b: &Self, c: &Self) {
        if a.total_frequency == b.total_frequency && b.total_frequency == c.total_frequency
            && a.document_frequency == b.document_frequency && b.document_frequency
            == c.document_frequency {
            if seq_lt(c.term@, a.term@) {
                lemma_seq_lt_total(b.term@, a.term@);
                lemma_seq_lt_total(c.term@, b.term@);
                if seq_lt(a.term@, b.term@) && seq_lt(b.term@, c.term@) {
                    lemma_seq_lt_trans(a.term@, b.term@, c.term@);
                    lemma_seq_lt_asym(a.term@, c.term@);
                }
            }
        }
    }
}

impl Ranked for DocumentStat {
    /// Most tokens first, then by title.
    open spec fn spec_le(&self, other: &Self) -> bool {
        ||| other.token_count < self.token_count
        ||| other.token_count == self.token_count && !seq_lt(other.title@, self.title@)
    }

    fn le(&self, other: &Self) -> (r: bool) {
        if other.token_count != self.token_count {
            return other.token_count < self.token_count;
        }
        compare_strs(other.title.as_str(), self.title.as_str()) >= 0
    }

    proof fn lemma_total(a: &Self, b: &Self) {
        lemma_seq_lt_total(a.title@, b.title@);
        if seq_lt(a.title@, b.title@) {
            lemma_seq_lt_asym(a.title@, b.title@);
        }
    }

    proof fn lemma_trans(a: &Self, b: &Self, c: &Self) {
        if a.token_count == b.token_count && b.token_count == c.token_count {
            if seq_lt(c.title@, a.title@) {
                lemma_seq_lt_total(b.title@, a.title@);
                lemma_seq_lt_total(c.title@, b.title@);
                if seq_lt(a.title@, b.title@) && seq_lt(b.title@, c.title@) {
                    lemma_seq_lt_trans(a.title@, b.title@, c.title@);
                    lemma_seq_lt_asym(a.title@, c.title@);
                }
            }
        }
    }
}

/// The sum of the frequencies of `ps`.
pub open spec fn total_frequency(ps: Seq<Posting>) -> int
    decreases ps.len(),
{
    if ps.len() == 0 {
        0
    } else {
        total_frequency(ps.drop_last()) + ps.last().frequency
    }
}

/// A statistic as plain values: term, total frequency, document frequency.
pub open spec fn stat_view(s: TermStat) -> (Seq<char>, int, int) {
    (s.term@, s.total_frequency as int, s.document_frequency as int)
}

pub open spec fn stat_views(v: Seq<TermStat>) -> Seq<(Seq<char>, int, int)> {
    v.map_values(|s: TermStat| stat_view(s))
}

/// The statistic of each term of the index, in the index's order.
pub open spec fn term_stats(entries: Seq<TermPostings>) -> Seq<(Seq<char>, int, int)> {
    entries.map_values(
        |e: TermPostings| (e.term@, total_frequency(e.postings@), e.postings@.len() as int),
    )
}

/// `out` is `input` ranked (a stable sort) and cut to `limit`.
pub open spec fn ranked_prefix<T: Ranked>(input: Seq<T>, out: Seq<T>, limit: int) -> bool {
    exists|sorted: Seq<T>|
        stable_sorted(input, sorted) && out == if sorted.len() > limit {
            sorted.take(limit)
        } else {
            sorted
        }
}

/// What a ranked prefix keeps: as many elements as `limit` allows, in
/// rank order, each a different element of the input, and each ranking at
/// least as high as every element of the input it leaves out.
pub proof fn lemma_ranked_prefix<T: Ranked>(input: Seq<T>, out: Seq<T>, limit: int)
    requires
        ranked_prefix(input, out, limit),
        0 <= limit,
    ensures
        out.len() == if input.len() > limit { limit } else { input.len() as int },
        forall|i: int, j: int| 0 <= i < j < out.len() ==> out[i].spec_le(&out[j]),
        exists|q: Seq<int>|
            {
                &&& q.len() == out.len()
                &&& forall|i: int| 0 <= i < out.len() ==> 0 <= #[trigger] q[i] < input.len() && out[i] == input[q[i]]
                &&& forall|i: int, j: int| 0 <= i < j < out.len() ==> q[i] != q[j]
                &&& forall|k: int, i: int|
                    0 <= k < input.len() && !q.contains(k) && 0 <= i < out.len() ==> #[trigger] out[i].spec_le(
                        &#[trigger] input[k],
                    )
            },
{
    let sorted = choose|sorted: Seq<T>|
        stable_sorted(input, sorted) && out == if sorted.len() > limit {
            sorted.take(limit)
        } else {
            sorted
        };
    let p = choose|p: Seq<int>|
        {
            &&& crate::order::is_permutation(p, input.len() as int)
            &&& sorted.len() == input.len()
            &&& forall|k: int| 0 <= k < sorted.len() ==> sorted[k] == input[#[trigger] p[k]]
            &&& forall|k: int, l: int|
                0 <= k < l < sorted.len() ==> #[trigger] sorted[k].spec_le(&sorted[l]) && (
                sorted[l].spec_le(&sorted[k]) ==> p[k] < p[l])
        };
    assert forall|i: int| 0 <= i < out.len() implies out[i] == sorted[i] by {}
    assert forall|i: int, j: int| 0 <= i < j < out.len() implies out[i].spec_le(&out[j]) by {
        assert(sorted[i].spec_le(&sorted[j]));
    }
    let q = p.take(out.len() as int);
    assert forall|i: int| 0 <= i < out.len() implies 0 <= #[trigger] q[i] < input.len() && out[i] == input[q[i]] by {
        assert(q[i] == p[i]);
    }
    assert forall|i: int, j: int| 0 <= i < j < out.len() implies q[i] != q[j] by {
        assert(q[i] == p[i] && q[j] == p[j]);
    }
    assert forall|k: int, i: int|
        0 <= k < input.len() && !q.contains(k) && 0 <= i < out.len() implies #[trigger] out[i].spec_le(
        &#[trigger] input[k],
    ) by {
        crate::order::lemma_permutation_onto(p, input.len() as int, k);
        let m = choose|m: int| 0 <= m < input.len() && p[m] == k;
        if m < out.len() {
            assert(q[m] == k);
            assert(q.contains(k));
        }
        assert(sorted[m] == input[k]);
        assert(sorted[i].spec_le(&sorted[m]));
    }
    assert(q.len() == out.len());
}

/// The most frequent terms: as many as `limit` allows, from the highest
/// total frequency down (then the highest document frequency), each the
/// statistic of a different term, and no term left out is more frequent
/// than one listed.
pub proof fn lemma_most_frequent_terms(stats: Seq<(Seq<char>, int, int)>, s: Seq<TermStat>, out: Seq<TermStat>, limit: int)
    requires
        stat_views(s) == stats,
        ranked_prefix(s, out, limit),
        0 <= limit,
    ensures
        out.len() == if stats.len() > limit { limit } else { stats.len() as int },
        forall|i: int, j: int| 0 <= i < j < out.len() ==> out[j].total_frequency <= out[i].total_frequency,
        forall|i: int, j: int|
            0 <= i < j < out.len() && out[j].total_frequency == out[i].total_frequency
                ==> out[j].document_frequency <= out[i].document_frequency,
        exists|q: Seq<int>|
            {
                &&& q.len() == out.len()
                &&& forall|i: int| 0 <= i < out.len() ==> 0 <= #[trigger] q[i] < stats.len() && stat_view(out[i]) == stats[q[i]]
                &&& forall|i: int, j: int| 0 <= i < j < out.len() ==> q[i] != q[j]
                &&& forall|k: int, i: int|
                    0 <= k < stats.len() && !q.contains(k) && 0 <= i < out.len() ==> #[trigger] stats[k].1
                        <= #[trigger] out[i].total_frequency
            },
{
    lemma_ranked_prefix(s, out, limit);
    assert forall|i: int, j: int| 0 <= i < j < out.len() implies out[j].total_frequency <= out[i].total_frequency by {
        assert(out[i].spec_le(&out[j]));
    }
    assert forall|i: int, j: int|
        0 <= i < j < out.len() && out[j].total_frequency == out[i].total_frequency
            implies out[j].document_frequency <= out[i].document_frequency by {
        assert(out[i].spec_le(&out[j]));
    }
    let q = choose|q: Seq<int>|
        {
            &&& q.len() == out.len()
            &&& forall|i: int| 0 <= i < out.len() ==> 0 <= #[trigger] q[i] < s.len() && out[i] == s[q[i]]
            &&& forall|i: int, j: int| 0 <= i < j < out.len() ==> q[i] != q[j]
            &&& forall|k: int, i: int|
                0 <= k < s.len() && !q.contains(k) && 0 <= i < out.len() ==> #[trigger] out[i].spec_le(
                    &#[trigger] s[k],
                )
        };
    assert forall|i: int| 0 <= i < out.len() implies 0 <= #[trigger] q[i] < stats.len() && stat_view(out[i]) == stats[q[i]] by {
        assert(stats[q[i]] == stat_view(s[q[i]]));
    }
    assert forall|k: int, i: int|
        0 <= k < stats.len() && !q.contains(k) && 0 <= i < out.len() implies #[trigger] stats[k].1
        <= #[trigger] out[i].total_frequency by {
        assert(out[i].spec_le(&s[k]));
        assert(stats[k] == stat_view(s[k]));
    }
}

/// Every term's total frequency fits in `usize`.
pub open spec fn frequencies_fit(entries: Seq<TermPostings>) -> bool {
    forall|i: int| 0 <= i < entries.len() ==> total_frequency(#[trigger] entries[i].postings@) <= usize::MAX
}

fn sum_frequencies(ps: &Vec<Posting>) -> (n: usize)
    requires
        total_frequency(ps@) <= usize::MAX,
    ensures
        n == total_frequency(ps@),
{
    let mut n: usize = 0;
    let mut i: usize = 0;
    while i < ps.len()
        invariant
            i <= ps@.len(),
            total_frequency(ps@) <= usize::MAX,
            n == total_frequency(ps@.take(i as int)),
        decreases ps.len() - i,
    {
        assert(ps@.take(i + 1).drop_last() == ps@.take(i as int));
        proof {
            lemma_total_frequency_prefix(ps@, i + 1);
        }
        n = n + ps[i].frequency;
        i = i + 1;
    }
    assert(ps@.take(ps@.len() as int) == ps@);
    n
}

fn frequency_total_fits(ps: &Vec<Posting>) -> (r: bool)
    ensures
        r == (total_frequency(ps@) <= usize::MAX),
{
    let mut n: usize = 0;
    let mut i: usize = 0;
    while i < ps.len()
        invariant
            i <= ps@.len(),
            n == total_frequency(ps@.take(i as int)),
        decreases ps.len() - i,
    {
        assert(ps@.take(i + 1).drop_last() == ps@.take(i as int));
        let f = ps[i].frequency;
        if n > usize::MAX - f {
            proof {
                lemma_total_frequency_prefix(ps@, i + 1);
            }
            return false;
        }
        n = n + f;
        i = i + 1;
    }
    assert(ps@.take(ps@.len() as int) == ps@);
    true
}

/// Whether every term's total frequency fits in `usize`, as the term
/// statistics need.
pub fn check_frequencies_fit(entries: &Vec<TermPostings>) -> (r: bool)
    ensures
        r == frequencies_fit(entries@),
{
    let mut i: usize = 0;
    while i < entries.len()
        invariant
            i <= entries@.len(),
            forall|j: int| 0 <= j < i ==> total_frequency(#[trigger] entries@[j].postings@) <= usize::MAX,
        decreases entries.len() - i,
    {
        if !frequency_total_fits(&entries[i].postings) {
            return false;
        }
        i = i + 1;
    }
    true
}

proof fn lemma_total_frequency_prefix(ps: Seq<Posting>, k: int)
    requires
        0 <= k <= ps.len(),
    ensures
        total_frequency(ps.take(k)) <= total_frequency(ps),
    decreases ps.len() - k,
{
    if k < ps.len() {
        lemma_total_frequency_prefix(ps, k + 1);
        assert(ps.take(k + 1).drop_last() == ps.take(k));
    } else {
        assert(ps.take(k) == ps);
    }
}

/// `out` holds the `limit` most frequent terms of `entries`.
pub open spec fn top_of(entries: Seq<TermPostings>, out: Seq<TermStat>, limit: int) -> bool {
    exists|s: Seq<TermStat>| stat_views(s) == term_stats(entries) && ranked_prefix(s, out, limit)
}

/// The `limit` most frequent terms of the index.
pub fn top_terms(index: &InvertedIndex, limit: usize) -> (out: Vec<TermStat>)
    requires
        frequencies_fit(index.postings@),
    ensures
        top_of(index.postings@, out@, limit as int),
{
    let mut stats: Vec<TermStat> = Vec::new();
    let mut i: usize = 0;
    while i < index.postings.len()
        invariant
            i <= index.postings@.len(),
            frequencies_fit(index.postings@),
            stat_views(stats@) == term_stats(index.postings@).take(i as int),
        decreases index.postings.len() - i,
    {
        let e = &index.postings[i];
        let total = sum_frequencies(&e.postings);
        let ghost before = stats@;
        stats.push(TermStat { term: e.term.clone(), total_frequency: total, document_frequency: e.postings.len() });
        assert(stat_views(stats@) =~= stat_views(before).push(stat_view(stats@.last())));
        assert(stat_view(stats@.last()) == term_stats(index.postings@)[i as int]);
        assert(term_stats(index.postings@).take(i + 1) =~= term_stats(index.postings@).take(i as int).push(term_stats(index.postings@)[i as int]));
        i = i + 1;
    }
    assert(term_stats(index.postings@).take(index.postings@.len() as int) == term_stats(index.postings@));
    let ghost input = stats@;
    let sorted = stable_sort(stats);
    let ghost full = sorted@;
    let mut out = sorted;
    truncate_to(&mut out, limit);
    assert(ranked_prefix(input, out@, limit as int));
    out
}

/// The statistic of a document.
pub open spec fn document_stat_of(d: Document, s: DocumentStat) -> bool {
    &&& s.doc_id == d.id
    &&& s.title@ == d.title@
    &&& s.path@ == d.path@
    &&& s.token_count == d.token_count
    &&& s.size_bytes == d.size_bytes
}

pub fn document_stat(document: &Document) -> (s: DocumentStat)
    ensures
        document_stat_of(*document, s),
{
    DocumentStat {
        doc_id: document.id,
        title: document.title.clone(),
        path: document.path.clone(),
        token_count: document.token_count,
        size_bytes: document.size_bytes,
    }
}

/// `out` holds the statistics of the `limit` documents of `docs` with the
/// most tokens.
pub open spec fn largest_of(docs: Seq<Document>, out: Seq<DocumentStat>, limit: int) -> bool {
    exists|s: Seq<DocumentStat>|
        s.len() == docs.len() && (forall|i: int| 0 <= i < s.len() ==> document_stat_of(#[trigger] docs[i], s[i]))
            && ranked_prefix(s, out, limit)
}

/// The `limit` documents with the most tokens.
pub fn largest_documents(index: &InvertedIndex, limit: usize) -> (out: Vec<DocumentStat>)
    ensures
        largest_of(index.documents@, out@, limit as int),
{
    let mut stats: Vec<DocumentStat> = Vec::new();
    let mut i: usize = 0;
    while i < index.documents.len()
        invariant
            i <= index.documents@.len(),
            stats@.len() == i,
            forall|k: int| 0 <= k < i ==> document_stat_of(#[trigger] index.documents@[k], stats@[k]),
        decreases index.documents.len() - i,
    {
        stats.push(document_stat(&index.documents[i]));
        i = i + 1;
    }
    let ghost input = stats@;
    let sorted = stable_sort(stats);
    let mut out = sorted;
    truncate_to(&mut out, limit);
    assert(ranked_prefix(input, out@, limit as int));
    out
}

/// The largest documents: as many as `limit` allows, in order of token
/// count from the most down, each the statistic of a different document of
/// the index, and no document left out has more tokens than one listed.
pub proof fn lemma_largest_documents(docs: Seq<Document>, out: Seq<DocumentStat>, limit: int)
    requires
        largest_of(docs, out, limit),
        0 <= limit,
    ensures
        out.len() == if docs.len() > limit { limit } else { docs.len() as int },
        forall|i: int, j: int| 0 <= i < j < out.len() ==> out[j].token_count <= out[i].token_count,
        exists|q: Seq<int>|
            {
                &&& q.len() == out.len()
                &&& forall|i: int| 0 <= i < out.len() ==> 0 <= #[trigger] q[i] < docs.len() && document_stat_of(docs[q[i]], out[i])
                &&& forall|i: int, j: int| 0 <= i < j < out.len() ==> q[i] != q[j]
                &&& forall|k: int, i: int|
                    0 <= k < docs.len() && !q.contains(k) && 0 <= i < out.len() ==> #[trigger] docs[k].token_count
                        <= #[trigger] out[i].token_count
            },
{
    let s = choose|s: Seq<DocumentStat>|
        s.len() == docs.len() && (forall|i: int| 0 <= i < s.len() ==> document_stat_of(#[trigger] docs[i], s[i]))
            && ranked_prefix(s, out, limit);
    let sorted = choose|sorted: Seq<DocumentStat>|
        stable_sorted(s, sorted) && out == if sorted.len() > limit {
            sorted.take(limit)
        } else {
            sorted
        };
    let p = choose|p: Seq<int>|
        {
            &&& crate::order::is_permutation(p, s.len() as int)
            &&& sorted.len() == s.len()
            &&& forall|k: int| 0 <= k < sorted.len() ==> sorted[k] == s[#[trigger] p[k]]
            &&& forall|k: int, l: int|
                0 <= k < l < sorted.len() ==> #[trigger] sorted[k].spec_le(&sorted[l]) && (
                sorted[l].spec_le(&sorted[k]) ==> p[k] < p[l])
        };
    assert forall|i: int| 0 <= i < out.len() implies out[i] == sorted[i] by {}
    assert forall|i: int, j: int| 0 <= i < j < out.len() implies out[j].token_count <= out[i].token_count by {
        assert(sorted[i].spec_le(&sorted[j]));
    }
    let q = p.take(out.len() as int);
    assert forall|i: int| 0 <= i < out.len() implies 0 <= #[trigger] q[i] < docs.len() && document_stat_of(
        docs[q[i]],
        out[i],
    ) by {
        assert(q[i] == p[i]);
        assert(sorted[i] == s[p[i]]);
    }
    assert forall|i: int, j: int| 0 <= i < j < out.len() implies q[i] != q[j] by {
        assert(q[i] == p[i] && q[j] == p[j]);
    }
    assert forall|k: int, i: int|
        0 <= k < docs.len() && !q.contains(k) && 0 <= i < out.len() implies #[trigger] docs[k].token_count
        <= #[trigger] out[i].token_count by {
        crate::order::lemma_permutation_onto(p, s.len() as int, k);
        let m = choose|m: int| 0 <= m < s.len() && p[m] == k;
        if m < out.len() {
            assert(q[m] == k);
            assert(q.contains(k));
        }
        assert(sorted[m] == s[k]);
        assert(sorted[i].spec_le(&sorted[m]));
    }
    assert(q.len() == out.len());
}

/// The first posting of `ps` for document `x`.
pub open spec fn first_posting(ps: Seq<Posting>, x: usize) -> Option<Posting>
    decreases ps.len(),
{
    if ps.len() == 0 {
        None
    } else {
        match first_posting(ps.drop_last(), x) {
            Some(p) => Some(p),
            None => if ps.last().doc_id == x {
                Some(ps.last())
            } else {
                None
            },
        }
    }
}

/// For each term with a posting for document `x`, in the index's order:
/// the term, the frequency of its first such posting, and 1.
pub open spec fn doc_term_stats(entries: Seq<TermPostings>, x: usize) -> Seq<(Seq<char>, int, int)>
    decreases entries.len(),
{
    if entries.len() == 0 {
        Seq::empty()
    } else {
        match first_posting(entries.last().postings@, x) {
            Some(p) => doc_term_stats(entries.drop_last(), x).push((entries.last().term@, p.frequency as int, 1)),
            None => doc_term_stats(entries.drop_last(), x),
        }
    }
}

fn find_posting(ps: &Vec<Posting>, x: usize) -> (r: Option<usize>)
    ensures
        match r {
            Some(i) => i < ps@.len() && first_posting(ps@, x) == Some(ps@[i as int]),
            None => first_posting(ps@, x) is None,
        },
{
    let mut i: usize = 0;
    while i < ps.len()
        invariant
            i <= ps@.len(),
            first_posting(ps@.take(i as int), x) is None,
        decreases ps.len() - i,
    {
        assert(ps@.take(i + 1).drop_last() == ps@.take(i as int));
        if ps[i].doc_id == x {
            proof {
                lemma_first_posting_extend(ps@, x, i as int + 1);
            }
            return Some(i);
        }
        i = i + 1;
    }
    assert(ps@.take(ps@.len() as int) == ps@);
    None
}

proof fn lemma_first_posting_extend(ps: Seq<Posting>, x: usize, k: int)
    requires
        0 < k <= ps.len(),
        first_posting(ps.take(k), x) is Some,
    ensures
        first_posting(ps, x) == first_posting(ps.take(k), x),
    decreases ps.len() - k,
{
    if k < ps.len() {
        assert(ps.take(k + 1).drop_last() == ps.take(k));
        lemma_first_posting_extend(ps, x, k + 1);
    } else {
        assert(ps.take(k) == ps);
    }
}

/// The `limit` most frequent terms of document `doc_id`.
pub fn document_top_terms(index: &InvertedIndex, doc_id: usize, limit: usize) -> (out: Vec<TermStat>)
    ensures
        exists|s: Seq<TermStat>| stat_views(s) == doc_term_stats(index.postings@, doc_id) && ranked_prefix(s, out@, limit as int),
{
    let mut stats: Vec<TermStat> = Vec::new();
    let mut i: usize = 0;
    while i < index.postings.len()
        invariant
            i <= index.postings@.len(),
            stat_views(stats@) == doc_term_stats(index.postings@.take(i as int), doc_id),
        decreases index.postings.len() - i,
    {
        let e = &index.postings[i];
        assert(index.postings@.take(i + 1).drop_last() == index.postings@.take(i as int));
        assert(index.postings@.take(i + 1).last() == *e);
        match find_posting(&e.postings, doc_id) {
            Some(q) => {
                let ghost before = stats@;
                stats.push(TermStat { term: e.term.clone(), total_frequency: e.postings[q].frequency, document_frequency: 1 });
                assert(stat_views(stats@) =~= stat_views(before).push(stat_view(stats@.last())));
            },
            None => {},
        }
        i = i + 1;
    }
    assert(index.postings@.take(index.postings@.len() as int) == index.postings@);
    let ghost input = stats@;
    let sorted = stable_sort(stats);
    let mut out = sorted;
    truncate_to(&mut out, limit);
    assert(ranked_prefix(input, out@, limit as int));
    out
}

// ---------------------------------------------------------------------------
// Summaries, inspections and their text
// ---------------------------------------------------------------------------
/// A summary of the index: its counts, its `limit` largest documents and
/// its `limit` most frequent terms.
pub fn summarize_index(index: &InvertedIndex, limit: usize) -> (s: IndexSummary)
    requires
        frequencies_fit(index.postings@),
    ensures
        s.root@ == index.metadata.root@,
        s.document_count == index.metadata.document_count,
        s.term_count == index.metadata.term_count,
        s.total_tokens == index.metadata.total_tokens,
        largest_of(index.documents@, s.largest_documents@, limit as int),
        top_of(index.postings@, s.top_terms@, limit as int),
{
    IndexSummary {
        root: index.metadata.root.clone(),
        document_count: index.metadata.document_count,
        term_count: index.metadata.term_count,
        total_tokens: index.metadata.total_tokens,
        largest_documents: largest_documents(index, limit),
        top_terms: top_terms(index, limit),
    }
}

/// The message of the error for a missing document.
pub open spec fn missing_document(doc_id: usize) -> Seq<char> {
    "document id "@ + decimal(doc_id as nat)
}

/// Characters of the preview of an inspected document.
pub open spec fn preview_length() -> nat {
    300
}

/// The document with id `doc_id` in detail: its statistic, its
/// `term_limit` most frequent terms and a preview of its text; an error
/// where there is no such document.
pub fn inspect_document(index: &InvertedIndex, doc_id: usize, term_limit: usize) -> (r: Result<DocumentInspection, AppError>)
    ensures
        match r {
            Ok(ins) => match document_position(index.documents@, doc_id) {
                Some(i) => {
                    &&& document_stat_of(index.documents@[i], ins.document)
                    &&& exists|s: Seq<TermStat>| stat_views(s) == doc_term_stats(index.postings@, doc_id) && ranked_prefix(s, ins.top_terms@, term_limit as int)
                    &&& ins.preview@ == preview_spec(index.documents@[i].content@, preview_length())
                },
                None => false,
            },
            Err(e) => document_position(index.documents@, doc_id) is None && (e matches AppError::MissingPath(m) && m@ == missing_document(doc_id)),
        },
{
    match index.document(doc_id) {
        Some(document) => Ok(
            DocumentInspection {
                document: document_stat(document),
                top_terms: document_top_terms(index, doc_id, term_limit),
                preview: preview_content(document.content.as_str(), 300),
            },
        ),
        None => {
            let mut msg: Vec<char> = Vec::new();
            push_lit(&mut msg, "document id ");
            push_decimal(&mut msg, doc_id as u64);
            Err(AppError::MissingPath(string_from_chars(msg.as_slice())))
        },
    }
}

/// One line of a list of terms, for the term at rank `k + 1`.
pub open spec fn term_line(k: int, t: TermStat) -> Seq<char> {
    "  "@ + pad_start(decimal((k + 1) as nat), 2) + ". "@ + pad_end(truncate_display_spec(t.term@, 18), 18)
        + " freq="@ + pad_end(decimal(t.total_frequency as nat), 4) + " docs="@ + decimal(
        t.document_frequency as nat,
    ) + "\n"@
}

pub open spec fn term_lines(ts: Seq<TermStat>) -> Seq<char>
    decreases ts.len(),
{
    if ts.len() == 0 {
        Seq::empty()
    } else {
        term_lines(ts.drop_last()) + term_line(ts.len() - 1, ts.last())
    }
}

/// The list of terms as text, one ranked line each.
pub open spec fn terms_text(ts: Seq<TermStat>) -> Seq<char> {
    if ts.len() == 0 {
        "  (none)\n"@
    } else {
        term_lines(ts)
    }
}

fn push_term_line(out: &mut Vec<char>, k: usize, t: &TermStat)
    requires
        k < usize::MAX,
    ensures
        final(out)@ == old(out)@ + term_line(k as int, *t),
{
    let ghost o = out@;
    push_lit(out, "  ");
    let rank = decimal_chars((k + 1) as u64);
    push_padded_start(out, rank.as_slice(), 2);
    push_lit(out, ". ");
    let name = truncate_display(t.term.as_str(), 18);
    let nc = chars_of(name.as_str());
    push_padded_end(out, nc.as_slice(), 18);
    push_lit(out, " freq=");
    let f = decimal_chars(t.total_frequency as u64);
    push_padded_end(out, f.as_slice(), 4);
    push_lit(out, " docs=");
    push_decimal(out, t.document_frequency as u64);
    push_lit(out, "\n");
    assert(out@ =~= o + term_line(k as int, *t));
}

pub fn format_terms(terms: &[TermStat]) -> (r: String)
    ensures
        r@ == terms_text(terms@),
{
    if terms.len() == 0 {
        let mut out: Vec<char> = Vec::new();
        push_lit(&mut out, "  (none)\n");
        assert(out@ =~= "  (none)\n"@);
        return string_from_chars(out.as_slice());
    }
    let mut out: Vec<char> = Vec::new();
    let mut k: usize = 0;
    assert(terms@.take(0) == Seq::<TermStat>::empty());
    while k < terms.len()
        invariant
            k <= terms@.len(),
            out@ == term_lines(terms@.take(k as int)),
        decreases terms.len() - k,
    {
        assert(terms@.take(k + 1).drop_last() == terms@.take(k as int));
        push_term_line(&mut out, k, &terms[k]);
        k = k + 1;
    }
    assert(terms@.take(terms@.len() as int) == terms@);
    string_from_chars(out.as_slice())
}

pub open spec fn inspection_text(ins: DocumentInspection) -> Seq<char> {
    "Document #"@ + decimal(ins.document.doc_id as nat) + "\n"@ + "Title: "@ + ins.document.title@ + "\n"@
        + "Path: "@ + ins.document.path@ + "\n"@ + "Tokens: "@ + decimal(ins.document.token_count as nat)
        + "\n"@ + "Size: "@ + decimal(ins.document.size_bytes as nat) + " bytes\n"@
        + "\nTop terms in document:\n"@ + terms_text(ins.top_terms@) + "\nPreview:\n"@ + ins.preview@ + "\n"@
}

pub fn format_inspection(inspection: &DocumentInspection) -> (r: String)
    ensures
        r@ == inspection_text(*inspection),
{
    let mut out: Vec<char> = Vec::new();
    push_lit(&mut out, "Document #");
    push_decimal(&mut out, inspection.document.doc_id as u64);
    push_lit(&mut out, "\n");
    push_lit(&mut out, "Title: ");
    push_lit(&mut out, inspection.document.title.as_str());
    push_lit(&mut out, "\n");
    push_lit(&mut out, "Path: ");
    push_lit(&mut out, inspection.document.path.as_str());
    push_lit(&mut out, "\n");
    push_lit(&mut out, "Tokens: ");
    push_decimal(&mut out, inspection.document.token_count as u64);
    push_lit(&mut out, "\n");
    push_lit(&mut out, "Size: ");
    push_decimal(&mut out, inspection.document.size_bytes);
    push_lit(&mut out, " bytes\n");
    push_lit(&mut out, "\nTop terms in document:\n");
    let terms = format_terms(inspection.top_terms.as_slice());
    push_lit(&mut out, terms.as_str());
    push_lit(&mut out, "\nPreview:\n");
    push_lit(&mut out, inspection.preview.as_str());
    push_lit(&mut out, "\n");
    assert(out@ =~= inspection_text(*inspection));
    string_from_chars(out.as_slice())
}

/// One line of the list of largest documents.
pub open spec fn document_line(d: DocumentStat) -> Seq<char> {
    "  #"@ + pad_end(decimal(d.doc_id as nat), 3) + " "@ + pad_end(truncate_display_spec(d.title@, 28), 28)
        + " "@ + pad_start(decimal(d.token_count as nat), 5) + " tokens  "@ + d.path@ + "\n"@
}

pub open spec fn document_lines(ds: Seq<DocumentStat>) -> Seq<char>
    decreases ds.len(),
{
    if ds.len() == 0 {
        Seq::empty()
    } else {
        document_lines(ds.drop_last()) + document_line(ds.last())
    }
}

/// The summary as text; `average` is the average number of tokens per
/// document, already written with two decimals.
pub open spec fn summary_text(s: IndexSummary, average: Seq<char>) -> Seq<char> {
    "Root: "@ + s.root@ + "\n"@ + "Documents: "@ + decimal(s.document_count as nat) + "\n"@ + "Terms: "@
        + decimal(s.term_count as nat) + "\n"@ + "Total tokens: "@ + decimal(s.total_tokens as nat) + "\n"@
        + "Average tokens/document: "@ + average + "\n"@ + "\nLargest documents:\n"@ + (if s.largest_documents@.len()
        == 0 {
        "  (none)\n"@
    } else {
        document_lines(s.largest_documents@)
    }) + "\nTop terms:\n"@ + terms_text(s.top_terms@)
}

fn push_document_line(out: &mut Vec<char>, d: &DocumentStat)
    ensures
        final(out)@ == old(out)@ + document_line(*d),
{
    let ghost o = out@;
    push_lit(out, "  #");
    let id = decimal_chars(d.doc_id as u64);
    push_padded_end(out, id.as_slice(), 3);
    push_lit(out, " ");
    let title = truncate_display(d.title.as_str(), 28);
    let tc = chars_of(title.as_str());
    push_padded_end(out, tc.as_slice(), 28);
    push_lit(out, " ");
    let n = decimal_chars(d.token_count as u64);
    push_padded_start(out, n.as_slice(), 5);
    push_lit(out, " tokens  ");
    push_lit(out, d.path.as_str());
    push_lit(out, "\n");
    assert(out@ =~= o + document_line(*d));
}

pub fn format_summary(summary: &IndexSummary, average: &str) -> (r: String)
    ensures
        r@ == summary_text(*summary, average@),
{
    let mut out: Vec<char> = Vec::new();
    push_lit(&mut out, "Root: ");
    push_lit(&mut out, summary.root.as_str());
    push_lit(&mut out, "\n");
    push_lit(&mut out, "Documents: ");
    push_decimal(&mut out, summary.document_count as u64);
    push_lit(&mut out, "\n");
    push_lit(&mut out, "Terms: ");
    push_decimal(&mut out, summary.term_count as u64);
    push_lit(&mut out, "\n");
    push_lit(&mut out, "Total tokens: ");
    push_decimal(&mut out, summary.total_tokens as u64);
    push_lit(&mut out, "\n");
    push_lit(&mut out, "Average tokens/document: ");
    push_lit(&mut out, average);
    push_lit(&mut out, "\n");
    push_lit(&mut out, "\nLargest documents:\n");
    let ghost head = out@;
    let docs = &summary.largest_documents;
    if docs.len() == 0 {
        push_lit(&mut out, "  (none)\n");
    } else {
        let mut k: usize = 0;
        assert(docs@.take(0) == Seq::<DocumentStat>::empty());
        assert(head + document_lines(docs@.take(0)) == head);
        while k < docs.len()
            invariant
                k <= docs@.len(),
                out@ == head + document_lines(docs@.take(k as int)),
            decreases docs.len() - k,
        {
            assert(docs@.take(k + 1).drop_last() == docs@.take(k as int));
            let ghost before = out@;
            push_document_line(&mut out, &docs[k]);
            k = k + 1;
            assert(out@ =~= head + document_lines(docs@.take(k as int)));
        }
        assert(docs@.take(docs@.len() as int) == docs@);
    }
    push_lit(&mut out, "\nTop terms:\n");
    let terms = format_terms(summary.top_terms.as_slice());
    push_lit(&mut out, terms.as_str());
    assert(out@ =~= summary_text(*summary, average@));
    string_from_chars(out.as_slice())
}

} // verus!
