//! Chunks of documents for the vector store, their point ids and pages, and
//! the matches made of vector hits.
use vstd::prelude::*;
use crate::analysis::push_lit;
use crate::engine::{doc_postings, token_texts};
use crate::model::{
    Document, IndexedOccurrence, InvertedIndex, Posting, SearchMatch, TermPostings, file_type_name, token_views,
};
use crate::parser::Tokenizer;
use crate::search::{newline_to_space, term_views};
use crate::text::{chars_of, extend_chars, string_from_chars, sub_chars};

verus! {

/// Characters per chunk.
pub const CHUNK_SIZE: usize = 700;

/// Characters shared by consecutive chunks.
pub const CHUNK_OVERLAP: usize = 100;

/// Points sent to the vector store per request.
pub const UPSERT_BATCH_SIZE: usize = 64;

/// The character ranges of the chunks of a text of `len` characters, from
/// character `start` on: each at most `CHUNK_SIZE` long, the next one
/// starting `CHUNK_OVERLAP` characters before the end of the previous (but
/// always after its start).
pub open spec fn chunk_ranges(len: int, start: int) -> Seq<(int, int)>
    decreases len - start,
{
    if start < 0 || start >= len {
        Seq::empty()
    } else {
        let end = if start + CHUNK_SIZE < len { start + CHUNK_SIZE } else { len };
        if end == len {
            seq![(start, end)]
        } else {
            let back = if end >= CHUNK_OVERLAP { end - CHUNK_OVERLAP } else { 0 };
            let next = if back > start + 1 { back } else { start + 1 };
            seq![(start, end)] + chunk_ranges(len, next)
        }
    }
}

/// The chunks from `start` on cover the rest of the text without gaps.
proof fn lemma_chunk_ranges(len: int, start: int)
    requires
        0 <= start < len,
    ensures
        ({
            let r = chunk_ranges(len, start);
            &&& r.len() > 0
            &&& r[0].0 == start
            &&& r.last().1 == len
            &&& forall|k: int| 0 <= k < r.len() ==> 0 <= (#[trigger] r[k]).0 < r[k].1 <= len && r[k].1 - r[k].0 <= CHUNK_SIZE
            &&& forall|k: int| 0 <= k < r.len() - 1 ==> (#[trigger] r[k]).0 < r[k + 1].0 <= r[k].1
        }),
    decreases len - start,
{
    let end = if start + CHUNK_SIZE < len { start + CHUNK_SIZE } else { len };
    if end != len {
        let back = if end >= CHUNK_OVERLAP { end - CHUNK_OVERLAP } else { 0 };
        let next = if back > start + 1 { back } else { start + 1 };
        lemma_chunk_ranges(len, next);
        let rest = chunk_ranges(len, next);
        let r = chunk_ranges(len, start);
        assert(r == seq![(start, end)] + rest);
        assert forall|k: int| 0 <= k < r.len() implies 0 <= (#[trigger] r[k]).0 < r[k].1 <= len && r[k].1 - r[k].0 <= CHUNK_SIZE by {
            if k > 0 {
                assert(r[k] == rest[k - 1]);
            }
        }
        assert forall|k: int| 0 <= k < r.len() - 1 implies (#[trigger] r[k]).0 < r[k + 1].0 <= r[k].1 by {
            if k > 0 {
                assert(r[k] == rest[k - 1]);
                assert(r[k + 1] == rest[k]);
            } else {
                assert(r[1] == rest[0]);
            }
        }
        assert(r.last() == rest.last());
    }
}

/// The chunks of a non-empty text cover it without gaps: the first starts
/// at its first character and the last ends at its end; each holds at
/// least one and at most `CHUNK_SIZE` characters; and each starts after the
/// start of the one before and no later than its end, so consecutive chunks
/// share at most `CHUNK_OVERLAP` characters.
pub proof fn lemma_chunks_cover_text(text: Seq<char>)
    requires
        text.len() > 0,
    ensures
        ({
            let r = chunk_ranges(text.len() as int, 0);
            &&& r.len() > 0
            &&& r[0].0 == 0
            &&& r.last().1 == text.len()
            &&& forall|k: int| 0 <= k < r.len() ==> 0 <= (#[trigger] r[k]).0 < r[k].1 <= text.len() && r[k].1 - r[k].0 <= CHUNK_SIZE
            &&& forall|k: int| 0 <= k < r.len() - 1 ==> (#[trigger] r[k]).0 < r[k + 1].0 <= r[k].1 && r[k].1 - r[k + 1].0 <= CHUNK_OVERLAP
        }),
{
    lemma_chunk_ranges(text.len() as int, 0);
    lemma_chunk_overlap(text.len() as int, 0);
}

proof fn lemma_chunk_overlap(len: int, start: int)
    requires
        0 <= start < len,
    ensures
        forall|k: int| 0 <= k < chunk_ranges(len, start).len() - 1 ==> (#[trigger] chunk_ranges(len, start)[k]).1 - chunk_ranges(len, start)[k + 1].0 <= CHUNK_OVERLAP,
    decreases len - start,
{
    let end = if start + CHUNK_SIZE < len { start + CHUNK_SIZE } else { len };
    if end != len {
        let back = if end >= CHUNK_OVERLAP { end - CHUNK_OVERLAP } else { 0 };
        let next = if back > start + 1 { back } else { start + 1 };
        lemma_chunk_overlap(len, next);
        lemma_chunk_ranges(len, next);
        let rest = chunk_ranges(len, next);
        let r = chunk_ranges(len, start);
        assert(r == seq![(start, end)] + rest);
        assert forall|k: int| 0 <= k < r.len() - 1 implies (#[trigger] r[k]).1 - r[k + 1].0 <= CHUNK_OVERLAP by {
            if k > 0 {
                assert(r[k] == rest[k - 1]);
                assert(r[k + 1] == rest[k]);
            } else {
                assert(r[1] == rest[0]);
            }
        }
    }
}

/// A chunk as plain values: its text and its character range.
pub open spec fn chunk_view(c: (String, usize, usize)) -> (Seq<char>, int, int) {
    (c.0@, c.1 as int, c.2 as int)
}

/// The chunks of `text`: its characters over each range.
pub open spec fn chunks_spec(text: Seq<char>) -> Seq<(Seq<char>, int, int)> {
    chunk_ranges(text.len() as int, 0).map_values(
        |r: (int, int)| (text.subrange(r.0, r.1), r.0, r.1),
    )
}

/// Splits `text` into overlapping chunks of at most `CHUNK_SIZE`
/// characters, each with its character range.
pub fn split_text_into_chunks(text: &str) -> (out: Vec<(String, usize, usize)>)
    ensures
        out@.map_values(|c: (String, usize, usize)| chunk_view(c)) == chunks_spec(text@),
{
    let chars = chars_of(text);
    let mut out: Vec<(String, usize, usize)> = Vec::new();
    if chars.len() == 0 {
        assert(out@.map_values(|c: (String, usize, usize)| chunk_view(c)) =~= chunks_spec(text@));
        return out;
    }
    let ghost len = chars@.len() as int;
    let ghost all = chunk_ranges(len, 0);
    let mut start: usize = 0;
    assert(all == Seq::<(int, int)>::empty() + chunk_ranges(len, 0));
    loop
        invariant_except_break
            start < chars@.len(),
            all == out@.map_values(|c: (String, usize, usize)| (c.1 as int, c.2 as int)) + chunk_ranges(
                len,
                start as int,
            ),
        invariant
            chars@ == text@,
            len == chars@.len(),
            all == chunk_ranges(len, 0),
            forall|k: int|
                0 <= k < out@.len() ==> (#[trigger] out@[k]).0@ == chars@.subrange(out@[k].1 as int, out@[k].2 as int)
                    && out@[k].1 <= out@[k].2 <= chars@.len(),
        ensures
            all == out@.map_values(|c: (String, usize, usize)| (c.1 as int, c.2 as int)),
        decreases chars@.len() - start,
    {
        let end: usize = if CHUNK_SIZE < chars.len() - start { start + CHUNK_SIZE } else { chars.len() };
        let piece = sub_chars(chars.as_slice(), start, end);
        let ghost before = out@;
        out.push((string_from_chars(piece.as_slice()), start, end));
        let ghost rest = chunk_ranges(len, start as int);
        if end == chars.len() {
            assert(rest == seq![(start as int, end as int)]);
            assert(out@.map_values(|c: (String, usize, usize)| (c.1 as int, c.2 as int)) =~= before.map_values(
                |c: (String, usize, usize)| (c.1 as int, c.2 as int),
            ).push((start as int, end as int)));
            assert(all =~= out@.map_values(|c: (String, usize, usize)| (c.1 as int, c.2 as int)));
            break;
        }
        let back: usize = if end >= CHUNK_OVERLAP { end - CHUNK_OVERLAP } else { 0 };
        let next: usize = if back > start + 1 { back } else { start + 1 };
        assert(rest == seq![(start as int, end as int)] + chunk_ranges(len, next as int));
        assert(out@.map_values(|c: (String, usize, usize)| (c.1 as int, c.2 as int)) =~= before.map_values(
            |c: (String, usize, usize)| (c.1 as int, c.2 as int),
        ).push((start as int, end as int)));
        assert(all =~= out@.map_values(|c: (String, usize, usize)| (c.1 as int, c.2 as int)) + chunk_ranges(len, next as int));
        start = next;
    }
    proof {
        let ranges = out@.map_values(|c: (String, usize, usize)| (c.1 as int, c.2 as int));
        assert(ranges == all);
        assert(out@.map_values(|c: (String, usize, usize)| chunk_view(c)) =~= chunks_spec(text@)) by {
            assert forall|k: int| 0 <= k < out@.len() implies out@.map_values(|c: (String, usize, usize)| chunk_view(c))[k]
                == chunks_spec(text@)[k] by {
                assert(ranges[k] == all[k]);
            }
        }
    }
    out
}

/// The id of chunk `chunk_id` of document `doc_id` in the vector store.
pub fn point_id(doc_id: usize, chunk_id: usize) -> (id: u64)
    requires
        doc_id * 1_000_000 + chunk_id <= u64::MAX,
    ensures
        id == doc_id * 1_000_000 + chunk_id,
{
    (doc_id as u64) * 1_000_000 + chunk_id as u64
}

/// `point_id` where the id fits in `u64`, else `None`.
pub fn point_id_checked(doc_id: usize, chunk_id: usize) -> (r: Option<u64>)
    ensures
        match r {
            Some(id) => id == doc_id * 1_000_000 + chunk_id,
            None => doc_id * 1_000_000 + chunk_id > u64::MAX,
        },
{
    let d = doc_id as u64;
    let c = chunk_id as u64;
    if d > (u64::MAX - c) / 1_000_000 {
        assert(d * 1_000_000 + c > u64::MAX) by (nonlinear_arith)
            requires
                d > (u64::MAX - c) / 1_000_000,
                c <= u64::MAX,
        ;
        None
    } else {
        assert(d * 1_000_000 + c <= u64::MAX) by (nonlinear_arith)
            requires
                d <= (u64::MAX - c) / 1_000_000,
                c <= u64::MAX,
        ;
        Some(point_id(doc_id, chunk_id))
    }
}

// ---------------------------------------------------------------------------
// Pages of chunks
// ---------------------------------------------------------------------------
/// The occurrences recorded in the postings `ps`, in order.
pub open spec fn posting_occurrences(ps: Seq<Posting>) -> Seq<IndexedOccurrence>
    decreases ps.len(),
{
    if ps.len() == 0 {
        Seq::empty()
    } else {
        posting_occurrences(ps.drop_last()) + ps.last().occurrences@
    }
}

/// The occurrences of every term in document `x`, term after term.
pub open spec fn doc_occurrences(entries: Seq<TermPostings>, x: usize) -> Seq<IndexedOccurrence>
    decreases entries.len(),
{
    if entries.len() == 0 {
        Seq::empty()
    } else {
        doc_occurrences(entries.drop_last(), x) + posting_occurrences(doc_postings(entries.last().postings@, x))
    }
}

/// Whether occurrence `o` has a page and starts within `start..=end`.
pub open spec fn in_range(o: IndexedOccurrence, start: usize, end: usize) -> bool {
    o.page is Some && start <= o.char_start && o.char_start <= end
}

/// The page of the first of `os` that is in the range.
pub open spec fn first_page(os: Seq<IndexedOccurrence>, start: usize, end: usize) -> Option<u32>
    decreases os.len(),
{
    if os.len() == 0 {
        None
    } else if in_range(os[0], start, end) {
        os[0].page
    } else {
        first_page(os.drop_first(), start, end)
    }
}

proof fn lemma_first_page_append(a: Seq<IndexedOccurrence>, b: Seq<IndexedOccurrence>, start: usize, end: usize)
    ensures
        first_page(a + b, start, end) == match first_page(a, start, end) {
            Some(p) => Some(p),
            None => first_page(b, start, end),
        },
    decreases a.len(),
{
    if a.len() > 0 {
        assert((a + b).drop_first() == a.drop_first() + b);
        assert((a + b)[0] == a[0]);
        lemma_first_page_append(a.drop_first(), b, start, end);
    } else {
        assert(a + b == b);
    }
}

proof fn lemma_first_page_in_range(os: Seq<IndexedOccurrence>, start: usize, end: usize)
    ensures
        first_page(os, start, end) is Some <==> exists|k: int| 0 <= k < os.len() && in_range(#[trigger] os[k], start, end),
    decreases os.len(),
{
    if os.len() > 0 {
        lemma_first_page_in_range(os.drop_first(), start, end);
        if exists|k: int| 0 <= k < os.len() && in_range(#[trigger] os[k], start, end) {
            let k = choose|k: int| 0 <= k < os.len() && in_range(#[trigger] os[k], start, end);
            if k > 0 {
                assert(os.drop_first()[k - 1] == os[k]);
            }
        }
        if exists|k: int| 0 <= k < os.drop_first().len() && in_range(#[trigger] os.drop_first()[k], start, end) {
            let k = choose|k: int| 0 <= k < os.drop_first().len() && in_range(#[trigger] os.drop_first()[k], start, end);
            assert(os[k + 1] == os.drop_first()[k]);
        }
    }
}

/// The first occurrence of `os` in the range, searched from the front.
fn first_page_of(os: &Vec<IndexedOccurrence>, start: usize, end: usize) -> (r: Option<u32>)
    ensures
        r == first_page(os@, start, end),
{
    let mut i: usize = 0;
    assert(os@.skip(0) == os@);
    while i < os.len()
        invariant
            i <= os@.len(),
            first_page(os@, start, end) == first_page(os@.skip(i as int), start, end),
        decreases os.len() - i,
    {
        assert(os@.skip(i as int)[0] == os@[i as int]);
        assert(os@.skip(i as int).drop_first() == os@.skip(i + 1));
        let o = os[i];
        if o.page.is_some() && start <= o.char_start && o.char_start <= end {
            return o.page;
        }
        i = i + 1;
    }
    None
}

/// The page of the first occurrence (in term order) of document `doc_id`
/// that has a page and starts within `start_char..=end_char`.
pub fn page_for_range(index: &InvertedIndex, doc_id: usize, start_char: usize, end_char: usize) -> (r: Option<u32>)
    ensures
        r == first_page(doc_occurrences(index.postings@, doc_id), start_char, end_char),
{
    let entries = &index.postings;
    let mut i: usize = 0;
    assert(entries@.take(0) == Seq::<TermPostings>::empty());
    while i < entries.len()
        invariant
            i <= entries@.len(),
            entries@ == index.postings@,
            first_page(doc_occurrences(entries@.take(i as int), doc_id), start_char, end_char) is None,
        decreases entries.len() - i,
    {
        let ps = &entries[i].postings;
        assert(entries@.take(i + 1).drop_last() == entries@.take(i as int));
        assert(entries@.take(i + 1).last() == entries@[i as int]);
        let ghost prefix = doc_occurrences(entries@.take(i as int), doc_id);
        let mut j: usize = 0;
        assert(ps@.take(0) == Seq::<Posting>::empty());
        assert(prefix + posting_occurrences(doc_postings(ps@.take(0), doc_id)) == prefix);
        while j < ps.len()
            invariant
                j <= ps@.len(),
                entries@ == index.postings@,
                i < entries@.len(),
                ps@ == entries@[i as int].postings@,
                prefix == doc_occurrences(entries@.take(i as int), doc_id),
                first_page(prefix + posting_occurrences(doc_postings(ps@.take(j as int), doc_id)), start_char, end_char) is None,
            decreases ps.len() - j,
        {
            assert(ps@.take(j + 1).drop_last() == ps@.take(j as int));
            assert(ps@.take(j + 1).last() == ps@[j as int]);
            let ghost cur = prefix + posting_occurrences(doc_postings(ps@.take(j as int), doc_id));
            if ps[j].doc_id == doc_id {
                let p = first_page_of(&ps[j].occurrences, start_char, end_char);
                let ghost dp = doc_postings(ps@.take(j as int), doc_id);
                assert(doc_postings(ps@.take(j + 1), doc_id) == dp.push(ps@[j as int]));
                assert(dp.push(ps@[j as int]).drop_last() == dp);
                assert(posting_occurrences(dp.push(ps@[j as int])) == posting_occurrences(dp) + ps@[j as int].occurrences@);
                assert(prefix + posting_occurrences(doc_postings(ps@.take(j + 1), doc_id)) =~= cur + ps@[j as int].occurrences@);
                proof {
                    lemma_first_page_append(cur, ps@[j as int].occurrences@, start_char, end_char);
                }
                if p.is_some() {
                    proof {
                        assert(first_page(cur, start_char, end_char) is None);
                        assert(first_page(cur + ps@[j as int].occurrences@, start_char, end_char) == p);
                        assert(first_page(prefix + posting_occurrences(doc_postings(ps@.take(j + 1), doc_id)), start_char, end_char) == p);
                        lemma_page_rest(entries@, i as int, ps@, j as int, doc_id, start_char, end_char);
                        assert(entries@ == index.postings@);
                    }
                    return p;
                }
            } else {
                assert(doc_postings(ps@.take(j + 1), doc_id) == doc_postings(ps@.take(j as int), doc_id));
            }
            j = j + 1;
        }
        assert(ps@.take(ps@.len() as int) == ps@);
        assert(doc_occurrences(entries@.take(i + 1), doc_id) == prefix + posting_occurrences(doc_postings(ps@, doc_id)));
        i = i + 1;
    }
    assert(entries@.take(entries@.len() as int) == entries@);
    None
}

proof fn lemma_posting_occurrences_append(a: Seq<Posting>, b: Seq<Posting>)
    ensures
        posting_occurrences(a + b) == posting_occurrences(a) + posting_occurrences(b),
    decreases b.len(),
{
    if b.len() == 0 {
        assert(a + b == a);
        assert(posting_occurrences(a) + Seq::<IndexedOccurrence>::empty() == posting_occurrences(a));
    } else {
        assert((a + b).drop_last() == a + b.drop_last());
        lemma_posting_occurrences_append(a, b.drop_last());
    }
}

proof fn lemma_doc_postings_append(a: Seq<Posting>, b: Seq<Posting>, x: usize)
    ensures
        doc_postings(a + b, x) == doc_postings(a, x) + doc_postings(b, x),
    decreases b.len(),
{
    if b.len() == 0 {
        assert(a + b == a);
        assert(doc_postings(a, x) + Seq::<Posting>::empty() == doc_postings(a, x));
    } else {
        assert((a + b).drop_last() == a + b.drop_last());
        lemma_doc_postings_append(a, b.drop_last(), x);
    }
}

proof fn lemma_doc_occurrences_append(a: Seq<TermPostings>, b: Seq<TermPostings>, x: usize)
    ensures
        doc_occurrences(a + b, x) == doc_occurrences(a, x) + doc_occurrences(b, x),
    decreases b.len(),
{
    if b.len() == 0 {
        assert(a + b == a);
        assert(doc_occurrences(a, x) + Seq::<IndexedOccurrence>::empty() == doc_occurrences(a, x));
    } else {
        assert((a + b).drop_last() == a + b.drop_last());
        lemma_doc_occurrences_append(a, b.drop_last(), x);
    }
}

/// A page found within the `j`-th posting of the `i`-th term is the page of
/// the whole document's occurrences.
proof fn lemma_page_rest(
    entries: Seq<TermPostings>,
    i: int,
    ps: Seq<Posting>,
    j: int,
    x: usize,
    start: usize,
    end: usize,
)
    requires
        0 <= i < entries.len(),
        ps == entries[i].postings@,
        0 <= j < ps.len(),
        first_page(doc_occurrences(entries.take(i), x) + posting_occurrences(doc_postings(ps.take(j + 1), x)), start, end) is Some,
    ensures
        first_page(doc_occurrences(entries, x), start, end) == first_page(
            doc_occurrences(entries.take(i), x) + posting_occurrences(doc_postings(ps.take(j + 1), x)),
            start,
            end,
        ),
{
    let a = doc_occurrences(entries.take(i), x);
    let b = posting_occurrences(doc_postings(ps.take(j + 1), x));
    let c = posting_occurrences(doc_postings(ps.skip(j + 1), x));
    let d = doc_occurrences(entries.skip(i + 1), x);
    assert(ps == ps.take(j + 1) + ps.skip(j + 1));
    lemma_doc_postings_append(ps.take(j + 1), ps.skip(j + 1), x);
    lemma_posting_occurrences_append(doc_postings(ps.take(j + 1), x), doc_postings(ps.skip(j + 1), x));
    assert(entries.take(i + 1).drop_last() == entries.take(i));
    assert(doc_occurrences(entries.take(i + 1), x) == a + (b + c));
    assert(entries == entries.take(i + 1) + entries.skip(i + 1));
    lemma_doc_occurrences_append(entries.take(i + 1), entries.skip(i + 1), x);
    assert(doc_occurrences(entries, x) == (a + b) + (c + d));
    lemma_first_page_append(a + b, c + d, start, end);
}

// ---------------------------------------------------------------------------
// Chunks of the documents of an index
// ---------------------------------------------------------------------------
/// What was written to the vector store: the collection and the number of
/// chunks.
#[derive(Debug, Clone)]
pub struct VectorIndexStats {
    pub collection: String,
    pub chunk_count: usize,
}

#[derive(Debug, Clone)]
pub struct DocumentChunk {
    pub doc_id: usize,
    pub chunk_id: usize,
    pub path: String,
    pub title: String,
    pub file_type: String,
    pub text: String,
    pub embedding_text: String,
    pub start_char: usize,
    pub end_char: usize,
    pub page: Option<u32>,
}

/// `c` is chunk `k` of document `d`, over the characters `r`.
pub open spec fn chunk_of(d: Document, k: int, r: (int, int), entries: Seq<TermPostings>, c: DocumentChunk) -> bool {
    &&& c.doc_id == d.id
    &&& c.chunk_id == k
    &&& c.path@ == d.path@
    &&& c.title@ == d.title@
    &&& c.file_type@ == file_type_name(d.file_type)
    &&& c.text@ == d.content@.subrange(r.0, r.1)
    &&& c.embedding_text@ == d.title@ + "\n"@ + d.path@ + "\n"@ + c.text@
    &&& c.start_char == r.0
    &&& c.end_char == r.1
    &&& c.page == first_page(doc_occurrences(entries, d.id), r.0 as usize, r.1 as usize)
}

/// `cs` are the chunks of document `d`.
pub open spec fn doc_chunks(d: Document, entries: Seq<TermPostings>, cs: Seq<DocumentChunk>) -> bool {
    let rs = chunk_ranges(d.content@.len() as int, 0);
    &&& cs.len() == rs.len()
    &&& forall|k: int| 0 <= k < cs.len() ==> chunk_of(d, k, rs[k], entries, #[trigger] cs[k])
}

/// `out` holds the chunks of each of `docs` in turn.
pub open spec fn all_chunks(docs: Seq<Document>, entries: Seq<TermPostings>, out: Seq<DocumentChunk>) -> bool
    decreases docs.len(),
{
    if docs.len() == 0 {
        out.len() == 0
    } else {
        let n = chunk_ranges(docs.last().content@.len() as int, 0).len() as int;
        &&& out.len() >= n
        &&& all_chunks(docs.drop_last(), entries, out.take(out.len() - n))
        &&& doc_chunks(docs.last(), entries, out.skip(out.len() - n))
    }
}

/// The chunks of every document of the index, for the vector store.
#[verifier::spinoff_prover]
pub fn build_chunks(index: &InvertedIndex) -> (out: Vec<DocumentChunk>)
    ensures
        all_chunks(index.documents@, index.postings@, out@),
{
    let mut out: Vec<DocumentChunk> = Vec::new();
    let mut i: usize = 0;
    assert(index.documents@.take(0) == Seq::<Document>::empty());
    while i < index.documents.len()
        invariant
            i <= index.documents@.len(),
            all_chunks(index.documents@.take(i as int), index.postings@, out@),
        decreases index.documents.len() - i,
    {
        let d = &index.documents[i];
        let ghost before = out@;
        let pieces = split_text_into_chunks(d.content.as_str());
        let ghost rs = chunk_ranges(d.content@.len() as int, 0);
        proof {
            assert(pieces@.map_values(|c: (String, usize, usize)| chunk_view(c)).len() == pieces@.len());
            assert(chunks_spec(d.content@).len() == rs.len());
        }
        let mut k: usize = 0;
        while k < pieces.len()
            invariant
                k <= pieces@.len(),
                pieces@.map_values(|c: (String, usize, usize)| chunk_view(c)) == chunks_spec(d.content@),
                rs == chunk_ranges(d.content@.len() as int, 0),
                pieces@.len() == rs.len(),
                out@.len() == before.len() + k,
                out@.take(before.len() as int) == before,
                forall|q: int| 0 <= q < k ==> chunk_of(*d, q, rs[q], index.postings@, #[trigger] out@[before.len() + q]),
            decreases pieces.len() - k,
        {
            let piece = &pieces[k];
            assert(chunk_view(pieces@[k as int]) == chunks_spec(d.content@)[k as int]);
            let page = page_for_range(index, d.id, piece.1, piece.2);
            let mut emb: Vec<char> = Vec::new();
            push_lit(&mut emb, d.title.as_str());
            push_lit(&mut emb, "\n");
            push_lit(&mut emb, d.path.as_str());
            push_lit(&mut emb, "\n");
            push_lit(&mut emb, piece.0.as_str());
            let name = d.file_type.name();
            let mut ft: Vec<char> = Vec::new();
            push_lit(&mut ft, name);
            let c = DocumentChunk {
                doc_id: d.id,
                chunk_id: k,
                path: d.path.clone(),
                title: d.title.clone(),
                file_type: string_from_chars(ft.as_slice()),
                text: piece.0.clone(),
                embedding_text: string_from_chars(emb.as_slice()),
                start_char: piece.1,
                end_char: piece.2,
                page,
            };
            proof {
                let r = rs[k as int];
                assert(chunks_spec(d.content@)[k as int] == (d.content@.subrange(r.0, r.1), r.0, r.1));
                assert(piece.0@ == d.content@.subrange(r.0, r.1));
                assert(piece.1 == r.0 && piece.2 == r.1);
                assert(emb@ =~= d.title@ + "\n"@ + d.path@ + "\n"@ + piece.0@);
                assert(c.text@ == piece.0@);
                assert(c.file_type@ == file_type_name(d.file_type));
            }
            assert(chunk_of(*d, k as int, rs[k as int], index.postings@, c));
            let ghost o = out@;
            out.push(c);
            assert(out@.take(before.len() as int) == o.take(before.len() as int));
            k = k + 1;
        }
        proof {
            let n = rs.len() as int;
            assert(pieces@.len() == n);
            assert(index.documents@.take(i + 1).drop_last() == index.documents@.take(i as int));
            assert(index.documents@.take(i + 1).last() == *d);
            assert(out@.take(out@.len() - n) == before);
            let tail = out@.skip(out@.len() - n);
            assert forall|q: int| 0 <= q < tail.len() implies chunk_of(*d, q, rs[q], index.postings@, #[trigger] tail[q]) by {
                assert(tail[q] == out@[before.len() + q]);
            }
        }
        i = i + 1;
    }
    assert(index.documents@.take(index.documents@.len() as int) == index.documents@);
    out
}

// ---------------------------------------------------------------------------
// Hits of the vector store as matches
// ---------------------------------------------------------------------------
/// A chunk that the vector store found near a query (its similarity score
/// is kept beside it by the caller).
#[derive(Debug, Clone)]
pub struct VectorSearchHit {
    pub doc_id: usize,
    pub path: String,
    pub title: String,
    pub text: String,
    pub start_char: usize,
    pub end_char: usize,
    pub page: Option<u32>,
}

impl VectorSearchHit {
    /// The hit as a match: its text on one line, with every token of the
    /// query as matched terms.
    pub fn to_search_match<T: Tokenizer>(&self, tokenizer: &T, query: &str) -> (m: SearchMatch)
        ensures
            m.snippet@ == newline_to_space(self.text@),
            term_views(m.matched_terms@) == token_texts(tokenizer.spec_tokenize(query@)),
            m.token_position == 0,
            m.char_start == self.start_char,
            m.char_end == self.end_char,
            m.page == self.page,
    {
        let tokens = tokenizer.tokenize(query);
        let mut terms: Vec<String> = Vec::new();
        let mut i: usize = 0;
        while i < tokens.len()
            invariant
                i <= tokens@.len(),
                term_views(terms@) == token_texts(token_views(tokens@)).take(i as int),
            decreases tokens.len() - i,
        {
            let ghost before = terms@;
            assert(token_texts(token_views(tokens@))[i as int] == tokens@[i as int].token@);
            terms.push(tokens[i].token.clone());
            assert(terms@ == before.push(tokens@[i as int].token));
            assert(term_views(terms@) =~= term_views(before).push(tokens@[i as int].token@));
            assert(token_texts(token_views(tokens@)).take(i + 1) =~= token_texts(token_views(tokens@)).take(i as int).push(tokens@[i as int].token@));
            i = i + 1;
        }
        assert(token_texts(token_views(tokens@)).take(tokens@.len() as int) == token_texts(token_views(tokens@)));
        let tc = chars_of(self.text.as_str());
        let mut flat: Vec<char> = Vec::new();
        let mut j: usize = 0;
        while j < tc.len()
            invariant
                j <= tc@.len(),
                flat@ == newline_to_space(tc@.take(j as int)),
            decreases tc.len() - j,
        {
            let c = tc[j];
            flat.push(if c == '\n' { ' ' } else { c });
            j = j + 1;
            assert(newline_to_space(tc@.take(j as int)) =~= newline_to_space(tc@.take(j - 1)).push(
                if c == '\n' { ' ' } else { c },
            ));
        }
        assert(tc@.take(tc@.len() as int) == tc@);
        SearchMatch {
            snippet: string_from_chars(flat.as_slice()),
            matched_terms: terms,
            token_position: 0,
            char_start: self.start_char,
            char_end: self.end_char,
            page: self.page,
        }
    }
}

} // verus!
