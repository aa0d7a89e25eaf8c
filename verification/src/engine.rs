//! The search engine: from a query to the documents that hold its terms.
use vstd::prelude::*;
use crate::error::AppError;
use crate::index::{
    TermKeyed, document_from, index_of, indexed, keys_sorted, lemma_indexed_token_found, search_key,
};
use crate::model::{
    Document, IndexedOccurrence, InvertedIndex, Posting, SearchMatch, SearchMode, SearchResult,
    ParsedDocument, TermHit, TermPostings, TokenOccurrence, TokenView, document_position, lemma_document_position,
    postings_of, token_views,
};
use crate::order::{compare_strs, lemma_seq_lt_irrefl, seq_lt, stable_sorted};
use crate::parser::Tokenizer;
use crate::search::{
    MatchedOccurrence, all_term_matches, build_search_matches, fallback_match, matches_defined,
    matches_result, MatchView, occ_views, snippet_once, snippet_spec, term_views,
};
use crate::subtokens::{insert_sorted_unique, lemma_sorted_unique, strictly_sorted, views};
use crate::text::{chars_of, string_from_chars};

verus! {

// ---------------------------------------------------------------------------
// Query terms
// ---------------------------------------------------------------------------
/// `s` without repeats, each element where it first occurs.
pub open spec fn dedup(s: Seq<Seq<char>>) -> Seq<Seq<char>>
    decreases s.len(),
{
    if s.len() == 0 {
        Seq::empty()
    } else if dedup(s.drop_last()).contains(s.last()) {
        dedup(s.drop_last())
    } else {
        dedup(s.drop_last()).push(s.last())
    }
}

pub open spec fn token_texts(toks: Seq<TokenView>) -> Seq<Seq<char>> {
    toks.map_values(|t: TokenView| t.token)
}

/// The distinct terms of `tokens`, in order of first occurrence.
fn distinct_terms(tokens: Vec<TokenOccurrence>) -> (out: Vec<String>)
    ensures
        term_views(out@) == dedup(token_texts(token_views(tokens@))),
{
    let ghost texts = token_texts(token_views(tokens@));
    let mut out: Vec<String> = Vec::new();
    let mut i: usize = 0;
    assert(texts.take(0) == Seq::<Seq<char>>::empty());
    assert(term_views(out@) == Seq::<Seq<char>>::empty());
    while i < tokens.len()
        invariant
            i <= tokens@.len(),
            texts == token_texts(token_views(tokens@)),
            term_views(out@) == dedup(texts.take(i as int)),
        decreases tokens.len() - i,
    {
        assert(texts.take(i + 1).drop_last() == texts.take(i as int));
        assert(texts.take(i + 1).last() == tokens@[i as int].token@);
        let mut seen = false;
        let mut j: usize = 0;
        while j < out.len()
            invariant
                j <= out@.len(),
                i < tokens@.len(),
                seen == exists|q: int| 0 <= q < j && out@[q]@ == tokens@[i as int].token@,
            decreases out.len() - j,
        {
            if compare_strs(out[j].as_str(), tokens[i].token.as_str()) == 0 {
                seen = true;
            }
            j = j + 1;
        }
        proof {
            let d = dedup(texts.take(i as int));
            if seen {
                let q = choose|q: int| 0 <= q < out@.len() && out@[q]@ == tokens@[i as int].token@;
                assert(d[q] == tokens@[i as int].token@);
            } else {
                assert forall|q: int| 0 <= q < d.len() implies d[q] != tokens@[i as int].token@ by {
                    assert(d[q] == out@[q]@);
                }
            }
        }
        if !seen {
            let ghost before = out@;
            out.push(tokens[i].token.clone());
            assert(term_views(out@) == term_views(before).push(tokens@[i as int].token@));
        }
        i = i + 1;
    }
    assert(texts.take(tokens@.len() as int) == texts);
    out
}

// ---------------------------------------------------------------------------
// What the index says of one document
// ---------------------------------------------------------------------------
/// The postings of `ps` for document `x`, in order.
pub open spec fn doc_postings(ps: Seq<Posting>, x: usize) -> Seq<Posting>
    decreases ps.len(),
{
    if ps.len() == 0 {
        Seq::empty()
    } else if ps.last().doc_id == x {
        doc_postings(ps.drop_last(), x).push(ps.last())
    } else {
        doc_postings(ps.drop_last(), x)
    }
}

/// The postings of term `t` for document `x`.
pub open spec fn term_doc_postings(entries: Seq<TermPostings>, t: Seq<char>, x: usize) -> Seq<Posting> {
    match postings_of(entries, t) {
        Some(ps) => doc_postings(ps, x),
        None => Seq::empty(),
    }
}

/// The number of postings of term `t`.
pub open spec fn document_frequency(entries: Seq<TermPostings>, t: Seq<char>) -> usize {
    match postings_of(entries, t) {
        Some(ps) => ps.len() as usize,
        None => 0,
    }
}

pub open spec fn hit_fn(df: usize, len: usize) -> spec_fn(Posting) -> TermHit {
    |p: Posting| TermHit { frequency: p.frequency, document_frequency: df, document_length: len }
}

/// One hit per posting of a query term for document `x`, term after term.
pub open spec fn hits_of(entries: Seq<TermPostings>, terms: Seq<Seq<char>>, x: usize, len: usize) -> Seq<TermHit>
    decreases terms.len(),
{
    if terms.len() == 0 {
        Seq::empty()
    } else {
        hits_of(entries, terms.drop_last(), x, len) + term_doc_postings(entries, terms.last(), x).map_values(
            hit_fn(document_frequency(entries, terms.last()), len),
        )
    }
}

pub open spec fn tagged(t: Seq<char>) -> spec_fn(IndexedOccurrence) -> (Seq<char>, IndexedOccurrence) {
    |o: IndexedOccurrence| (t, o)
}

/// The occurrences of the postings `ps`, each with term `t`.
pub open spec fn posting_occs(ps: Seq<Posting>, t: Seq<char>) -> Seq<(Seq<char>, IndexedOccurrence)>
    decreases ps.len(),
{
    if ps.len() == 0 {
        Seq::empty()
    } else {
        posting_occs(ps.drop_last(), t) + ps.last().occurrences@.map_values(tagged(t))
    }
}

/// The occurrences of the query terms in document `x`, term after term.
pub open spec fn occurrences_of(entries: Seq<TermPostings>, terms: Seq<Seq<char>>, x: usize) -> Seq<(Seq<char>, IndexedOccurrence)>
    decreases terms.len(),
{
    if terms.len() == 0 {
        Seq::empty()
    } else {
        occurrences_of(entries, terms.drop_last(), x) + posting_occs(
            term_doc_postings(entries, terms.last(), x),
            terms.last(),
        )
    }
}

/// The query terms that have a posting for document `x`.
pub open spec fn covered_terms(entries: Seq<TermPostings>, terms: Seq<Seq<char>>, x: usize) -> Seq<Seq<char>>
    decreases terms.len(),
{
    if terms.len() == 0 {
        Seq::empty()
    } else if term_doc_postings(entries, terms.last(), x).len() > 0 {
        covered_terms(entries, terms.drop_last(), x).push(terms.last())
    } else {
        covered_terms(entries, terms.drop_last(), x)
    }
}

/// The elements of `s` in increasing order.
pub open spec fn sorted_terms(s: Set<Seq<char>>) -> Seq<Seq<char>> {
    choose|m: Seq<Seq<char>>| strictly_sorted(m) && m.to_set() == s
}

pub proof fn lemma_sorted_terms(m: Seq<Seq<char>>)
    requires
        strictly_sorted(m),
    ensures
        sorted_terms(m.to_set()) == m,
{
    assert(strictly_sorted(m) && m.to_set() == m.to_set());
    let c = sorted_terms(m.to_set());
    lemma_sorted_unique(c, m);
}

/// The query terms found for document `x`, in increasing order.
pub open spec fn matched_terms_of(entries: Seq<TermPostings>, terms: Seq<Seq<char>>, x: usize) -> Seq<Seq<char>> {
    sorted_terms(covered_terms(entries, terms, x).to_set())
}

/// Characters of context in the snippet of a result.
pub open spec fn summary_context() -> int {
    120
}

/// Whether a document ends up with no match at all.
pub open spec fn matches_empty(
    content: Seq<char>,
    title: Seq<char>,
    m: Seq<Seq<char>>,
    occs: Seq<(Seq<char>, IndexedOccurrence)>,
) -> bool {
    match all_term_matches(content, m, m, occs) {
        Some(u) => u.len() == 0 && (m.len() == 0 || fallback_match(content, title, m, occs) == Some(
            None::<MatchView>,
        )),
        None => false,
    }
}

/// Whether the snippets of the result for `doc` can be made.
#[verifier::opaque]
pub open spec fn result_defined(doc: Document, entries: Seq<TermPostings>, terms: Seq<Seq<char>>) -> bool {
    let m = matched_terms_of(entries, terms, doc.id);
    let occs = occurrences_of(entries, terms, doc.id);
    &&& matches_defined(doc.content@, doc.title@, m, occs)
    &&& (matches_empty(doc.content@, doc.title@, m, occs) ==> snippet_spec(
        doc.content@,
        m,
        summary_context(),
    ) is Some)
}

/// `r` is the result for `doc`: its matched terms in increasing order, the
/// hits from which it is ranked, its matches, and as its snippet that of its
/// first match (or, where it has none, a snippet of its text).
#[verifier::opaque]
pub open spec fn result_of(doc: Document, entries: Seq<TermPostings>, terms: Seq<Seq<char>>, r: SearchResult) -> bool {
    let m = matched_terms_of(entries, terms, doc.id);
    let occs = occurrences_of(entries, terms, doc.id);
    &&& r.doc_id == doc.id
    &&& r.title@ == doc.title@
    &&& r.path@ == doc.path@
    &&& term_views(r.matched_terms@) == m
    &&& strictly_sorted(m)
    &&& m.to_set() == covered_terms(entries, terms, doc.id).to_set()
    &&& r.hits@ == hits_of(entries, terms, doc.id, doc.token_count)
    &&& matches_result(doc.content@, doc.title@, m, occs, r.matches@)
    &&& r.snippet@ == (if r.matches@.len() > 0 {
        r.matches@[0].snippet@
    } else {
        snippet_spec(doc.content@, m, summary_context()).unwrap()
    })
}

/// Whether document `i` is a result: it is the first document with its id,
/// it holds a query term, and in mode `All` it holds every query term.
#[verifier::opaque]
pub open spec fn is_candidate(
    docs: Seq<Document>,
    i: int,
    entries: Seq<TermPostings>,
    terms: Seq<Seq<char>>,
    mode: SearchMode,
) -> bool {
    &&& document_position(docs, docs[i].id) == Some(i)
    &&& covered_terms(entries, terms, docs[i].id).len() > 0
    &&& (mode == SearchMode::Any || covered_terms(entries, terms, docs[i].id).len() == terms.len())
}

/// The positions among the first `n` documents that are results, in order.
#[verifier::opaque]
pub open spec fn candidates(
    docs: Seq<Document>,
    n: int,
    entries: Seq<TermPostings>,
    terms: Seq<Seq<char>>,
    mode: SearchMode,
) -> Seq<int>
    decreases n,
{
    if n <= 0 {
        Seq::empty()
    } else if is_candidate(docs, n - 1, entries, terms, mode) {
        candidates(docs, n - 1, entries, terms, mode).push(n - 1)
    } else {
        candidates(docs, n - 1, entries, terms, mode)
    }
}

/// Whether every result's snippets can be made.
#[verifier::opaque]
pub open spec fn all_defined(docs: Seq<Document>, entries: Seq<TermPostings>, terms: Seq<Seq<char>>, mode: SearchMode) -> bool {
    forall|k: int|
        0 <= k < candidates(docs, docs.len() as int, entries, terms, mode).len() ==> result_defined(
            docs[#[trigger] candidates(docs, docs.len() as int, entries, terms, mode)[k]],
            entries,
            terms,
        )
}

/// `out` holds one result per candidate document, in document order.
#[verifier::opaque]
pub open spec fn results_of(
    docs: Seq<Document>,
    entries: Seq<TermPostings>,
    terms: Seq<Seq<char>>,
    mode: SearchMode,
    out: Seq<SearchResult>,
) -> bool {
    let c = candidates(docs, docs.len() as int, entries, terms, mode);
    &&& out.len() == c.len()
    &&& forall|k: int| 0 <= k < c.len() ==> result_of(docs[#[trigger] c[k]], entries, terms, out[k])
}

// ---------------------------------------------------------------------------
// Gathering what the index says of one document
// ---------------------------------------------------------------------------
/// The position of the postings of term `t` in `entries`.
fn find_term(entries: &Vec<TermPostings>, t: &str) -> (r: Option<usize>)
    requires
        keys_sorted(entries@),
    ensures
        match r {
            Some(e) => e < entries@.len() && postings_of(entries@, t@) == Some(entries@[e as int].postings@),
            None => postings_of(entries@, t@) is None,
        },
{
    let tc = chars_of(t);
    match search_key(entries, tc.as_slice()) {
        Ok(i) => {
            proof {
                let j = choose|j: int| 0 <= j < entries@.len() && entries@[j].term@ == t@;
                assert(entries@[i as int].term@ == t@);
                if j < i {
                    assert(seq_lt(entries@[j].key(), entries@[i as int].key()));
                    lemma_seq_lt_irrefl(t@);
                }
                if i < j {
                    assert(seq_lt(entries@[i as int].key(), entries@[j].key()));
                    lemma_seq_lt_irrefl(t@);
                }
            }
            Some(i)
        },
        Err(i) => {
            proof {
                if exists|j: int| 0 <= j < entries@.len() && entries@[j].term@ == t@ {
                    let j = choose|j: int| 0 <= j < entries@.len() && entries@[j].term@ == t@;
                    assert(entries@[j].key() == t@);
                    lemma_seq_lt_irrefl(t@);
                }
            }
            None
        },
    }
}

/// Records the postings of `ps` (those of term `t`) for document `x`: a
/// hit for each, and its occurrences tagged with `t`.
fn gather_term(
    ps: &Vec<Posting>,
    x: usize,
    t: &String,
    len: usize,
    hits: &mut Vec<TermHit>,
    occs: &mut Vec<MatchedOccurrence>,
) -> (found: bool)
    ensures
        final(hits)@ == old(hits)@ + doc_postings(ps@, x).map_values(hit_fn(ps@.len() as usize, len)),
        occ_views(final(occs)@) == occ_views(old(occs)@) + posting_occs(doc_postings(ps@, x), t@),
        found == (doc_postings(ps@, x).len() > 0),
{
    let ghost h0 = hits@;
    let ghost o0 = occ_views(occs@);
    let ghost f = hit_fn(ps@.len() as usize, len);
    let df = ps.len();
    let mut found = false;
    let mut i: usize = 0;
    assert(ps@.take(0) == Seq::<Posting>::empty());
    assert(doc_postings(ps@.take(0), x).map_values(f) =~= Seq::<TermHit>::empty());
    assert(h0 + Seq::<TermHit>::empty() == h0);
    assert(o0 + Seq::<(Seq<char>, IndexedOccurrence)>::empty() == o0);
    while i < ps.len()
        invariant
            i <= ps@.len(),
            df == ps@.len(),
            f == hit_fn(ps@.len() as usize, len),
            hits@ == h0 + doc_postings(ps@.take(i as int), x).map_values(f),
            occ_views(occs@) == o0 + posting_occs(doc_postings(ps@.take(i as int), x), t@),
            found == (doc_postings(ps@.take(i as int), x).len() > 0),
        decreases ps.len() - i,
    {
        let ghost dp = doc_postings(ps@.take(i as int), x);
        assert(ps@.take(i + 1).drop_last() == ps@.take(i as int));
        assert(ps@.take(i + 1).last() == ps@[i as int]);
        let p = &ps[i];
        if p.doc_id == x {
            assert(doc_postings(ps@.take(i + 1), x) == dp.push(*p));
            assert(dp.push(*p).drop_last() == dp);
            hits.push(TermHit { frequency: p.frequency, document_frequency: df, document_length: len });
            assert(dp.push(*p).map_values(f) =~= dp.map_values(f).push(f(*p)));
            let ghost before = occ_views(occs@);
            let mut j: usize = 0;
            assert(p.occurrences@.take(0).map_values(tagged(t@)) =~= Seq::<(Seq<char>, IndexedOccurrence)>::empty());
            while j < p.occurrences.len()
                invariant
                    j <= p.occurrences@.len(),
                    occ_views(occs@) == before + p.occurrences@.take(j as int).map_values(tagged(t@)),
                decreases p.occurrences.len() - j,
            {
                let ghost b2 = occs@;
                occs.push(MatchedOccurrence { term: t.clone(), occurrence: p.occurrences[j] });
                assert(p.occurrences@.take(j + 1).map_values(tagged(t@)) =~= p.occurrences@.take(j as int).map_values(tagged(t@)).push((t@, p.occurrences@[j as int])));
                assert(occ_views(occs@) =~= occ_views(b2).push((t@, p.occurrences@[j as int])));
                j = j + 1;
            }
            assert(p.occurrences@.take(p.occurrences@.len() as int) == p.occurrences@);
            found = true;
        } else {
            assert(doc_postings(ps@.take(i + 1), x) == dp);
        }
        i = i + 1;
    }
    assert(ps@.take(ps@.len() as int) == ps@);
    found
}

/// The positions of the postings of each query term.
fn find_terms(entries: &Vec<TermPostings>, terms: &Vec<String>) -> (found_at: Vec<Option<usize>>)
    requires
        keys_sorted(entries@),
    ensures
        found_at@.len() == terms@.len(),
        forall|k: int|
            0 <= k < terms@.len() ==> match #[trigger] found_at@[k] {
                Some(e) => e < entries@.len() && postings_of(entries@, terms@[k]@) == Some(entries@[e as int].postings@),
                None => postings_of(entries@, terms@[k]@) is None,
            },
{
    let mut found_at: Vec<Option<usize>> = Vec::new();
    let mut k: usize = 0;
    while k < terms.len()
        invariant
            k <= terms@.len(),
            keys_sorted(entries@),
            found_at@.len() == k,
            forall|q: int|
                0 <= q < k ==> match #[trigger] found_at@[q] {
                    Some(e) => e < entries@.len() && postings_of(entries@, terms@[q]@) == Some(entries@[e as int].postings@),
                    None => postings_of(entries@, terms@[q]@) is None,
                },
        decreases terms.len() - k,
    {
        found_at.push(find_term(entries, terms[k].as_str()));
        k = k + 1;
    }
    found_at
}

/// What the index says of document `x` for the query terms: the terms
/// found (sorted), how many, the hits and the occurrences.
#[verifier::spinoff_prover]
fn gather_doc(
    entries: &Vec<TermPostings>,
    found_at: &Vec<Option<usize>>,
    terms: &Vec<String>,
    x: usize,
    len: usize,
) -> (r: (Vec<Vec<char>>, usize, Vec<TermHit>, Vec<MatchedOccurrence>))
    requires
        found_at@.len() == terms@.len(),
        forall|k: int|
            0 <= k < terms@.len() ==> match #[trigger] found_at@[k] {
                Some(e) => e < entries@.len() && postings_of(entries@, terms@[k]@) == Some(entries@[e as int].postings@),
                None => postings_of(entries@, terms@[k]@) is None,
            },
    ensures
        strictly_sorted(views(r.0@)),
        views(r.0@).to_set() == covered_terms(entries@, term_views(terms@), x).to_set(),
        r.1 == covered_terms(entries@, term_views(terms@), x).len(),
        r.2@ == hits_of(entries@, term_views(terms@), x, len),
        occ_views(r.3@) == occurrences_of(entries@, term_views(terms@), x),
{
    let ghost tv = term_views(terms@);
    let mut covered: Vec<Vec<char>> = Vec::new();
    let mut count: usize = 0;
    let mut hits: Vec<TermHit> = Vec::new();
    let mut occs: Vec<MatchedOccurrence> = Vec::new();
    let mut k: usize = 0;
    assert(tv.take(0) == Seq::<Seq<char>>::empty());
    assert(views(covered@).to_set() =~= Set::<Seq<char>>::empty());
    assert(occ_views(occs@) =~= Seq::<(Seq<char>, IndexedOccurrence)>::empty());
    while k < terms.len()
        invariant
            k <= terms@.len(),
            tv == term_views(terms@),
            found_at@.len() == terms@.len(),
            forall|q: int|
                0 <= q < terms@.len() ==> match #[trigger] found_at@[q] {
                    Some(e) => e < entries@.len() && postings_of(entries@, terms@[q]@) == Some(entries@[e as int].postings@),
                    None => postings_of(entries@, terms@[q]@) is None,
                },
            strictly_sorted(views(covered@)),
            views(covered@).to_set() == covered_terms(entries@, tv.take(k as int), x).to_set(),
            count == covered_terms(entries@, tv.take(k as int), x).len(),
            count <= k,
            hits@ == hits_of(entries@, tv.take(k as int), x, len),
            occ_views(occs@) == occurrences_of(entries@, tv.take(k as int), x),
        decreases terms.len() - k,
    {
        let ghost t = tv[k as int];
        assert(tv.take(k + 1).drop_last() == tv.take(k as int));
        assert(tv.take(k + 1).last() == t);
        assert(t == terms@[k as int]@);
        let fa = found_at[k];
        assert(fa == found_at@[k as int]);
        match fa {
            Some(e) => {
                let ghost h0 = hits@;
                let ghost o0 = occ_views(occs@);
                let found = gather_term(&entries[e].postings, x, &terms[k], len, &mut hits, &mut occs);
                assert(term_doc_postings(entries@, t, x) == doc_postings(entries@[e as int].postings@, x));
                assert(document_frequency(entries@, t) == entries@[e as int].postings@.len() as usize);
                if found {
                    let ghost c0 = views(covered@).to_set();
                    let tc = chars_of(terms[k].as_str());
                    insert_sorted_unique(&mut covered, tc);
                    count = count + 1;
                    assert(covered_terms(entries@, tv.take(k + 1), x) == covered_terms(entries@, tv.take(k as int), x).push(t));
                    proof {
                        covered_terms(entries@, tv.take(k as int), x).lemma_push_to_set_commute(t);
                    }
                } else {
                    assert(covered_terms(entries@, tv.take(k + 1), x) == covered_terms(entries@, tv.take(k as int), x));
                }
            },
            None => {
                assert(term_doc_postings(entries@, t, x) == Seq::<Posting>::empty());
                assert(Seq::<Posting>::empty().map_values(hit_fn(document_frequency(entries@, t), len)) =~= Seq::<TermHit>::empty());
                assert(hits@ + Seq::<TermHit>::empty() == hits@);
                assert(posting_occs(Seq::<Posting>::empty(), t) == Seq::<(Seq<char>, IndexedOccurrence)>::empty());
                assert(occ_views(occs@) + Seq::<(Seq<char>, IndexedOccurrence)>::empty() == occ_views(occs@));
                assert(covered_terms(entries@, tv.take(k + 1), x) == covered_terms(entries@, tv.take(k as int), x));
            },
        }
        k = k + 1;
    }
    assert(tv.take(terms@.len() as int) == tv);
    (covered, count, hits, occs)
}

proof fn lemma_first_with_id(docs: Seq<Document>, x: usize, i: int)
    requires
        0 <= i < docs.len(),
        docs[i].id == x,
    ensures
        exists|j: int| 0 <= j < docs.len() && docs[j].id == x && forall|k: int| 0 <= k < j ==> docs[k].id != x,
    decreases i,
{
    if exists|k: int| 0 <= k < i && docs[k].id == x {
        let k = choose|k: int| 0 <= k < i && docs[k].id == x;
        lemma_first_with_id(docs, x, k);
    } else {
        assert(0 <= i < docs.len() && docs[i].id == x && forall|k: int| 0 <= k < i ==> docs[k].id != x);
    }
}

proof fn lemma_position_in_range(docs: Seq<Document>, x: usize)
    ensures
        document_position(docs, x) matches Some(j) ==> 0 <= j < docs.len(),
{
    if exists|i: int| 0 <= i < docs.len() && docs[i].id == x {
        let i = choose|i: int| 0 <= i < docs.len() && docs[i].id == x;
        lemma_first_with_id(docs, x, i);
    }
}

proof fn lemma_candidates_step(
    docs: Seq<Document>,
    n: int,
    entries: Seq<TermPostings>,
    terms: Seq<Seq<char>>,
    mode: SearchMode,
)
    requires
        0 <= n,
    ensures
        candidates(docs, n + 1, entries, terms, mode) == if is_candidate(docs, n, entries, terms, mode) {
            candidates(docs, n, entries, terms, mode).push(n)
        } else {
            candidates(docs, n, entries, terms, mode)
        },
        candidates(docs, 0, entries, terms, mode) == Seq::<int>::empty(),
{
    reveal(candidates);
}

/// The candidates among the first `n` documents are those among the first
/// `m`, for `n <= m`, followed by more.
proof fn lemma_candidates_prefix(
    docs: Seq<Document>,
    n: int,
    m: int,
    entries: Seq<TermPostings>,
    terms: Seq<Seq<char>>,
    mode: SearchMode,
)
    requires
        0 <= n <= m,
    ensures
        candidates(docs, n, entries, terms, mode).len() <= candidates(docs, m, entries, terms, mode).len(),
        candidates(docs, m, entries, terms, mode).take(candidates(docs, n, entries, terms, mode).len() as int)
            == candidates(docs, n, entries, terms, mode),
    decreases m - n,
{
    if n < m {
        lemma_candidates_step(docs, m - 1, entries, terms, mode);
        lemma_candidates_prefix(docs, n, m - 1, entries, terms, mode);
        let a = candidates(docs, n, entries, terms, mode);
        let b = candidates(docs, m - 1, entries, terms, mode);
        if is_candidate(docs, m - 1, entries, terms, mode) {
            assert(b.push(m - 1).take(a.len() as int) == b.take(a.len() as int));
        }
    } else {
        let a = candidates(docs, n, entries, terms, mode);
        assert(a.take(a.len() as int) == a);
    }
}

/// The strings of character vectors.
fn to_strings(v: &Vec<Vec<char>>) -> (out: Vec<String>)
    ensures
        term_views(out@) == views(v@),
{
    let mut out: Vec<String> = Vec::new();
    let mut i: usize = 0;
    while i < v.len()
        invariant
            i <= v@.len(),
            term_views(out@) == views(v@).take(i as int),
        decreases v.len() - i,
    {
        let ghost before = out@;
        let st = string_from_chars(v[i].as_slice());
        out.push(st);
        assert(term_views(out@) =~= term_views(before).push(v@[i as int]@));
        assert(views(v@).take(i + 1) =~= views(v@).take(i as int).push(v@[i as int]@));
        i = i + 1;
    }
    assert(views(v@).take(v@.len() as int) == views(v@));
    out
}

/// The result for document `d`: `Some(None)` where it is no result (it
/// holds no query term, or in mode `All` not all of them), `None` where its
/// snippets cannot be made.
#[verifier::spinoff_prover]
fn doc_result(
    d: &Document,
    entries: &Vec<TermPostings>,
    found_at: &Vec<Option<usize>>,
    terms: &Vec<String>,
    mode: SearchMode,
) -> (r: Option<Option<SearchResult>>)
    requires
        found_at@.len() == terms@.len(),
        forall|k: int|
            0 <= k < terms@.len() ==> match #[trigger] found_at@[k] {
                Some(e) => e < entries@.len() && postings_of(entries@, terms@[k]@) == Some(entries@[e as int].postings@),
                None => postings_of(entries@, terms@[k]@) is None,
            },
    ensures
        ({
            let tv = term_views(terms@);
            let c = covered_terms(entries@, tv, d.id);
            let wanted = c.len() > 0 && (mode == SearchMode::Any || c.len() == tv.len());
            match r {
                None => wanted && !result_defined(*d, entries@, tv),
                Some(None) => !wanted,
                Some(Some(res)) => wanted && result_of(*d, entries@, tv, res) && result_defined(*d, entries@, tv),
            }
        }),
{
    let ghost tv = term_views(terms@);
    proof {
        reveal(result_of);
        reveal(result_defined);
    }
    let (covered, count, hits, occs) = gather_doc(entries, found_at, terms, d.id, d.token_count);
    let all_needed = match mode {
        SearchMode::All => true,
        SearchMode::Any => false,
    };
    if count == 0 || (all_needed && count != terms.len()) {
        return Some(None);
    }
    let matched = to_strings(&covered);
    let ghost m = matched_terms_of(entries@, tv, d.id);
    let ghost occv = occ_views(occs@);
    proof {
        lemma_sorted_terms(views(covered@));
        assert(m == term_views(matched@));
    }
    let matches = match build_search_matches(d.content.as_str(), d.title.as_str(), matched.as_slice(), occs.as_slice()) {
        Some(v) => v,
        None => {
            return None;
        },
    };
    proof {
        match all_term_matches(d.content@, m, m, occv) {
            Some(u) => {
                if !(u.len() == 0 && m.len() > 0) {
                    let w = choose|w: Seq<SearchMatch>| crate::search::match_views(w) == u && stable_sorted(w, matches@);
                    assert(w.len() == matches@.len());
                }
            },
            None => {},
        }
        assert(matches_defined(d.content@, d.title@, m, occv));
        assert(matches@.len() == 0 <==> matches_empty(d.content@, d.title@, m, occv));
    }
    let snippet = if matches.len() > 0 {
        matches[0].snippet.clone()
    } else {
        match snippet_once(d.content.as_str(), matched.as_slice(), 120) {
            Some(sn) => sn,
            None => {
                return None;
            },
        }
    };
    Some(
        Some(
            SearchResult {
                doc_id: d.id,
                title: d.title.clone(),
                path: d.path.clone(),
                matched_terms: matched,
                snippet,
                matches,
                hits,
            },
        ),
    )
}

/// How many results to keep, and whether a result must hold every term.
#[derive(Debug, Clone, Copy)]
pub struct SearchOptions {
    pub limit: usize,
    pub mode: SearchMode,
}

/// Searches one index with one tokenizer.
pub struct SearchEngine<'a, T: Tokenizer> {
    index: &'a InvertedIndex,
    tokenizer: T,
}

impl<'a, T: Tokenizer> SearchEngine<'a, T> {
    pub closed spec fn index(&self) -> InvertedIndex {
        *self.index
    }

    pub closed spec fn tokenizer(&self) -> T {
        self.tokenizer
    }

    pub fn new(index: &'a InvertedIndex, tokenizer: T) -> (e: Self)
        ensures
            e.index() == *index,
            e.tokenizer() == tokenizer,
    {
        SearchEngine { index, tokenizer }
    }

    /// The distinct terms of a query, in order of first occurrence.
    pub open spec fn terms_of(&self, query: Seq<char>) -> Seq<Seq<char>> {
        dedup(token_texts(self.tokenizer().spec_tokenize(query)))
    }

    /// The distinct terms of `query`, in order of first occurrence.
    pub fn query_terms(&self, query: &str) -> (out: Vec<String>)
        ensures
            term_views(out@) == self.terms_of(query@),
    {
        distinct_terms(self.tokenizer.tokenize(query))
    }

    /// Whether `r` is what a search for `query` gives: an error on an empty
    /// index; nothing for a query without terms or a limit of 0; else one
    /// result per document that holds a query term (every term in mode
    /// `All`), in document order, for the caller to rank and cut to the
    /// limit.
    pub open spec fn outcome(&self, query: Seq<char>, options: SearchOptions, r: Result<Vec<SearchResult>, AppError>) -> bool {
        let docs = self.index().documents@;
        let entries = self.index().postings@;
        let terms = self.terms_of(query);
        match r {
            Err(e) => docs.len() == 0 && e is EmptyIndex,
            Ok(v) => docs.len() > 0 && if terms.len() == 0 || options.limit == 0 {
                v@.len() == 0
            } else {
                results_of(docs, entries, terms, options.mode, v@)
            },
        }
    }

    /// Whether the snippets of every result of a search can be made.
    pub open spec fn defined(&self, query: Seq<char>, options: SearchOptions) -> bool {
        let docs = self.index().documents@;
        let terms = self.terms_of(query);
        docs.len() > 0 && terms.len() > 0 && options.limit > 0 ==> all_defined(
            docs,
            self.index().postings@,
            terms,
            options.mode,
        )
    }

    #[verifier::spinoff_prover]
    #[verifier::rlimit(50)]
    fn search_once(&self, query: &str, options: SearchOptions) -> (r: Option<Result<Vec<SearchResult>, AppError>>)
        requires
            keys_sorted(self.index().postings@),
        ensures
            match r {
                Some(x) => self.outcome(query@, options, x) && self.defined(query@, options),
                None => !self.defined(query@, options),
            },
    {
        if self.index.documents.len() == 0 {
            return Some(Err(AppError::EmptyIndex));
        }
        let terms = self.query_terms(query);
        if terms.len() == 0 || options.limit == 0 {
            return Some(Ok(Vec::new()));
        }
        let ghost tv = term_views(terms@);
        let docs = &self.index.documents;
        let entries = &self.index.postings;
        let found_at = find_terms(entries, &terms);
        let mut out: Vec<SearchResult> = Vec::new();
        let mut i: usize = 0;
        proof {
            lemma_candidates_step(docs@, 0, entries@, tv, options.mode);
        }
        while i < docs.len()
            invariant
                i <= docs@.len(),
                docs@ == self.index().documents@,
                entries@ == self.index().postings@,
                *docs == self.index().documents,
                tv == term_views(terms@),
                tv == self.terms_of(query@),
                tv.len() > 0,
                options.limit > 0,
                found_at@.len() == terms@.len(),
                forall|k: int|
                    0 <= k < terms@.len() ==> match #[trigger] found_at@[k] {
                        Some(e) => e < entries@.len() && postings_of(entries@, terms@[k]@) == Some(entries@[e as int].postings@),
                        None => postings_of(entries@, terms@[k]@) is None,
                    },
                out@.len() == candidates(docs@, i as int, entries@, tv, options.mode).len(),
                forall|k: int|
                    0 <= k < out@.len() ==> result_of(
                        docs@[#[trigger] candidates(docs@, i as int, entries@, tv, options.mode)[k]],
                        entries@,
                        tv,
                        out@[k],
                    ) && result_defined(docs@[candidates(docs@, i as int, entries@, tv, options.mode)[k]], entries@, tv),
            decreases docs.len() - i,
        {
            let ghost c0 = candidates(docs@, i as int, entries@, tv, options.mode);
            proof {
                lemma_candidates_step(docs@, i as int, entries@, tv, options.mode);
            }
            let d = &docs[i];
            let first = self.index.document_index(d.id);
            let is_first = match first {
                Some(q) => q == i,
                None => false,
            };
            if !is_first {
                assert(!is_candidate(docs@, i as int, entries@, tv, options.mode)) by {
                    reveal(is_candidate);
                }
                i = i + 1;
                continue;
            }
            proof {
                lemma_position_in_range(docs@, d.id);
            }
            assert(document_position(docs@, d.id) == Some(i as int));
            match doc_result(d, entries, &found_at, &terms, options.mode) {
                None => {
                    proof {
                        assert(is_candidate(docs@, i as int, entries@, tv, options.mode)) by {
                            reveal(is_candidate);
                        }
                        let c1 = candidates(docs@, i + 1, entries@, tv, options.mode);
                        assert(c1 == c0.push(i as int));
                        lemma_candidates_prefix(docs@, i + 1, docs@.len() as int, entries@, tv, options.mode);
                        let cn = candidates(docs@, docs@.len() as int, entries@, tv, options.mode);
                        assert(cn[c0.len() as int] == c1[c0.len() as int]);
                        assert(!result_defined(docs@[cn[c0.len() as int]], entries@, tv));
                        reveal(all_defined);
                    }
                    return None;
                },
                Some(None) => {
                    assert(!is_candidate(docs@, i as int, entries@, tv, options.mode)) by {
                        reveal(is_candidate);
                    }
                },
                Some(Some(res)) => {
                    assert(is_candidate(docs@, i as int, entries@, tv, options.mode)) by {
                        reveal(is_candidate);
                    }
                    out.push(res);
                },
            }
            i = i + 1;
        }
        proof {
            reveal(results_of);
            reveal(all_defined);
        }
        Some(Ok(out))
    }

    /// The results of a search for `query` (see `outcome`).
    pub fn search_with_options(&self, query: &str, options: SearchOptions) -> (r: Result<Vec<SearchResult>, AppError>)
        requires
            keys_sorted(self.index().postings@),
            self.defined(query@, options),
        ensures
            self.outcome(query@, options, r),
    {
        self.search_once(query, options).unwrap()
    }

    /// `search_with_options` where the snippets of all results can be
    /// made, else `None`.
    pub fn search_checked(&self, query: &str, options: SearchOptions) -> (r: Option<Result<Vec<SearchResult>, AppError>>)
        requires
            keys_sorted(self.index().postings@),
        ensures
            match r {
                Some(x) => self.outcome(query@, options, x),
                None => !self.defined(query@, options),
            },
    {
        self.search_once(query, options)
    }

    /// The results of a search in mode `Any`.
    pub fn search(&self, query: &str, limit: usize) -> (r: Result<Vec<SearchResult>, AppError>)
        requires
            keys_sorted(self.index().postings@),
            self.defined(query@, SearchOptions { limit, mode: SearchMode::Any }),
        ensures
            self.outcome(query@, SearchOptions { limit, mode: SearchMode::Any }, r),
    {
        self.search_with_options(query, SearchOptions { limit, mode: SearchMode::Any })
    }
}


/// Keeps the first `limit` items.
pub fn truncate_to<T>(items: &mut Vec<T>, limit: usize)
    ensures
        final(items)@ == if old(items)@.len() > limit {
            old(items)@.take(limit as int)
        } else {
            old(items)@
        },
{
    if items.len() > limit {
        items.truncate(limit);
    }
}

// ---------------------------------------------------------------------------
// Laws of the search
// ---------------------------------------------------------------------------
/// The terms found for a document are query terms, no more of them than
/// there are query terms, and all of them where there are as many.
pub proof fn lemma_covered_in_terms(entries: Seq<TermPostings>, terms: Seq<Seq<char>>, x: usize)
    ensures
        forall|k: int| 0 <= k < covered_terms(entries, terms, x).len() ==> terms.contains(
            #[trigger] covered_terms(entries, terms, x)[k],
        ),
        covered_terms(entries, terms, x).len() <= terms.len(),
        covered_terms(entries, terms, x).len() == terms.len() ==> covered_terms(entries, terms, x) == terms,
    decreases terms.len(),
{
    if terms.len() > 0 {
        let p = terms.drop_last();
        lemma_covered_in_terms(entries, p, x);
        let c = covered_terms(entries, terms, x);
        let cp = covered_terms(entries, p, x);
        assert forall|k: int| 0 <= k < c.len() implies terms.contains(#[trigger] c[k]) by {
            if k < cp.len() {
                assert(c[k] == cp[k]);
                let j = choose|j: int| 0 <= j < p.len() && p[j] == cp[k];
                assert(terms[j] == p[j]);
            } else {
                assert(c[k] == terms.last());
                assert(terms[terms.len() - 1] == terms.last());
            }
        }
        if c.len() == terms.len() {
            assert(cp.len() == p.len());
            assert(cp == p);
            assert(terms == p.push(terms.last()));
        }
    }
}

/// The candidate positions among the first `n` documents: in range, each a
/// candidate, in increasing order.
pub proof fn lemma_candidates_ordered(
    docs: Seq<Document>,
    n: int,
    entries: Seq<TermPostings>,
    terms: Seq<Seq<char>>,
    mode: SearchMode,
)
    requires
        0 <= n,
    ensures
        forall|k: int| 0 <= k < candidates(docs, n, entries, terms, mode).len() ==> {
            let c = #[trigger] candidates(docs, n, entries, terms, mode)[k];
            0 <= c < n && is_candidate(docs, c, entries, terms, mode)
        },
        forall|k: int, l: int| 0 <= k < l < candidates(docs, n, entries, terms, mode).len() ==> #[trigger] candidates(docs, n, entries, terms, mode)[k]
            < #[trigger] candidates(docs, n, entries, terms, mode)[l],
    decreases n,
{
    if n == 0 {
        lemma_candidates_step(docs, 0, entries, terms, mode);
    } else {
        lemma_candidates_step(docs, n - 1, entries, terms, mode);
        lemma_candidates_ordered(docs, n - 1, entries, terms, mode);
    }
}

/// Each result of a search holds at least one query term and only query
/// terms; in mode `All` it holds every query term; and no document comes
/// twice.
pub proof fn lemma_search_results<T: Tokenizer>(
    engine: &SearchEngine<T>,
    query: Seq<char>,
    options: SearchOptions,
    r: Result<Vec<SearchResult>, AppError>,
)
    requires
        engine.outcome(query, options, r),
        r is Ok,
    ensures
        ({
            let v = r->Ok_0@;
            let terms = engine.terms_of(query);
            &&& forall|k: int| 0 <= k < v.len() ==> term_views((#[trigger] v[k]).matched_terms@).len() > 0
            &&& forall|k: int, i: int|
                0 <= k < v.len() && 0 <= i < v[k].matched_terms@.len() ==> terms.contains(
                    #[trigger] term_views(v[k].matched_terms@)[i],
                )
            &&& options.mode == SearchMode::All ==> forall|k: int|
                0 <= k < v.len() ==> term_views((#[trigger] v[k]).matched_terms@).to_set() == terms.to_set()
            &&& forall|k: int, l: int| 0 <= k < l < v.len() ==> (#[trigger] v[k]).doc_id != (#[trigger] v[l]).doc_id
        }),
{
    let v = r->Ok_0@;
    let docs = engine.index().documents@;
    let entries = engine.index().postings@;
    let terms = engine.terms_of(query);
    if terms.len() == 0 || options.limit == 0 {
        return;
    }
    reveal(results_of);
    reveal(result_of);
    let c = candidates(docs, docs.len() as int, entries, terms, options.mode);
    lemma_candidates_ordered(docs, docs.len() as int, entries, terms, options.mode);
    assert forall|k: int| 0 <= k < v.len() implies term_views((#[trigger] v[k]).matched_terms@).len() > 0 by {
        assert(result_of(docs[c[k]], entries, terms, v[k]));
        assert(is_candidate(docs, c[k], entries, terms, options.mode));
        reveal(is_candidate);
        let cov = covered_terms(entries, terms, docs[c[k]].id);
        let m = term_views(v[k].matched_terms@);
        assert(cov.to_set().contains(cov[0]));
        assert(m.to_set().contains(cov[0]));
    }
    assert forall|k: int, i: int|
        0 <= k < v.len() && 0 <= i < v[k].matched_terms@.len() implies terms.contains(
            #[trigger] term_views(v[k].matched_terms@)[i],
        ) by {
        assert(result_of(docs[c[k]], entries, terms, v[k]));
        let cov = covered_terms(entries, terms, docs[c[k]].id);
        let m = term_views(v[k].matched_terms@);
        let x = m[i];
        assert(m.to_set().contains(x));
        assert(cov.to_set().contains(x));
        let j = choose|j: int| 0 <= j < cov.len() && cov[j] == x;
        lemma_covered_in_terms(entries, terms, docs[c[k]].id);
        assert(terms.contains(cov[j]));
    }
    if options.mode == SearchMode::All {
        assert forall|k: int| 0 <= k < v.len() implies term_views((#[trigger] v[k]).matched_terms@).to_set() == terms.to_set() by {
            assert(result_of(docs[c[k]], entries, terms, v[k]));
            assert(is_candidate(docs, c[k], entries, terms, options.mode));
            reveal(is_candidate);
            lemma_covered_in_terms(entries, terms, docs[c[k]].id);
        }
    }
    assert forall|k: int, l: int| 0 <= k < l < v.len() implies (#[trigger] v[k]).doc_id != (#[trigger] v[l]).doc_id by {
        assert(result_of(docs[c[k]], entries, terms, v[k]));
        assert(result_of(docs[c[l]], entries, terms, v[l]));
        assert(is_candidate(docs, c[k], entries, terms, options.mode));
        assert(is_candidate(docs, c[l], entries, terms, options.mode));
        assert(c[k] < c[l]);
        reveal(is_candidate);
    }
}

proof fn lemma_doc_postings_nonempty(ps: Seq<Posting>, x: usize, j: int)
    requires
        0 <= j < ps.len(),
        ps[j].doc_id == x,
    ensures
        doc_postings(ps, x).len() > 0,
    decreases ps.len(),
{
    if ps.last().doc_id != x {
        assert(ps.drop_last()[j] == ps[j]);
        lemma_doc_postings_nonempty(ps.drop_last(), x, j);
    }
}

proof fn lemma_covered_nonempty(entries: Seq<TermPostings>, terms: Seq<Seq<char>>, x: usize, t: Seq<char>)
    requires
        terms.contains(t),
        term_doc_postings(entries, t, x).len() > 0,
    ensures
        covered_terms(entries, terms, x).len() > 0,
    decreases terms.len(),
{
    if terms.last() != t {
        let i = choose|i: int| 0 <= i < terms.len() && terms[i] == t;
        assert(terms.drop_last()[i] == t);
        lemma_covered_nonempty(entries, terms.drop_last(), x, t);
    }
}

proof fn lemma_candidate_listed(
    docs: Seq<Document>,
    n: int,
    i: int,
    entries: Seq<TermPostings>,
    terms: Seq<Seq<char>>,
    mode: SearchMode,
)
    requires
        0 <= i < n,
        is_candidate(docs, i, entries, terms, mode),
    ensures
        candidates(docs, n, entries, terms, mode).contains(i),
    decreases n,
{
    reveal(candidates);
    let c = candidates(docs, n, entries, terms, mode);
    if i == n - 1 {
        assert(c[c.len() - 1] == i);
    } else {
        lemma_candidate_listed(docs, n - 1, i, entries, terms, mode);
        let c0 = candidates(docs, n - 1, entries, terms, mode);
        let k = choose|k: int| 0 <= k < c0.len() && c0[k] == i;
        assert(c[k] == i);
    }
}

proof fn lemma_covered_all(entries: Seq<TermPostings>, terms: Seq<Seq<char>>, x: usize)
    requires
        forall|i: int| 0 <= i < terms.len() ==> term_doc_postings(entries, #[trigger] terms[i], x).len() > 0,
    ensures
        covered_terms(entries, terms, x).len() == terms.len(),
    decreases terms.len(),
{
    if terms.len() > 0 {
        assert forall|i: int| 0 <= i < terms.drop_last().len() implies term_doc_postings(
            entries,
            #[trigger] terms.drop_last()[i],
            x,
        ).len() > 0 by {
            assert(terms.drop_last()[i] == terms[i]);
        }
        lemma_covered_all(entries, terms.drop_last(), x);
        assert(term_doc_postings(entries, terms[terms.len() - 1], x).len() > 0);
    }
}

/// Whether document `d` of `docs` has a token whose term is `t`.
pub open spec fn has_token(docs: Seq<ParsedDocument>, d: int, t: Seq<char>) -> bool {
    exists|k: int| 0 <= k < docs[d].tokens@.len() && (#[trigger] docs[d].tokens@[k])@.token == t
}

/// The postings of a term that a token of document `d` has hold a posting
/// for `d`.
proof fn lemma_token_posted(
    index: InvertedIndex,
    root: Seq<char>,
    docs: Seq<ParsedDocument>,
    created_secs: u64,
    d: int,
    t: Seq<char>,
)
    requires
        index_of(index, root, docs, created_secs),
        0 <= d < docs.len(),
        has_token(docs, d, t),
    ensures
        term_doc_postings(index.postings@, t, index.documents@[d].id).len() > 0,
{
    let k = choose|k: int| 0 <= k < docs[d].tokens@.len() && (#[trigger] docs[d].tokens@[k])@.token == t;
    lemma_indexed_token_found(index, root, docs, created_secs, d, k);
    let ps = postings_of(index.postings@, t)->0;
    let j = choose|j: int| 0 <= j < ps.len() && (#[trigger] ps[j]).doc_id == d && ps[j].occurrences@.contains(
        indexed(docs[d].tokens@[k]@),
    );
    assert(document_from(index.documents@[d], docs[d], d));
    lemma_doc_postings_nonempty(ps, index.documents@[d].id, j);
}

/// What is indexed is found: in an index built from parsed documents, a
/// search whose query has a term that some token of document `d` has
/// returns document `d` among its results in mode `Any`, and in mode `All`
/// where the document has a token of every term of the query.
pub proof fn lemma_indexed_term_found<T: Tokenizer>(
    engine: &SearchEngine<T>,
    root: Seq<char>,
    docs: Seq<ParsedDocument>,
    created_secs: u64,
    query: Seq<char>,
    options: SearchOptions,
    r: Result<Vec<SearchResult>, AppError>,
    d: int,
    t: Seq<char>,
)
    requires
        index_of(engine.index(), root, docs, created_secs),
        engine.outcome(query, options, r),
        options.limit > 0,
        0 <= d < docs.len(),
        engine.terms_of(query).contains(t),
        has_token(docs, d, t),
        options.mode == SearchMode::All ==> forall|i: int|
            0 <= i < engine.terms_of(query).len() ==> has_token(docs, d, #[trigger] engine.terms_of(query)[i]),
    ensures
        r matches Ok(v) && exists|i: int| 0 <= i < v@.len() && (#[trigger] v@[i]).doc_id == d,
{
    let index = engine.index();
    let ds = index.documents@;
    let entries = index.postings@;
    let terms = engine.terms_of(query);
    assert(document_from(ds[d], docs[d], d));
    lemma_token_posted(index, root, docs, created_secs, d, t);
    lemma_covered_nonempty(entries, terms, ds[d].id, t);
    if options.mode == SearchMode::All {
        assert forall|i: int| 0 <= i < terms.len() implies term_doc_postings(entries, #[trigger] terms[i], ds[d].id).len()
            > 0 by {
            lemma_token_posted(index, root, docs, created_secs, d, terms[i]);
        }
        lemma_covered_all(entries, terms, ds[d].id);
    }
    assert forall|q: int| 0 <= q < d implies ds[q].id != ds[d].id by {
        assert(document_from(ds[q], docs[q], q));
    }
    lemma_document_position(ds, ds[d].id, d);
    assert(is_candidate(ds, d, entries, terms, options.mode)) by {
        reveal(is_candidate);
    }
    lemma_candidate_listed(ds, ds.len() as int, d, entries, terms, options.mode);
    reveal(results_of);
    let c = candidates(ds, ds.len() as int, entries, terms, options.mode);
    let v = r->Ok_0@;
    let i = choose|i: int| 0 <= i < c.len() && c[i] == d;
    assert(result_of(ds[c[i]], entries, terms, v[i]));
    reveal(result_of);
    assert(v[i].doc_id == d);
}

} // verus!
