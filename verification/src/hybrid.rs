//! Combining the results of a keyword search with the hits of a vector
//! search, one document at a time. The scores that rank the combined
//! results are computed by the caller.
use vstd::prelude::*;
use crate::engine::{dedup, lemma_sorted_terms, sorted_terms, token_texts};
use crate::model::{Document, SearchMatch, SearchResult, TermHit};
use crate::order::compare_strs;
use crate::search::{MatchView, match_view, match_views, term_views};
use crate::subtokens::{insert_sorted_unique, strictly_sorted, views};
use crate::text::{chars_of, string_from_chars};

verus! {

/// Whether two matches cover the same place: same range, same page.
pub open spec fn same_place(a: SearchMatch, b: SearchMatch) -> bool {
    a.char_start == b.char_start && a.char_end == b.char_end && a.page == b.page
}

pub fn same_match(left: &SearchMatch, right: &SearchMatch) -> (r: bool)
    ensures
        r == same_place(*left, *right),
{
    let same_page = match (left.page, right.page) {
        (None, None) => true,
        (Some(a), Some(b)) => a == b,
        _ => false,
    };
    left.char_start == right.char_start && left.char_end == right.char_end && same_page
}

/// The distinct terms, in order of first occurrence.
pub fn unique_terms(terms: &[String]) -> (out: Vec<String>)
    ensures
        term_views(out@) == dedup(term_views(terms@)),
{
    let ghost tv = term_views(terms@);
    let mut out: Vec<String> = Vec::new();
    let mut i: usize = 0;
    assert(tv.take(0) == Seq::<Seq<char>>::empty());
    assert(term_views(out@) == Seq::<Seq<char>>::empty());
    while i < terms.len()
        invariant
            i <= terms@.len(),
            tv == term_views(terms@),
            term_views(out@) == dedup(tv.take(i as int)),
        decreases terms.len() - i,
    {
        assert(tv.take(i + 1).drop_last() == tv.take(i as int));
        assert(tv.take(i + 1).last() == terms@[i as int]@);
        let mut seen = false;
        let mut j: usize = 0;
        while j < out.len()
            invariant
                j <= out@.len(),
                i < terms@.len(),
                seen == exists|q: int| 0 <= q < j && out@[q]@ == terms@[i as int]@,
            decreases out.len() - j,
        {
            if compare_strs(out[j].as_str(), terms[i].as_str()) == 0 {
                seen = true;
            }
            j = j + 1;
        }
        proof {
            let d = dedup(tv.take(i as int));
            if seen {
                let q = choose|q: int| 0 <= q < out@.len() && out@[q]@ == terms@[i as int]@;
                assert(d[q] == terms@[i as int]@);
            } else {
                assert forall|q: int| 0 <= q < d.len() implies d[q] != terms@[i as int]@ by {
                    assert(d[q] == out@[q]@);
                }
            }
        }
        if !seen {
            let ghost before = out@;
            out.push(terms[i].clone());
            assert(term_views(out@) == term_views(before).push(terms@[i as int]@));
        }
        i = i + 1;
    }
    assert(tv.take(terms@.len() as int) == tv);
    out
}

/// The matches `ms` followed by each of `extra` that is not at the same
/// place as a match before it.
pub open spec fn add_new_matches(ms: Seq<SearchMatch>, extra: Seq<SearchMatch>) -> Seq<SearchMatch>
    decreases extra.len(),
{
    if extra.len() == 0 {
        ms
    } else {
        let prev = add_new_matches(ms, extra.drop_last());
        if exists|k: int| 0 <= k < prev.len() && same_place(prev[k], extra.last()) {
            prev
        } else {
            prev.push(extra.last())
        }
    }
}

/// The result that a document found only by the vector search starts from.
pub open spec fn vector_only_base(
    doc_id: usize,
    document: Document,
    query_terms: Seq<Seq<char>>,
    vector_matches: Seq<SearchMatch>,
    r: SearchResult,
) -> bool {
    &&& r.doc_id == doc_id
    &&& r.title@ == document.title@
    &&& r.path@ == document.path@
    &&& term_views(r.matched_terms@) == dedup(query_terms)
    &&& r.snippet@ == if vector_matches.len() > 0 {
        vector_matches[0].snippet@
    } else {
        Seq::empty()
    }
    &&& r.matches@.len() == 0
    &&& r.hits@.len() == 0
}

/// `out` is `base` with the vector matches added where new, a snippet
/// taken from its first match where it had none, and as matched terms
/// those of `base` and the query's, sorted without repeats.
pub open spec fn merged_from(
    base: SearchResult,
    query_terms: Seq<Seq<char>>,
    vector_matches: Seq<SearchMatch>,
    out: SearchResult,
) -> bool {
    let ms = add_new_matches(base.matches@, vector_matches);
    &&& out.doc_id == base.doc_id
    &&& out.title@ == base.title@
    &&& out.path@ == base.path@
    &&& out.hits@ == base.hits@
    &&& out.matches@ == ms
    &&& out.snippet@ == if base.snippet@.len() > 0 {
        base.snippet@
    } else if ms.len() > 0 {
        ms[0].snippet@
    } else {
        Seq::empty()
    }
    &&& term_views(out.matched_terms@) == sorted_terms(
        term_views(base.matched_terms@).to_set() + query_terms.to_set(),
    )
}

/// The vector matches added, where new, to `matches`.
fn add_matches(matches: &mut Vec<SearchMatch>, extra: Vec<SearchMatch>)
    ensures
        final(matches)@ == add_new_matches(old(matches)@, extra@),
{
    let ghost m0 = matches@;
    let ghost all = extra@;
    let n = extra.len();
    let mut rest = extra;
    let mut i: usize = 0;
    assert(all.take(0) == Seq::<SearchMatch>::empty());
    while rest.len() > 0
        invariant
            i + rest@.len() == all.len(),
            all.len() == n,
            rest@ == all.skip(i as int),
            matches@ == add_new_matches(m0, all.take(i as int)),
        decreases rest.len(),
    {
        assert(all.take(i + 1).drop_last() == all.take(i as int));
        assert(all.take(i + 1).last() == all[i as int]);
        let x = rest.remove(0);
        assert(x == all[i as int]);
        assert(rest@ == all.skip(i + 1));
        let mut found = false;
        let mut j: usize = 0;
        while j < matches.len()
            invariant
                j <= matches@.len(),
                found == exists|k: int| 0 <= k < j && same_place(matches@[k], x),
            decreases matches.len() - j,
        {
            if same_match(&matches[j], &x) {
                found = true;
            }
            j = j + 1;
        }
        if !found {
            matches.push(x);
        }
        i = i + 1;
    }
    assert(all.take(all.len() as int) == all);
}

/// The positions in `s` that hold `d`, in increasing order.
pub open spec fn indices_of(s: Seq<usize>, d: usize) -> Seq<int>
    decreases s.len(),
{
    if s.len() == 0 {
        Seq::empty()
    } else {
        indices_of(s.drop_last(), d) + if s.last() == d {
            seq![s.len() - 1]
        } else {
            Seq::empty()
        }
    }
}

/// The keyword results and vector hits of one document, by their
/// positions in the two lists.
#[derive(Debug, Clone)]
pub struct DocGroup {
    pub doc_id: usize,
    pub keyword: Vec<usize>,
    pub hits: Vec<usize>,
}

pub open spec fn positions(v: Seq<usize>) -> Seq<int> {
    v.map_values(|x: usize| x as int)
}

fn positions_of(s: &Vec<usize>, d: usize) -> (out: Vec<usize>)
    ensures
        positions(out@) == indices_of(s@, d),
{
    let mut out: Vec<usize> = Vec::new();
    let mut i: usize = 0;
    while i < s.len()
        invariant
            i <= s@.len(),
            positions(out@) == indices_of(s@.take(i as int), d),
        decreases s.len() - i,
    {
        assert(s@.take(i + 1).drop_last() == s@.take(i as int));
        let ghost before = out@;
        if s[i] == d {
            out.push(i);
            assert(positions(out@) =~= positions(before).push(i as int));
        }
        i = i + 1;
        assert(positions(out@) =~= indices_of(s@.take(i as int), d));
    }
    assert(s@.take(s@.len() as int) == s@);
    out
}

fn holds(ids: &Vec<usize>, d: usize) -> (r: bool)
    ensures
        r == ids@.contains(d),
{
    let mut i: usize = 0;
    while i < ids.len()
        invariant
            i <= ids@.len(),
            forall|j: int| 0 <= j < i ==> ids@[j] != d,
        decreases ids.len() - i,
    {
        if ids[i] == d {
            return true;
        }
        i = i + 1;
    }
    false
}

/// The elements of `s` without repeats, each where it first occurs.
pub open spec fn first_occurrences(s: Seq<usize>) -> Seq<usize>
    decreases s.len(),
{
    if s.len() == 0 {
        Seq::empty()
    } else if first_occurrences(s.drop_last()).contains(s.last()) {
        first_occurrences(s.drop_last())
    } else {
        first_occurrences(s.drop_last()).push(s.last())
    }
}

/// Appends to `ids` each element of `s` that it does not hold yet.
fn add_new_ids(ids: &mut Vec<usize>, s: &Vec<usize>, Ghost(prev): Ghost<Seq<usize>>)
    requires
        forall|a: int, b: int| 0 <= a < b < old(ids)@.len() ==> old(ids)@[a] != old(ids)@[b],
        old(ids)@ == first_occurrences(prev),
    ensures
        forall|a: int, b: int| 0 <= a < b < final(ids)@.len() ==> final(ids)@[a] != final(ids)@[b],
        forall|d: usize| #[trigger] final(ids)@.contains(d) <==> old(ids)@.contains(d) || s@.contains(d),
        final(ids)@ == first_occurrences(prev + s@),
{
    let ghost start = ids@;
    let mut k: usize = 0;
    assert(prev + s@.take(0) =~= prev);
    while k < s.len()
        invariant
            k <= s@.len(),
            forall|a: int, b: int| 0 <= a < b < ids@.len() ==> ids@[a] != ids@[b],
            forall|d: usize| #[trigger] ids@.contains(d) <==> start.contains(d) || s@.take(k as int).contains(d),
            ids@ == first_occurrences(prev + s@.take(k as int)),
        decreases s.len() - k,
    {
        assert((prev + s@.take(k + 1)).drop_last() =~= prev + s@.take(k as int));
        assert((prev + s@.take(k + 1)).last() == s@[k as int]);
        let ghost before = ids@;
        let d = s[k];
        if !holds(ids, d) {
            ids.push(d);
            assert forall|e: usize| #[trigger] ids@.contains(e) <==> before.contains(e) || e == d by {
                if ids@.contains(e) {
                    let j = choose|j: int| 0 <= j < ids@.len() && #[trigger] ids@[j] == e;
                    if j < before.len() {
                        assert(before[j] == e);
                    }
                }
                if before.contains(e) {
                    let j = choose|j: int| 0 <= j < before.len() && #[trigger] before[j] == e;
                    assert(ids@[j] == e);
                }
                if e == d {
                    assert(ids@[before.len() as int] == d);
                }
            }
        }
        assert(s@.take(k + 1) == s@.take(k as int).push(d));
        assert forall|e: usize| #[trigger] s@.take(k + 1).contains(e) <==> s@.take(k as int).contains(e) || e == d by {
            let t = s@.take(k as int);
            if t.push(d).contains(e) {
                let j = choose|j: int| 0 <= j < t.push(d).len() && #[trigger] t.push(d)[j] == e;
                if j < t.len() {
                    assert(t[j] == e);
                }
            }
            if t.contains(e) {
                let j = choose|j: int| 0 <= j < t.len() && #[trigger] t[j] == e;
                assert(t.push(d)[j] == e);
            }
            if e == d {
                assert(t.push(d)[t.len() as int] == d);
            }
        }
        k = k + 1;
    }
    assert(s@.take(s@.len() as int) == s@);
}


/// Groups the keyword results and the vector hits by document: one group
/// per document that occurs in either list (keyword documents first, each
/// in order of first occurrence), with the positions in each list that
/// belong to it.
pub fn group_by_document(keyword_docs: &Vec<usize>, hit_docs: &Vec<usize>) -> (groups: Vec<DocGroup>)
    ensures
        groups@.map_values(|g: DocGroup| g.doc_id) == first_occurrences(keyword_docs@ + hit_docs@),
        forall|a: int, b: int| 0 <= a < b < groups@.len() ==> groups@[a].doc_id != groups@[b].doc_id,
        forall|d: usize|
            (keyword_docs@.contains(d) || hit_docs@.contains(d)) <==> exists|i: int|
                0 <= i < groups@.len() && (#[trigger] groups@[i]).doc_id == d,
        forall|i: int|
            0 <= i < groups@.len() ==> positions((#[trigger] groups@[i]).keyword@) == indices_of(
                keyword_docs@,
                groups@[i].doc_id,
            ) && positions(groups@[i].hits@) == indices_of(hit_docs@, groups@[i].doc_id),
{
    let mut ids: Vec<usize> = Vec::new();
    add_new_ids(&mut ids, keyword_docs, Ghost(Seq::empty()));
    assert(Seq::<usize>::empty() + keyword_docs@ =~= keyword_docs@);
    add_new_ids(&mut ids, hit_docs, Ghost(keyword_docs@));
    let mut groups: Vec<DocGroup> = Vec::new();
    let mut i: usize = 0;
    while i < ids.len()
        invariant
            i <= ids@.len(),
            groups@.len() == i,
            forall|j: int| 0 <= j < i ==> (#[trigger] groups@[j]).doc_id == ids@[j],
            forall|j: int|
                0 <= j < i ==> positions((#[trigger] groups@[j]).keyword@) == indices_of(keyword_docs@, ids@[j])
                    && positions(groups@[j].hits@) == indices_of(hit_docs@, ids@[j]),
        decreases ids.len() - i,
    {
        let d = ids[i];
        groups.push(DocGroup { doc_id: d, keyword: positions_of(keyword_docs, d), hits: positions_of(hit_docs, d) });
        i = i + 1;
    }
    assert(groups@.map_values(|g: DocGroup| g.doc_id) =~= ids@);
    assert forall|d: usize|
        (keyword_docs@.contains(d) || hit_docs@.contains(d)) implies exists|i: int|
            0 <= i < groups@.len() && (#[trigger] groups@[i]).doc_id == d by {
        assert(ids@.contains(d));
        let j = choose|j: int| 0 <= j < ids@.len() && #[trigger] ids@[j] == d;
        assert(groups@[j].doc_id == d);
    }
    assert forall|d: usize|
        (exists|i: int| 0 <= i < groups@.len() && (#[trigger] groups@[i]).doc_id == d) implies (
        keyword_docs@.contains(d) || hit_docs@.contains(d)) by {
        let j = choose|j: int| 0 <= j < groups@.len() && (#[trigger] groups@[j]).doc_id == d;
        assert(ids@[j] == d);
        assert(ids@.contains(d));
    }
    groups
}

/// The result for one document of a hybrid search: the keyword result if
/// there is one, else one made from the document and the query; with the
/// vector matches added where new, a snippet, and the query's terms among
/// its matched terms.
#[verifier::spinoff_prover]
pub fn merge_hybrid_result(
    keyword_result: Option<SearchResult>,
    doc_id: usize,
    document: &Document,
    query_terms: &[String],
    vector_matches: Vec<SearchMatch>,
) -> (out: SearchResult)
    ensures
        match keyword_result {
            Some(base) => merged_from(base, term_views(query_terms@), vector_matches@, out),
            None => exists|base: SearchResult|
                vector_only_base(doc_id, *document, term_views(query_terms@), vector_matches@, base) && merged_from(
                    base,
                    term_views(query_terms@),
                    vector_matches@,
                    out,
                ),
        },
{
    let mut result = match keyword_result {
        Some(r) => r,
        None => {
            let snippet = if vector_matches.len() > 0 {
                vector_matches[0].snippet.clone()
            } else {
                String::new()
            };
            SearchResult {
                doc_id,
                title: document.title.clone(),
                path: document.path.clone(),
                matched_terms: unique_terms(query_terms),
                snippet,
                matches: Vec::new(),
                hits: Vec::new(),
            }
        },
    };
    let ghost base = result;
    add_matches(&mut result.matches, vector_matches);
    let ghost ms = result.matches@;
    if chars_of(result.snippet.as_str()).len() == 0 {
        result.snippet = if result.matches.len() > 0 {
            result.matches[0].snippet.clone()
        } else {
            String::new()
        };
    }
    let mut names: Vec<Vec<char>> = Vec::new();
    let mut i: usize = 0;
    assert(views(names@).to_set() =~= Set::<Seq<char>>::empty());
    while i < result.matched_terms.len()
        invariant
            i <= result.matched_terms@.len(),
            strictly_sorted(views(names@)),
            views(names@).to_set() == term_views(result.matched_terms@).take(i as int).to_set(),
        decreases result.matched_terms.len() - i,
    {
        let t = chars_of(result.matched_terms[i].as_str());
        insert_sorted_unique(&mut names, t);
        proof {
            term_views(result.matched_terms@).take(i as int).lemma_push_to_set_commute(
                result.matched_terms@[i as int]@,
            );
            assert(term_views(result.matched_terms@).take(i + 1) == term_views(result.matched_terms@).take(
                i as int,
            ).push(result.matched_terms@[i as int]@));
        }
        i = i + 1;
    }
    assert(term_views(result.matched_terms@).take(result.matched_terms@.len() as int) == term_views(result.matched_terms@));
    let ghost own = views(names@).to_set();
    let mut q: usize = 0;
    assert(own + term_views(query_terms@).take(0).to_set() =~= own);
    while q < query_terms.len()
        invariant
            q <= query_terms@.len(),
            strictly_sorted(views(names@)),
            views(names@).to_set() == own + term_views(query_terms@).take(q as int).to_set(),
        decreases query_terms.len() - q,
    {
        let t = chars_of(query_terms[q].as_str());
        insert_sorted_unique(&mut names, t);
        proof {
            term_views(query_terms@).take(q as int).lemma_push_to_set_commute(query_terms@[q as int]@);
            assert(term_views(query_terms@).take(q + 1) == term_views(query_terms@).take(q as int).push(
                query_terms@[q as int]@,
            ));
            assert(views(names@).to_set() =~= own + term_views(query_terms@).take(q + 1).to_set());
        }
        q = q + 1;
    }
    assert(term_views(query_terms@).take(query_terms@.len() as int) == term_views(query_terms@));
    let mut sorted: Vec<String> = Vec::new();
    let mut k: usize = 0;
    while k < names.len()
        invariant
            k <= names@.len(),
            term_views(sorted@) == views(names@).take(k as int),
        decreases names.len() - k,
    {
        let ghost before = sorted@;
        let st = string_from_chars(names[k].as_slice());
        sorted.push(st);
        assert(term_views(sorted@) =~= term_views(before).push(names@[k as int]@));
        assert(views(names@).take(k + 1) =~= views(names@).take(k as int).push(names@[k as int]@));
        k = k + 1;
    }
    assert(views(names@).take(names@.len() as int) == views(names@));
    proof {
        lemma_sorted_terms(views(names@));
    }
    result.matched_terms = sorted;
    assert(result.doc_id == base.doc_id);
    assert(result.matches@ == add_new_matches(base.matches@, vector_matches@));
    assert(result.hits@ == base.hits@);
    assert(term_views(result.matched_terms@) == sorted_terms(term_views(base.matched_terms@).to_set() + term_views(query_terms@).to_set()));
    assert(merged_from(base, term_views(query_terms@), vector_matches@, result));
    result
}

/// Whether `result` holds every one of `required` among its matched terms.
pub fn has_all_terms(result: &SearchResult, required: &[String]) -> (r: bool)
    ensures
        r == (forall|k: int| 0 <= k < required@.len() ==> term_views(result.matched_terms@).contains(#[trigger] required@[k]@)),
{
    let mut k: usize = 0;
    while k < required.len()
        invariant
            k <= required@.len(),
            forall|q: int| 0 <= q < k ==> term_views(result.matched_terms@).contains(#[trigger] required@[q]@),
        decreases required.len() - k,
    {
        let mut found = false;
        let mut j: usize = 0;
        while j < result.matched_terms.len()
            invariant
                j <= result.matched_terms@.len(),
                k < required@.len(),
                found == exists|q: int| 0 <= q < j && result.matched_terms@[q]@ == required@[k as int]@,
            decreases result.matched_terms.len() - j,
        {
            if compare_strs(result.matched_terms[j].as_str(), required[k].as_str()) == 0 {
                found = true;
            }
            j = j + 1;
        }
        if !found {
            proof {
                if term_views(result.matched_terms@).contains(required@[k as int]@) {
                    let q = choose|q: int| 0 <= q < term_views(result.matched_terms@).len() && term_views(result.matched_terms@)[q] == required@[k as int]@;
                    assert(result.matched_terms@[q]@ == required@[k as int]@);
                }
            }
            return false;
        }
        proof {
            let q = choose|q: int| 0 <= q < result.matched_terms@.len() && result.matched_terms@[q]@ == required@[k as int]@;
            assert(term_views(result.matched_terms@)[q] == required@[k as int]@);
        }
        k = k + 1;
    }
    true
}

} // verus!
