//! Building the inverted index from parsed documents.
use vstd::prelude::*;
use crate::model::{
    Document, INDEX_VERSION, IndexMetadata, IndexedOccurrence, InvertedIndex, ParsedDocument,
    Posting, TermPostings, TokenOccurrence, TokenView, token_views, postings_of,
};
use crate::order::{compare_strs, compare_chars, lemma_seq_lt_asym, lemma_seq_lt_irrefl, lemma_seq_lt_trans, seq_lt};
use crate::parser::Tokenizer;
use crate::text::{chars_of, string_from_chars};

verus! {

// ---------------------------------------------------------------------------
// Lists kept in increasing order of their terms
// ---------------------------------------------------------------------------
/// Something with a term as its key.
pub trait TermKeyed {
    spec fn key(&self) -> Seq<char>;

    fn compare_key(&self, k: &[char]) -> (r: i8)
        ensures
            r == 0 <==> self.key() == k@,
            r < 0 <==> seq_lt(self.key(), k@),
            r > 0 <==> seq_lt(k@, self.key()),
    ;
}

impl TermKeyed for TermPostings {
    open spec fn key(&self) -> Seq<char> {
        self.term@
    }

    fn compare_key(&self, k: &[char]) -> (r: i8) {
        let t = chars_of(self.term.as_str());
        compare_chars(t.as_slice(), k)
    }
}

/// The occurrences of one term within one document.
pub struct TermOccurrences {
    pub term: Vec<char>,
    pub occurrences: Vec<IndexedOccurrence>,
}

impl TermKeyed for TermOccurrences {
    open spec fn key(&self) -> Seq<char> {
        self.term@
    }

    fn compare_key(&self, k: &[char]) -> (r: i8) {
        compare_chars(self.term.as_slice(), k)
    }
}

/// Keys in strictly increasing order.
pub open spec fn keys_sorted<E: TermKeyed>(s: Seq<E>) -> bool {
    forall|i: int, j: int| 0 <= i < j < s.len() ==> seq_lt(#[trigger] s[i].key(), #[trigger] s[j].key())
}

/// Binary search by key: `Ok` with the position of `k`, or `Err` with the
/// position where `k` belongs.
pub fn search_key<E: TermKeyed>(v: &Vec<E>, k: &[char]) -> (r: Result<usize, usize>)
    requires
        keys_sorted(v@),
    ensures
        match r {
            Ok(i) => i < v@.len() && v@[i as int].key() == k@,
            Err(i) => i <= v@.len() && (forall|j: int| 0 <= j < i ==> seq_lt(#[trigger] v@[j].key(), k@))
                && (forall|j: int| i <= j < v@.len() ==> seq_lt(k@, #[trigger] v@[j].key())),
        },
{
    let mut lo: usize = 0;
    let mut hi: usize = v.len();
    while lo < hi
        invariant
            lo <= hi <= v@.len(),
            keys_sorted(v@),
            forall|j: int| 0 <= j < lo ==> seq_lt(#[trigger] v@[j].key(), k@),
            forall|j: int| hi <= j < v@.len() ==> seq_lt(k@, #[trigger] v@[j].key()),
        decreases hi - lo,
    {
        let mid = lo + (hi - lo) / 2;
        let c = v[mid].compare_key(k);
        if c == 0 {
            return Ok(mid);
        } else if c < 0 {
            proof {
                assert forall|j: int| 0 <= j < mid + 1 implies seq_lt(#[trigger] v@[j].key(), k@) by {
                    if j < mid {
                        lemma_seq_lt_trans(v@[j].key(), v@[mid as int].key(), k@);
                    }
                }
            }
            lo = mid + 1;
        } else {
            proof {
                assert forall|j: int| mid <= j < v@.len() implies seq_lt(k@, #[trigger] v@[j].key()) by {
                    if j > mid {
                        lemma_seq_lt_trans(k@, v@[mid as int].key(), v@[j].key());
                    }
                }
            }
            hi = mid;
        }
    }
    Err(lo)
}

/// Whether the terms of `entries` are in strictly increasing order.
pub fn check_terms_sorted(entries: &Vec<TermPostings>) -> (r: bool)
    ensures
        r == keys_sorted(entries@),
{
    if entries.len() == 0 {
        return true;
    }
    let mut i: usize = 1;
    while i < entries.len()
        invariant
            1 <= i <= entries@.len(),
            forall|a: int, b: int| 0 <= a < b < i ==> seq_lt(#[trigger] entries@[a].key(), #[trigger] entries@[b].key()),
        decreases entries.len() - i,
    {
        let c = compare_strs(entries[i - 1].term.as_str(), entries[i].term.as_str());
        if c >= 0 {
            proof {
                if c == 0 {
                    lemma_seq_lt_irrefl(entries@[i as int].key());
                } else {
                    lemma_seq_lt_asym(entries@[i - 1].key(), entries@[i as int].key());
                }
            }
            return false;
        }
        proof {
            assert forall|a: int, b: int| 0 <= a < b < i + 1 implies seq_lt(#[trigger] entries@[a].key(), #[trigger] entries@[b].key()) by {
                if b == i && a < i - 1 {
                    lemma_seq_lt_trans(entries@[a].key(), entries@[i - 1].key(), entries@[b].key());
                }
            }
        }
        i = i + 1;
    }
    true
}

// ---------------------------------------------------------------------------
// What the index holds
// ---------------------------------------------------------------------------
/// A posting as plain values.
pub ghost struct PostingView {
    pub doc_id: int,
    pub frequency: int,
    pub occurrences: Seq<IndexedOccurrence>,
}

impl View for Posting {
    type V = PostingView;

    open spec fn view(&self) -> PostingView {
        PostingView {
            doc_id: self.doc_id as int,
            frequency: self.frequency as int,
            occurrences: self.occurrences@,
        }
    }
}

pub open spec fn posting_views(v: Seq<Posting>) -> Seq<PostingView> {
    v.map_values(|p: Posting| p@)
}

/// The indexed form of a token occurrence.
pub open spec fn indexed(t: TokenView) -> IndexedOccurrence {
    IndexedOccurrence {
        token_position: t.position as usize,
        char_start: t.char_start as usize,
        char_end: t.char_end as usize,
        page: t.page,
    }
}

pub open spec fn has_token(t: Seq<char>) -> spec_fn(TokenView) -> bool {
    |x: TokenView| x.token == t
}

pub open spec fn indexed_fn() -> spec_fn(TokenView) -> IndexedOccurrence {
    |x: TokenView| indexed(x)
}

/// Where term `t` occurs among `tokens`, in order.
pub open spec fn term_occurrences(tokens: Seq<TokenView>, t: Seq<char>) -> Seq<IndexedOccurrence> {
    tokens.filter(has_token(t)).map_values(indexed_fn())
}

/// The postings of term `t` over documents `docs` (document `d` has id
/// `d`): one per document that holds `t`, in document order.
pub open spec fn term_postings(docs: Seq<Seq<TokenView>>, t: Seq<char>) -> Seq<PostingView>
    decreases docs.len(),
{
    if docs.len() == 0 {
        Seq::empty()
    } else {
        let prev = term_postings(docs.drop_last(), t);
        let occ = term_occurrences(docs.last(), t);
        if occ.len() > 0 {
            prev.push(
                PostingView { doc_id: docs.len() - 1, frequency: occ.len() as int, occurrences: occ },
            )
        } else {
            prev
        }
    }
}

/// Whether `t` is a term of some document.
pub open spec fn in_corpus(docs: Seq<Seq<TokenView>>, t: Seq<char>) -> bool {
    exists|d: int, k: int| 0 <= d < docs.len() && 0 <= k < docs[d].len() && (#[trigger] docs[d][k]).token == t
}

/// `entries` holds exactly the terms of `docs`, in increasing order, each
/// with its postings.
pub open spec fn postings_match(entries: Seq<TermPostings>, docs: Seq<Seq<TokenView>>) -> bool {
    &&& keys_sorted(entries)
    &&& forall|i: int| 0 <= i < entries.len() ==> posting_views((#[trigger] entries[i]).postings@) == term_postings(docs, entries[i].term@)
    &&& forall|i: int| 0 <= i < entries.len() ==> in_corpus(docs, (#[trigger] entries[i]).term@)
    &&& forall|t: Seq<char>| in_corpus(docs, t) ==> exists|i: int| 0 <= i < entries.len() && (#[trigger] entries[i]).term@ == t
}

pub open spec fn doc_tokens(docs: Seq<ParsedDocument>) -> Seq<Seq<TokenView>> {
    docs.map_values(|d: ParsedDocument| token_views(d.tokens@))
}

/// Total number of tokens of the documents.
pub open spec fn total_tokens(docs: Seq<ParsedDocument>) -> nat
    decreases docs.len(),
{
    if docs.len() == 0 {
        0
    } else {
        total_tokens(docs.drop_last()) + docs.last().tokens@.len()
    }
}

/// Document `i` of the index made from parsed document `p`.
pub open spec fn document_from(d: Document, p: ParsedDocument, i: int) -> bool {
    &&& d.id == i
    &&& d.path@ == p.path@
    &&& d.title@ == p.title@
    &&& d.file_type == p.file_type
    &&& d.modified_secs == p.modified_secs
    &&& d.size_bytes == p.size_bytes
    &&& d.token_count == p.tokens@.len()
    &&& d.content@ == p.content@
}

/// The index of parsed documents, numbered in the given order.
pub open spec fn index_of(index: InvertedIndex, root: Seq<char>, docs: Seq<ParsedDocument>, created_secs: u64) -> bool {
    &&& index.documents@.len() == docs.len()
    &&& forall|i: int| 0 <= i < docs.len() ==> document_from(#[trigger] index.documents@[i], docs[i], i)
    &&& postings_match(index.postings@, doc_tokens(docs))
    &&& index.metadata.version == INDEX_VERSION
    &&& index.metadata.root@ == root
    &&& index.metadata.document_count == docs.len()
    &&& index.metadata.term_count == index.postings@.len()
    &&& index.metadata.total_tokens == total_tokens(docs)
    &&& index.metadata.created_secs == created_secs
}

/// Makes an index from a tokenizer.
pub struct IndexBuilder<T: Tokenizer> {
    tokenizer: T,
}

impl<T: Tokenizer> IndexBuilder<T> {
    pub fn new(tokenizer: T) -> (b: Self)
        ensures
            b.tokenizer() == tokenizer,
    {
        IndexBuilder { tokenizer }
    }

    pub closed spec fn tokenizer(&self) -> T {
        self.tokenizer
    }

    /// The tokenizer documents are parsed with.
    pub fn tokenizer_ref(&self) -> (t: &T)
        ensures
            *t == self.tokenizer(),
    {
        &self.tokenizer
    }
}


proof fn lemma_term_occurrences_push(s: Seq<TokenView>, x: TokenView, t: Seq<char>)
    ensures
        term_occurrences(s.push(x), t) == if x.token == t {
            term_occurrences(s, t).push(indexed(x))
        } else {
            term_occurrences(s, t)
        },
{
    s.lemma_filter_push(x, has_token(t));
    if x.token == t {
        s.filter(has_token(t)).lemma_push_map_commute(indexed_fn(), x);
    }
}

proof fn lemma_term_occurrences_nonempty(s: Seq<TokenView>, t: Seq<char>)
    ensures
        term_occurrences(s, t).len() > 0 <==> exists|k: int| 0 <= k < s.len() && (#[trigger] s[k]).token == t,
    decreases s.len(),
{
    if s.len() > 0 {
        let p = s.drop_last();
        lemma_term_occurrences_nonempty(p, t);
        lemma_term_occurrences_push(p, s.last(), t);
        assert(p.push(s.last()) == s);
        if exists|k: int| 0 <= k < s.len() && (#[trigger] s[k]).token == t {
            let k = choose|k: int| 0 <= k < s.len() && (#[trigger] s[k]).token == t;
            if k < s.len() - 1 {
                assert(p[k] == s[k]);
            }
        }
        if exists|k: int| 0 <= k < p.len() && (#[trigger] p[k]).token == t {
            let k = choose|k: int| 0 <= k < p.len() && (#[trigger] p[k]).token == t;
            assert(s[k] == p[k]);
        }
    } else {
        assert(s.filter(has_token(t)).len() == 0) by {
            s.lemma_filter_len(has_token(t));
        }
    }
}

/// The occurrences of every term of one document, grouped by term in
/// increasing order of the terms.
pub fn group_by_term(tokens: &Vec<TokenOccurrence>) -> (groups: Vec<TermOccurrences>)
    ensures
        keys_sorted(groups@),
        forall|i: int| 0 <= i < groups@.len() ==> (#[trigger] groups@[i]).occurrences@ == term_occurrences(token_views(tokens@), groups@[i].term@),
        forall|i: int| 0 <= i < groups@.len() ==> term_occurrences(token_views(tokens@), (#[trigger] groups@[i]).term@).len() > 0,
        forall|t: Seq<char>| #[trigger] term_occurrences(token_views(tokens@), t).len() > 0 ==> exists|i: int| 0 <= i < groups@.len() && (#[trigger] groups@[i]).term@ == t,
{
    let ghost tv = token_views(tokens@);
    let mut groups: Vec<TermOccurrences> = Vec::new();
    let mut k: usize = 0;
    while k < tokens.len()
        invariant
            k <= tokens@.len(),
            tv == token_views(tokens@),
            keys_sorted(groups@),
            forall|i: int| 0 <= i < groups@.len() ==> (#[trigger] groups@[i]).occurrences@ == term_occurrences(tv.take(k as int), groups@[i].term@),
            forall|i: int| 0 <= i < groups@.len() ==> term_occurrences(tv.take(k as int), (#[trigger] groups@[i]).term@).len() > 0,
            forall|t: Seq<char>| #[trigger] term_occurrences(tv.take(k as int), t).len() > 0 ==> exists|i: int| 0 <= i < groups@.len() && (#[trigger] groups@[i]).term@ == t,
        decreases tokens.len() - k,
    {
        let tok = &tokens[k];
        let key = chars_of(tok.token.as_str());
        let occ = IndexedOccurrence {
            token_position: tok.position,
            char_start: tok.char_start,
            char_end: tok.char_end,
            page: tok.page,
        };
        let ghost pre = tv.take(k as int);
        let ghost x = tv[k as int];
        proof {
            assert(x == tok@);
            assert(occ == indexed(x));
            assert(tv.take(k + 1) == pre.push(x));
            assert(key@ == x.token);
            assert forall|t: Seq<char>| #[trigger] term_occurrences(tv.take(k + 1), t) == if x.token == t {
                term_occurrences(pre, t).push(indexed(x))
            } else {
                term_occurrences(pre, t)
            } by {
                lemma_term_occurrences_push(pre, x, t);
            }
        }
        let ghost old_groups = groups@;
        match search_key(&groups, key.as_slice()) {
            Ok(i) => {
                groups[i].occurrences.push(occ);
                proof {
                    assert forall|j: int| 0 <= j < groups@.len() implies (#[trigger] groups@[j]).occurrences@ == term_occurrences(tv.take(k + 1), groups@[j].term@) by {
                        if j != i {
                            assert(groups@[j] == old_groups[j]);
                            if old_groups[j].term@ == x.token {
                                lemma_seq_lt_irrefl(x.token);
                                if j < i {
                                    assert(seq_lt(old_groups[j].key(), old_groups[i as int].key()));
                                } else {
                                    assert(seq_lt(old_groups[i as int].key(), old_groups[j].key()));
                                }
                            }
                        }
                    }
                    assert forall|j: int| 0 <= j < groups@.len() implies term_occurrences(tv.take(k + 1), (#[trigger] groups@[j]).term@).len() > 0 by {
                        assert(groups@[j].term@ == old_groups[j].term@);
                    }
                    assert(keys_sorted(groups@)) by {
                        assert forall|a: int, b: int| 0 <= a < b < groups@.len() implies seq_lt(#[trigger] groups@[a].key(), #[trigger] groups@[b].key()) by {
                            assert(groups@[a].term@ == old_groups[a].term@);
                            assert(groups@[b].term@ == old_groups[b].term@);
                        }
                    }
                    assert forall|t: Seq<char>| #[trigger] term_occurrences(tv.take(k + 1), t).len() > 0 implies exists|j: int| 0 <= j < groups@.len() && (#[trigger] groups@[j]).term@ == t by {
                        if t == x.token {
                            assert(groups@[i as int].term@ == t);
                        } else {
                            let j = choose|j: int| 0 <= j < old_groups.len() && (#[trigger] old_groups[j]).term@ == t;
                            assert(groups@[j].term@ == t);
                        }
                    }
                }
            },
            Err(j) => {
                let mut occs: Vec<IndexedOccurrence> = Vec::new();
                occs.push(occ);
                groups.insert(j, TermOccurrences { term: key, occurrences: occs });
                proof {
                    assert(term_occurrences(pre, x.token).len() == 0) by {
                        if term_occurrences(pre, x.token).len() > 0 {
                            let m = choose|m: int| 0 <= m < old_groups.len() && (#[trigger] old_groups[m]).term@ == x.token;
                            lemma_seq_lt_irrefl(x.token);
                            if m < j {
                                assert(seq_lt(old_groups[m].key(), key@));
                            } else {
                                assert(seq_lt(key@, old_groups[m].key()));
                            }
                        }
                    }
                    assert(term_occurrences(pre, x.token) == Seq::<IndexedOccurrence>::empty());
                    assert forall|m: int| 0 <= m < groups@.len() implies (#[trigger] groups@[m]).occurrences@ == term_occurrences(tv.take(k + 1), groups@[m].term@) by {
                        if m < j {
                            assert(groups@[m] == old_groups[m]);
                            lemma_seq_lt_irrefl(x.token);
                            assert(seq_lt(old_groups[m].key(), key@));
                        } else if m > j {
                            assert(groups@[m] == old_groups[m - 1]);
                            lemma_seq_lt_irrefl(x.token);
                            assert(seq_lt(key@, old_groups[m - 1].key()));
                        } else {
                            assert(groups@[m].occurrences@ == seq![occ]);
                            assert(Seq::<IndexedOccurrence>::empty().push(indexed(x)) == seq![occ]);
                        }
                    }
                    assert forall|m: int| 0 <= m < groups@.len() implies term_occurrences(tv.take(k + 1), (#[trigger] groups@[m]).term@).len() > 0 by {
                        if m < j {
                            assert(groups@[m] == old_groups[m]);
                        } else if m > j {
                            assert(groups@[m] == old_groups[m - 1]);
                        }
                    }
                    assert(keys_sorted(groups@)) by {
                        assert forall|a: int, b: int| 0 <= a < b < groups@.len() implies seq_lt(#[trigger] groups@[a].key(), #[trigger] groups@[b].key()) by {
                            if a < j && b < j {
                                assert(groups@[a] == old_groups[a] && groups@[b] == old_groups[b]);
                            } else if a < j && b == j {
                                assert(groups@[a] == old_groups[a]);
                            } else if a < j && b > j {
                                assert(groups@[a] == old_groups[a] && groups@[b] == old_groups[b - 1]);
                                lemma_seq_lt_trans(old_groups[a].key(), key@, old_groups[b - 1].key());
                            } else if a == j {
                                assert(groups@[b] == old_groups[b - 1]);
                            } else {
                                assert(groups@[a] == old_groups[a - 1] && groups@[b] == old_groups[b - 1]);
                            }
                        }
                    }
                    assert forall|t: Seq<char>| #[trigger] term_occurrences(tv.take(k + 1), t).len() > 0 implies exists|m: int| 0 <= m < groups@.len() && (#[trigger] groups@[m]).term@ == t by {
                        if t == x.token {
                            assert(groups@[j as int].term@ == t);
                        } else {
                            let m = choose|m: int| 0 <= m < old_groups.len() && (#[trigger] old_groups[m]).term@ == t;
                            if m < j {
                                assert(groups@[m].term@ == t);
                            } else {
                                assert(groups@[m + 1].term@ == t);
                            }
                        }
                    }
                }
            },
        }
        k = k + 1;
    }
    assert(tv.take(tokens@.len() as int) == tv);
    groups
}


/// The posting document `d` (with tokens `doc`) contributes for term `t`.
pub open spec fn doc_posting(doc: Seq<TokenView>, d: int, t: Seq<char>) -> PostingView {
    PostingView {
        doc_id: d,
        frequency: term_occurrences(doc, t).len() as int,
        occurrences: term_occurrences(doc, t),
    }
}

pub open spec fn grouped_before(gs: Seq<TermOccurrences>, m: int, t: Seq<char>) -> bool {
    exists|g: int| 0 <= g < m && (#[trigger] gs[g]).term@ == t
}

proof fn lemma_not_in_corpus_no_postings(docs: Seq<Seq<TokenView>>, t: Seq<char>)
    requires
        !in_corpus(docs, t),
    ensures
        term_postings(docs, t) == Seq::<PostingView>::empty(),
    decreases docs.len(),
{
    if docs.len() > 0 {
        let p = docs.drop_last();
        assert(!in_corpus(p, t)) by {
            if in_corpus(p, t) {
                let (d, k) = choose|d: int, k: int| 0 <= d < p.len() && 0 <= k < p[d].len() && (#[trigger] p[d][k]).token == t;
                assert(docs[d][k] == p[d][k]);
            }
        }
        lemma_not_in_corpus_no_postings(p, t);
        lemma_term_occurrences_nonempty(docs.last(), t);
        if term_occurrences(docs.last(), t).len() > 0 {
            let k = choose|k: int| 0 <= k < docs.last().len() && (#[trigger] docs.last()[k]).token == t;
            assert(docs[docs.len() - 1][k].token == t);
        }
    }
}

proof fn lemma_in_corpus_push(docs: Seq<Seq<TokenView>>, doc: Seq<TokenView>, t: Seq<char>)
    ensures
        in_corpus(docs.push(doc), t) <==> in_corpus(docs, t) || term_occurrences(doc, t).len() > 0,
{
    let n = docs.push(doc);
    lemma_term_occurrences_nonempty(doc, t);
    if in_corpus(n, t) {
        let (d, k) = choose|d: int, k: int| 0 <= d < n.len() && 0 <= k < n[d].len() && (#[trigger] n[d][k]).token == t;
        if d < docs.len() {
            assert(docs[d][k] == n[d][k]);
        } else {
            assert(doc[k] == n[d][k]);
        }
    }
    if in_corpus(docs, t) {
        let (d, k) = choose|d: int, k: int| 0 <= d < docs.len() && 0 <= k < docs[d].len() && (#[trigger] docs[d][k]).token == t;
        assert(n[d][k] == docs[d][k]);
    }
    if term_occurrences(doc, t).len() > 0 {
        let k = choose|k: int| 0 <= k < doc.len() && (#[trigger] doc[k]).token == t;
        assert(n[docs.len() as int][k] == doc[k]);
    }
}

/// Adds the postings of document `doc_id` (grouped by term) to `entries`.
fn merge_document(
    entries: &mut Vec<TermPostings>,
    groups: Vec<TermOccurrences>,
    doc_id: usize,
    Ghost(docs): Ghost<Seq<Seq<TokenView>>>,
    Ghost(doc): Ghost<Seq<TokenView>>,
)
    requires
        postings_match(old(entries)@, docs),
        doc_id == docs.len(),
        keys_sorted(groups@),
        forall|i: int| 0 <= i < groups@.len() ==> (#[trigger] groups@[i]).occurrences@ == term_occurrences(doc, groups@[i].term@),
        forall|i: int| 0 <= i < groups@.len() ==> term_occurrences(doc, (#[trigger] groups@[i]).term@).len() > 0,
        forall|t: Seq<char>| #[trigger] term_occurrences(doc, t).len() > 0 ==> exists|i: int| 0 <= i < groups@.len() && (#[trigger] groups@[i]).term@ == t,
    ensures
        postings_match(final(entries)@, docs.push(doc)),
{
    let ghost gs = groups@;
    let mut rest = groups;
    let mut m: usize = 0;
    let total = rest.len();
    while rest.len() > 0
        invariant
            m + rest@.len() == gs.len(),
            total == gs.len(),
            rest@ == gs.skip(m as int),
            doc_id == docs.len(),
            keys_sorted(gs),
            forall|i: int| 0 <= i < gs.len() ==> (#[trigger] gs[i]).occurrences@ == term_occurrences(doc, gs[i].term@),
            keys_sorted(entries@),
            forall|i: int| 0 <= i < entries@.len() ==> posting_views((#[trigger] entries@[i]).postings@) == term_postings(docs, entries@[i].term@) + if grouped_before(gs, m as int, entries@[i].term@) {
                seq![doc_posting(doc, doc_id as int, entries@[i].term@)]
            } else {
                Seq::empty()
            },
            forall|i: int| 0 <= i < entries@.len() ==> in_corpus(docs, (#[trigger] entries@[i]).term@) || grouped_before(gs, m as int, entries@[i].term@),
            forall|t: Seq<char>|
                #![trigger in_corpus(docs, t)]
                #![trigger grouped_before(gs, m as int, t)]
                in_corpus(docs, t) || grouped_before(gs, m as int, t) ==> exists|i: int| 0 <= i < entries@.len() && (#[trigger] entries@[i]).term@ == t,
        decreases rest.len(),
    {
        let ghost rest_before = rest@;
        let g = rest.remove(0);
        let ghost key = g.term@;
        let ghost old_entries = entries@;
        proof {
            assert(g == gs[m as int]);
            assert(rest@ =~= gs.skip(m + 1));
            // key was not grouped before m
            assert(!grouped_before(gs, m as int, key)) by {
                if grouped_before(gs, m as int, key) {
                    let h = choose|h: int| 0 <= h < m && (#[trigger] gs[h]).term@ == key;
                    assert(seq_lt(gs[h].key(), gs[m as int].key()));
                    lemma_seq_lt_irrefl(key);
                }
            }
            assert forall|t: Seq<char>| grouped_before(gs, m + 1, t) <==> grouped_before(gs, m as int, t) || t == key by {
                if grouped_before(gs, m + 1, t) {
                    let h = choose|h: int| 0 <= h < m + 1 && (#[trigger] gs[h]).term@ == t;
                    if h < m {
                        assert(grouped_before(gs, m as int, t));
                    }
                }
                if grouped_before(gs, m as int, t) {
                    let h = choose|h: int| 0 <= h < m && (#[trigger] gs[h]).term@ == t;
                    assert(0 <= h < m + 1 && gs[h].term@ == t);
                }
                if t == key {
                    assert(gs[m as int].term@ == t);
                }
            }
        }
        let frequency = g.occurrences.len();
        let posting = Posting { doc_id, frequency, occurrences: g.occurrences };
        proof {
            assert(posting@ == doc_posting(doc, doc_id as int, key));
        }
        match search_key(entries, g.term.as_slice()) {
            Ok(i) => {
                let ghost before_postings = entries@[i as int].postings@;
                entries[i].postings.push(posting);
                proof {
                    assert(posting_views(entries@[i as int].postings@) == posting_views(before_postings).push(posting@));
                    assert forall|j: int| 0 <= j < entries@.len() implies posting_views((#[trigger] entries@[j]).postings@) == term_postings(docs, entries@[j].term@) + if grouped_before(gs, m + 1, entries@[j].term@) {
                        seq![doc_posting(doc, doc_id as int, entries@[j].term@)]
                    } else {
                        Seq::empty()
                    } by {
                        if j != i {
                            assert(entries@[j] == old_entries[j]);
                            assert(old_entries[j].term@ != key) by {
                                if old_entries[j].term@ == key {
                                    lemma_seq_lt_irrefl(key);
                                    if j < i {
                                        assert(seq_lt(old_entries[j].key(), old_entries[i as int].key()));
                                    } else {
                                        assert(seq_lt(old_entries[i as int].key(), old_entries[j].key()));
                                    }
                                }
                            }
                        } else {
                            assert(entries@[j].term@ == key);
                            assert(term_postings(docs, key) + Seq::<PostingView>::empty() == term_postings(docs, key));
                        }
                    }
                    assert forall|j: int| 0 <= j < entries@.len() implies in_corpus(docs, (#[trigger] entries@[j]).term@) || grouped_before(gs, m + 1, entries@[j].term@) by {
                        assert(entries@[j].term@ == old_entries[j].term@);
                    }
                    assert(keys_sorted(entries@)) by {
                        assert forall|a: int, b: int| 0 <= a < b < entries@.len() implies seq_lt(#[trigger] entries@[a].key(), #[trigger] entries@[b].key()) by {
                            assert(entries@[a].term@ == old_entries[a].term@);
                            assert(entries@[b].term@ == old_entries[b].term@);
                        }
                    }
                    assert forall|t: Seq<char>|
                        #![trigger in_corpus(docs, t)]
                        #![trigger grouped_before(gs, m + 1, t)]
                        in_corpus(docs, t) || grouped_before(gs, m + 1, t) implies exists|j: int| 0 <= j < entries@.len() && (#[trigger] entries@[j]).term@ == t by {
                        if t == key {
                            assert(entries@[i as int].term@ == t);
                        } else {
                            assert(grouped_before(gs, m + 1, t) <==> grouped_before(gs, m as int, t) || t == key);
                            assert(in_corpus(docs, t) || grouped_before(gs, m as int, t));
                            let j = choose|j: int| 0 <= j < old_entries.len() && (#[trigger] old_entries[j]).term@ == t;
                            assert(entries@[j].term@ == t);
                        }
                    }
                }
            },
            Err(j) => {
                let term = string_from_chars(g.term.as_slice());
                let mut ps: Vec<Posting> = Vec::new();
                ps.push(posting);
                entries.insert(j, TermPostings { term, postings: ps });
                proof {
                    assert(!in_corpus(docs, key)) by {
                        if in_corpus(docs, key) {
                            let e = choose|e: int| 0 <= e < old_entries.len() && (#[trigger] old_entries[e]).term@ == key;
                            lemma_seq_lt_irrefl(key);
                            if e < j {
                                assert(seq_lt(old_entries[e].key(), key));
                            } else {
                                assert(seq_lt(key, old_entries[e].key()));
                            }
                        }
                    }
                    lemma_not_in_corpus_no_postings(docs, key);
                    assert(posting_views(entries@[j as int].postings@) == seq![posting@]);
                    assert forall|e: int| 0 <= e < entries@.len() implies posting_views((#[trigger] entries@[e]).postings@) == term_postings(docs, entries@[e].term@) + if grouped_before(gs, m + 1, entries@[e].term@) {
                        seq![doc_posting(doc, doc_id as int, entries@[e].term@)]
                    } else {
                        Seq::empty()
                    } by {
                        if e < j {
                            assert(entries@[e] == old_entries[e]);
                            assert(seq_lt(old_entries[e].key(), key));
                            lemma_seq_lt_irrefl(key);
                        } else if e > j {
                            assert(entries@[e] == old_entries[e - 1]);
                            assert(seq_lt(key, old_entries[e - 1].key()));
                            lemma_seq_lt_irrefl(key);
                        } else {
                            assert(entries@[e].term@ == key);
                            assert(Seq::<PostingView>::empty() + seq![doc_posting(doc, doc_id as int, key)] == seq![doc_posting(doc, doc_id as int, key)]);
                        }
                    }
                    assert forall|e: int| 0 <= e < entries@.len() implies in_corpus(docs, (#[trigger] entries@[e]).term@) || grouped_before(gs, m + 1, entries@[e].term@) by {
                        if e < j {
                            assert(entries@[e] == old_entries[e]);
                        } else if e > j {
                            assert(entries@[e] == old_entries[e - 1]);
                        }
                    }
                    assert(keys_sorted(entries@)) by {
                        assert forall|a: int, b: int| 0 <= a < b < entries@.len() implies seq_lt(#[trigger] entries@[a].key(), #[trigger] entries@[b].key()) by {
                            if a < j && b < j {
                                assert(entries@[a] == old_entries[a] && entries@[b] == old_entries[b]);
                            } else if a < j && b == j {
                                assert(entries@[a] == old_entries[a]);
                            } else if a < j && b > j {
                                assert(entries@[a] == old_entries[a] && entries@[b] == old_entries[b - 1]);
                                lemma_seq_lt_trans(old_entries[a].key(), key, old_entries[b - 1].key());
                            } else if a == j {
                                assert(entries@[b] == old_entries[b - 1]);
                            } else {
                                assert(entries@[a] == old_entries[a - 1] && entries@[b] == old_entries[b - 1]);
                            }
                        }
                    }
                    assert forall|t: Seq<char>|
                        #![trigger in_corpus(docs, t)]
                        #![trigger grouped_before(gs, m + 1, t)]
                        in_corpus(docs, t) || grouped_before(gs, m + 1, t) implies exists|e: int| 0 <= e < entries@.len() && (#[trigger] entries@[e]).term@ == t by {
                        if t == key {
                            assert(entries@[j as int].term@ == t);
                        } else {
                            assert(grouped_before(gs, m + 1, t) <==> grouped_before(gs, m as int, t) || t == key);
                            assert(in_corpus(docs, t) || grouped_before(gs, m as int, t));
                            let e = choose|e: int| 0 <= e < old_entries.len() && (#[trigger] old_entries[e]).term@ == t;
                            if e < j {
                                assert(entries@[e].term@ == t);
                            } else {
                                assert(entries@[e + 1].term@ == t);
                            }
                        }
                    }
                }
            },
        }
        m = m + 1;
    }
    proof {
        let nd = docs.push(doc);
        assert(nd.drop_last() == docs);
        assert(nd.last() == doc);
        assert forall|t: Seq<char>| grouped_before(gs, m as int, t) <==> term_occurrences(doc, t).len() > 0 by {
            if grouped_before(gs, m as int, t) {
                let h = choose|h: int| 0 <= h < m && (#[trigger] gs[h]).term@ == t;
                assert(gs[h].occurrences@ == term_occurrences(doc, t));
                assert(term_occurrences(doc, gs[h].term@).len() > 0);
            }
            if term_occurrences(doc, t).len() > 0 {
                let h = choose|h: int| 0 <= h < gs.len() && (#[trigger] gs[h]).term@ == t;
                assert(grouped_before(gs, m as int, t));
            }
        }
        assert forall|i: int| 0 <= i < entries@.len() implies posting_views((#[trigger] entries@[i]).postings@) == term_postings(nd, entries@[i].term@) by {
            let t = entries@[i].term@;
            if term_occurrences(doc, t).len() == 0 {
                assert(term_postings(docs, t) + Seq::<PostingView>::empty() == term_postings(docs, t));
            }
        }
        assert forall|i: int| 0 <= i < entries@.len() implies in_corpus(nd, (#[trigger] entries@[i]).term@) by {
            lemma_in_corpus_push(docs, doc, entries@[i].term@);
        }
        assert forall|t: Seq<char>| in_corpus(nd, t) implies exists|i: int| 0 <= i < entries@.len() && (#[trigger] entries@[i]).term@ == t by {
            lemma_in_corpus_push(docs, doc, t);
        }
    }
}

proof fn lemma_total_tokens_prefix(docs: Seq<ParsedDocument>, d: int)
    requires
        0 <= d <= docs.len(),
    ensures
        total_tokens(docs.take(d)) <= total_tokens(docs),
    decreases docs.len() - d,
{
    if d < docs.len() {
        lemma_total_tokens_prefix(docs, d + 1);
        assert(docs.take(d + 1).drop_last() == docs.take(d));
    } else {
        assert(docs.take(d) == docs);
    }
}

/// The index of `parsed_docs`: document `i` gets id `i`, and every term gets
/// its postings.
pub fn build_from_parsed(root: &str, parsed_docs: Vec<ParsedDocument>, created_secs: u64) -> (index: InvertedIndex)
    requires
        total_tokens(parsed_docs@) <= usize::MAX,
    ensures
        index_of(index, root@, parsed_docs@, created_secs),
{
    let ghost docs = parsed_docs@;
    let ghost tv = doc_tokens(docs);
    let mut documents: Vec<Document> = Vec::new();
    let mut entries: Vec<TermPostings> = Vec::new();
    let mut total: usize = 0;
    let mut rest = parsed_docs;
    let mut d: usize = 0;
    let count = rest.len();
    assert(tv.take(0) == Seq::<Seq<TokenView>>::empty());
    assert(docs.take(0) == Seq::<ParsedDocument>::empty());
    while rest.len() > 0
        invariant
            d + rest@.len() == docs.len(),
            count == docs.len(),
            rest@ == docs.skip(d as int),
            tv == doc_tokens(docs),
            total_tokens(docs) <= usize::MAX,
            total == total_tokens(docs.take(d as int)),
            documents@.len() == d,
            forall|i: int| 0 <= i < d ==> document_from(#[trigger] documents@[i], docs[i], i),
            postings_match(entries@, tv.take(d as int)),
        decreases rest.len(),
    {
        let parsed = rest.remove(0);
        proof {
            assert(parsed == docs[d as int]);
            assert(rest@ =~= docs.skip(d + 1));
            assert(docs.take(d + 1).drop_last() == docs.take(d as int));
            assert(docs.take(d + 1).last() == parsed);
            lemma_total_tokens_prefix(docs, d + 1);
            assert(tv[d as int] == token_views(parsed.tokens@));
            assert(tv.take(d + 1) == tv.take(d as int).push(tv[d as int]));
        }
        let token_count = parsed.tokens.len();
        total = total + token_count;
        let groups = group_by_term(&parsed.tokens);
        merge_document(&mut entries, groups, d, Ghost(tv.take(d as int)), Ghost(token_views(parsed.tokens@)));
        let ghost p = parsed;
        documents.push(
            Document {
                id: d,
                path: parsed.path,
                title: parsed.title,
                file_type: parsed.file_type,
                modified_secs: parsed.modified_secs,
                size_bytes: parsed.size_bytes,
                token_count,
                content: parsed.content,
            },
        );
        proof {
            assert(document_from(documents@[d as int], docs[d as int], d as int));
        }
        d = d + 1;
    }
    proof {
        assert(docs.take(docs.len() as int) == docs);
        assert(tv.take(tv.len() as int) == tv);
    }
    let r = chars_of(root);
    let metadata = IndexMetadata {
        version: INDEX_VERSION,
        root: string_from_chars(r.as_slice()),
        document_count: documents.len(),
        term_count: entries.len(),
        total_tokens: total,
        created_secs,
    };
    InvertedIndex { metadata, documents, postings: entries }
}

// ---------------------------------------------------------------------------
// Laws of the index
// ---------------------------------------------------------------------------
/// The postings of a term over `docs`: each counts its occurrences and
/// names one of the documents, in increasing order of document.
pub proof fn lemma_term_postings_ordered(docs: Seq<Seq<TokenView>>, t: Seq<char>)
    ensures
        forall|j: int|
            0 <= j < term_postings(docs, t).len() ==> {
                let p = #[trigger] term_postings(docs, t)[j];
                &&& p.frequency == p.occurrences.len()
                &&& 0 <= p.doc_id < docs.len()
                &&& p.occurrences.len() > 0
            },
        forall|j: int, l: int|
            0 <= j < l < term_postings(docs, t).len() ==> (#[trigger] term_postings(docs, t)[j]).doc_id
                < (#[trigger] term_postings(docs, t)[l]).doc_id,
    decreases docs.len(),
{
    if docs.len() > 0 {
        lemma_term_postings_ordered(docs.drop_last(), t);
        let prev = term_postings(docs.drop_last(), t);
        let occ = term_occurrences(docs.last(), t);
        let tp = term_postings(docs, t);
        if occ.len() > 0 {
            let np = PostingView { doc_id: docs.len() - 1, frequency: occ.len() as int, occurrences: occ };
            assert(tp == prev.push(np));
            assert forall|j: int| 0 <= j < tp.len() implies {
                let p = #[trigger] tp[j];
                &&& p.frequency == p.occurrences.len()
                &&& 0 <= p.doc_id < docs.len()
                &&& p.occurrences.len() > 0
            } by {
                if j < prev.len() {
                    assert(tp[j] == prev[j]);
                }
            }
            assert forall|j: int, l: int| 0 <= j < l < tp.len() implies (#[trigger] tp[j]).doc_id < (#[trigger] tp[l]).doc_id by {
                assert(tp[j] == prev[j]);
                if l < prev.len() {
                    assert(tp[l] == prev[l]);
                }
            }
        } else {
            assert(tp == prev);
        }
    }
}

/// A token of document `d` is among the occurrences of its term's posting
/// for `d`.
pub proof fn lemma_term_postings_hold(docs: Seq<Seq<TokenView>>, d: int, k: int)
    requires
        0 <= d < docs.len(),
        0 <= k < docs[d].len(),
    ensures
        exists|j: int|
            0 <= j < term_postings(docs, docs[d][k].token).len() && (#[trigger] term_postings(docs, docs[d][k].token)[j]).doc_id
                == d && term_postings(docs, docs[d][k].token)[j].occurrences.contains(indexed(docs[d][k])),
    decreases docs.len(),
{
    let t = docs[d][k].token;
    let prev = term_postings(docs.drop_last(), t);
    if d == docs.len() - 1 {
        let last = docs.last();
        assert(last[k] == docs[d][k]);
        last.lemma_filter_contains(has_token(t), k);
        let f = last.filter(has_token(t));
        let i = choose|i: int| 0 <= i < f.len() && f[i] == last[k];
        let occ = term_occurrences(last, t);
        assert(occ[i] == indexed(last[k]));
        assert(occ.contains(indexed(docs[d][k])));
        let tp = term_postings(docs, t);
        assert(tp[prev.len() as int].doc_id == d);
    } else {
        assert(docs.drop_last()[d] == docs[d]);
        lemma_term_postings_hold(docs.drop_last(), d, k);
        let j = choose|j: int|
            0 <= j < prev.len() && (#[trigger] prev[j]).doc_id == d && prev[j].occurrences.contains(indexed(docs[d][k]));
        let tp = term_postings(docs, t);
        assert(tp[j] == prev[j]);
    }
}

/// In an index built from parsed documents, the postings of every term
/// count their occurrences, name documents of the index, and go in
/// increasing order of document.
pub proof fn lemma_index_postings_ordered(index: InvertedIndex, root: Seq<char>, docs: Seq<ParsedDocument>, created_secs: u64)
    requires
        index_of(index, root, docs, created_secs),
    ensures
        forall|i: int, j: int|
            0 <= i < index.postings@.len() && 0 <= j < index.postings@[i].postings@.len() ==> {
                let p = #[trigger] index.postings@[i].postings@[j];
                &&& p.frequency == p.occurrences@.len()
                &&& p.doc_id < index.documents@.len()
                &&& index.documents@[p.doc_id as int].id == p.doc_id
            },
        forall|i: int, j: int, l: int|
            0 <= i < index.postings@.len() && 0 <= j < l < index.postings@[i].postings@.len() ==> (
            #[trigger] index.postings@[i].postings@[j]).doc_id < (#[trigger] index.postings@[i].postings@[l]).doc_id,
{
    let dt = doc_tokens(docs);
    assert forall|i: int, j: int|
        0 <= i < index.postings@.len() && 0 <= j < index.postings@[i].postings@.len() implies {
            let p = #[trigger] index.postings@[i].postings@[j];
            &&& p.frequency == p.occurrences@.len()
            &&& p.doc_id < index.documents@.len()
            &&& index.documents@[p.doc_id as int].id == p.doc_id
        } by {
        let e = index.postings@[i];
        lemma_term_postings_ordered(dt, e.term@);
        assert(posting_views(e.postings@) == term_postings(dt, e.term@));
        assert(posting_views(e.postings@)[j] == e.postings@[j]@);
        assert(document_from(index.documents@[e.postings@[j].doc_id as int], docs[e.postings@[j].doc_id as int], e.postings@[j].doc_id as int));
    }
    assert forall|i: int, j: int, l: int|
        0 <= i < index.postings@.len() && 0 <= j < l < index.postings@[i].postings@.len() implies (
        #[trigger] index.postings@[i].postings@[j]).doc_id < (#[trigger] index.postings@[i].postings@[l]).doc_id by {
        let e = index.postings@[i];
        lemma_term_postings_ordered(dt, e.term@);
        assert(posting_views(e.postings@) == term_postings(dt, e.term@));
        assert(posting_views(e.postings@)[j] == e.postings@[j]@);
        assert(posting_views(e.postings@)[l] == e.postings@[l]@);
    }
}

/// What was indexed is found again: for every token of every document of
/// an index built from parsed documents, the postings of the token's term
/// hold a posting for that document among whose occurrences the token is.
pub proof fn lemma_indexed_token_found(
    index: InvertedIndex,
    root: Seq<char>,
    docs: Seq<ParsedDocument>,
    created_secs: u64,
    d: int,
    k: int,
)
    requires
        index_of(index, root, docs, created_secs),
        0 <= d < docs.len(),
        0 <= k < docs[d].tokens@.len(),
    ensures
        ({
            let t = docs[d].tokens@[k]@;
            postings_of(index.postings@, t.token) matches Some(ps) && exists|j: int|
                0 <= j < ps.len() && (#[trigger] ps[j]).doc_id == d && ps[j].occurrences@.contains(indexed(t))
        }),
{
    let dt = doc_tokens(docs);
    let t = docs[d].tokens@[k]@;
    assert(dt[d] == token_views(docs[d].tokens@));
    assert(dt[d][k] == t);
    assert(in_corpus(dt, t.token));
    let i = choose|i: int| 0 <= i < index.postings@.len() && (#[trigger] index.postings@[i]).term@ == t.token;
    crate::model::lemma_postings_of(index.postings@, t.token);
    assert(postings_of(index.postings@, t.token) is Some);
    let ps = postings_of(index.postings@, t.token)->Some_0;
    let i2 = choose|i: int| 0 <= i < index.postings@.len() && (#[trigger] index.postings@[i]).term@ == t.token && index.postings@[i].postings@ == ps;
    let e = index.postings@[i2];
    assert(posting_views(e.postings@) == term_postings(dt, t.token));
    lemma_term_postings_hold(dt, d, k);
    let tp = term_postings(dt, t.token);
    let j = choose|j: int| 0 <= j < tp.len() && (#[trigger] tp[j]).doc_id == d && tp[j].occurrences.contains(indexed(dt[d][k]));
    assert(posting_views(e.postings@)[j] == e.postings@[j]@);
    assert(e.postings@[j].doc_id == d);
    assert(tp[j].occurrences == e.postings@[j].occurrences@);
    assert(ps[j].occurrences@.contains(indexed(t)));
}

/// The sum of the token counts of documents.
pub open spec fn token_count_sum(docs: Seq<Document>) -> int
    decreases docs.len(),
{
    if docs.len() == 0 {
        0
    } else {
        token_count_sum(docs.drop_last()) + docs.last().token_count
    }
}

/// The total number of tokens of an index built from parsed documents is
/// the sum of its documents' token counts, and each document's count is the
/// number of its tokens.
pub proof fn lemma_index_token_totals(index: InvertedIndex, root: Seq<char>, docs: Seq<ParsedDocument>, created_secs: u64)
    requires
        index_of(index, root, docs, created_secs),
    ensures
        index.metadata.total_tokens == token_count_sum(index.documents@),
        forall|i: int| 0 <= i < index.documents@.len() ==> (#[trigger] index.documents@[i]).token_count == docs[i].tokens@.len(),
{
    lemma_token_sums(index.documents@, docs);
}

proof fn lemma_token_sums(ds: Seq<Document>, ps: Seq<ParsedDocument>)
    requires
        ds.len() == ps.len(),
        forall|i: int| 0 <= i < ps.len() ==> document_from(#[trigger] ds[i], ps[i], i),
    ensures
        token_count_sum(ds) == total_tokens(ps),
    decreases ps.len(),
{
    if ps.len() > 0 {
        assert forall|i: int| 0 <= i < ps.drop_last().len() implies document_from(
            #[trigger] ds.drop_last()[i],
            ps.drop_last()[i],
            i,
        ) by {
            assert(ds.drop_last()[i] == ds[i]);
        }
        lemma_token_sums(ds.drop_last(), ps.drop_last());
        assert(document_from(ds[ps.len() - 1], ps[ps.len() - 1], ps.len() - 1));
    }
}

} // verus!
