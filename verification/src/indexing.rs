//! Building the index of a directory from its parsed files: the files in
//! order of their paths, the count of their tokens checked, and the index
//! made of them.
use vstd::prelude::*;
use crate::index::{build_from_parsed, index_of, total_tokens, token_count_sum, lemma_index_token_totals};
use crate::model::{INDEX_VERSION, InvertedIndex, ParsedDocument};
use crate::order::{Ranked, stable_sort, stable_sorted};
use crate::scanner::{
    compare_comps, comps_lt, components_of, lemma_comps_lt_asym, lemma_comps_lt_total, lemma_comps_lt_trans,
};
use crate::subtokens::views;
use crate::textfmt::path_components;

verus! {

/// A parsed file with the components of its path.
pub struct PathKeyed {
    pub comps: Vec<Vec<char>>,
    pub doc: ParsedDocument,
}

impl Ranked for PathKeyed {
    open spec fn spec_le(&self, other: &Self) -> bool {
        !comps_lt(views(other.comps@), views(self.comps@))
    }

    fn le(&self, other: &Self) -> (r: bool) {
        compare_comps(&other.comps, &self.comps) >= 0
    }

    proof fn lemma_total(a: &Self, b: &Self) {
        lemma_comps_lt_total(views(a.comps@), views(b.comps@));
        if comps_lt(views(a.comps@), views(b.comps@)) {
            lemma_comps_lt_asym(views(a.comps@), views(b.comps@));
        }
    }

    proof fn lemma_trans(a: &Self, b: &Self, c: &Self) {
        let x = views(a.comps@);
        let y = views(b.comps@);
        let z = views(c.comps@);
        lemma_comps_lt_total(x, y);
        lemma_comps_lt_total(y, z);
        if comps_lt(z, x) {
            if comps_lt(x, y) && comps_lt(y, z) {
                lemma_comps_lt_trans(x, y, z);
                lemma_comps_lt_asym(x, z);
            } else if x == y {
                lemma_comps_lt_total(y, z);
            }
        }
    }
}

/// `keyed` holds the parsed files with the components of their paths, in
/// the given order.
pub open spec fn path_keys(parsed: Seq<ParsedDocument>, keyed: Seq<PathKeyed>) -> bool {
    &&& keyed.len() == parsed.len()
    &&& forall|i: int|
        0 <= i < keyed.len() ==> (#[trigger] keyed[i]).doc == parsed[i] && views(keyed[i].comps@)
            == path_components(parsed[i].path@)
}

pub open spec fn docs_of(keyed: Seq<PathKeyed>) -> Seq<ParsedDocument> {
    keyed.map_values(|k: PathKeyed| k.doc)
}

/// Whether the total of the tokens of `docs` fits in `usize`.
fn tokens_fit(docs: &Vec<ParsedDocument>) -> (r: bool)
    ensures
        r == (total_tokens(docs@) <= usize::MAX),
{
    let mut n: usize = 0;
    let mut i: usize = 0;
    while i < docs.len()
        invariant
            i <= docs@.len(),
            n == total_tokens(docs@.take(i as int)),
        decreases docs.len() - i,
    {
        assert(docs@.take(i + 1).drop_last() == docs@.take(i as int));
        let t = docs[i].tokens.len();
        if n > usize::MAX - t {
            proof {
                lemma_total_tokens_prefix(docs@, i + 1);
            }
            return false;
        }
        n = n + t;
        i = i + 1;
    }
    assert(docs@.take(docs@.len() as int) == docs@);
    true
}

proof fn lemma_total_tokens_prefix(docs: Seq<ParsedDocument>, k: int)
    requires
        0 <= k <= docs.len(),
    ensures
        total_tokens(docs.take(k)) <= total_tokens(docs),
    decreases docs.len() - k,
{
    if k < docs.len() {
        lemma_total_tokens_prefix(docs, k + 1);
        assert(docs.take(k + 1).drop_last() == docs.take(k));
    } else {
        assert(docs.take(k) == docs);
    }
}

/// The index of the parsed files under `root`: the files are put in order
/// of their paths (a stable sort) and numbered in that order; `None` where
/// their tokens are more than `usize` can count.
pub fn index_documents(root: &str, parsed: Vec<ParsedDocument>, created_secs: u64) -> (r: Option<InvertedIndex>)
    ensures
        exists|keyed: Seq<PathKeyed>, sorted: Seq<PathKeyed>|
            {
                &&& path_keys(parsed@, keyed)
                &&& stable_sorted(keyed, sorted)
                &&& match r {
                    Some(index) => index_of(index, root@, docs_of(sorted), created_secs),
                    None => total_tokens(docs_of(sorted)) > usize::MAX,
                }
            },
        r matches Some(index) ==> forall|i: int, j: int|
            0 <= i < j < index.documents@.len() ==> !comps_lt(
                path_components(index.documents@[j].path@),
                path_components(index.documents@[i].path@),
            ),
        (r matches Some(index) && forall|i: int, j: int|
            0 <= i < j < parsed@.len() ==> path_components(parsed@[i].path@) != path_components(parsed@[j].path@))
            ==> forall|i: int, j: int|
            0 <= i < j < r->0.documents@.len() ==> comps_lt(
                path_components(r->0.documents@[i].path@),
                path_components(r->0.documents@[j].path@),
            ),
{
    let ghost input = parsed@;
    let mut rest = parsed;
    let mut keyed: Vec<PathKeyed> = Vec::new();
    while rest.len() > 0
        invariant
            keyed@.len() + rest@.len() == input.len(),
            rest@ == input.skip(keyed@.len() as int),
            forall|i: int|
                0 <= i < keyed@.len() ==> (#[trigger] keyed@[i]).doc == input[i] && views(keyed@[i].comps@)
                    == path_components(input[i].path@),
        decreases rest.len(),
    {
        let doc = rest.remove(0);
        let comps = components_of(doc.path.as_str());
        let ghost k = keyed@.len();
        assert(doc == input[k as int]);
        keyed.push(PathKeyed { comps, doc });
        assert(rest@ =~= input.skip(keyed@.len() as int));
    }
    let ghost keys = keyed@;
    assert(path_keys(input, keys));
    let mut sorted = stable_sort(keyed);
    let ghost ss = sorted@;
    let mut docs: Vec<ParsedDocument> = Vec::new();
    while sorted.len() > 0
        invariant
            docs@.len() + sorted@.len() == ss.len(),
            sorted@ == ss.skip(docs@.len() as int),
            docs@ == docs_of(ss).take(docs@.len() as int),
        decreases sorted.len(),
    {
        let k = sorted.remove(0);
        let ghost n = docs@.len();
        assert(k == ss[n as int]);
        docs.push(k.doc);
        assert(sorted@ =~= ss.skip(docs@.len() as int));
        assert(docs@ =~= docs_of(ss).take(docs@.len() as int));
    }
    assert(docs@ =~= docs_of(ss));
    if !tokens_fit(&docs) {
        return None;
    }
    let index = build_from_parsed(root, docs, created_secs);
    proof {
        assert forall|i: int, j: int| 0 <= i < j < index.documents@.len() implies !comps_lt(
            path_components(index.documents@[j].path@),
            path_components(index.documents@[i].path@),
        ) by {
            crate::order::lemma_stable_sorted_ordered(keys, ss, i, j);
            assert(index.documents@[i].path@ == ss[i].doc.path@);
            assert(index.documents@[j].path@ == ss[j].doc.path@);
            lemma_sorted_key(keys, ss, i);
            lemma_sorted_key(keys, ss, j);
        }
        if forall|i: int, j: int|
            0 <= i < j < input.len() ==> path_components(input[i].path@) != path_components(input[j].path@) {
            assert forall|i: int, j: int| 0 <= i < j < index.documents@.len() implies comps_lt(
                path_components(index.documents@[i].path@),
                path_components(index.documents@[j].path@),
            ) by {
                crate::order::lemma_stable_sorted_ordered(keys, ss, i, j);
                lemma_sorted_key(keys, ss, i);
                lemma_sorted_key(keys, ss, j);
                lemma_sorted_distinct(keys, ss, i, j);
                assert(index.documents@[i].path@ == ss[i].doc.path@);
                assert(index.documents@[j].path@ == ss[j].doc.path@);
                lemma_comps_lt_total(views(ss[i].comps@), views(ss[j].comps@));
            }
        }
    }
    Some(index)
}

/// Two places of a stable sort of `keys` hold elements from two places of
/// `keys`; where the paths of `keys` differ pairwise, so do theirs.
proof fn lemma_sorted_distinct(keys: Seq<PathKeyed>, ss: Seq<PathKeyed>, i: int, j: int)
    requires
        stable_sorted(keys, ss),
        forall|k: int| 0 <= k < keys.len() ==> views((#[trigger] keys[k]).comps@) == path_components(keys[k].doc.path@),
        forall|a: int, b: int|
            0 <= a < b < keys.len() ==> path_components(keys[a].doc.path@) != path_components(keys[b].doc.path@),
        0 <= i < j < ss.len(),
    ensures
        views(ss[i].comps@) != views(ss[j].comps@),
{
    let p = choose|p: Seq<int>|
        {
            &&& crate::order::is_permutation(p, keys.len() as int)
            &&& ss.len() == keys.len()
            &&& forall|k: int| 0 <= k < ss.len() ==> ss[k] == keys[#[trigger] p[k]]
            &&& forall|k: int, l: int|
                0 <= k < l < ss.len() ==> #[trigger] ss[k].spec_le(&ss[l]) && (ss[l].spec_le(&ss[k]) ==> p[k] < p[l])
        };
    assert(ss[i] == keys[p[i]]);
    assert(ss[j] == keys[p[j]]);
    assert(p[i] != p[j]);
    if p[i] < p[j] {
        assert(path_components(keys[p[i]].doc.path@) != path_components(keys[p[j]].doc.path@));
    } else {
        assert(path_components(keys[p[j]].doc.path@) != path_components(keys[p[i]].doc.path@));
    }
}

/// Each element of a stable sort of `keys` carries the components of its
/// file's path.
proof fn lemma_sorted_key(keys: Seq<PathKeyed>, ss: Seq<PathKeyed>, i: int)
    requires
        stable_sorted(keys, ss),
        forall|k: int| 0 <= k < keys.len() ==> views((#[trigger] keys[k]).comps@) == path_components(keys[k].doc.path@),
        0 <= i < ss.len(),
    ensures
        views(ss[i].comps@) == path_components(ss[i].doc.path@),
{
    crate::order::lemma_stable_sorted_elements(keys, ss);
    assert(keys.contains(ss[i]));
    let k = choose|k: int| 0 <= k < keys.len() && keys[k] == ss[i];
    assert(keys[k] == ss[i]);
}

/// An index built from parsed files numbers its documents from 0 in order,
/// takes each one's token count from its file, and records the root, the
/// version, and the numbers of documents, terms and tokens it holds.
pub proof fn lemma_built_index(index: InvertedIndex, root: Seq<char>, docs: Seq<ParsedDocument>, created_secs: u64)
    requires
        index_of(index, root, docs, created_secs),
    ensures
        forall|i: int| 0 <= i < index.documents@.len() ==> (#[trigger] index.documents@[i]).id == i,
        forall|i: int|
            0 <= i < index.documents@.len() ==> (#[trigger] index.documents@[i]).token_count == docs[i].tokens@.len(),
        index.metadata.document_count == index.documents@.len(),
        index.metadata.term_count == index.postings@.len(),
        index.metadata.total_tokens == token_count_sum(index.documents@),
        index.metadata.version == INDEX_VERSION,
        index.metadata.root@ == root,
        index.metadata.created_secs == created_secs,
{
    lemma_index_token_totals(index, root, docs, created_secs);
    assert forall|i: int| 0 <= i < index.documents@.len() implies (#[trigger] index.documents@[i]).id == i by {
        assert(crate::index::document_from(index.documents@[i], docs[i], i));
    }
}

} // verus!
