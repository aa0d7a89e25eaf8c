//! What is checked of an index read back from disk: its version, and its
//! terms put in order. Reading and writing the file is left to the caller.
use vstd::prelude::*;
use crate::error::AppError;
use crate::index::{check_terms_sorted, keys_sorted, TermKeyed};
use crate::model::{INDEX_VERSION, TermPostings};
use crate::order::{
    Ranked, compare_strs, is_permutation, lemma_seq_lt_asym, lemma_seq_lt_total, lemma_seq_lt_trans, seq_lt, stable_sort,
    stable_sorted,
};

verus! {

/// Accepts an index of the current version only.
pub fn check_index_version(found: u32) -> (r: Result<(), AppError>)
    ensures
        r is Ok <==> found == INDEX_VERSION,
        r matches Err(e) ==> e == (AppError::IncompatibleIndex { expected: INDEX_VERSION, found }),
{
    if found == INDEX_VERSION {
        Ok(())
    } else {
        Err(AppError::IncompatibleIndex { expected: INDEX_VERSION, found })
    }
}

impl Ranked for TermPostings {
    /// By term.
    open spec fn spec_le(&self, other: &Self) -> bool {
        !seq_lt(other.term@, self.term@)
    }

    fn le(&self, other: &Self) -> (r: bool) {
        compare_strs(other.term.as_str(), self.term.as_str()) >= 0
    }

    proof fn lemma_total(a: &Self, b: &Self) {
        lemma_seq_lt_total(a.term@, b.term@);
        if seq_lt(a.term@, b.term@) {
            lemma_seq_lt_asym(a.term@, b.term@);
        }
    }

    proof fn lemma_trans(a: &Self, b: &Self, c: &Self) {
        if seq_lt(c.term@, a.term@) {
            lemma_seq_lt_total(b.term@, a.term@);
            lemma_seq_lt_total(c.term@, b.term@);
            if seq_lt(a.term@, b.term@) && seq_lt(b.term@, c.term@) {
                lemma_seq_lt_trans(a.term@, b.term@, c.term@);
                lemma_seq_lt_asym(a.term@, c.term@);
            }
        }
    }
}

/// The entries of an index in increasing order of their terms (a stable
/// sort); `None` where two entries have the same term, which an index
/// cannot hold.
pub fn postings_in_term_order(entries: Vec<TermPostings>) -> (r: Option<Vec<TermPostings>>)
    ensures
        match r {
            Some(v) => keys_sorted(v@) && stable_sorted(entries@, v@),
            None => exists|s: Seq<TermPostings>|
                stable_sorted(entries@, s) && exists|k: int, l: int| 0 <= k < l < s.len() && (#[trigger] s[k]).term@ == (#[trigger] s[l]).term@,
        },
{
    let ghost input = entries@;
    let sorted = stable_sort(entries);
    if check_terms_sorted(&sorted) {
        Some(sorted)
    } else {
        proof {
            let s = sorted@;
            let p = choose|p: Seq<int>|
                {
                    &&& crate::order::is_permutation(p, input.len() as int)
                    &&& s.len() == input.len()
                    &&& forall|k: int| 0 <= k < s.len() ==> s[k] == input[#[trigger] p[k]]
                    &&& forall|k: int, l: int|
                        0 <= k < l < s.len() ==> #[trigger] s[k].spec_le(&s[l]) && (s[l].spec_le(&s[k]) ==> p[k] < p[l])
                };
            let (k, l) = choose|k: int, l: int| 0 <= k < l < s.len() && !seq_lt(#[trigger] s[k].key(), #[trigger] s[l].key());
            assert(s[k].spec_le(&s[l]));
            lemma_seq_lt_total(s[k].term@, s[l].term@);
            assert(s[k].term@ == s[l].term@);
        }
        None
    }
}

proof fn lemma_increasing_at_least(r: Seq<int>, k: int)
    requires
        0 <= k < r.len(),
        forall|i: int| 0 <= i < r.len() ==> 0 <= #[trigger] r[i],
        forall|i: int, j: int| 0 <= i < j < r.len() ==> #[trigger] r[i] < #[trigger] r[j],
    ensures
        r[k] >= k,
    decreases k,
{
    if k > 0 {
        lemma_increasing_at_least(r, k - 1);
        assert(r[k - 1] < r[k]);
    }
}

proof fn lemma_increasing_at_most(r: Seq<int>, k: int)
    requires
        0 <= k < r.len(),
        forall|i: int| 0 <= i < r.len() ==> #[trigger] r[i] < r.len(),
        forall|i: int, j: int| 0 <= i < j < r.len() ==> #[trigger] r[i] < #[trigger] r[j],
    ensures
        r[k] <= k,
    decreases r.len() - k,
{
    if k < r.len() - 1 {
        lemma_increasing_at_most(r, k + 1);
        assert(r[k] < r[k + 1]);
    }
}

/// Postings that were saved in term order come back as they were: where
/// `read` holds the entries of term-ordered `saved` in any order (`p`),
/// every stable sort of `read` by term is `saved`. So the sort has no term
/// twice, and `postings_in_term_order(read)` returns `saved`.
pub proof fn lemma_reordered_postings_restored(saved: Seq<TermPostings>, read: Seq<TermPostings>, p: Seq<int>)
    requires
        keys_sorted(saved),
        is_permutation(p, saved.len() as int),
        read.len() == saved.len(),
        forall|k: int| 0 <= k < read.len() ==> read[k] == saved[#[trigger] p[k]],
    ensures
        forall|v: Seq<TermPostings>| #[trigger] stable_sorted(read, v) ==> v == saved && keys_sorted(v),
{
    assert forall|v: Seq<TermPostings>| #[trigger] stable_sorted(read, v) implies v == saved && keys_sorted(v) by {
        let q = choose|q: Seq<int>|
            {
                &&& is_permutation(q, read.len() as int)
                &&& v.len() == read.len()
                &&& forall|k: int| 0 <= k < v.len() ==> v[k] == read[#[trigger] q[k]]
                &&& forall|k: int, l: int|
                    0 <= k < l < v.len() ==> #[trigger] v[k].spec_le(&v[l]) && (v[l].spec_le(&v[k]) ==> q[k] < q[l])
            };
        let n = saved.len() as int;
        let r = Seq::new(n as nat, |k: int| p[q[k]]);
        assert forall|k: int| 0 <= k < n implies 0 <= #[trigger] r[k] < n && v[k] == saved[r[k]] by {
            assert(0 <= q[k] < n);
            assert(v[k] == read[q[k]]);
        }
        assert forall|i: int, j: int| 0 <= i < j < n implies #[trigger] r[i] < #[trigger] r[j] by {
            assert(q[i] != q[j]);
            assert(p[q[i]] != p[q[j]]);
            assert(v[i].spec_le(&v[j]));
            if r[j] < r[i] {
                assert(seq_lt(saved[r[j]].key(), saved[r[i]].key()));
            }
        }
        assert forall|k: int| 0 <= k < n implies #[trigger] r[k] == k by {
            lemma_increasing_at_least(r, k);
            lemma_increasing_at_most(r, k);
        }
        assert forall|k: int| 0 <= k < n implies #[trigger] v[k] == saved[k] by {
            assert(r[k] == k);
        }
        assert(v =~= saved);
    }
}

} // verus!
