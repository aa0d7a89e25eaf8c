//! How texts are sent to the embedding service in batches, and what is
//! checked of its answers. The requests themselves are made by the caller.
use vstd::prelude::*;
use crate::analysis::{push_decimal, push_lit};
use crate::error::AppError;
use crate::order::{Ranked, stable_sort, stable_sorted};
use crate::text::string_from_chars;
use crate::textfmt::decimal;

verus! {

/// Texts sent to the embedding service per request.
pub const EMBEDDING_BATCH_SIZE: usize = 10;

/// The ranges `[start, end)` of consecutive batches of at most `size` of
/// `n` items (as `slice::chunks` makes them).
pub open spec fn batches(n: int, size: int, start: int) -> Seq<(int, int)>
    decreases n - start,
{
    if size <= 0 || start < 0 || start >= n {
        Seq::empty()
    } else {
        let end = if start + size < n { start + size } else { n };
        seq![(start, end)] + batches(n, size, end)
    }
}

pub fn batch_ranges(n: usize, size: usize) -> (r: Vec<(usize, usize)>)
    requires
        size > 0,
    ensures
        r@.map_values(|b: (usize, usize)| (b.0 as int, b.1 as int)) == batches(n as int, size as int, 0),
{
    let mut r: Vec<(usize, usize)> = Vec::new();
    let mut start: usize = 0;
    assert(r@.map_values(|b: (usize, usize)| (b.0 as int, b.1 as int)) + batches(n as int, size as int, 0) == batches(n as int, size as int, 0));
    while start < n
        invariant
            size > 0,
            start <= n,
            r@.map_values(|b: (usize, usize)| (b.0 as int, b.1 as int)) + batches(n as int, size as int, start as int) == batches(n as int, size as int, 0),
        decreases n - start,
    {
        let end = if size < n - start { start + size } else { n };
        let ghost before = r@;
        r.push((start, end));
        assert(r@.map_values(|b: (usize, usize)| (b.0 as int, b.1 as int)) =~= before.map_values(|b: (usize, usize)| (b.0 as int, b.1 as int)).push((start as int, end as int)));
        assert(batches(n as int, size as int, start as int) == seq![(start as int, end as int)] + batches(n as int, size as int, end as int));
        assert(r@.map_values(|b: (usize, usize)| (b.0 as int, b.1 as int)) + batches(n as int, size as int, end as int) =~= before.map_values(|b: (usize, usize)| (b.0 as int, b.1 as int)) + batches(n as int, size as int, start as int));
        start = end;
    }
    assert(batches(n as int, size as int, start as int) == Seq::<(int, int)>::empty());
    assert(r@.map_values(|b: (usize, usize)| (b.0 as int, b.1 as int)) + Seq::<(int, int)>::empty() == r@.map_values(|b: (usize, usize)| (b.0 as int, b.1 as int)));
    r
}

/// An answer of the service by the index of the text it belongs to, with
/// its position in the answer.
#[derive(Debug, Clone, Copy)]
pub struct IndexedAnswer {
    pub index: usize,
    pub position: usize,
}

impl Ranked for IndexedAnswer {
    open spec fn spec_le(&self, other: &Self) -> bool {
        self.index <= other.index
    }

    fn le(&self, other: &Self) -> (r: bool) {
        self.index <= other.index
    }

    proof fn lemma_total(a: &Self, b: &Self) {
    }

    proof fn lemma_trans(a: &Self, b: &Self, c: &Self) {
    }
}

pub open spec fn answer_keys(indices: Seq<usize>) -> Seq<IndexedAnswer> {
    Seq::new(indices.len(), |i: int| IndexedAnswer { index: indices[i], position: i as usize })
}

/// The positions of the answers in increasing order of the index they
/// carry, equal indices in the order given (a stable sort by index).
pub fn order_by_index(indices: &Vec<usize>) -> (order: Vec<IndexedAnswer>)
    ensures
        stable_sorted(answer_keys(indices@), order@),
{
    let mut keys: Vec<IndexedAnswer> = Vec::new();
    let mut i: usize = 0;
    while i < indices.len()
        invariant
            i <= indices@.len(),
            keys@ == answer_keys(indices@).take(i as int),
        decreases indices.len() - i,
    {
        keys.push(IndexedAnswer { index: indices[i], position: i });
        i = i + 1;
        assert(keys@ =~= answer_keys(indices@).take(i as int));
    }
    assert(answer_keys(indices@).take(indices@.len() as int) == answer_keys(indices@));
    stable_sort(keys)
}

pub open spec fn dimension_message(expected: nat, got: nat) -> Seq<char> {
    "embedding dimension mismatch: expected "@ + decimal(expected) + ", got "@ + decimal(got)
}

pub open spec fn count_message(expected: nat, got: nat) -> Seq<char> {
    "embedding response count mismatch: expected "@ + decimal(expected) + ", got "@ + decimal(got)
}

/// The first of `lengths` that is not `dims`.
pub open spec fn first_wrong_length(lengths: Seq<usize>, dims: usize) -> Option<usize>
    decreases lengths.len(),
{
    if lengths.len() == 0 {
        None
    } else if lengths[0] != dims {
        Some(lengths[0])
    } else {
        first_wrong_length(lengths.drop_first(), dims)
    }
}

/// Checks the answers for a batch of `expected` texts, whose vectors have
/// the `lengths` (in order of index): each must have `dims` values, and
/// there must be one per text.
pub fn check_embeddings(dims: usize, lengths: &Vec<usize>, expected: usize) -> (r: Result<(), AppError>)
    ensures
        match first_wrong_length(lengths@, dims) {
            Some(got) => r matches Err(AppError::Embedding(m)) && m@ == dimension_message(dims as nat, got as nat),
            None => if lengths@.len() != expected {
                r matches Err(AppError::Embedding(m)) && m@ == count_message(expected as nat, lengths@.len())
            } else {
                r is Ok
            },
        },
{
    let mut i: usize = 0;
    assert(lengths@.skip(0) == lengths@);
    while i < lengths.len()
        invariant
            i <= lengths@.len(),
            first_wrong_length(lengths@, dims) == first_wrong_length(lengths@.skip(i as int), dims),
        decreases lengths.len() - i,
    {
        assert(lengths@.skip(i as int)[0] == lengths@[i as int]);
        assert(lengths@.skip(i as int).drop_first() == lengths@.skip(i + 1));
        if lengths[i] != dims {
            let mut m: Vec<char> = Vec::new();
            push_lit(&mut m, "embedding dimension mismatch: expected ");
            push_decimal(&mut m, dims as u64);
            push_lit(&mut m, ", got ");
            push_decimal(&mut m, lengths[i] as u64);
            assert(m@ =~= dimension_message(dims as nat, lengths@[i as int] as nat));
            return Err(AppError::Embedding(string_from_chars(m.as_slice())));
        }
        i = i + 1;
    }
    assert(lengths@.skip(i as int).len() == 0);
    if lengths.len() != expected {
        let mut m: Vec<char> = Vec::new();
        push_lit(&mut m, "embedding response count mismatch: expected ");
        push_decimal(&mut m, expected as u64);
        push_lit(&mut m, ", got ");
        push_decimal(&mut m, lengths.len() as u64);
        assert(m@ =~= count_message(expected as nat, lengths@.len()));
        return Err(AppError::Embedding(string_from_chars(m.as_slice())));
    }
    Ok(())
}

pub open spec fn mismatch_message(chunks: nat, vectors: nat) -> Seq<char> {
    "chunk/vector count mismatch: "@ + decimal(chunks) + " chunks, "@ + decimal(vectors) + " vectors"@
}

/// Chunks and vectors sent to the vector store must pair up one to one.
pub fn check_chunk_vectors(chunks: usize, vectors: usize) -> (r: Result<(), AppError>)
    ensures
        chunks == vectors ==> r is Ok,
        chunks != vectors ==> (r matches Err(AppError::Qdrant(m)) && m@ == mismatch_message(chunks as nat, vectors as nat)),
{
    if chunks == vectors {
        return Ok(());
    }
    let mut m: Vec<char> = Vec::new();
    push_lit(&mut m, "chunk/vector count mismatch: ");
    push_decimal(&mut m, chunks as u64);
    push_lit(&mut m, " chunks, ");
    push_decimal(&mut m, vectors as u64);
    push_lit(&mut m, " vectors");
    assert(m@ =~= mismatch_message(chunks as nat, vectors as nat));
    Err(AppError::Qdrant(string_from_chars(m.as_slice())))
}

} // verus!
