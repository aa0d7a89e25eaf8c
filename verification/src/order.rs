//! The lexicographic order on character sequences (the order of `str`), and a
//! stable insertion sort for anything that can be ranked.
use vstd::prelude::*;
use crate::text::chars_of;

verus! {

/// `a` sorts strictly before `b` in lexicographic (code point) order, which
/// is the order of `str` in Rust.
pub open spec fn seq_lt(a: Seq<char>, b: Seq<char>) -> bool
    decreases a.len(),
{
    if a.len() == 0 {
        b.len() > 0
    } else if b.len() == 0 {
        false
    } else if (a[0] as u32) < (b[0] as u32) {
        true
    } else if a[0] == b[0] {
        seq_lt(a.drop_first(), b.drop_first())
    } else {
        false
    }
}

pub proof fn lemma_seq_lt_irrefl(a: Seq<char>)
    ensures
        !seq_lt(a, a),
    decreases a.len(),
{
    if a.len() > 0 {
        lemma_seq_lt_irrefl(a.drop_first());
    }
}

pub proof fn lemma_seq_lt_trans(a: Seq<char>, b: Seq<char>, c: Seq<char>)
    requires
        seq_lt(a, b),
        seq_lt(b, c),
    ensures
        seq_lt(a, c),
    decreases a.len(),
{
    if a.len() > 0 && b.len() > 0 && c.len() > 0 {
        if a[0] == b[0] && b[0] == c[0] {
            lemma_seq_lt_trans(a.drop_first(), b.drop_first(), c.drop_first());
        }
    }
}

pub proof fn lemma_seq_lt_total(a: Seq<char>, b: Seq<char>)
    ensures
        a == b || seq_lt(a, b) || seq_lt(b, a),
    decreases a.len(),
{
    if a.len() > 0 && b.len() > 0 {
        if a[0] == b[0] {
            lemma_seq_lt_total(a.drop_first(), b.drop_first());
            if a.drop_first() == b.drop_first() {
                assert(a == seq![a[0]] + a.drop_first());
                assert(b == seq![b[0]] + b.drop_first());
            }
        } else {
            vstd::utf8::char_u32_cast(a[0], a[0] as u32);
            vstd::utf8::char_u32_cast(b[0], b[0] as u32);
            assert((a[0] as u32) != (b[0] as u32));
        }
    } else if a.len() == 0 && b.len() == 0 {
        assert(a == b);
    }
}

pub proof fn lemma_seq_lt_asym(a: Seq<char>, b: Seq<char>)
    ensures
        !(seq_lt(a, b) && seq_lt(b, a)),
{
    if seq_lt(a, b) && seq_lt(b, a) {
        lemma_seq_lt_trans(a, b, a);
        lemma_seq_lt_irrefl(a);
    }
}

/// Three-way comparison in lexicographic order: -1, 0 or 1.
pub fn compare_chars(a: &[char], b: &[char]) -> (r: i8)
    ensures
        r == 0 <==> a@ == b@,
        r < 0 <==> seq_lt(a@, b@),
        r > 0 <==> seq_lt(b@, a@),
{
    assert(a@.skip(0) == a@);
    assert(b@.skip(0) == b@);
    let mut i: usize = 0;
    while i < a.len() && i < b.len()
        invariant
            i <= a.len(),
            i <= b.len(),
            a@.take(i as int) == b@.take(i as int),
            seq_lt(a@, b@) == seq_lt(a@.skip(i as int), b@.skip(i as int)),
            seq_lt(b@, a@) == seq_lt(b@.skip(i as int), a@.skip(i as int)),
        decreases a.len() - i,
    {
        let x = a[i] as u32;
        let y = b[i] as u32;
        assert(a@.skip(i as int)[0] == a@[i as int]);
        assert(b@.skip(i as int)[0] == b@[i as int]);
        if x != y {
            proof {
                lemma_seq_lt_asym(a@, b@);
                if a@ == b@ {
                    assert(a@[i as int] == b@[i as int]);
                }
            }
            if x < y {
                return -1;
            } else {
                return 1;
            }
        }
        proof {
            vstd::utf8::char_u32_cast(a@[i as int], x);
            vstd::utf8::char_u32_cast(b@[i as int], y);
        }
        assert(a@.skip(i as int).drop_first() == a@.skip(i + 1));
        assert(b@.skip(i as int).drop_first() == b@.skip(i + 1));
        i = i + 1;
        assert(a@.take(i as int) == a@.take(i - 1).push(a@[i - 1]));
        assert(b@.take(i as int) == b@.take(i - 1).push(b@[i - 1]));
    }
    proof {
        lemma_seq_lt_asym(a@, b@);
        if i == a.len() {
            assert(a@.take(i as int) == a@);
        }
        if i == b.len() {
            assert(b@.take(i as int) == b@);
        }
        if a.len() == b.len() {
            assert(a@ == b@);
        } else if a.len() < b.len() {
            assert(a@ != b@);
        } else {
            assert(a@ != b@);
        }
    }
    if a.len() == b.len() {
        0
    } else if a.len() < b.len() {
        -1
    } else {
        1
    }
}

/// Three-way comparison of two strings in the order of `str`.
pub fn compare_strs(a: &str, b: &str) -> (r: i8)
    ensures
        r == 0 <==> a@ == b@,
        r < 0 <==> seq_lt(a@, b@),
        r > 0 <==> seq_lt(b@, a@),
{
    let x = chars_of(a);
    let y = chars_of(b);
    compare_chars(x.as_slice(), y.as_slice())
}

// ---------------------------------------------------------------------------
// Stable sorting
// ---------------------------------------------------------------------------
/// A total preorder: `spec_le(a, b)` holds when `a` may come before `b`.
pub trait Ranked: Sized {
    spec fn spec_le(&self, other: &Self) -> bool;

    fn le(&self, other: &Self) -> (r: bool)
        ensures
            r == self.spec_le(other),
    ;

    proof fn lemma_total(a: &Self, b: &Self)
        ensures
            a.spec_le(b) || b.spec_le(a),
    ;

    proof fn lemma_trans(a: &Self, b: &Self, c: &Self)
        requires
            a.spec_le(b),
            b.spec_le(c),
        ensures
            a.spec_le(c),
    ;
}

/// `p` is a permutation of the positions `0..n`.
pub open spec fn is_permutation(p: Seq<int>, n: int) -> bool {
    &&& p.len() == n
    &&& forall|k: int| 0 <= k < n ==> 0 <= #[trigger] p[k] < n
    &&& forall|k: int, l: int| 0 <= k < l < n ==> p[k] != p[l]
}

/// `output` is `input` sorted by `spec_le`, keeping the input order of
/// elements that rank equally (what a stable sort returns).
pub open spec fn stable_sorted<T: Ranked>(input: Seq<T>, output: Seq<T>) -> bool {
    exists|p: Seq<int>|
        {
            &&& is_permutation(p, input.len() as int)
            &&& output.len() == input.len()
            &&& forall|k: int| 0 <= k < output.len() ==> output[k] == input[#[trigger] p[k]]
            &&& forall|k: int, l: int|
                0 <= k < l < output.len() ==> #[trigger] output[k].spec_le(&output[l]) && (
                output[l].spec_le(&output[k]) ==> p[k] < p[l])
        }
}

/// A stably sorted sequence has the length of its input, and each of its
/// elements is an element of the input.
pub proof fn lemma_stable_sorted_elements<T: Ranked>(input: Seq<T>, output: Seq<T>)
    requires
        stable_sorted(input, output),
    ensures
        output.len() == input.len(),
        forall|k: int| 0 <= k < output.len() ==> input.contains(#[trigger] output[k]),
{
    let p = choose|p: Seq<int>|
        {
            &&& is_permutation(p, input.len() as int)
            &&& output.len() == input.len()
            &&& forall|k: int| 0 <= k < output.len() ==> output[k] == input[#[trigger] p[k]]
            &&& forall|k: int, l: int|
                0 <= k < l < output.len() ==> #[trigger] output[k].spec_le(&output[l]) && (
                output[l].spec_le(&output[k]) ==> p[k] < p[l])
        };
    assert forall|k: int| 0 <= k < output.len() implies input.contains(#[trigger] output[k]) by {
        assert(output[k] == input[p[k]]);
        assert(0 <= p[k] < input.len());
    }
}

/// In a stably sorted sequence an earlier element ranks at most as high as
/// a later one.
pub proof fn lemma_stable_sorted_ordered<T: Ranked>(input: Seq<T>, output: Seq<T>, i: int, j: int)
    requires
        stable_sorted(input, output),
        0 <= i < j < output.len(),
    ensures
        output[i].spec_le(&output[j]),
{
    let p = choose|p: Seq<int>|
        {
            &&& is_permutation(p, input.len() as int)
            &&& output.len() == input.len()
            &&& forall|k: int| 0 <= k < output.len() ==> output[k] == input[#[trigger] p[k]]
            &&& forall|k: int, l: int|
                0 <= k < l < output.len() ==> #[trigger] output[k].spec_le(&output[l]) && (
                output[l].spec_le(&output[k]) ==> p[k] < p[l])
        };
    assert(output[i].spec_le(&output[j]));
}

/// A permutation of `0..n` takes every value of `0..n`.
pub proof fn lemma_permutation_onto(p: Seq<int>, n: int, m: int)
    requires
        is_permutation(p, n),
        0 <= m < n,
    ensures
        exists|k: int| 0 <= k < n && p[k] == m,
{
    broadcast use vstd::set::group_set_axioms, vstd::seq_lib::group_seq_properties;

    assert(p.no_duplicates()) by {
        assert forall|i: int, j: int| 0 <= i < p.len() && 0 <= j < p.len() && i != j implies p[i] != p[j] by {
            if i < j {
            } else {
            }
        }
    }
    p.unique_seq_to_set();
    let range = vstd::set_lib::set_int_range(0, n);
    vstd::set_lib::lemma_int_range(0, n);
    if !p.contains(m) {
        let smaller = range.remove(m);
        assert(p.to_set().subset_of(smaller)) by {
            assert forall|x: int| p.to_set().contains(x) implies smaller.contains(x) by {
                assert(p.contains(x));
                let k = choose|k: int| 0 <= k < p.len() && p[k] == x;
                assert(0 <= p[k] < n);
            }
        }
        assert(range.contains(m));
        assert(smaller.len() == n - 1);
        vstd::set_lib::lemma_len_subset(p.to_set(), smaller);
        assert(false);
    }
    let k = choose|k: int| 0 <= k < p.len() && p[k] == m;
    assert(0 <= k < n && p[k] == m);
}

/// Every earlier element may precede every later one, and equally ranked
/// elements keep their order of origin `p`.
pub open spec fn ranked_pairs<T: Ranked>(out: Seq<T>, p: Seq<int>) -> bool {
    forall|k: int, l: int|
        0 <= k < l < out.len() ==> #[trigger] out[k].spec_le(&out[l]) && (out[l].spec_le(&out[k])
            ==> p[k] < p[l])
}

proof fn lemma_insert_ranked<T: Ranked>(out: Seq<T>, p: Seq<int>, x: T, j: int, n: int)
    requires
        ranked_pairs(out, p),
        out.len() == n,
        p.len() == n,
        0 <= j <= n,
        forall|k: int| 0 <= k < n ==> #[trigger] p[k] < n,
        forall|k: int| 0 <= k < j ==> #[trigger] out[k].spec_le(&x),
        forall|l: int| j <= l < n ==> !(#[trigger] out[l].spec_le(&x)),
    ensures
        ranked_pairs(out.insert(j, x), p.insert(j, n)),
{
    let o2 = out.insert(j, x);
    let p2 = p.insert(j, n);
    assert forall|k: int, l: int| 0 <= k < l < o2.len() implies #[trigger] o2[k].spec_le(&o2[l])
        && (o2[l].spec_le(&o2[k]) ==> p2[k] < p2[l]) by {
        if k < j && l < j {
            assert(o2[k] == out[k] && o2[l] == out[l]);
            assert(out[k].spec_le(&out[l]));
        } else if k < j && l == j {
            assert(o2[k] == out[k]);
            assert(p2[k] == p[k]);
        } else if k < j && l > j {
            assert(o2[k] == out[k] && o2[l] == out[l - 1]);
            assert(out[k].spec_le(&out[l - 1]));
            assert(p2[k] == p[k] && p2[l] == p[l - 1]);
        } else if k == j {
            assert(o2[l] == out[l - 1]);
            assert(!out[l - 1].spec_le(&x));
            T::lemma_total(&x, &out[l - 1]);
        } else {
            assert(o2[k] == out[k - 1] && o2[l] == out[l - 1]);
            assert(out[k - 1].spec_le(&out[l - 1]));
            assert(p2[k] == p[k - 1] && p2[l] == p[l - 1]);
        }
    }
}

/// Sorts `v` stably by `Ranked::le` (insertion sort).
#[verifier::spinoff_prover]
#[verifier::rlimit(40)]
pub fn stable_sort<T: Ranked>(v: Vec<T>) -> (out: Vec<T>)
    ensures
        stable_sorted(v@, out@),
{
    let ghost input = v@;
    let mut out: Vec<T> = Vec::new();
    let ghost mut p: Seq<int> = Seq::empty();
    let mut rest = v;
    let mut n: usize = 0;
    let total = rest.len();
    while rest.len() > 0
        invariant
            n + rest@.len() == input.len(),
            total == input.len(),
            rest@ == input.skip(n as int),
            is_permutation(p, n as int),
            out@.len() == n,
            forall|k: int| 0 <= k < n ==> out@[k] == input[#[trigger] p[k]],
            ranked_pairs(out@, p),
        decreases rest.len(),
    {
        let ghost rest_before = rest@;
        let x = rest.remove(0);
        proof {
            assert(x == input[n as int]);
            assert(rest@ == input.skip(n + 1));
        }
        // position: first j with !(out[j] <= x)
        let mut j: usize = 0;
        while j < out.len() && out[j].le(&x)
            invariant
                j <= out@.len(),
                forall|k: int| 0 <= k < j ==> #[trigger] out@[k].spec_le(&x),
            decreases out@.len() - j,
        {
            j = j + 1;
        }
        proof {
            // everything from j on ranks strictly after x
            assert forall|l: int| j <= l < n implies !(#[trigger] out@[l].spec_le(&x)) by {
                if l > j as int && out@[l].spec_le(&x) {
                    assert(out@[j as int].spec_le(&out@[l]));
                    T::lemma_trans(&out@[j as int], &out@[l], &x);
                }
            }
        }
        let ghost old_out = out@;
        let ghost old_p = p;
        out.insert(j, x);
        proof {
            p = old_p.insert(j as int, n as int);
            assert forall|k: int| 0 <= k < n + 1 implies 0 <= #[trigger] p[k] < n + 1 by {
                if k < j {
                    assert(p[k] == old_p[k]);
                } else if k > j {
                    assert(p[k] == old_p[k - 1]);
                }
            }
            assert forall|k: int, l: int| 0 <= k < l < n + 1 implies p[k] != p[l] by {
                if k < j && l < j {
                } else if k < j && l == j {
                } else if k < j && l > j {
                    assert(p[l] == old_p[l - 1]);
                } else if k == j {
                    assert(p[l] == old_p[l - 1]);
                } else {
                    assert(p[k] == old_p[k - 1]);
                    assert(p[l] == old_p[l - 1]);
                }
            }
            assert forall|k: int| 0 <= k < n + 1 implies out@[k] == input[#[trigger] p[k]] by {
                if k < j {
                    assert(out@[k] == old_out[k]);
                } else if k > j {
                    assert(out@[k] == old_out[k - 1]);
                    assert(p[k] == old_p[k - 1]);
                }
            }
            lemma_insert_ranked(old_out, old_p, x, j as int, n as int);
        }
        n = n + 1;
    }
    proof {
        assert(out@.len() == input.len());
    }
    out
}

} // verus!
