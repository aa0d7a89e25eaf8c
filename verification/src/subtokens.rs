//! Parts of an ASCII identifier: its `_`-separated pieces and its runs of
//! letters and of digits, as a sorted list without repeats.
use vstd::prelude::*;
use crate::order::{compare_chars, lemma_seq_lt_asym, lemma_seq_lt_irrefl, lemma_seq_lt_total, lemma_seq_lt_trans, seq_lt};
use crate::text::{is_ascii_alpha, is_ascii_digit, spec_is_ascii_alpha, spec_is_ascii_digit};
use crate::textfmt::{split_chars, split_on};

verus! {

pub open spec fn views(v: Seq<Vec<char>>) -> Seq<Seq<char>> {
    v.map_values(|x: Vec<char>| x@)
}

/// Each element sorts strictly before the next (so none occurs twice).
pub open spec fn strictly_sorted(s: Seq<Seq<char>>) -> bool {
    forall|i: int, j: int| 0 <= i < j < s.len() ==> seq_lt(#[trigger] s[i], #[trigger] s[j])
}

/// The maximal runs of characters satisfying `p`.
pub open spec fn runs(s: Seq<char>, p: spec_fn(char) -> bool) -> Seq<Seq<char>>
    decreases s.len(),
{
    if s.len() == 0 {
        Seq::empty()
    } else if !p(s.last()) {
        runs(s.drop_last(), p)
    } else if s.len() > 1 && p(s.drop_last().last()) {
        let w = runs(s.drop_last(), p);
        w.update(w.len() - 1, w.last().push(s.last()))
    } else {
        runs(s.drop_last(), p).push(seq![s.last()])
    }
}

pub open spec fn is_long() -> spec_fn(Seq<char>) -> bool {
    |r: Seq<char>| r.len() >= 2
}

pub open spec fn is_nonempty() -> spec_fn(Seq<char>) -> bool {
    |r: Seq<char>| r.len() > 0
}

/// The runs of at least two characters satisfying `p`.
pub open spec fn long_runs(s: Seq<char>, p: spec_fn(char) -> bool) -> Seq<Seq<char>> {
    runs(s, p).filter(is_long())
}

pub open spec fn alpha_class() -> spec_fn(char) -> bool {
    |c: char| spec_is_ascii_alpha(c)
}

pub open spec fn digit_class() -> spec_fn(char) -> bool {
    |c: char| spec_is_ascii_digit(c)
}

/// The parts of an identifier: the non-empty `_`-separated pieces, and the
/// runs of two or more letters and of two or more digits.
pub open spec fn subtoken_set(t: Seq<char>) -> Set<Seq<char>> {
    split_on(t, '_').filter(is_nonempty()).to_set() + long_runs(t, alpha_class()).to_set()
        + long_runs(t, digit_class()).to_set()
}

proof fn lemma_runs_nonempty(s: Seq<char>, p: spec_fn(char) -> bool)
    requires
        s.len() > 0,
        p(s.last()),
    ensures
        runs(s, p).len() > 0,
    decreases s.len(),
{
    if s.len() > 1 && p(s.drop_last().last()) {
        lemma_runs_nonempty(s.drop_last(), p);
    }
}

proof fn lemma_filter_split_last(s: Seq<Seq<char>>, f: spec_fn(Seq<char>) -> bool)
    requires
        s.len() > 0,
    ensures
        s.filter(f) == if f(s.last()) {
            s.drop_last().filter(f).push(s.last())
        } else {
            s.drop_last().filter(f)
        },
{
    s.drop_last().lemma_filter_push(s.last(), f);
    assert(s.drop_last().push(s.last()) == s);
}

/// The runs of two or more letters (`digits == false`) or digits.
pub fn long_runs_exec(t: &[char], digits: bool) -> (out: Vec<Vec<char>>)
    ensures
        views(out@) == long_runs(t@, if digits { digit_class() } else { alpha_class() }),
{
    let ghost p = if digits { digit_class() } else { alpha_class() };
    let mut out: Vec<Vec<char>> = Vec::new();
    let mut cur: Vec<char> = Vec::new();
    let mut i: usize = 0;
    assert(t@.take(0) == Seq::<char>::empty());
    assert(views(out@) == Seq::<Seq<char>>::empty());
    while i < t.len()
        invariant
            i <= t.len(),
            p == (if digits { digit_class() } else { alpha_class() }),
            i > 0 && p(t@[i - 1]) ==> runs(t@.take(i as int), p).len() > 0 && cur@ == runs(
                t@.take(i as int),
                p,
            ).last(),
            !(i > 0 && p(t@[i - 1])) ==> cur@.len() == 0,
            views(out@) + (if cur@.len() >= 2 {
                seq![cur@]
            } else {
                Seq::empty()
            }) == long_runs(t@.take(i as int), p),
        decreases t.len() - i,
    {
        let c = t[i];
        let ghost pre = t@.take(i as int);
        let ghost q = t@.take(i + 1);
        assert(q.drop_last() == pre);
        assert(q.last() == c);
        let in_class = if digits { is_ascii_digit(c) } else { is_ascii_alpha(c) };
        assert(in_class == p(c));
        if in_class {
            proof {
                let r = runs(pre, p);
                if i > 0 && p(t@[i - 1]) {
                    assert(pre.last() == t@[i - 1]);
                    let r2 = r.update(r.len() - 1, r.last().push(c));
                    assert(runs(q, p) == r2);
                    lemma_filter_split_last(r, is_long());
                    lemma_filter_split_last(r2, is_long());
                    assert(r2.drop_last() == r.drop_last());
                    assert(r.last() == cur@);
                    if cur@.len() >= 2 {
                        assert(views(out@) == (views(out@) + seq![cur@]).drop_last());
                        assert(views(out@) == r.drop_last().filter(is_long()));
                    } else {
                        assert(!is_long()(r.last()));
                        assert(views(out@) + Seq::<Seq<char>>::empty() == views(out@));
                        assert(views(out@) == r.drop_last().filter(is_long()));
                    }
                } else {
                    if i > 0 {
                        assert(pre.last() == t@[i - 1]);
                    }
                    let r2 = r.push(seq![c]);
                    assert(runs(q, p) == r2);
                    lemma_filter_split_last(r2, is_long());
                    assert(r2.drop_last() == r);
                }
            }
            cur.push(c);
            proof {
                lemma_runs_nonempty(q, p);
            }
        } else {
            proof {
                assert(runs(q, p) == runs(pre, p));
            }
            if cur.len() >= 2 {
                let ghost old_out = out@;
                let finished = cur;
                out.push(finished);
                proof {
                    assert(views(out@) == views(old_out).push(finished@));
                }
            }
            cur = Vec::new();
        }
        i = i + 1;
        assert(t@.take(i as int) == q);
    }
    assert(t@.take(t@.len() as int) == t@);
    if cur.len() >= 2 {
        let ghost old_out = out@;
        out.push(cur);
        assert(views(out@) == views(old_out).push(cur@));
    }
    out
}

/// Inserts `x` into a strictly sorted list unless it is already there.
pub fn insert_sorted_unique(v: &mut Vec<Vec<char>>, x: Vec<char>)
    requires
        strictly_sorted(views(old(v)@)),
    ensures
        strictly_sorted(views(final(v)@)),
        views(final(v)@).to_set() == views(old(v)@).to_set().insert(x@),
{
    let ghost old_views = views(v@);
    let mut j: usize = 0;
    let mut c: i8 = -1;
    while j < v.len() && c < 0
        invariant
            j <= v@.len(),
            views(v@) == old_views,
            strictly_sorted(old_views),
            forall|k: int| 0 <= k < j ==> seq_lt(#[trigger] old_views[k], x@),
            c < 0 || (j < v@.len() && (c == 0 <==> old_views[j as int] == x@) && (c > 0 <==> seq_lt(x@, old_views[j as int]))),
        decreases v@.len() - j, if c < 0 { 1int } else { 0int },
    {
        c = compare_chars(v[j].as_slice(), x.as_slice());
        assert(old_views[j as int] == v@[j as int]@);
        if c < 0 {
            j = j + 1;
        }
    }
    if c == 0 {
        proof {
            assert(old_views[j as int] == x@);
            assert(old_views.contains(x@));
            assert(old_views.to_set().insert(x@) == old_views.to_set());
        }
        return;
    }
    proof {
        assert forall|k: int| j <= k < old_views.len() implies seq_lt(x@, #[trigger] old_views[k]) by {
            let c0 = old_views[j as int];
            assert(seq_lt(x@, c0));
            if k > j {
                lemma_seq_lt_trans(x@, c0, old_views[k]);
            }
        }
    }
    v.insert(j, x);
    proof {
        let nv = views(v@);
        assert(nv == old_views.insert(j as int, x@));
        assert forall|a: int, b: int| 0 <= a < b < nv.len() implies seq_lt(#[trigger] nv[a], #[trigger] nv[b]) by {
            if b < j {
            } else if b == j {
            } else if a < j {
                lemma_seq_lt_trans(nv[a], x@, nv[b]);
            } else if a == j {
            } else {
            }
        }
        old_views.insert_ensures(j as int, x@);
        assert(nv.to_set() == old_views.to_set().insert(x@)) by {
            assert forall|e: Seq<char>| nv.to_set().contains(e) <==> old_views.to_set().insert(x@).contains(e) by {
                if nv.to_set().contains(e) {
                    let k = choose|k: int| 0 <= k < nv.len() && nv[k] == e;
                    if k < j {
                        assert(old_views[k] == e);
                    } else if k > j {
                        assert(old_views[k - 1] == e);
                    }
                }
                if old_views.to_set().contains(e) {
                    let k = choose|k: int| 0 <= k < old_views.len() && old_views[k] == e;
                    if k < j {
                        assert(nv[k] == e);
                    } else {
                        assert(nv[k + 1] == e);
                    }
                }
                if e == x@ {
                    assert(nv[j as int] == e);
                }
            }
        }
    }
}

/// Inserts every element of `items` with `insert_sorted_unique`.
fn insert_all(v: &mut Vec<Vec<char>>, items: Vec<Vec<char>>)
    requires
        strictly_sorted(views(old(v)@)),
    ensures
        strictly_sorted(views(final(v)@)),
        views(final(v)@).to_set() == views(old(v)@).to_set() + views(items@).to_set(),
{
    let ghost all = views(items@);
    let mut rest = items;
    let mut i: usize = 0;
    let total = rest.len();
    while rest.len() > 0
        invariant
            strictly_sorted(views(v@)),
            i + rest@.len() == all.len(),
            total == all.len(),
            views(rest@) == all.skip(i as int),
            views(v@).to_set() == views(old(v)@).to_set() + all.take(i as int).to_set(),
        decreases rest.len(),
    {
        let ghost before = rest@;
        let x = rest.remove(0);
        proof {
            assert(views(before)[0] == before[0]@);
            assert(x@ == all[i as int]);
            assert forall|m: int| 0 <= m < rest@.len() implies #[trigger] views(rest@)[m] == all.skip(i + 1)[m] by {
                assert(rest@[m] == before[m + 1]);
                assert(views(before)[m + 1] == before[m + 1]@);
            }
            assert(views(rest@) =~= all.skip(i + 1));
            assert(all.take(i + 1) == all.take(i as int).push(all[i as int]));
            all.take(i as int).lemma_push_to_set_commute(all[i as int]);
        }
        insert_sorted_unique(v, x);
        proof {
            assert(views(v@).to_set() == views(old(v)@).to_set() + all.take(i + 1).to_set());
        }
        i = i + 1;
    }
    assert(all.take(all.len() as int) == all);
}

/// The parts of an ASCII identifier, sorted, each once.
pub fn ascii_subtokens(token: &[char]) -> (out: Vec<Vec<char>>)
    ensures
        strictly_sorted(views(out@)),
        views(out@).to_set() == subtoken_set(token@),
{
    let mut out: Vec<Vec<char>> = Vec::new();
    let pieces = split_chars(token, '_');
    let ghost sp = split_on(token@, '_');
    // the non-empty pieces
    let mut nonempty: Vec<Vec<char>> = Vec::new();
    let mut k: usize = 0;
    assert(sp.take(0) == Seq::<Seq<char>>::empty());
    let mut pieces_rest = pieces;
    let total = pieces_rest.len();
    while pieces_rest.len() > 0
        invariant
            k + pieces_rest@.len() == sp.len(),
            total == sp.len(),
            forall|m: int| 0 <= m < pieces_rest@.len() ==> #[trigger] pieces_rest@[m]@ == sp[k + m],
            views(nonempty@) == sp.take(k as int).filter(is_nonempty()),
        decreases pieces_rest.len(),
    {
        let ghost before_rest = pieces_rest@;
        let piece = pieces_rest.remove(0);
        proof {
            assert(piece@ == sp[k as int]);
            assert forall|m: int| 0 <= m < pieces_rest@.len() implies #[trigger] pieces_rest@[m]@ == sp[k + 1 + m] by {
                assert(pieces_rest@[m] == before_rest[m + 1]);
            }
            sp.take(k as int).lemma_filter_push(sp[k as int], is_nonempty());
            assert(sp.take(k + 1) == sp.take(k as int).push(sp[k as int]));
        }
        if piece.len() > 0 {
            let ghost before = nonempty@;
            nonempty.push(piece);
            assert(views(nonempty@) == views(before).push(sp[k as int]));
        }
        k = k + 1;
    }
    assert(sp.take(sp.len() as int) == sp);
    assert(views(out@) == Seq::<Seq<char>>::empty());
    assert(views(out@).to_set() == Set::<Seq<char>>::empty());
    insert_all(&mut out, nonempty);
    let alpha = long_runs_exec(token, false);
    insert_all(&mut out, alpha);
    let digits = long_runs_exec(token, true);
    insert_all(&mut out, digits);
    proof {
        assert(Set::<Seq<char>>::empty() + sp.filter(is_nonempty()).to_set() == sp.filter(
            is_nonempty(),
        ).to_set());
    }
    out
}

/// Two strictly sorted lists with the same elements are equal.
pub proof fn lemma_sorted_unique(a: Seq<Seq<char>>, b: Seq<Seq<char>>)
    requires
        strictly_sorted(a),
        strictly_sorted(b),
        a.to_set() == b.to_set(),
    ensures
        a == b,
    decreases a.len(),
{
    if a.len() == 0 {
        if b.len() > 0 {
            assert(b.to_set().contains(b[0]));
        }
    } else if b.len() == 0 {
        assert(a.to_set().contains(a[0]));
    } else {
        assert(a.to_set().contains(b[0]));
        assert(b.to_set().contains(a[0]));
        let i = choose|i: int| 0 <= i < a.len() && a[i] == b[0];
        let j = choose|j: int| 0 <= j < b.len() && b[j] == a[0];
        if i > 0 && j > 0 {
            lemma_seq_lt_asym(a[0], b[0]);
        }
        if i > 0 && j == 0 {
            lemma_seq_lt_irrefl(a[0]);
        }
        if i == 0 && j > 0 {
            lemma_seq_lt_irrefl(b[0]);
        }
        assert(a[0] == b[0]);
        let a1 = a.drop_first();
        let b1 = b.drop_first();
        assert(strictly_sorted(a1)) by {
            assert forall|x: int, y: int| 0 <= x < y < a1.len() implies seq_lt(#[trigger] a1[x], #[trigger] a1[y]) by {
                assert(a1[x] == a[x + 1] && a1[y] == a[y + 1]);
            }
        }
        assert(strictly_sorted(b1)) by {
            assert forall|x: int, y: int| 0 <= x < y < b1.len() implies seq_lt(#[trigger] b1[x], #[trigger] b1[y]) by {
                assert(b1[x] == b[x + 1] && b1[y] == b[y + 1]);
            }
        }
        assert(a1.to_set() == b1.to_set()) by {
            assert forall|e: Seq<char>| a1.to_set().contains(e) <==> b1.to_set().contains(e) by {
                if a1.to_set().contains(e) {
                    let x = choose|x: int| 0 <= x < a1.len() && a1[x] == e;
                    assert(a.to_set().contains(e));
                    assert(seq_lt(a[0], a[x + 1]));
                    let y = choose|y: int| 0 <= y < b.len() && b[y] == e;
                    if y == 0 {
                        lemma_seq_lt_irrefl(e);
                    } else {
                        assert(b1[y - 1] == e);
                    }
                }
                if b1.to_set().contains(e) {
                    let x = choose|x: int| 0 <= x < b1.len() && b1[x] == e;
                    assert(b.to_set().contains(e));
                    assert(seq_lt(b[0], b[x + 1]));
                    let y = choose|y: int| 0 <= y < a.len() && a[y] == e;
                    if y == 0 {
                        lemma_seq_lt_irrefl(e);
                    } else {
                        assert(a1[y - 1] == e);
                    }
                }
            }
        }
        lemma_sorted_unique(a1, b1);
        assert(a == seq![a[0]] + a1);
        assert(b == seq![b[0]] + b1);
    }
}

} // verus!
