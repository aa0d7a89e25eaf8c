//! Which directories a scan enters, which files it keeps, and the order in
//! which it returns them. Walking the file system is left to the caller.
use vstd::prelude::*;
use crate::model::{SupportedFileType, file_type_of_path};
use crate::order::{Ranked, compare_chars, lemma_seq_lt_asym, lemma_seq_lt_irrefl, lemma_seq_lt_total, lemma_seq_lt_trans, seq_lt, stable_sort, stable_sorted};
use crate::subtokens::views;
use crate::text::{chars_of, chars_eq};
use crate::textfmt::{normal_component, path_components, split_chars, split_on};

verus! {

/// A file that the index is built from.
#[derive(Debug, Clone)]
pub struct FileCandidate {
    pub path: String,
    pub file_type: SupportedFileType,
}

/// Whether a scan enters an entry: the root always; files always; a
/// directory unless it is `.git`, `target` or hidden.
pub open spec fn enters(depth: nat, is_dir: bool, name: Seq<char>) -> bool {
    if depth == 0 {
        true
    } else if !is_dir {
        true
    } else if name == ".git"@ || name == "target"@ {
        false
    } else {
        !(name.len() > 0 && name[0] == '.')
    }
}

/// Below the root, depth does not matter: a scan enters every file and
/// every directory at any depth, except `target` and names starting with a
/// dot (`.git` among them).
pub proof fn lemma_enters_at_any_depth(depth: nat, is_dir: bool, name: Seq<char>)
    requires
        depth >= 1,
    ensures
        enters(depth, is_dir, name) == enters(1, is_dir, name),
        !is_dir ==> enters(depth, is_dir, name),
        is_dir ==> (enters(depth, is_dir, name) <==> !(name == "target"@ || (name.len() > 0 && name[0] == '.'))),
        enters(0, is_dir, name),
{
    reveal_strlit(".git");
    reveal_strlit("target");
}

pub fn should_enter(depth: usize, is_dir: bool, name: &str) -> (r: bool)
    ensures
        r == enters(depth as nat, is_dir, name@),
{
    if depth == 0 {
        return true;
    }
    if !is_dir {
        return true;
    }
    let n = chars_of(name);
    let git = chars_of(".git");
    let target = chars_of("target");
    if chars_eq(n.as_slice(), git.as_slice()) || chars_eq(n.as_slice(), target.as_slice()) {
        return false;
    }
    !(n.len() > 0 && n[0] == '.')
}

/// The candidate for the file at `path`, where its type is supported.
pub fn candidate_for(path: &str) -> (r: Option<FileCandidate>)
    ensures
        match r {
            Some(c) => c.path@ == path@ && file_type_of_path(path@) == Some(c.file_type),
            None => file_type_of_path(path@) is None,
        },
{
    match SupportedFileType::from_path(path) {
        Some(t) => {
            let cs = chars_of(path);
            Some(FileCandidate { path: crate::text::string_from_chars(cs.as_slice()), file_type: t })
        },
        None => None,
    }
}

// ---------------------------------------------------------------------------
// Paths in order of their components
// ---------------------------------------------------------------------------
/// Lexicographic order of component lists, each component in the order of
/// `str` (the order of `Path` for paths with the same kind of start).
pub open spec fn comps_lt(a: Seq<Seq<char>>, b: Seq<Seq<char>>) -> bool
    decreases a.len(),
{
    if a.len() == 0 {
        b.len() > 0
    } else if b.len() == 0 {
        false
    } else if seq_lt(a[0], b[0]) {
        true
    } else if a[0] == b[0] {
        comps_lt(a.drop_first(), b.drop_first())
    } else {
        false
    }
}

pub proof fn lemma_comps_lt_irrefl(a: Seq<Seq<char>>)
    ensures
        !comps_lt(a, a),
    decreases a.len(),
{
    if a.len() > 0 {
        lemma_seq_lt_irrefl(a[0]);
        lemma_comps_lt_irrefl(a.drop_first());
    }
}

pub proof fn lemma_comps_lt_total(a: Seq<Seq<char>>, b: Seq<Seq<char>>)
    ensures
        a == b || comps_lt(a, b) || comps_lt(b, a),
    decreases a.len(),
{
    if a.len() > 0 && b.len() > 0 {
        lemma_seq_lt_total(a[0], b[0]);
        if a[0] == b[0] {
            lemma_comps_lt_total(a.drop_first(), b.drop_first());
            if a.drop_first() == b.drop_first() {
                assert(a == seq![a[0]] + a.drop_first());
                assert(b == seq![b[0]] + b.drop_first());
            }
        }
    } else if a.len() == 0 && b.len() == 0 {
        assert(a == b);
    }
}

pub proof fn lemma_comps_lt_trans(a: Seq<Seq<char>>, b: Seq<Seq<char>>, c: Seq<Seq<char>>)
    requires
        comps_lt(a, b),
        comps_lt(b, c),
    ensures
        comps_lt(a, c),
    decreases a.len(),
{
    if a.len() > 0 && b.len() > 0 && c.len() > 0 {
        if seq_lt(a[0], b[0]) && seq_lt(b[0], c[0]) {
            lemma_seq_lt_trans(a[0], b[0], c[0]);
        } else if seq_lt(a[0], b[0]) {
        } else if seq_lt(b[0], c[0]) {
        } else {
            lemma_comps_lt_trans(a.drop_first(), b.drop_first(), c.drop_first());
        }
    }
}

pub proof fn lemma_comps_lt_asym(a: Seq<Seq<char>>, b: Seq<Seq<char>>)
    requires
        comps_lt(a, b),
    ensures
        !comps_lt(b, a),
{
    if comps_lt(b, a) {
        lemma_comps_lt_trans(a, b, a);
        lemma_comps_lt_irrefl(a);
    }
}

/// The normal components of `p`.
pub fn components_of(p: &str) -> (out: Vec<Vec<char>>)
    ensures
        views(out@) == path_components(p@),
{
    let cs = chars_of(p);
    let pieces = split_chars(cs.as_slice(), '/');
    let ghost sp = split_on(cs@, '/');
    let ghost pred = normal_component();
    let mut out: Vec<Vec<char>> = Vec::new();
    let mut k: usize = 0;
    assert(sp.take(0) == Seq::<Seq<char>>::empty());
    assert(views(out@) =~= sp.take(0).filter(pred));
    while k < pieces.len()
        invariant
            k <= pieces@.len() == sp.len(),
            pred == normal_component(),
            sp == split_on(cs@, '/'),
            forall|m: int| 0 <= m < pieces@.len() ==> #[trigger] pieces@[m]@ == sp[m],
            views(out@) == sp.take(k as int).filter(pred),
        decreases pieces.len() - k,
    {
        let piece = &pieces[k];
        assert(piece@ == sp[k as int]);
        proof {
            sp.take(k as int).lemma_filter_push(sp[k as int], pred);
            assert(sp.take(k as int).push(sp[k as int]) == sp.take(k + 1));
        }
        let dot: Vec<char> = vec!['.'];
        assert(dot@ == seq!['.']);
        if piece.len() > 0 && !chars_eq(piece.as_slice(), dot.as_slice()) {
            let ghost before = out@;
            let copy = crate::text::sub_chars(piece.as_slice(), 0, piece.len());
            assert(piece@.subrange(0, piece@.len() as int) == piece@);
            out.push(copy);
            assert(views(out@) =~= views(before).push(sp[k as int]));
        }
        k = k + 1;
    }
    assert(sp.take(sp.len() as int) == sp);
    out
}

/// Three-way comparison of component lists.
pub(crate) fn compare_comps(a: &Vec<Vec<char>>, b: &Vec<Vec<char>>) -> (r: i8)
    ensures
        r == 0 <==> views(a@) == views(b@),
        r < 0 <==> comps_lt(views(a@), views(b@)),
        r > 0 <==> comps_lt(views(b@), views(a@)),
{
    let ghost va = views(a@);
    let ghost vb = views(b@);
    let mut i: usize = 0;
    assert(va.skip(0) == va);
    assert(vb.skip(0) == vb);
    while i < a.len() && i < b.len()
        invariant
            i <= a@.len(),
            i <= b@.len(),
            va == views(a@),
            vb == views(b@),
            va.take(i as int) == vb.take(i as int),
            (va == vb) == (va.skip(i as int) == vb.skip(i as int)),
            comps_lt(va, vb) == comps_lt(va.skip(i as int), vb.skip(i as int)),
            comps_lt(vb, va) == comps_lt(vb.skip(i as int), va.skip(i as int)),
        decreases a.len() - i,
    {
        let c = compare_chars(a[i].as_slice(), b[i].as_slice());
        assert(va.skip(i as int)[0] == a@[i as int]@);
        assert(vb.skip(i as int)[0] == b@[i as int]@);
        assert(va.skip(i as int).drop_first() == va.skip(i + 1));
        assert(vb.skip(i as int).drop_first() == vb.skip(i + 1));
        if c != 0 {
            proof {
                if c < 0 {
                    lemma_seq_lt_asym(a@[i as int]@, b@[i as int]@);
                } else {
                    lemma_seq_lt_asym(b@[i as int]@, a@[i as int]@);
                }
                if va == vb {
                    assert(va.skip(i as int) == vb.skip(i as int));
                    assert(va.skip(i as int)[0] == vb.skip(i as int)[0]);
                    lemma_seq_lt_irrefl(a@[i as int]@);
                }
            }
            return c;
        }
        proof {
            assert(va.take(i + 1) == va.take(i as int).push(va[i as int]));
            assert(vb.take(i + 1) == vb.take(i as int).push(vb[i as int]));
            if va.skip(i as int) == vb.skip(i as int) {
                assert(va.skip(i + 1) == va.skip(i as int).drop_first());
            }
            if va.skip(i + 1) == vb.skip(i + 1) {
                assert(va.skip(i as int) =~= seq![va.skip(i as int)[0]] + va.skip(i + 1));
                assert(vb.skip(i as int) =~= seq![vb.skip(i as int)[0]] + vb.skip(i + 1));
            }
        }
        i = i + 1;
    }
    if a.len() == b.len() {
        assert(va.skip(i as int).len() == 0 && vb.skip(i as int).len() == 0);
        assert(va.skip(i as int) =~= vb.skip(i as int));
        0
    } else if a.len() < b.len() {
        proof {
            if va == vb {
                assert(va.len() == vb.len());
            }
        }
        -1
    } else {
        proof {
            if va == vb {
                assert(va.len() == vb.len());
            }
        }
        1
    }
}

/// A candidate with the components of its path.
pub struct Keyed {
    pub comps: Vec<Vec<char>>,
    pub candidate: FileCandidate,
}

impl Ranked for Keyed {
    open spec fn spec_le(&self, other: &Self) -> bool {
        !comps_lt(views(other.comps@), views(self.comps@))
    }

    fn le(&self, other: &Self) -> (r: bool) {
        compare_comps(&other.comps, &self.comps) >= 0
    }

    proof fn lemma_total(a: &Self, b: &Self) {
        lemma_comps_lt_total(views(a.comps@), views(b.comps@));
        if comps_lt(views(a.comps@), views(b.comps@)) {
            lemma_comps_lt_asym(views(a.comps@), views(b.comps@));
        }
    }

    proof fn lemma_trans(a: &Self, b: &Self, c: &Self) {
        let x = views(a.comps@);
        let y = views(b.comps@);
        let z = views(c.comps@);
        lemma_comps_lt_total(x, y);
        lemma_comps_lt_total(y, z);
        if comps_lt(z, x) {
            if comps_lt(x, y) && comps_lt(y, z) {
                lemma_comps_lt_trans(x, y, z);
                lemma_comps_lt_asym(x, z);
            } else if x == y {
                lemma_comps_lt_total(y, z);
            }
        }
    }
}

/// The candidates ordered by the components of their paths (a stable
/// sort).
pub fn sort_candidates(candidates: Vec<FileCandidate>) -> (out: Vec<FileCandidate>)
    ensures
        out@.len() == candidates@.len(),
        exists|keyed: Seq<Keyed>, sorted: Seq<Keyed>|
            keyed.len() == candidates@.len() && (forall|i: int| 0 <= i < keyed.len() ==> (#[trigger] keyed[i]).candidate == candidates@[i]
                && views(keyed[i].comps@) == path_components(candidates@[i].path@)) && stable_sorted(keyed, sorted)
                && forall|i: int| 0 <= i < sorted.len() ==> out@[i] == (#[trigger] sorted[i]).candidate,
{
    let ghost input = candidates@;
    let n = candidates.len();
    let mut rest = candidates;
    let mut keyed: Vec<Keyed> = Vec::new();
    let mut i: usize = 0;
    while rest.len() > 0
        invariant
            i + rest@.len() == input.len(),
            n == input.len(),
            rest@ == input.skip(i as int),
            keyed@.len() == i,
            forall|k: int| 0 <= k < i ==> (#[trigger] keyed@[k]).candidate == input[k] && views(keyed@[k].comps@)
                == path_components(input[k].path@),
        decreases rest.len(),
    {
        let c = rest.remove(0);
        assert(c == input[i as int]);
        assert(rest@ == input.skip(i + 1));
        let comps = components_of(c.path.as_str());
        keyed.push(Keyed { comps, candidate: c });
        i = i + 1;
    }
    let ghost kin = keyed@;
    let sorted = stable_sort(keyed);
    let ghost ks = sorted@;
    proof {
        crate::order::lemma_stable_sorted_elements(kin, ks);
    }
    let mut out: Vec<FileCandidate> = Vec::new();
    let mut rest2 = sorted;
    let mut j: usize = 0;
    while rest2.len() > 0
        invariant
            j + rest2@.len() == ks.len(),
            ks.len() == n,
            rest2@ == ks.skip(j as int),
            out@.len() == j,
            forall|k: int| 0 <= k < j ==> out@[k] == (#[trigger] ks[k]).candidate,
        decreases rest2.len(),
    {
        let k = rest2.remove(0);
        assert(k == ks[j as int]);
        assert(rest2@ == ks.skip(j + 1));
        out.push(k.candidate);
        j = j + 1;
    }
    out
}

/// Sorted candidates come in ascending order of their path components: no
/// candidate's path sorts before that of one listed ahead of it; and each is
/// one of the candidates given.
pub proof fn lemma_candidates_in_path_order(candidates: Seq<FileCandidate>, out: Seq<FileCandidate>)
    requires
        out.len() == candidates.len(),
        exists|keyed: Seq<Keyed>, sorted: Seq<Keyed>|
            keyed.len() == candidates.len() && (forall|i: int| 0 <= i < keyed.len() ==> (#[trigger] keyed[i]).candidate == candidates[i]
                && views(keyed[i].comps@) == path_components(candidates[i].path@)) && stable_sorted(keyed, sorted)
                && forall|i: int| 0 <= i < sorted.len() ==> out[i] == (#[trigger] sorted[i]).candidate,
    ensures
        forall|i: int, j: int|
            0 <= i < j < out.len() ==> !comps_lt(path_components(out[j].path@), path_components(out[i].path@)),
        forall|i: int| 0 <= i < out.len() ==> candidates.contains(#[trigger] out[i]),
{
    let (keyed, sorted) = choose|keyed: Seq<Keyed>, sorted: Seq<Keyed>|
        keyed.len() == candidates.len() && (forall|i: int| 0 <= i < keyed.len() ==> (#[trigger] keyed[i]).candidate == candidates[i]
            && views(keyed[i].comps@) == path_components(candidates[i].path@)) && stable_sorted(keyed, sorted)
            && forall|i: int| 0 <= i < sorted.len() ==> out[i] == (#[trigger] sorted[i]).candidate;
    crate::order::lemma_stable_sorted_elements(keyed, sorted);
    assert forall|i: int| 0 <= i < sorted.len() implies views((#[trigger] sorted[i]).comps@) == path_components(
        sorted[i].candidate.path@,
    ) && candidates.contains(sorted[i].candidate) by {
        assert(keyed.contains(sorted[i]));
        let k = choose|k: int| 0 <= k < keyed.len() && keyed[k] == sorted[i];
        assert(keyed[k] == sorted[i]);
        assert(candidates[k] == keyed[k].candidate);
    }
    assert forall|i: int, j: int|
        0 <= i < j < out.len() implies !comps_lt(path_components(out[j].path@), path_components(out[i].path@)) by {
        crate::order::lemma_stable_sorted_ordered(keyed, sorted, i, j);
        assert(sorted[i].spec_le(&sorted[j]));
        assert(views(sorted[i].comps@) == path_components(sorted[i].candidate.path@));
        assert(views(sorted[j].comps@) == path_components(sorted[j].candidate.path@));
    }
    assert forall|i: int| 0 <= i < out.len() implies candidates.contains(#[trigger] out[i]) by {
        assert(out[i] == sorted[i].candidate);
        assert(candidates.contains(sorted[i].candidate));
    }
}

} // verus!
