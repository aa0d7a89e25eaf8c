//! The directory tree of the indexed files, as text lines.
use vstd::prelude::*;
use crate::analysis::push_lit;
use crate::engine::{lemma_sorted_terms, sorted_terms};
use crate::model::InvertedIndex;
use crate::scanner::components_of;
use crate::search::term_views;
use crate::subtokens::{insert_sorted_unique, strictly_sorted, views};
use crate::text::{chars_eq, chars_of, extend_chars, string_from_chars};
use crate::textfmt::{file_name, file_name_chars, path_components};

verus! {

/// Component lists as plain values.
pub open spec fn path_views(v: Seq<Vec<Vec<char>>>) -> Seq<Seq<Seq<char>>> {
    v.map_values(|p: Vec<Vec<char>>| views(p@))
}

/// The first components of the non-empty paths.
pub open spec fn first_names(ps: Seq<Seq<Seq<char>>>) -> Set<Seq<char>>
    decreases ps.len(),
{
    if ps.len() == 0 {
        Set::empty()
    } else if ps.last().len() > 0 {
        first_names(ps.drop_last()).insert(ps.last()[0])
    } else {
        first_names(ps.drop_last())
    }
}

/// The rest of each path that starts with `name`, in order.
pub open spec fn under(ps: Seq<Seq<Seq<char>>>, name: Seq<char>) -> Seq<Seq<Seq<char>>>
    decreases ps.len(),
{
    if ps.len() == 0 {
        Seq::empty()
    } else if ps.last().len() > 0 && ps.last()[0] == name {
        under(ps.drop_last(), name).push(ps.last().drop_first())
    } else {
        under(ps.drop_last(), name)
    }
}

pub open spec fn branch(last: bool) -> Seq<char> {
    if last { "`-- "@ } else { "|-- "@ }
}

pub open spec fn indent(last: bool) -> Seq<char> {
    if last { "    "@ } else { "|   "@ }
}

/// The lines of the tree of `ps` below the current node, each starting with
/// `prefix`: each child in order of name, with its own children below it;
/// `depth` bounds how deep the tree goes.
pub open spec fn render(ps: Seq<Seq<Seq<char>>>, prefix: Seq<char>, depth: nat) -> Seq<Seq<char>>
    decreases depth, 1nat, 0nat,
{
    if depth == 0 {
        Seq::empty()
    } else {
        render_children(ps, sorted_terms(first_names(ps)), 0, prefix, depth)
    }
}

/// The lines of the children `names[k..]` of a node.
pub open spec fn render_children(
    ps: Seq<Seq<Seq<char>>>,
    names: Seq<Seq<char>>,
    k: nat,
    prefix: Seq<char>,
    depth: nat,
) -> Seq<Seq<char>>
    decreases depth, 0nat, names.len() - k,
{
    if depth == 0 || k >= names.len() {
        Seq::empty()
    } else {
        let last = k + 1 == names.len();
        seq![prefix + branch(last) + names[k as int]] + render(
            under(ps, names[k as int]),
            prefix + indent(last),
            (depth - 1) as nat,
        ) + render_children(ps, names, k + 1, prefix, depth)
    }
}

/// The longest path.
pub open spec fn max_len(ps: Seq<Seq<Seq<char>>>) -> nat
    decreases ps.len(),
{
    if ps.len() == 0 {
        0
    } else if ps.last().len() > max_len(ps.drop_last()) {
        ps.last().len()
    } else {
        max_len(ps.drop_last())
    }
}

/// The components of `path` after those of `root`, where it starts with
/// them; else all of its components.
pub open spec fn relative_components(path: Seq<char>, root: Seq<char>) -> Seq<Seq<char>> {
    let p = path_components(path);
    let r = path_components(root);
    if r.len() <= p.len() && p.take(r.len() as int) == r {
        p.skip(r.len() as int)
    } else {
        p
    }
}

/// The tree of the index's documents: the root's name, then one line per
/// directory and file below it.
pub open spec fn file_tree_spec(root: Seq<char>, paths: Seq<Seq<char>>) -> Seq<Seq<char>> {
    let ps = paths.map_values(|p: Seq<char>| relative_components(p, root));
    let name = match file_name(root) {
        Some(n) => n,
        None => root,
    };
    seq![name] + render(ps, Seq::empty(), max_len(ps))
}

fn first_names_of(ps: &Vec<Vec<Vec<char>>>) -> (names: Vec<Vec<char>>)
    ensures
        strictly_sorted(views(names@)),
        views(names@).to_set() == first_names(path_views(ps@)),
{
    let ghost pv = path_views(ps@);
    let mut names: Vec<Vec<char>> = Vec::new();
    let mut i: usize = 0;
    assert(pv.take(0) == Seq::<Seq<Seq<char>>>::empty());
    assert(views(names@).to_set() =~= Set::<Seq<char>>::empty());
    while i < ps.len()
        invariant
            i <= ps@.len(),
            pv == path_views(ps@),
            strictly_sorted(views(names@)),
            views(names@).to_set() == first_names(pv.take(i as int)),
        decreases ps.len() - i,
    {
        assert(pv.take(i + 1).drop_last() == pv.take(i as int));
        assert(pv.take(i + 1).last() == views(ps@[i as int]@));
        if ps[i].len() > 0 {
            let first = crate::text::sub_chars(ps[i][0].as_slice(), 0, ps[i][0].len());
            assert(ps@[i as int]@[0]@.subrange(0, ps@[i as int]@[0]@.len() as int) == ps@[i as int]@[0]@);
            assert(views(ps@[i as int]@)[0] == ps@[i as int]@[0]@);
            insert_sorted_unique(&mut names, first);
        }
        i = i + 1;
    }
    assert(pv.take(ps@.len() as int) == pv);
    names
}

fn paths_under(ps: &Vec<Vec<Vec<char>>>, name: &Vec<char>) -> (out: Vec<Vec<Vec<char>>>)
    ensures
        path_views(out@) == under(path_views(ps@), name@),
        max_len(path_views(out@)) < max_len(path_views(ps@)) || path_views(out@).len() == 0,
{
    let ghost pv = path_views(ps@);
    let mut out: Vec<Vec<Vec<char>>> = Vec::new();
    let mut i: usize = 0;
    assert(pv.take(0) == Seq::<Seq<Seq<char>>>::empty());
    assert(path_views(out@) =~= Seq::<Seq<Seq<char>>>::empty());
    while i < ps.len()
        invariant
            i <= ps@.len(),
            pv == path_views(ps@),
            path_views(out@) == under(pv.take(i as int), name@),
        decreases ps.len() - i,
    {
        assert(pv.take(i + 1).drop_last() == pv.take(i as int));
        assert(pv.take(i + 1).last() == views(ps@[i as int]@));
        let p = &ps[i];
        if p.len() > 0 && chars_eq(p[0].as_slice(), name.as_slice()) {
            let mut rest: Vec<Vec<char>> = Vec::new();
            let mut j: usize = 1;
            while j < p.len()
                invariant
                    1 <= j <= p@.len(),
                    views(rest@) == views(p@).subrange(1, j as int),
                decreases p.len() - j,
            {
                let c = crate::text::sub_chars(p[j].as_slice(), 0, p[j].len());
                assert(p@[j as int]@.subrange(0, p@[j as int]@.len() as int) == p@[j as int]@);
                let ghost before = rest@;
                assert(c@ == p@[j as int]@);
                rest.push(c);
                assert(views(rest@) =~= views(before).push(p@[j as int]@));
                assert(views(rest@) =~= views(p@).subrange(1, j + 1));
                j = j + 1;
            }
            assert(views(p@).subrange(1, p@.len() as int) == views(p@).drop_first());
            let ghost before = out@;
            out.push(rest);
            assert(path_views(out@) =~= path_views(before).push(views(p@).drop_first()));
        }
        i = i + 1;
    }
    assert(pv.take(ps@.len() as int) == pv);
    proof {
        lemma_under_shorter(pv, name@);
    }
    out
}

proof fn lemma_under_shorter(ps: Seq<Seq<Seq<char>>>, name: Seq<char>)
    ensures
        forall|k: int| 0 <= k < under(ps, name).len() ==> (#[trigger] under(ps, name)[k]).len() < max_len(ps),
        max_len(under(ps, name)) < max_len(ps) || under(ps, name).len() == 0,
    decreases ps.len(),
{
    if ps.len() > 0 {
        lemma_under_shorter(ps.drop_last(), name);
        lemma_max_len_bounds(ps);
        lemma_max_len_bounds(under(ps, name));
        let u = under(ps, name);
        let up = under(ps.drop_last(), name);
        if ps.last().len() > 0 && ps.last()[0] == name {
            assert(u == up.push(ps.last().drop_first()));
            assert forall|k: int| 0 <= k < u.len() implies (#[trigger] u[k]).len() < max_len(ps) by {
                if k < up.len() {
                    assert(u[k] == up[k]);
                }
            }
        } else {
            assert(u == up);
        }
        if u.len() > 0 {
            lemma_max_len_reached(u);
        }
    }
}

proof fn lemma_max_len_bounds(ps: Seq<Seq<Seq<char>>>)
    ensures
        forall|k: int| 0 <= k < ps.len() ==> (#[trigger] ps[k]).len() <= max_len(ps),
        max_len(ps) >= max_len(ps.drop_last()) || ps.len() == 0,
    decreases ps.len(),
{
    if ps.len() > 0 {
        lemma_max_len_bounds(ps.drop_last());
        assert forall|k: int| 0 <= k < ps.len() implies (#[trigger] ps[k]).len() <= max_len(ps) by {
            if k < ps.len() - 1 {
                assert(ps[k] == ps.drop_last()[k]);
            }
        }
    }
}

proof fn lemma_max_len_reached(ps: Seq<Seq<Seq<char>>>)
    requires
        ps.len() > 0,
    ensures
        exists|k: int| 0 <= k < ps.len() && (#[trigger] ps[k]).len() == max_len(ps),
    decreases ps.len(),
{
    if ps.len() > 1 && ps.last().len() <= max_len(ps.drop_last()) {
        lemma_max_len_reached(ps.drop_last());
        let k = choose|k: int| 0 <= k < ps.drop_last().len() && (#[trigger] ps.drop_last()[k]).len() == max_len(ps.drop_last());
        assert(ps[k] == ps.drop_last()[k]);
    } else {
        if ps.len() == 1 {
            assert(ps.drop_last().len() == 0);
            assert(max_len(ps.drop_last()) == 0);
        }
        assert(ps[ps.len() - 1].len() == max_len(ps));
    }
}

fn max_len_of(ps: &Vec<Vec<Vec<char>>>) -> (n: usize)
    ensures
        n == max_len(path_views(ps@)),
{
    let ghost pv = path_views(ps@);
    let mut n: usize = 0;
    let mut i: usize = 0;
    assert(pv.take(0) == Seq::<Seq<Seq<char>>>::empty());
    while i < ps.len()
        invariant
            i <= ps@.len(),
            pv == path_views(ps@),
            n == max_len(pv.take(i as int)),
        decreases ps.len() - i,
    {
        assert(pv.take(i + 1).drop_last() == pv.take(i as int));
        assert(pv.take(i + 1).last() == views(ps@[i as int]@));
        if ps[i].len() > n {
            n = ps[i].len();
        }
        i = i + 1;
    }
    assert(pv.take(ps@.len() as int) == pv);
    n
}

/// Appends the lines of the tree of `ps` below a node.
fn render_tree(ps: &Vec<Vec<Vec<char>>>, prefix: &Vec<char>, depth: usize, out: &mut Vec<String>)
    ensures
        term_views(final(out)@) == term_views(old(out)@) + render(path_views(ps@), prefix@, depth as nat),
    decreases depth, 1nat, 0nat,
{
    if depth == 0 {
        assert(term_views(out@) + Seq::<Seq<char>>::empty() == term_views(out@));
        return;
    }
    let names = first_names_of(ps);
    proof {
        lemma_sorted_terms(views(names@));
    }
    render_children_of(ps, &names, 0, prefix, depth, out);
}

fn render_children_of(
    ps: &Vec<Vec<Vec<char>>>,
    names: &Vec<Vec<char>>,
    k: usize,
    prefix: &Vec<char>,
    depth: usize,
    out: &mut Vec<String>,
)
    requires
        depth > 0,
        k <= names@.len(),
    ensures
        term_views(final(out)@) == term_views(old(out)@) + render_children(
            path_views(ps@),
            views(names@),
            k as nat,
            prefix@,
            depth as nat,
        ),
    decreases depth, 0nat, names@.len() - k,
{
    if k >= names.len() {
        assert(term_views(out@) + Seq::<Seq<char>>::empty() == term_views(out@));
        return;
    }
    let last = k + 1 == names.len();
    let mut line: Vec<char> = Vec::new();
    extend_chars(&mut line, prefix.as_slice());
    if last {
        push_lit(&mut line, "`-- ");
    } else {
        push_lit(&mut line, "|-- ");
    }
    extend_chars(&mut line, names[k].as_slice());
    let ghost o0 = term_views(out@);
    out.push(string_from_chars(line.as_slice()));
    assert(term_views(out@) =~= o0.push(prefix@ + branch(last) + views(names@)[k as int]));
    let mut child_prefix: Vec<char> = Vec::new();
    extend_chars(&mut child_prefix, prefix.as_slice());
    if last {
        push_lit(&mut child_prefix, "    ");
    } else {
        push_lit(&mut child_prefix, "|   ");
    }
    let sub = paths_under(ps, &names[k]);
    let ghost o1 = term_views(out@);
    render_tree(&sub, &child_prefix, depth - 1, out);
    let ghost o2 = term_views(out@);
    render_children_of(ps, names, k + 1, prefix, depth, out);
    assert(term_views(out@) =~= o0 + render_children(
        path_views(ps@),
        views(names@),
        k as nat,
        prefix@,
        depth as nat,
    ));
}

/// The components of each path relative to the root.
fn relative_of(path: &str, root_comps: &Vec<Vec<char>>) -> (out: Vec<Vec<char>>)
    ensures
        views(out@) == (if views(root_comps@).len() <= path_components(path@).len()
            && path_components(path@).take(views(root_comps@).len() as int) == views(root_comps@) {
            path_components(path@).skip(views(root_comps@).len() as int)
        } else {
            path_components(path@)
        }),
{
    let comps = components_of(path);
    let ghost pc = views(comps@);
    let ghost rc = views(root_comps@);
    if root_comps.len() > comps.len() {
        return comps;
    }
    let mut i: usize = 0;
    while i < root_comps.len()
        invariant
            i <= root_comps@.len() <= comps@.len(),
            pc == views(comps@),
            pc == path_components(path@),
            rc == views(root_comps@),
            pc.take(i as int) == rc.take(i as int),
        decreases root_comps.len() - i,
    {
        if !chars_eq(comps[i].as_slice(), root_comps[i].as_slice()) {
            proof {
                assert(pc[i as int] == comps@[i as int]@);
                assert(rc[i as int] == root_comps@[i as int]@);
                assert(pc[i as int] != rc[i as int]);
                assert(pc.take(rc.len() as int)[i as int] == pc[i as int]);
                assert(pc.take(rc.len() as int) != rc) by {
                    if pc.take(rc.len() as int) == rc {
                        assert(pc.take(rc.len() as int)[i as int] == rc[i as int]);
                    }
                }
            }
            return comps;
        }
        assert(pc.take(i + 1) =~= pc.take(i as int).push(pc[i as int]));
        assert(rc.take(i + 1) =~= rc.take(i as int).push(rc[i as int]));
        i = i + 1;
    }
    assert(rc.take(rc.len() as int) == rc);
    let mut rest: Vec<Vec<char>> = Vec::new();
    let mut j: usize = root_comps.len();
    while j < comps.len()
        invariant
            root_comps@.len() <= j <= comps@.len(),
            pc == views(comps@),
            views(rest@) == pc.subrange(root_comps@.len() as int, j as int),
        decreases comps.len() - j,
    {
        let c = crate::text::sub_chars(comps[j].as_slice(), 0, comps[j].len());
        assert(comps@[j as int]@.subrange(0, comps@[j as int]@.len() as int) == comps@[j as int]@);
        let ghost before = rest@;
        rest.push(c);
        assert(views(rest@) =~= views(before).push(pc[j as int]));
        assert(views(rest@) =~= pc.subrange(root_comps@.len() as int, j + 1));
        j = j + 1;
    }
    assert(pc.subrange(root_comps@.len() as int, comps@.len() as int) == pc.skip(root_comps@.len() as int));
    rest
}

/// The directory tree of the documents of the index, below its root.
pub fn build_file_tree(index: &InvertedIndex) -> (lines: Vec<String>)
    ensures
        term_views(lines@) == file_tree_spec(
            index.metadata.root@,
            index.documents@.map_values(|d: crate::model::Document| d.path@),
        ),
{
    let root = index.metadata.root.as_str();
    let root_comps = components_of(root);
    let ghost paths = index.documents@.map_values(|d: crate::model::Document| d.path@);
    let ghost spec_ps = paths.map_values(|p: Seq<char>| relative_components(p, root@));
    let mut ps: Vec<Vec<Vec<char>>> = Vec::new();
    let mut i: usize = 0;
    while i < index.documents.len()
        invariant
            i <= index.documents@.len(),
            views(root_comps@) == path_components(root@),
            root@ == index.metadata.root@,
            paths == index.documents@.map_values(|d: crate::model::Document| d.path@),
            spec_ps == paths.map_values(|p: Seq<char>| relative_components(p, root@)),
            path_views(ps@) == spec_ps.take(i as int),
        decreases index.documents.len() - i,
    {
        let rel = relative_of(index.documents[i].path.as_str(), &root_comps);
        let ghost before = ps@;
        assert(spec_ps[i as int] == relative_components(index.documents@[i as int].path@, root@));
        assert(views(rel@) == spec_ps[i as int]);
        ps.push(rel);
        assert(path_views(ps@) =~= path_views(before).push(views(rel@)));
        assert(path_views(ps@) =~= spec_ps.take(i + 1));
        i = i + 1;
    }
    assert(spec_ps.take(index.documents@.len() as int) == spec_ps);
    let rc = chars_of(root);
    let name: Vec<char> = match file_name_chars(rc.as_slice()) {
        Some(n) => n,
        None => rc,
    };
    let mut lines: Vec<String> = Vec::new();
    lines.push(string_from_chars(name.as_slice()));
    let depth = max_len_of(&ps);
    let prefix: Vec<char> = Vec::new();
    render_tree(&ps, &prefix, depth, &mut lines);
    lines
}

} // verus!
