//! Trimming, splitting, joining, decimal numbers, padding and path names on
//! character sequences.
use vstd::prelude::*;
use crate::text::{
    extend_chars, is_whitespace, spec_is_whitespace, sub_chars, chars_eq,
};

verus! {

// ---------------------------------------------------------------------------
// Trimming
// ---------------------------------------------------------------------------
/// `str::trim_start`: drops leading Unicode whitespace.
pub open spec fn trim_start(s: Seq<char>) -> Seq<char>
    decreases s.len(),
{
    if s.len() > 0 && spec_is_whitespace(s[0]) {
        trim_start(s.drop_first())
    } else {
        s
    }
}

/// `str::trim_end`: drops trailing Unicode whitespace.
pub open spec fn trim_end(s: Seq<char>) -> Seq<char>
    decreases s.len(),
{
    if s.len() > 0 && spec_is_whitespace(s.last()) {
        trim_end(s.drop_last())
    } else {
        s
    }
}

/// `str::trim`.
pub open spec fn trim(s: Seq<char>) -> Seq<char> {
    trim_end(trim_start(s))
}

pub fn trim_start_chars(s: &[char]) -> (out: Vec<char>)
    ensures
        out@ == trim_start(s@),
{
    let mut i: usize = 0;
    assert(s@.subrange(0, s@.len() as int) == s@);
    while i < s.len() && is_whitespace(s[i])
        invariant
            i <= s.len(),
            trim_start(s@) == trim_start(s@.subrange(i as int, s@.len() as int)),
        decreases s.len() - i,
    {
        assert(s@.subrange(i as int, s@.len() as int).drop_first() == s@.subrange(
            i + 1,
            s@.len() as int,
        ));
        i = i + 1;
    }
    sub_chars(s, i, s.len())
}

pub fn trim_end_chars(s: &[char]) -> (out: Vec<char>)
    ensures
        out@ == trim_end(s@),
{
    let mut j: usize = s.len();
    assert(s@.subrange(0, s@.len() as int) == s@);
    while j > 0 && is_whitespace(s[j - 1])
        invariant
            j <= s.len(),
            trim_end(s@) == trim_end(s@.subrange(0, j as int)),
        decreases j,
    {
        assert(s@.subrange(0, j as int).drop_last() == s@.subrange(0, j - 1));
        j = j - 1;
    }
    sub_chars(s, 0, j)
}

pub fn trim_chars(s: &[char]) -> (out: Vec<char>)
    ensures
        out@ == trim(s@),
{
    let a = trim_start_chars(s);
    trim_end_chars(a.as_slice())
}

// ---------------------------------------------------------------------------
// Splitting on a separator, words and joining
// ---------------------------------------------------------------------------
/// `str::split(sep)`: the pieces between separators (there is always one
/// more piece than there are separators).
pub open spec fn split_on(s: Seq<char>, sep: char) -> Seq<Seq<char>>
    decreases s.len(),
{
    if s.len() == 0 {
        seq![Seq::<char>::empty()]
    } else if s.last() == sep {
        split_on(s.drop_last(), sep).push(Seq::<char>::empty())
    } else {
        let r = split_on(s.drop_last(), sep);
        r.update(r.len() - 1, r.last().push(s.last()))
    }
}

pub proof fn lemma_split_on_nonempty(s: Seq<char>, sep: char)
    ensures
        split_on(s, sep).len() >= 1,
    decreases s.len(),
{
    if s.len() > 0 {
        lemma_split_on_nonempty(s.drop_last(), sep);
    }
}

/// The pieces of `s` between occurrences of `sep`.
pub fn split_chars(s: &[char], sep: char) -> (out: Vec<Vec<char>>)
    ensures
        out@.len() == split_on(s@, sep).len(),
        forall|k: int| 0 <= k < out@.len() ==> #[trigger] out@[k]@ == split_on(s@, sep)[k],
{
    let mut out: Vec<Vec<char>> = Vec::new();
    let mut cur: Vec<char> = Vec::new();
    let mut i: usize = 0;
    assert(s@.take(0) == Seq::<char>::empty());
    while i < s.len()
        invariant
            i <= s.len(),
            out@.len() + 1 == split_on(s@.take(i as int), sep).len(),
            forall|k: int| 0 <= k < out@.len() ==> #[trigger] out@[k]@ == split_on(
                s@.take(i as int),
                sep,
            )[k],
            cur@ == split_on(s@.take(i as int), sep).last(),
        decreases s.len() - i,
    {
        let c = s[i];
        assert(s@.take(i + 1).drop_last() == s@.take(i as int));
        assert(s@.take(i + 1).last() == c);
        proof {
            lemma_split_on_nonempty(s@.take(i as int), sep);
        }
        if c == sep {
            out.push(cur);
            cur = Vec::new();
        } else {
            cur.push(c);
        }
        i = i + 1;
    }
    assert(s@.take(s@.len() as int) == s@);
    proof {
        lemma_split_on_nonempty(s@, sep);
    }
    out.push(cur);
    out
}

/// `str::split_whitespace`: the maximal runs of non-whitespace characters.
pub open spec fn words(s: Seq<char>) -> Seq<Seq<char>>
    decreases s.len(),
{
    if s.len() == 0 {
        Seq::empty()
    } else if spec_is_whitespace(s.last()) {
        words(s.drop_last())
    } else if s.len() > 1 && !spec_is_whitespace(s.drop_last().last()) {
        let w = words(s.drop_last());
        w.update(w.len() - 1, w.last().push(s.last()))
    } else {
        words(s.drop_last()).push(seq![s.last()])
    }
}

pub proof fn lemma_words_nonempty(s: Seq<char>)
    requires
        s.len() > 0,
        !spec_is_whitespace(s.last()),
    ensures
        words(s).len() > 0,
    decreases s.len(),
{
    if s.len() > 1 && !spec_is_whitespace(s.drop_last().last()) {
        lemma_words_nonempty(s.drop_last());
    }
}

/// `[T]::join(sep)` on character sequences with a one-character separator.
pub open spec fn join(ws: Seq<Seq<char>>, sep: char) -> Seq<char>
    decreases ws.len(),
{
    if ws.len() == 0 {
        Seq::empty()
    } else if ws.len() == 1 {
        ws[0]
    } else {
        join(ws.drop_last(), sep).push(sep) + ws.last()
    }
}

/// The words of `s` joined by single spaces.
pub fn collapse_whitespace(s: &[char]) -> (out: Vec<char>)
    ensures
        out@ == join(words(s@), ' '),
{
    let mut out: Vec<char> = Vec::new();
    let mut i: usize = 0;
    assert(s@.take(0) == Seq::<char>::empty());
    while i < s.len()
        invariant
            i <= s.len(),
            out@ == join(words(s@.take(i as int)), ' '),
            i > 0 && !spec_is_whitespace(s@[i - 1]) ==> words(s@.take(i as int)).len() > 0,
        decreases s.len() - i,
    {
        let c = s[i];
        let ghost p = s@.take(i as int);
        let ghost q = s@.take(i + 1);
        assert(q.drop_last() == p);
        assert(q.last() == c);
        if is_whitespace(c) {
        } else if i > 0 && !is_whitespace(s[i - 1]) {
            proof {
                assert(p.last() == s@[i - 1]);
                let w = words(p);
                assert(w.len() > 0);
                let w2 = w.update(w.len() - 1, w.last().push(c));
                assert(words(q) == w2);
                if w.len() == 1 {
                    assert(join(w2, ' ') == w2[0]);
                } else {
                    assert(w2.drop_last() == w.drop_last());
                }
                assert(join(w2, ' ') == join(w, ' ').push(c));
            }
            out.push(c);
        } else {
            proof {
                let w = words(p);
                let w2 = w.push(seq![c]);
                if i > 0 {
                    assert(p.last() == s@[i - 1]);
                }
                assert(words(q) == w2);
                assert(w2.drop_last() == w);
            }
            if out.len() > 0 {
                out.push(' ');
                out.push(c);
                proof {
                    let w = words(p);
                    if w.len() == 0 {
                        assert(join(w, ' ').len() == 0);
                    }
                    assert(join(w.push(seq![c]), ' ') == join(w, ' ').push(' ') + seq![c]);
                }
            } else {
                out.push(c);
                proof {
                    let w = words(p);
                    if w.len() > 0 {
                        lemma_words_nonempty_items(p);
                        lemma_join_nonempty(w);
                    }
                    assert(join(w.push(seq![c]), ' ') == seq![c]);
                }
            }
        }
        i = i + 1;
        assert(s@.take(i as int) == q);
    }
    assert(s@.take(s@.len() as int) == s@);
    out
}

/// Every word is non-empty.
proof fn lemma_words_nonempty_items(s: Seq<char>)
    ensures
        forall|k: int| 0 <= k < words(s).len() ==> #[trigger] words(s)[k].len() > 0,
    decreases s.len(),
{
    if s.len() > 0 {
        let p = s.drop_last();
        lemma_words_nonempty_items(p);
        if !spec_is_whitespace(s.last()) && s.len() > 1 && !spec_is_whitespace(p.last()) {
            lemma_words_nonempty(p);
            let w = words(p);
            let w2 = w.update(w.len() - 1, w.last().push(s.last()));
            assert(words(s) == w2);
            assert forall|k: int| 0 <= k < w2.len() implies #[trigger] w2[k].len() > 0 by {
                if k < w.len() - 1 {
                    assert(w2[k] == w[k]);
                }
            }
        } else if spec_is_whitespace(s.last()) {
            assert(words(s) == words(p));
        } else {
            let w = words(p);
            let w2 = w.push(seq![s.last()]);
            assert(words(s) == w2);
            assert forall|k: int| 0 <= k < w2.len() implies #[trigger] w2[k].len() > 0 by {
                if k < w.len() {
                    assert(w2[k] == w[k]);
                }
            }
        }
    }
}

/// Joining a non-empty list of non-empty words gives a non-empty text.
proof fn lemma_join_nonempty(w: Seq<Seq<char>>)
    requires
        w.len() > 0,
        forall|k: int| 0 <= k < w.len() ==> #[trigger] w[k].len() > 0,
    ensures
        join(w, ' ').len() > 0,
    decreases w.len(),
{
    if w.len() > 1 {
        assert(join(w, ' ') == join(w.drop_last(), ' ').push(' ') + w.last());
    }
}

// ---------------------------------------------------------------------------
// Decimal numbers and padding
// ---------------------------------------------------------------------------
pub open spec fn digit_char(d: nat) -> char {
    ((48 + d) as u8) as char
}

/// The decimal representation of `n` (what `{}` prints for an unsigned integer).
pub open spec fn decimal(n: nat) -> Seq<char>
    decreases n,
{
    if n < 10 {
        seq![digit_char(n)]
    } else {
        decimal(n / 10).push(digit_char(n % 10))
    }
}

pub fn decimal_chars(n: u64) -> (out: Vec<char>)
    ensures
        out@ == decimal(n as nat),
    decreases n,
{
    let d: u8 = (n % 10) as u8;
    let c: char = (48u8 + d) as char;
    if n < 10 {
        let mut v: Vec<char> = Vec::new();
        v.push(c);
        v
    } else {
        let mut v = decimal_chars(n / 10);
        v.push(c);
        v
    }
}

/// `n` spaces.
pub open spec fn spaces(n: nat) -> Seq<char> {
    Seq::new(n, |i: int| ' ')
}

/// `{:>width}`: `s` right-aligned in a field of `width` characters.
pub open spec fn pad_start(s: Seq<char>, width: nat) -> Seq<char> {
    if s.len() < width {
        spaces((width - s.len()) as nat) + s
    } else {
        s
    }
}

/// `{:<width}`: `s` left-aligned in a field of `width` characters.
pub open spec fn pad_end(s: Seq<char>, width: nat) -> Seq<char> {
    if s.len() < width {
        s + spaces((width - s.len()) as nat)
    } else {
        s
    }
}

pub fn push_spaces(dst: &mut Vec<char>, n: usize)
    ensures
        final(dst)@ == old(dst)@ + spaces(n as nat),
{
    let mut i: usize = 0;
    while i < n
        invariant
            i <= n,
            dst@ == old(dst)@ + spaces(i as nat),
        decreases n - i,
    {
        dst.push(' ');
        i = i + 1;
        assert(spaces(i as nat) == spaces((i - 1) as nat).push(' '));
    }
}

pub fn push_padded_start(dst: &mut Vec<char>, s: &[char], width: usize)
    ensures
        final(dst)@ == old(dst)@ + pad_start(s@, width as nat),
{
    if s.len() < width {
        push_spaces(dst, width - s.len());
    }
    extend_chars(dst, s);
    assert(old(dst)@ + spaces((width - s@.len()) as nat) + s@ == old(dst)@ + (spaces(
        (width - s@.len()) as nat,
    ) + s@));
}

pub fn push_padded_end(dst: &mut Vec<char>, s: &[char], width: usize)
    ensures
        final(dst)@ == old(dst)@ + pad_end(s@, width as nat),
{
    extend_chars(dst, s);
    if s.len() < width {
        push_spaces(dst, width - s.len());
    }
    assert(old(dst)@ + s@ + spaces((width - s@.len()) as nat) == old(dst)@ + (s@ + spaces(
        (width - s@.len()) as nat,
    )));
}

// ---------------------------------------------------------------------------
// Path names (Unix `std::path::Path` semantics on a path held as text)
// ---------------------------------------------------------------------------
/// The normal components of a path: the pieces between `/` that are neither
/// empty nor `.`.
pub open spec fn path_components(p: Seq<char>) -> Seq<Seq<char>> {
    split_on(p, '/').filter(normal_component())
}

/// A piece of a path that names something: neither empty nor `.`.
pub open spec fn normal_component() -> spec_fn(Seq<char>) -> bool {
    |c: Seq<char>| c.len() > 0 && c != seq!['.']
}

/// `Path::file_name`: the last component, unless there is none or it is `..`.
pub open spec fn file_name(p: Seq<char>) -> Option<Seq<char>> {
    let cs = path_components(p);
    if cs.len() == 0 || cs.last() == seq!['.', '.'] {
        None
    } else {
        Some(cs.last())
    }
}

/// Position of the last `.` in `name`.
pub open spec fn last_dot(name: Seq<char>) -> Option<int>
    decreases name.len(),
{
    if name.len() == 0 {
        None
    } else if name.last() == '.' {
        Some(name.len() - 1)
    } else {
        last_dot(name.drop_last())
    }
}

/// `Path::file_stem` of a file name: the name before its last `.`, unless
/// that dot is the first character.
pub open spec fn stem_of(name: Seq<char>) -> Seq<char> {
    match last_dot(name) {
        Some(k) => if k > 0 {
            name.take(k)
        } else {
            name
        },
        None => name,
    }
}

/// `Path::extension` of a file name.
pub open spec fn extension_of(name: Seq<char>) -> Option<Seq<char>> {
    match last_dot(name) {
        Some(k) => if k > 0 {
            Some(name.skip(k + 1))
        } else {
            None
        },
        None => None,
    }
}

/// `Path::file_stem`.
pub open spec fn file_stem(p: Seq<char>) -> Option<Seq<char>> {
    match file_name(p) {
        Some(n) => Some(stem_of(n)),
        None => None,
    }
}

/// `Path::extension`.
pub open spec fn extension(p: Seq<char>) -> Option<Seq<char>> {
    match file_name(p) {
        Some(n) => extension_of(n),
        None => None,
    }
}

proof fn lemma_last_dot_bound(name: Seq<char>)
    ensures
        last_dot(name) matches Some(k) ==> 0 <= k < name.len() && name[k] == '.' && forall|j: int|
            k < j < name.len() ==> name[j] != '.',
        last_dot(name) is None ==> forall|j: int| 0 <= j < name.len() ==> name[j] != '.',
    decreases name.len(),
{
    if name.len() > 0 && name.last() != '.' {
        lemma_last_dot_bound(name.drop_last());
        assert forall|j: int| 0 <= j < name.len() - 1 implies name[j] == name.drop_last()[j] by {}
    }
}

/// Computes `last_dot`.
pub fn find_last_dot(name: &[char]) -> (r: Option<usize>)
    ensures
        match r {
            Some(k) => last_dot(name@) == Some(k as int),
            None => last_dot(name@) is None,
        },
{
    let mut j: usize = name.len();
    assert(name@.take(name@.len() as int) == name@);
    while j > 0
        invariant
            j <= name.len(),
            last_dot(name@) == last_dot(name@.take(j as int)),
        decreases j,
    {
        assert(name@.take(j as int).last() == name@[j - 1]);
        assert(name@.take(j as int).drop_last() == name@.take(j - 1));
        if name[j - 1] == '.' {
            return Some(j - 1);
        }
        j = j - 1;
    }
    None
}

/// Whether a character sequence is exactly `.`.
fn is_dot(c: &[char]) -> (r: bool)
    ensures
        r == (c@ == seq!['.']),
{
    c.len() == 1 && c[0] == '.' && {
        assert(c@ == seq![c@[0]]);
        true
    }
}

/// Computes `file_name`.
pub fn file_name_chars(p: &[char]) -> (r: Option<Vec<char>>)
    ensures
        match r {
            Some(v) => file_name(p@) == Some(v@),
            None => file_name(p@) is None,
        },
{
    let pieces = split_chars(p, '/');
    let ghost sp = split_on(p@, '/');
    let ghost pred = normal_component();
    // find the last piece that is a normal component
    let mut k: usize = pieces.len();
    assert(sp.take(sp.len() as int) == sp);
    while k > 0
        invariant
            k <= pieces@.len() == sp.len(),
            pred == normal_component(),
            sp == split_on(p@, '/'),
            forall|m: int| 0 <= m < pieces@.len() ==> #[trigger] pieces@[m]@ == sp[m],
            sp.filter(pred) == sp.take(k as int).filter(pred),
        decreases k,
    {
        let piece = &pieces[k - 1];
        assert(piece@ == sp[k - 1]);
        assert(sp.take(k as int).drop_last() == sp.take(k - 1));
        proof {
            sp.take(k - 1).lemma_filter_push(sp[k - 1], pred);
            assert(sp.take(k - 1).push(sp[k - 1]) == sp.take(k as int));
        }
        if piece.len() > 0 && !is_dot(piece.as_slice()) {
            proof {
                assert(pred(sp[k - 1]));
                assert(sp.filter(pred) == sp.take(k - 1).filter(pred).push(sp[k - 1]));
            }
            let dotdot: Vec<char> = vec!['.', '.'];
            if chars_eq(piece.as_slice(), dotdot.as_slice()) {
                assert(dotdot@ == seq!['.', '.']);
                return None;
            }
            assert(dotdot@ == seq!['.', '.']);
            let out = sub_chars(piece.as_slice(), 0, piece.len());
            assert(piece@.subrange(0, piece@.len() as int) == piece@);
            return Some(out);
        }
        k = k - 1;
    }
    assert(sp.take(0) == Seq::<Seq<char>>::empty());
    None
}

/// Computes `file_stem`.
pub fn file_stem_chars(p: &[char]) -> (r: Option<Vec<char>>)
    ensures
        match r {
            Some(v) => file_stem(p@) == Some(v@),
            None => file_stem(p@) is None,
        },
{
    match file_name_chars(p) {
        None => None,
        Some(name) => {
            match find_last_dot(name.as_slice()) {
                Some(k) => {
                    if k > 0 {
                        proof {
                            lemma_last_dot_bound(name@);
                        }
                        Some(sub_chars(name.as_slice(), 0, k))
                    } else {
                        Some(name)
                    }
                },
                None => Some(name),
            }
        },
    }
}

/// Computes `extension`.
pub fn extension_chars(p: &[char]) -> (r: Option<Vec<char>>)
    ensures
        match r {
            Some(v) => extension(p@) == Some(v@),
            None => extension(p@) is None,
        },
{
    match file_name_chars(p) {
        None => None,
        Some(name) => {
            match find_last_dot(name.as_slice()) {
                Some(k) => {
                    if k > 0 {
                        proof {
                            lemma_last_dot_bound(name@);
                        }
                        assert((k as int) < name@.len());
                        Some(sub_chars(name.as_slice(), k + 1, name.len()))
                    } else {
                        None
                    }
                },
                None => None,
            }
        },
    }
}

} // verus!
