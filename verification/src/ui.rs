//! The logic of the terminal interface: the input line, clicks on the list
//! of results, wrapping text to a width, page summaries, the first match to
//! highlight, the root to rebuild from, and the quote of the day. Drawing
//! and terminal events are left to the caller.
use vstd::prelude::*;
use unicode_width::{UnicodeWidthChar, UnicodeWidthStr};
use crate::analysis::{push_decimal, push_lit};
use crate::matching::{byte_offsets, char_at_byte, char_at_byte_by, lemma_match_bytes};
use crate::model::{SearchMatch, SearchResult};
use crate::search::term_views;
use crate::text::{
    chars_of, find_first_from, first_occurrence_from, is_whitespace, occurs_at, spec_is_whitespace,
    str_byte_len, string_from_chars, sub_chars, to_lowercase, unicode_lowercase, utf8_len,
};
use crate::textfmt::{decimal, file_name, file_name_chars, trim_end, trim_end_chars};

verus! {

/// Results shown in the interface.
pub const TUI_LIMIT: usize = 25;

/// Terms shown in the interface.
pub const TERMS_LIMIT: usize = 20;

/// The directory of notes to index by default.
pub const DEFAULT_KNOWLEDGE_BASE: &'static str = "knowledge_base";

/// The directory of notes of earlier versions.
pub const LEGACY_DEMO_NOTES: &'static str = "demo_notes";

// ---------------------------------------------------------------------------
// Display width (unicode-width)
// ---------------------------------------------------------------------------
/// What `UnicodeWidthChar::width` returns for `c`: its width in columns
/// by UAX #11, `None` for a control character.
pub uninterp spec fn unicode_char_width(c: char) -> Option<usize>;

/// Calls `UnicodeWidthChar::width`. Beside naming the result, the contract
/// states what the crate's lookup shows directly: ASCII control characters
/// and U+007F..U+009F have no width, printable ASCII has width 1, and any
/// other width comes from a table of `u8` values.
#[verifier::external_body]
fn char_display_width(c: char) -> (r: Option<usize>)
    ensures
        r == unicode_char_width(c),
        match r {
            Some(w) => w <= 255 && ((c as u32) < 0x7f ==> w == 1) && 0x20 <= (c as u32) && !(0x7f <= (c as u32)
                && (c as u32) < 0xa0),
            None => (c as u32) < 0x20 || (0x7f <= (c as u32) && (c as u32) < 0xa0),
        },
{
    c.width()
}

/// What `UnicodeWidthStr::width` returns for the string `s`: its width in
/// columns, which takes sequences such as emoji with joiners into account.
pub uninterp spec fn unicode_str_width(s: Seq<char>) -> usize;

/// Calls `UnicodeWidthStr::width`; the result is named and nothing more is
/// claimed about it.
#[verifier::external_body]
fn str_display_width(s: &str) -> (r: usize)
    ensures
        r == unicode_str_width(s@),
{
    s.width()
}

/// The spaces that put `text` in the middle of `width` columns.
pub fn centered_padding(text: &str, width: usize) -> (r: usize)
    ensures
        r == (if width >= unicode_str_width(text@) { (width - unicode_str_width(text@)) / 2 } else { 0 }),
{
    let w = str_display_width(text);
    if width >= w { (width - w) / 2 } else { 0 }
}

/// The spaces that put `text` at the right end of `width` columns.
pub fn right_padding(text: &str, width: usize) -> (r: usize)
    ensures
        r == (if width >= unicode_str_width(text@) { width - unicode_str_width(text@) } else { 0 }),
{
    let w = str_display_width(text);
    if width >= w { width - w } else { 0 }
}

/// The columns a character takes when wrapping: its width, and at least 1.
pub open spec fn wrap_width(c: char) -> int {
    match unicode_char_width(c) {
        Some(w) => if w >= 1 { w as int } else { 1 },
        None => 1,
    }
}

/// The columns a character takes on the input line: its width, 0 for a
/// control character.
pub open spec fn input_width(c: char) -> int {
    match unicode_char_width(c) {
        Some(w) => w as int,
        None => 0,
    }
}

/// The total input width of `s`.
pub open spec fn input_widths(s: Seq<char>) -> int
    decreases s.len(),
{
    if s.len() == 0 {
        0
    } else {
        input_widths(s.drop_last()) + input_width(s.last())
    }
}

// ---------------------------------------------------------------------------
// The input line
// ---------------------------------------------------------------------------
/// A line of text being edited, with a cursor between its characters.
#[derive(Debug)]
pub struct InputLine {
    text: String,
    cursor: usize,
}

impl InputLine {
    #[verifier::type_invariant]
    spec fn cursor_in_text(self) -> bool {
        self.cursor <= self.text@.len()
    }

    /// The characters of the line.
    pub closed spec fn chars(&self) -> Seq<char> {
        self.text@
    }

    /// How many characters precede the cursor.
    pub closed spec fn cursor(&self) -> nat {
        self.cursor as nat
    }

    /// An empty line.
    pub fn new() -> (r: Self)
        ensures
            r.chars() == Seq::<char>::empty(),
            r.cursor() == 0,
    {
        InputLine { text: String::new(), cursor: 0 }
    }

    pub fn text(&self) -> (r: &str)
        ensures
            r@ == self.chars(),
    {
        self.text.as_str()
    }

    pub fn is_empty(&self) -> (r: bool)
        ensures
            r == (self.chars().len() == 0),
    {
        chars_of(self.text.as_str()).len() == 0
    }

    pub fn char_len(&self) -> (n: usize)
        ensures
            n == self.chars().len(),
    {
        chars_of(self.text.as_str()).len()
    }

    /// Replaces the text, with the cursor at its end.
    pub fn set_text(&mut self, text: &str)
        ensures
            final(self).chars() == text@,
            final(self).cursor() == text@.len(),
    {
        let cs = chars_of(text);
        let n = cs.len();
        *self = InputLine { text: string_from_chars(cs.as_slice()), cursor: n };
    }

    /// Inserts `ch` at the cursor and moves the cursor past it.
    pub fn insert(&mut self, ch: char)
        requires
            old(self).chars().len() < usize::MAX,
        ensures
            inserted(*old(self), *final(self), ch),
    {
        proof {
            use_type_invariant(&*self);
        }
        let cs = chars_of(self.text.as_str());
        let c = self.cursor;
        let mut out = sub_chars(cs.as_slice(), 0, c);
        out.push(ch);
        let rest = sub_chars(cs.as_slice(), c, cs.len());
        crate::text::extend_chars(&mut out, rest.as_slice());
        assert(out@ =~= cs@.insert(c as int, ch));
        *self = InputLine { text: string_from_chars(out.as_slice()), cursor: c + 1 };
    }

    /// Removes the character before the cursor, if any.
    pub fn backspace(&mut self)
        ensures
            backspaced(*old(self), *final(self)),
    {
        proof {
            use_type_invariant(&*self);
        }
        if self.cursor == 0 {
            return;
        }
        let cs = chars_of(self.text.as_str());
        let c = self.cursor - 1;
        let mut out = sub_chars(cs.as_slice(), 0, c);
        let rest = sub_chars(cs.as_slice(), c + 1, cs.len());
        crate::text::extend_chars(&mut out, rest.as_slice());
        assert(out@ =~= cs@.remove(c as int));
        *self = InputLine { text: string_from_chars(out.as_slice()), cursor: c };
    }

    /// Removes the character after the cursor, if any.
    pub fn delete(&mut self)
        ensures
            old(self).cursor() >= old(self).chars().len() ==> final(self).chars() == old(self).chars(),
            old(self).cursor() < old(self).chars().len() ==> final(self).chars() == old(self).chars().remove(
                old(self).cursor() as int,
            ),
            final(self).cursor() == old(self).cursor(),
    {
        proof {
            use_type_invariant(&*self);
        }
        let cs = chars_of(self.text.as_str());
        let c = self.cursor;
        if c >= cs.len() {
            return;
        }
        let mut out = sub_chars(cs.as_slice(), 0, c);
        let rest = sub_chars(cs.as_slice(), c + 1, cs.len());
        crate::text::extend_chars(&mut out, rest.as_slice());
        assert(out@ =~= cs@.remove(c as int));
        *self = InputLine { text: string_from_chars(out.as_slice()), cursor: c };
    }

    pub fn clear(&mut self)
        ensures
            final(self).chars() == Seq::<char>::empty(),
            final(self).cursor() == 0,
    {
        *self = InputLine { text: String::new(), cursor: 0 };
    }

    pub fn move_left(&mut self)
        ensures
            moved_left(*old(self), *final(self)),
    {
        proof {
            use_type_invariant(&*self);
        }
        let t = self.text.clone();
        let c = if self.cursor > 0 { self.cursor - 1 } else { 0 };
        *self = InputLine { text: t, cursor: c };
    }

    pub fn move_right(&mut self)
        ensures
            moved_right(*old(self), *final(self)),
    {
        proof {
            use_type_invariant(&*self);
        }
        let n = self.char_len();
        let t = self.text.clone();
        let c = if self.cursor < n { self.cursor + 1 } else { n };
        *self = InputLine { text: t, cursor: c };
    }

    pub fn move_to_start(&mut self)
        ensures
            final(self).chars() == old(self).chars(),
            final(self).cursor() == 0,
    {
        let t = self.text.clone();
        *self = InputLine { text: t, cursor: 0 };
    }

    pub fn move_to_end(&mut self)
        ensures
            final(self).chars() == old(self).chars(),
            final(self).cursor() == old(self).chars().len(),
    {
        let n = self.char_len();
        let t = self.text.clone();
        *self = InputLine { text: t, cursor: n };
    }

    /// The display width of the text before the cursor.
    pub fn prefix_width(&self) -> (w: usize)
        ensures
            w == if input_widths(self.chars().take(self.cursor() as int)) <= usize::MAX {
                input_widths(self.chars().take(self.cursor() as int))
            } else {
                usize::MAX as int
            },
    {
        proof {
            use_type_invariant(self);
        }
        let cs = chars_of(self.text.as_str());
        let mut w: usize = 0;
        let mut i: usize = 0;
        while i < self.cursor
            invariant
                i <= self.cursor <= cs@.len(),
                cs@ == self.text@,
                w == if input_widths(cs@.take(i as int)) <= usize::MAX {
                    input_widths(cs@.take(i as int))
                } else {
                    usize::MAX as int
                },
            decreases self.cursor - i,
        {
            let d: usize = match char_display_width(cs[i]) {
                Some(x) => x,
                None => 0,
            };
            assert(cs@.take(i + 1).drop_last() == cs@.take(i as int));
            assert(input_widths(cs@.take(i + 1)) == input_widths(cs@.take(i as int)) + d);
            w = w.saturating_add(d);
            i = i + 1;
        }
        w
    }
}

/// `f` is `o` with `ch` typed at the cursor, which moves past it.
pub open spec fn inserted(o: InputLine, f: InputLine, ch: char) -> bool {
    f.chars() == o.chars().insert(o.cursor() as int, ch) && f.cursor() == o.cursor() + 1
}

/// `f` is `o` with the character before the cursor removed, if there is one.
pub open spec fn backspaced(o: InputLine, f: InputLine) -> bool {
    &&& o.cursor() == 0 ==> f.chars() == o.chars() && f.cursor() == 0
    &&& o.cursor() > 0 ==> f.chars() == o.chars().remove(o.cursor() - 1) && f.cursor() == o.cursor() - 1
}

/// `f` is `o` with the cursor one character to the left, if it can move.
pub open spec fn moved_left(o: InputLine, f: InputLine) -> bool {
    f.chars() == o.chars() && f.cursor() == if o.cursor() > 0 {
        o.cursor() - 1
    } else {
        0
    }
}

/// `f` is `o` with the cursor one character to the right, if it can move.
pub open spec fn moved_right(o: InputLine, f: InputLine) -> bool {
    f.chars() == o.chars() && f.cursor() == if o.cursor() < o.chars().len() {
        o.cursor() + 1
    } else {
        o.chars().len()
    }
}

/// A backspace undoes an insert: typing a character and then deleting the
/// one before the cursor gives back the line and the cursor as they were.
pub proof fn lemma_backspace_undoes_insert(o: InputLine, m: InputLine, f: InputLine, ch: char)
    requires
        o.cursor() <= o.chars().len(),
        inserted(o, m, ch),
        backspaced(m, f),
    ensures
        f.chars() == o.chars(),
        f.cursor() == o.cursor(),
{
    assert(o.chars().insert(o.cursor() as int, ch).remove(o.cursor() as int) =~= o.chars());
}

/// Moving left and then right comes back to the same place, away from the
/// start of the line.
pub proof fn lemma_left_then_right(o: InputLine, m: InputLine, f: InputLine)
    requires
        0 < o.cursor() <= o.chars().len(),
        moved_left(o, m),
        moved_right(m, f),
    ensures
        f.chars() == o.chars(),
        f.cursor() == o.cursor(),
{
}

impl Default for InputLine {
    fn default() -> (r: Self)
        ensures
            r.chars() == Seq::<char>::empty(),
            r.cursor() == 0,
    {
        InputLine::new()
    }
}

// ---------------------------------------------------------------------------
// Clicks on the list of results
// ---------------------------------------------------------------------------
/// A rectangle of the terminal: its left column, top row, width and height.
#[derive(Debug, Clone, Copy, PartialEq, Eq, Structural)]
pub struct Rect {
    pub x: u16,
    pub y: u16,
    pub width: u16,
    pub height: u16,
}

impl Rect {
    pub fn new(x: u16, y: u16, width: u16, height: u16) -> (r: Self)
        ensures
            r == (Rect { x, y, width, height }),
    {
        Rect { x, y, width, height }
    }
}

/// `a + b`, or `u16::MAX` where that is larger.
pub open spec fn sat_add16(a: int, b: int) -> int {
    if a + b > u16::MAX { u16::MAX as int } else { a + b }
}

/// Whether the cell is inside the border of `area`.
pub open spec fn inside(area: Rect, column: int, row: int) -> bool {
    let left = sat_add16(area.x as int, 1);
    let right = sat_add16(area.x as int, if area.width >= 1 { area.width - 1 } else { 0 });
    let top = sat_add16(area.y as int, 1);
    let bottom = sat_add16(area.y as int, if area.height >= 1 { area.height - 1 } else { 0 });
    left <= column < right && top <= row < bottom
}

pub fn point_in_inner_area(area: Rect, column: u16, row: u16) -> (r: bool)
    ensures
        r == inside(area, column as int, row as int),
{
    let left = area.x.saturating_add(1);
    let right = area.x.saturating_add(area.width.saturating_sub(1));
    let top = area.y.saturating_add(1);
    let bottom = area.y.saturating_add(area.height.saturating_sub(1));
    column >= left && column < right && row >= top && row < bottom
}

/// The result under a click: the row within the border, where that many
/// results are listed.
pub fn result_index_at(area: Rect, column: u16, row: u16, result_count: usize) -> (r: Option<usize>)
    ensures
        r == if inside(area, column as int, row as int) && row - sat_add16(area.y as int, 1) < result_count {
            Some((row - sat_add16(area.y as int, 1)) as usize)
        } else {
            None::<usize>
        },
{
    if !point_in_inner_area(area, column, row) {
        return None;
    }
    let index = (row - area.y.saturating_add(1)) as usize;
    if index < result_count {
        Some(index)
    } else {
        None
    }
}

// ---------------------------------------------------------------------------
// The root to rebuild from, and the quote of the day
// ---------------------------------------------------------------------------
/// Whether the last component of `path` is the directory of notes of
/// earlier versions.
pub open spec fn is_legacy_root(path: Seq<char>) -> bool {
    file_name(path) == Some(LEGACY_DEMO_NOTES@)
}

pub fn is_legacy_demo_root(path: &str) -> (r: bool)
    ensures
        r == is_legacy_root(path@),
{
    let p = chars_of(path);
    match file_name_chars(p.as_slice()) {
        Some(name) => {
            let legacy = chars_of(LEGACY_DEMO_NOTES);
            crate::text::chars_eq(name.as_slice(), legacy.as_slice())
        },
        None => false,
    }
}

/// The root to rebuild the index from: the default knowledge base where the
/// index was made from the old demo notes and the knowledge base exists,
/// else the index's own root.
pub fn preferred_update_root(current_root: &str, default_exists: bool) -> (r: String)
    ensures
        r@ == if is_legacy_root(current_root@) && default_exists {
            DEFAULT_KNOWLEDGE_BASE@
        } else {
            current_root@
        },
{
    if is_legacy_demo_root(current_root) && default_exists {
        let d = chars_of(DEFAULT_KNOWLEDGE_BASE);
        string_from_chars(d.as_slice())
    } else {
        let c = chars_of(current_root);
        string_from_chars(c.as_slice())
    }
}

pub open spec fn quotes() -> Seq<Seq<char>> {
    seq![
        "Practice makes perfect."@,
        "Small steps compound into mastery."@,
        "Read deeply, build steadily."@,
        "Search, learn, connect."@,
    ]
}

/// One of four quotes, chosen by `seed`.
pub fn inspirational_quote(seed: u64) -> (q: &'static str)
    ensures
        q@ == quotes()[(seed % 4) as int],
{
    let k = seed % 4;
    if k == 0 {
        "Practice makes perfect."
    } else if k == 1 {
        "Small steps compound into mastery."
    } else if k == 2 {
        "Read deeply, build steadily."
    } else {
        "Search, learn, connect."
    }
}

// ---------------------------------------------------------------------------
// Wrapping text to a width
// ---------------------------------------------------------------------------
/// The state of wrapping after some characters: the finished lines, the
/// line being filled, and its width.
pub open spec fn wrap_state(text: Seq<char>, max_width: int) -> (Seq<Seq<char>>, Seq<char>, int)
    decreases text.len(),
{
    if text.len() == 0 {
        (Seq::empty(), Seq::empty(), 0)
    } else {
        let (lines, current, cw) = wrap_state(text.drop_last(), max_width);
        let c = text.last();
        let w = wrap_width(c);
        if cw > 0 && cw + w > max_width {
            if spec_is_whitespace(c) {
                (lines.push(trim_end(current)), Seq::empty(), 0)
            } else {
                (lines.push(trim_end(current)), seq![c], w)
            }
        } else {
            (lines, current.push(c), cw + w)
        }
    }
}

/// `text` wrapped into lines of at most `max_width` columns (at least 1):
/// a line is ended where the next character would not fit, trailing space
/// is dropped, and whitespace that would start a line is skipped. There is
/// always at least one line.
pub open spec fn wrap_spec(text: Seq<char>, max_width: int) -> Seq<Seq<char>> {
    let mw = if max_width >= 1 { max_width } else { 1 };
    let (lines, current, cw) = wrap_state(text, mw);
    let all = if current.len() > 0 { lines.push(trim_end(current)) } else { lines };
    if all.len() == 0 {
        seq![Seq::<char>::empty()]
    } else {
        all
    }
}

/// The total wrapping width of `s`.
pub open spec fn wrap_widths(s: Seq<char>) -> int
    decreases s.len(),
{
    if s.len() == 0 {
        0
    } else {
        wrap_widths(s.drop_last()) + wrap_width(s.last())
    }
}

proof fn lemma_trim_end_prefix(s: Seq<char>)
    ensures
        trim_end(s).len() <= s.len(),
        trim_end(s) == s.take(trim_end(s).len() as int),
    decreases s.len(),
{
    if s.len() > 0 && spec_is_whitespace(s.last()) {
        lemma_trim_end_prefix(s.drop_last());
        assert(s.drop_last().take(trim_end(s).len() as int) == s.take(trim_end(s).len() as int));
    } else {
        assert(s.take(s.len() as int) == s);
    }
}

proof fn lemma_widths_prefix(s: Seq<char>, n: int)
    requires
        0 <= n <= s.len(),
    ensures
        wrap_widths(s.take(n)) <= wrap_widths(s),
    decreases s.len() - n,
{
    if n < s.len() {
        lemma_widths_prefix(s, n + 1);
        assert(s.take(n + 1).drop_last() == s.take(n));
    } else {
        assert(s.take(n) == s);
    }
}

/// A line that fits: its width is at most `mw`, or it is one character.
pub open spec fn fits(line: Seq<char>, mw: int) -> bool {
    wrap_widths(line) <= mw || line.len() <= 1
}

proof fn lemma_trimmed_fits(current: Seq<char>, mw: int)
    requires
        fits(current, mw),
    ensures
        fits(trim_end(current), mw),
{
    lemma_trim_end_prefix(current);
    lemma_widths_prefix(current, trim_end(current).len() as int);
}

proof fn lemma_widths_len(s: Seq<char>)
    ensures
        wrap_widths(s) >= s.len(),
    decreases s.len(),
{
    if s.len() > 0 {
        lemma_widths_len(s.drop_last());
    }
}

proof fn lemma_wrap_state_fits(text: Seq<char>, mw: int)
    requires
        mw >= 1,
    ensures
        forall|k: int| 0 <= k < wrap_state(text, mw).0.len() ==> fits(#[trigger] wrap_state(text, mw).0[k], mw),
        wrap_widths(wrap_state(text, mw).1) == wrap_state(text, mw).2,
        fits(wrap_state(text, mw).1, mw),
    decreases text.len(),
{
    if text.len() > 0 {
        lemma_wrap_state_fits(text.drop_last(), mw);
        let st = wrap_state(text.drop_last(), mw);
        let lines = st.0;
        let current = st.1;
        let cw = st.2;
        let c = text.last();
        let w = wrap_width(c);
        if cw > 0 && cw + w > mw {
            lemma_trimmed_fits(current, mw);
            let nl = lines.push(trim_end(current));
            assert forall|k: int| 0 <= k < nl.len() implies fits(#[trigger] nl[k], mw) by {
                if k < lines.len() {
                    assert(nl[k] == lines[k]);
                }
            }
            assert(seq![c].drop_last() == Seq::<char>::empty());
            if spec_is_whitespace(c) {
                assert(wrap_state(text, mw) == (nl, Seq::<char>::empty(), 0int));
            } else {
                assert(wrap_state(text, mw) == (nl, seq![c], w));
                assert(seq![c].last() == c);
                assert(wrap_widths(seq![c].drop_last()) == 0);
                assert(wrap_widths(seq![c]) == w);
            }
        } else {
            assert(current.push(c).drop_last() == current);
            lemma_widths_len(current);
            assert(wrap_state(text, mw) == (lines, current.push(c), cw + w));
            assert(wrap_widths(current.push(c)) == cw + w);
        }
    } else {
        assert(wrap_state(text, mw) == (Seq::<Seq<char>>::empty(), Seq::<char>::empty(), 0int));
    }
}

/// Every line of wrapped text fits in the width (at least 1 column): it
/// is at most that wide, or it is a single character wider than that.
pub proof fn lemma_wrapped_lines_fit(text: Seq<char>, max_width: int)
    ensures
        forall|k: int| 0 <= k < wrap_spec(text, max_width).len() ==> fits(
            #[trigger] wrap_spec(text, max_width)[k],
            if max_width >= 1 { max_width } else { 1 },
        ),
{
    let mw = if max_width >= 1 { max_width } else { 1 };
    lemma_wrap_state_fits(text, mw);
    let lines = wrap_state(text, mw).0;
    let current = wrap_state(text, mw).1;
    if current.len() > 0 {
        lemma_trimmed_fits(current, mw);
        let all = lines.push(trim_end(current));
        assert forall|k: int| 0 <= k < all.len() implies fits(#[trigger] all[k], mw) by {
            if k < lines.len() {
                assert(all[k] == lines[k]);
            }
        }
    }
    assert(wrap_widths(Seq::<char>::empty()) == 0);
}

fn wrap_width_of(c: char) -> (w: usize)
    ensures
        w == wrap_width(c),
        1 <= w <= 255,
{
    match char_display_width(c) {
        Some(x) => if x >= 1 { x } else { 1 },
        None => 1,
    }
}

pub fn wrap_text_by_width(text: &str, max_width: usize) -> (lines: Vec<String>)
    ensures
        term_views(lines@) == wrap_spec(text@, max_width as int),
{
    let mw: usize = if max_width >= 1 { max_width } else { 1 };
    let cs = chars_of(text);
    let mut lines: Vec<String> = Vec::new();
    let mut current: Vec<char> = Vec::new();
    let mut cw: usize = 0;
    let mut i: usize = 0;
    assert(cs@.take(0) == Seq::<char>::empty());
    while i < cs.len()
        invariant
            i <= cs@.len(),
            cs@ == text@,
            mw >= 1,
            cw <= if mw >= 255 { mw as int } else { 255 },
            wrap_state(cs@.take(i as int), mw as int) == (term_views(lines@), current@, cw as int),
        decreases cs.len() - i,
    {
        assert(cs@.take(i + 1).drop_last() == cs@.take(i as int));
        assert(cs@.take(i + 1).last() == cs@[i as int]);
        let c = cs[i];
        let w = wrap_width_of(c);
        let overflow = cw > 0 && (cw > mw || w > mw - cw);
        if overflow {
            let ghost before = lines@;
            let t = trim_end_chars(current.as_slice());
            lines.push(string_from_chars(t.as_slice()));
            assert(term_views(lines@) =~= term_views(before).push(trim_end(current@)));
            current = Vec::new();
            cw = 0;
            if is_whitespace(c) {
                i = i + 1;
                continue;
            }
        }
        current.push(c);
        cw = cw + w;
        i = i + 1;
    }
    assert(cs@.take(cs@.len() as int) == cs@);
    if current.len() > 0 {
        let ghost before = lines@;
        let t = trim_end_chars(current.as_slice());
        lines.push(string_from_chars(t.as_slice()));
        assert(term_views(lines@) =~= term_views(before).push(trim_end(current@)));
    }
    if lines.len() == 0 {
        lines.push(String::new());
        assert(term_views(lines@) =~= seq![Seq::<char>::empty()]);
    }
    lines
}

// ---------------------------------------------------------------------------
// The pages of a result
// ---------------------------------------------------------------------------
/// The pages on which the matches lie.
pub open spec fn pages_of(ms: Seq<SearchMatch>) -> Set<u32> {
    Set::new(|p: u32| exists|k: int| 0 <= k < ms.len() && (#[trigger] ms[k]).page == Some(p))
}

pub open spec fn increasing(s: Seq<u32>) -> bool {
    forall|i: int, j: int| 0 <= i < j < s.len() ==> s[i] < s[j]
}

/// The elements of `pages` in increasing order.
pub open spec fn sorted_pages(pages: Set<u32>) -> Seq<u32> {
    choose|s: Seq<u32>| increasing(s) && s.to_set() == pages
}

pub open spec fn page_label(p: u32) -> Seq<char> {
    "p."@ + decimal(p as nat)
}

/// The labels of `s`, separated by commas.
pub open spec fn page_labels(s: Seq<u32>) -> Seq<char>
    decreases s.len(),
{
    if s.len() == 0 {
        Seq::empty()
    } else if s.len() == 1 {
        page_label(s[0])
    } else {
        page_labels(s.drop_last()) + ","@ + page_label(s.last())
    }
}

/// The pages of the matches: at most three, in increasing order, with `+`
/// where there are more; `-` where no match has a page.
pub open spec fn page_summary_spec(ms: Seq<SearchMatch>) -> Seq<char> {
    let s = sorted_pages(pages_of(ms));
    if s.len() == 0 {
        "pages: -"@
    } else {
        "pages: "@ + page_labels(s.take(if s.len() > 3 { 3 } else { s.len() as int })) + if s.len() > 3 {
            "+"@
        } else {
            Seq::empty()
        }
    }
}

/// Two increasing sequences with the same elements are equal.
pub proof fn lemma_increasing_unique(a: Seq<u32>, b: Seq<u32>)
    requires
        increasing(a),
        increasing(b),
        a.to_set() == b.to_set(),
    ensures
        a == b,
    decreases a.len(),
{
    if a.len() == 0 {
        if b.len() > 0 {
            assert(b.to_set().contains(b[0]));
        }
    } else if b.len() == 0 {
        assert(a.to_set().contains(a[0]));
    } else {
        assert(a.to_set().contains(b[0]));
        assert(b.to_set().contains(a[0]));
        let i = choose|i: int| 0 <= i < a.len() && a[i] == b[0];
        let j = choose|j: int| 0 <= j < b.len() && b[j] == a[0];
        assert(a[0] == b[0]);
        let a1 = a.drop_first();
        let b1 = b.drop_first();
        assert(a1.to_set() == b1.to_set()) by {
            assert forall|e: u32| a1.to_set().contains(e) <==> b1.to_set().contains(e) by {
                if a1.to_set().contains(e) {
                    let x = choose|x: int| 0 <= x < a1.len() && a1[x] == e;
                    assert(a[x + 1] == e);
                    assert(a.to_set().contains(e));
                    let y = choose|y: int| 0 <= y < b.len() && b[y] == e;
                    assert(y != 0);
                    assert(b1[y - 1] == e);
                }
                if b1.to_set().contains(e) {
                    let x = choose|x: int| 0 <= x < b1.len() && b1[x] == e;
                    assert(b[x + 1] == e);
                    assert(b.to_set().contains(e));
                    let y = choose|y: int| 0 <= y < a.len() && a[y] == e;
                    assert(y != 0);
                    assert(a1[y - 1] == e);
                }
            }
        }
        lemma_increasing_unique(a1, b1);
        assert(a == seq![a[0]] + a1);
        assert(b == seq![b[0]] + b1);
    }
}

/// Inserts `p` into the increasing `v`, unless it is there.
fn insert_page(v: &mut Vec<u32>, p: u32)
    requires
        increasing(old(v)@),
    ensures
        increasing(final(v)@),
        final(v)@.to_set() == old(v)@.to_set().insert(p),
{
    let ghost v0 = v@;
    let mut j: usize = 0;
    while j < v.len() && v[j] < p
        invariant
            j <= v@.len(),
            v@ == v0,
            forall|k: int| 0 <= k < j ==> v@[k] < p,
        decreases v.len() - j,
    {
        j = j + 1;
    }
    if j < v.len() && v[j] == p {
        assert(v0.to_set().insert(p) =~= v0.to_set());
        return;
    }
    v.insert(j, p);
    assert(v@ == v0.insert(j as int, p));
    assert forall|a: int, b: int| 0 <= a < b < v@.len() implies v@[a] < v@[b] by {
        if b < j {
        } else if b == j {
        } else if a < j {
            assert(v@[b] == v0[b - 1]);
            assert(v0[j as int] > p);
            if b - 1 > j {
                assert(v0[j as int] < v0[b - 1]);
            }
        } else if a == j {
            assert(v@[b] == v0[b - 1]);
            if b - 1 > j {
                assert(v0[j as int] < v0[b - 1]);
            }
        } else {
            assert(v@[a] == v0[a - 1] && v@[b] == v0[b - 1]);
        }
    }
    assert(v@.to_set() =~= v0.to_set().insert(p)) by {
        assert forall|e: u32| v@.to_set().contains(e) <==> v0.to_set().insert(p).contains(e) by {
            if v@.to_set().contains(e) {
                let k = choose|k: int| 0 <= k < v@.len() && v@[k] == e;
                if k < j {
                    assert(v0[k] == e);
                } else if k > j {
                    assert(v0[k - 1] == e);
                }
            }
            if v0.to_set().contains(e) {
                let k = choose|k: int| 0 <= k < v0.len() && v0[k] == e;
                if k < j {
                    assert(v@[k] == e);
                } else {
                    assert(v@[k + 1] == e);
                }
            }
            if e == p {
                assert(v@[j as int] == p);
            }
        }
    }
}

fn push_page_label(out: &mut Vec<char>, p: u32)
    ensures
        final(out)@ == old(out)@ + page_label(p),
{
    let ghost o = out@;
    push_lit(out, "p.");
    push_decimal(out, p as u64);
    assert(out@ =~= o + page_label(p));
}

/// The pages of the matches, in increasing order.
fn match_pages(ms: &Vec<SearchMatch>) -> (pages: Vec<u32>)
    ensures
        pages@ == sorted_pages(pages_of(ms@)),
{
    let mut pages: Vec<u32> = Vec::new();
    let mut i: usize = 0;
    assert(pages@.to_set() =~= Set::<u32>::empty());
    while i < ms.len()
        invariant
            i <= ms@.len(),
            increasing(pages@),
            pages@.to_set() == pages_of(ms@.take(i as int)),
        decreases ms.len() - i,
    {
        let ghost before = pages@.to_set();
        match ms[i].page {
            Some(p) => {
                insert_page(&mut pages, p);
            },
            None => {},
        }
        i = i + 1;
        assert(pages@.to_set() =~= pages_of(ms@.take(i as int))) by {
            assert forall|p: u32| pages_of(ms@.take(i as int)).contains(p) <==> pages@.to_set().contains(p) by {
                if pages_of(ms@.take(i as int)).contains(p) {
                    let k = choose|k: int| 0 <= k < ms@.take(i as int).len() && (#[trigger] ms@.take(i as int)[k]).page == Some(p);
                    if k < i - 1 {
                        assert(ms@.take(i - 1)[k] == ms@.take(i as int)[k]);
                        assert(pages_of(ms@.take(i - 1)).contains(p));
                    }
                }
                if before.contains(p) {
                    let k = choose|k: int| 0 <= k < ms@.take(i - 1).len() && (#[trigger] ms@.take(i - 1)[k]).page == Some(p);
                    assert(ms@.take(i as int)[k] == ms@.take(i - 1)[k]);
                }
                if ms@[i - 1].page == Some(p) {
                    assert(ms@.take(i as int)[i - 1] == ms@[i - 1]);
                }
            }
        }
    }
    assert(ms@.take(ms@.len() as int) == ms@);
    proof {
        assert(increasing(pages@) && pages@.to_set() == pages_of(ms@));
        lemma_increasing_unique(pages@, sorted_pages(pages_of(ms@)));
    }
    pages
}

/// The pages of a result's matches, as the list of results shows them.
pub fn result_page_summary(result: &SearchResult) -> (r: String)
    ensures
        r@ == page_summary_spec(result.matches@),
{
    let pages = match_pages(&result.matches);
    let mut out: Vec<char> = Vec::new();
    if pages.len() == 0 {
        push_lit(&mut out, "pages: -");
        return string_from_chars(out.as_slice());
    }
    push_lit(&mut out, "pages: ");
    let ghost head = out@;
    let shown: usize = if pages.len() > 3 { 3 } else { pages.len() };
    let mut k: usize = 0;
    assert(head + page_labels(pages@.take(0)) == head);
    while k < shown
        invariant
            k <= shown <= pages@.len(),
            out@ == head + page_labels(pages@.take(k as int)),
        decreases shown - k,
    {
        assert(pages@.take(k + 1).drop_last() == pages@.take(k as int));
        if k > 0 {
            push_lit(&mut out, ",");
        }
        push_page_label(&mut out, pages[k]);
        k = k + 1;
        assert(out@ =~= head + page_labels(pages@.take(k as int)));
    }
    if pages.len() > 3 {
        push_lit(&mut out, "+");
    }
    string_from_chars(out.as_slice())
}

/// The numbers of `s`, separated by commas.
pub open spec fn page_numbers(s: Seq<u32>) -> Seq<char>
    decreases s.len(),
{
    if s.len() == 0 {
        Seq::empty()
    } else if s.len() == 1 {
        decimal(s[0] as nat)
    } else {
        page_numbers(s.drop_last()) + ","@ + decimal(s.last() as nat)
    }
}

/// Every page of the matches, in increasing order, as the command line
/// lists them; nothing where no match has a page.
pub open spec fn result_pages_spec(ms: Seq<SearchMatch>) -> Option<Seq<char>> {
    let s = sorted_pages(pages_of(ms));
    if s.len() == 0 {
        None
    } else {
        Some("pages: "@ + page_numbers(s))
    }
}

/// The pages of a result's matches, as the command line lists them.
pub fn result_pages(result: &SearchResult) -> (r: Option<String>)
    ensures
        match r {
            Some(x) => result_pages_spec(result.matches@) == Some(x@),
            None => result_pages_spec(result.matches@) is None,
        },
{
    let pages = match_pages(&result.matches);
    if pages.len() == 0 {
        return None;
    }
    let mut out: Vec<char> = Vec::new();
    push_lit(&mut out, "pages: ");
    let ghost head = out@;
    let mut k: usize = 0;
    assert(head + page_numbers(pages@.take(0)) == head);
    while k < pages.len()
        invariant
            k <= pages@.len(),
            out@ == head + page_numbers(pages@.take(k as int)),
        decreases pages.len() - k,
    {
        assert(pages@.take(k + 1).drop_last() == pages@.take(k as int));
        if k > 0 {
            push_lit(&mut out, ",");
        }
        push_decimal(&mut out, pages[k] as u64);
        k = k + 1;
        assert(out@ =~= head + page_numbers(pages@.take(k as int)));
    }
    assert(pages@.take(pages@.len() as int) == pages@);
    Some(string_from_chars(out.as_slice()))
}

// ---------------------------------------------------------------------------
// The texts of the preview of a result
// ---------------------------------------------------------------------------
/// The preview text of match `i` (counted from 0): its number, its page
/// where it has one, and its snippet.
pub open spec fn match_line(i: int, m: SearchMatch) -> Seq<char> {
    match m.page {
        Some(p) => decimal((i + 1) as nat) + ". p."@ + decimal(p as nat) + "  "@ + m.snippet@,
        None => decimal((i + 1) as nat) + ". "@ + m.snippet@,
    }
}

/// The texts that the preview of a result shows, each to be wrapped and
/// highlighted: one per match, or the result's snippet where it has none.
pub open spec fn preview_texts_spec(r: SearchResult) -> Seq<Seq<char>> {
    if r.matches@.len() == 0 {
        seq![r.snippet@]
    } else {
        Seq::new(r.matches@.len(), |i: int| match_line(i, r.matches@[i]))
    }
}

/// The texts of the preview of a result.
pub fn preview_texts(result: &SearchResult) -> (out: Vec<String>)
    ensures
        term_views(out@) == preview_texts_spec(*result),
{
    let ms = &result.matches;
    let mut out: Vec<String> = Vec::new();
    if ms.len() == 0 {
        out.push(result.snippet.clone());
        assert(term_views(out@) =~= seq![result.snippet@]);
        return out;
    }
    let mut i: usize = 0;
    while i < ms.len()
        invariant
            i <= ms@.len(),
            ms@ == result.matches@,
            term_views(out@) == Seq::new(i as nat, |k: int| match_line(k, ms@[k])),
        decreases ms.len() - i,
    {
        let m = &ms[i];
        let mut line: Vec<char> = Vec::new();
        push_decimal(&mut line, (i + 1) as u64);
        match m.page {
            Some(p) => {
                push_lit(&mut line, ". p.");
                push_decimal(&mut line, p as u64);
                push_lit(&mut line, "  ");
            },
            None => {
                push_lit(&mut line, ". ");
            },
        }
        push_lit(&mut line, m.snippet.as_str());
        assert(line@ =~= match_line(i as int, ms@[i as int]));
        let ghost before = out@;
        let text = string_from_chars(line.as_slice());
        out.push(text);
        assert(out@ == before.push(text));
        assert(term_views(out@) =~= term_views(before).push(line@));
        i = i + 1;
        assert(term_views(out@) =~= Seq::new(i as nat, |k: int| match_line(k, ms@[k])));
    }
    assert(term_views(out@) =~= preview_texts_spec(*result));
    out
}

// ---------------------------------------------------------------------------
// The first match in a snippet
// ---------------------------------------------------------------------------
/// Where term `t` (lowercased) first occurs in `lower`, as a byte range;
/// nothing for an empty term.
pub open spec fn term_hit(lower: Seq<char>, t: Seq<char>) -> Option<(int, int)> {
    if t.len() == 0 {
        None
    } else {
        let needle = unicode_lowercase(t);
        match first_occurrence_from(lower, needle, 0) {
            Some(p) => Some((utf8_len(lower.take(p)) as int, (utf8_len(lower.take(p)) + utf8_len(needle)) as int)),
            None => None,
        }
    }
}

/// The earliest of the terms' first occurrences (the first term's where two
/// start at the same byte).
pub open spec fn earliest_hit(lower: Seq<char>, terms: Seq<Seq<char>>) -> Option<(int, int)>
    decreases terms.len(),
{
    if terms.len() == 0 {
        None
    } else {
        match (earliest_hit(lower, terms.drop_last()), term_hit(lower, terms.last())) {
            (Some(b), Some(c)) => if c.0 < b.0 { Some(c) } else { Some(b) },
            (None, c) => c,
            (b, None) => b,
        }
    }
}

/// The byte range, in the lowercased snippet, of the earliest match of any
/// of the terms.
pub open spec fn first_match_spec(snippet: Seq<char>, terms: Seq<Seq<char>>) -> Option<(int, int)> {
    earliest_hit(unicode_lowercase(snippet), terms)
}

pub fn first_match_range(snippet: &str, terms: &[String]) -> (r: Option<(usize, usize)>)
    ensures
        match r {
            Some(x) => first_match_spec(snippet@, term_views(terms@)) == Some((x.0 as int, x.1 as int)),
            None => first_match_spec(snippet@, term_views(terms@)) is None,
        },
{
    let lower_text = to_lowercase(snippet);
    let _lower_bytes = str_byte_len(lower_text.as_str());
    let lower = chars_of(lower_text.as_str());
    let offsets = byte_offsets(lower.as_slice());
    let ghost tv = term_views(terms@);
    let mut best: Option<(usize, usize)> = None;
    let mut k: usize = 0;
    assert(tv.take(0) == Seq::<Seq<char>>::empty());
    while k < terms.len()
        invariant
            k <= terms@.len(),
            tv == term_views(terms@),
            lower@ == unicode_lowercase(snippet@),
            utf8_len(lower@) <= usize::MAX,
            offsets@.len() == lower@.len() + 1,
            forall|i: int| 0 <= i <= lower@.len() ==> #[trigger] offsets@[i] == utf8_len(lower@.take(i)),
            match best {
                Some(x) => earliest_hit(lower@, tv.take(k as int)) == Some((x.0 as int, x.1 as int)),
                None => earliest_hit(lower@, tv.take(k as int)) is None,
            },
        decreases terms.len() - k,
    {
        assert(tv.take(k + 1).drop_last() == tv.take(k as int));
        assert(tv.take(k + 1).last() == terms@[k as int]@);
        let tc = chars_of(terms[k].as_str());
        let hit: Option<(usize, usize)> = if tc.len() == 0 {
            None
        } else {
            let needle_text = to_lowercase(terms[k].as_str());
            let needle = chars_of(needle_text.as_str());
            match find_first_from(lower.as_slice(), needle.as_slice(), 0) {
                Some(p) => {
                    proof {
                        lemma_match_bytes(lower@, needle@, p as int);
                    }
                    let start = offsets[p];
                    let end = offsets[p + needle.len()];
                    Some((start, end))
                },
                None => None,
            }
        };
        best = match (best, hit) {
            (Some(b), Some(c)) => if c.0 < b.0 { Some(c) } else { Some(b) },
            (None, c) => c,
            (b, None) => b,
        };
        k = k + 1;
    }
    assert(tv.take(terms@.len() as int) == tv);
    best
}

/// The snippet cut around its first match into the text before, the match
/// and the text after; the whole snippet where there is no match; `None`
/// where the match's bytes are not character boundaries of the snippet.
pub open spec fn highlight_spans_spec(snippet: Seq<char>, terms: Seq<Seq<char>>) -> Option<Seq<Seq<char>>> {
    match first_match_spec(snippet, terms) {
        None => Some(seq![snippet]),
        Some(r) => match (char_at_byte(snippet, r.0), char_at_byte(snippet, r.1)) {
            (Some(i), Some(j)) => if i <= j {
                Some(seq![snippet.take(i), snippet.subrange(i, j), snippet.skip(j)])
            } else {
                None
            },
            _ => None,
        },
    }
}

/// The spans of a snippet line with its first match set apart.
pub fn highlighted_snippet_line(snippet: &str, terms: &[String]) -> (r: Option<Vec<String>>)
    ensures
        match r {
            Some(v) => highlight_spans_spec(snippet@, term_views(terms@)) == Some(term_views(v@)),
            None => highlight_spans_spec(snippet@, term_views(terms@)) is None,
        },
{
    let cs = chars_of(snippet);
    let mut spans: Vec<String> = Vec::new();
    match first_match_range(snippet, terms) {
        None => {
            spans.push(string_from_chars(cs.as_slice()));
            assert(term_views(spans@) =~= seq![snippet@]);
            Some(spans)
        },
        Some((start, end)) => {
            let _bytes = str_byte_len(snippet);
            let offsets = byte_offsets(cs.as_slice());
            let a = char_at_byte_by(Ghost(cs@), &offsets, start);
            let b = char_at_byte_by(Ghost(cs@), &offsets, end);
            match (a, b) {
                (Some(i), Some(j)) => {
                    if i > j {
                        return None;
                    }
                    let before = sub_chars(cs.as_slice(), 0, i);
                    let mid = sub_chars(cs.as_slice(), i, j);
                    let after = sub_chars(cs.as_slice(), j, cs.len());
                    spans.push(string_from_chars(before.as_slice()));
                    spans.push(string_from_chars(mid.as_slice()));
                    spans.push(string_from_chars(after.as_slice()));
                    assert(term_views(spans@) =~= seq![snippet@.take(i as int), snippet@.subrange(i as int, j as int), snippet@.skip(j as int)]);
                    Some(spans)
                },
                _ => None,
            }
        },
    }
}

} // verus!
