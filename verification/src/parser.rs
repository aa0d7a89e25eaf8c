//! Tokenizing text into English, code and Chinese terms, titles of
//! documents, and the text that gets indexed for a file.
use std::sync::Arc;
use jieba_rs::Jieba;
use vstd::prelude::*;
use crate::model::{ParsedDocument, SupportedFileType, TokenOccurrence, TokenView, token_views};
use crate::subtokens::{ascii_subtokens, lemma_sorted_unique, strictly_sorted, subtoken_set, views};
use crate::text::{
    ascii_lower, chars_eq, chars_of, is_cjk, is_word_char, lemma_utf8_len_add,
    lemma_utf8_len_push, lemma_utf8_prefix_mono, byte_len, len_utf8, spec_ascii_lower, spec_is_cjk,
    spec_is_word_char, string_from_chars, utf8_len, char_width, spec_is_whitespace, is_control,
    spec_is_control, sub_chars, push_chars, push_str_chars, str_byte_len,
};
use crate::textfmt::{
    collapse_whitespace, file_name, file_name_chars, file_stem, file_stem_chars, join, split_chars,
    split_on, trim, trim_chars, words,
};

verus! {

// ---------------------------------------------------------------------------
// Word segmentation of Chinese text (jieba-rs)
// ---------------------------------------------------------------------------
#[verifier::external_type_specification]
#[verifier::external_body]
pub struct ExJieba(Jieba);

/// What `Jieba::cut(text, false)` returns, word by word, for the instance
/// that `Jieba::new()` builds from the embedded default dictionary.
pub uninterp spec fn jieba_cut_words(text: Seq<char>) -> Seq<Seq<char>>;

/// Calls `Jieba::new()`, which loads the embedded default dictionary.
#[verifier::external_body]
fn new_jieba() -> Jieba {
    Jieba::new()
}

/// Calls `Jieba::cut(text, false)` and returns the words as strings. The
/// words are named `jieba_cut_words(text)`; every `SimpleTokenizer` holds an
/// instance made by `Jieba::new()`, so the result depends on the text alone.
/// The words are consecutive slices of the text, in order (the text is split
/// into runs of one character class and each run is cut whole), so together
/// they are the text.
#[verifier::external_body]
fn jieba_cut(jieba: &Arc<Jieba>, text: &str) -> (words: Vec<String>)
    ensures
        words@.map_values(|w: String| w@) == jieba_cut_words(text@),
        words@.map_values(|w: String| w@).flatten() == text@,
{
    jieba.cut(text, false).into_iter().map(|token| token.word.to_string()).collect()
}

// ---------------------------------------------------------------------------
// The tokenizer as a scanner over characters
// ---------------------------------------------------------------------------
/// Words that are never indexed.
pub open spec fn is_stop_word(t: Seq<char>) -> bool {
    t == seq!['a'] || t == seq!['a', 'n'] || t == seq!['t', 'h', 'e'] || t == seq!['a', 'n', 'd']
        || t == seq!['o', 'r'] || t == seq!['o', 'f'] || t == seq!['t', 'o'] || t == seq!['i', 'n']
        || t == seq!['i', 's'] || t == seq!['a', 'r', 'e'] || t == seq!['b', 'e'] || t == seq![
        'w',
        'i',
        't',
        'h',
    ] || t == seq!['f', 'o', 'r'] || t == seq!['o', 'n'] || t == seq!['b', 'y'] || t == seq![
        'f',
        'r',
        'o',
        'm',
    ] || t == seq!['i', 'n', 't', 'o'] || t == seq!['a', 's'] || t == seq!['t', 'h', 'i', 's']
        || t == seq!['t', 'h', 'a', 't'] || t == seq!['i', 't'] || t == seq!['f', 'n'] || t
        == seq!['l', 'e', 't'] || t == seq!['m', 'u', 't'] || t == seq!['u', 's', 'e'] || t
        == seq!['p', 'u', 'b'] || t == seq!['i', 'm', 'p', 'l'] || t == seq!['s', 'e', 'l', 'f']
}

fn stop_word_short(t: &[char]) -> (r: bool)
    ensures
        r == (t@ == seq!['a'] || t@ == seq!['a', 'n'] || t@ == seq!['o', 'r'] || t@ == seq!['o', 'f']
            || t@ == seq!['t', 'o'] || t@ == seq!['i', 'n'] || t@ == seq!['i', 's'] || t@ == seq![
            'b',
            'e',
        ] || t@ == seq!['o', 'n'] || t@ == seq!['b', 'y'] || t@ == seq!['a', 's'] || t@ == seq![
            'i',
            't',
        ] || t@ == seq!['f', 'n']),
{
    let a: &[char] = &['a'];
    assert(a@ == seq!['a']);
    let an: &[char] = &['a', 'n'];
    assert(an@ == seq!['a', 'n']);
    let or: &[char] = &['o', 'r'];
    assert(or@ == seq!['o', 'r']);
    let of: &[char] = &['o', 'f'];
    assert(of@ == seq!['o', 'f']);
    let to: &[char] = &['t', 'o'];
    assert(to@ == seq!['t', 'o']);
    let in_: &[char] = &['i', 'n'];
    assert(in_@ == seq!['i', 'n']);
    let is: &[char] = &['i', 's'];
    assert(is@ == seq!['i', 's']);
    let be: &[char] = &['b', 'e'];
    assert(be@ == seq!['b', 'e']);
    let on: &[char] = &['o', 'n'];
    assert(on@ == seq!['o', 'n']);
    let by: &[char] = &['b', 'y'];
    assert(by@ == seq!['b', 'y']);
    let as_: &[char] = &['a', 's'];
    assert(as_@ == seq!['a', 's']);
    let it: &[char] = &['i', 't'];
    assert(it@ == seq!['i', 't']);
    let fn_: &[char] = &['f', 'n'];
    assert(fn_@ == seq!['f', 'n']);
    chars_eq(t, a) || chars_eq(t, an) || chars_eq(t, or) || chars_eq(t, of) || chars_eq(t, to)
        || chars_eq(t, in_) || chars_eq(t, is) || chars_eq(t, be) || chars_eq(t, on) || chars_eq(
        t,
        by,
    ) || chars_eq(t, as_) || chars_eq(t, it) || chars_eq(t, fn_)
}

fn stop_word_long(t: &[char]) -> (r: bool)
    ensures
        r == (t@ == seq!['t', 'h', 'e'] || t@ == seq!['a', 'n', 'd'] || t@ == seq!['a', 'r', 'e']
            || t@ == seq!['w', 'i', 't', 'h'] || t@ == seq!['f', 'o', 'r'] || t@ == seq![
            'f',
            'r',
            'o',
            'm',
        ] || t@ == seq!['i', 'n', 't', 'o'] || t@ == seq!['t', 'h', 'i', 's'] || t@ == seq![
            't',
            'h',
            'a',
            't',
        ] || t@ == seq!['l', 'e', 't'] || t@ == seq!['m', 'u', 't'] || t@ == seq!['u', 's', 'e']
            || t@ == seq!['p', 'u', 'b'] || t@ == seq!['i', 'm', 'p', 'l'] || t@ == seq![
            's',
            'e',
            'l',
            'f',
        ]),
{
    let the: &[char] = &['t', 'h', 'e'];
    assert(the@ == seq!['t', 'h', 'e']);
    let and: &[char] = &['a', 'n', 'd'];
    assert(and@ == seq!['a', 'n', 'd']);
    let are: &[char] = &['a', 'r', 'e'];
    assert(are@ == seq!['a', 'r', 'e']);
    let with: &[char] = &['w', 'i', 't', 'h'];
    assert(with@ == seq!['w', 'i', 't', 'h']);
    let for_: &[char] = &['f', 'o', 'r'];
    assert(for_@ == seq!['f', 'o', 'r']);
    let from: &[char] = &['f', 'r', 'o', 'm'];
    assert(from@ == seq!['f', 'r', 'o', 'm']);
    let into: &[char] = &['i', 'n', 't', 'o'];
    assert(into@ == seq!['i', 'n', 't', 'o']);
    let this: &[char] = &['t', 'h', 'i', 's'];
    assert(this@ == seq!['t', 'h', 'i', 's']);
    let that: &[char] = &['t', 'h', 'a', 't'];
    assert(that@ == seq!['t', 'h', 'a', 't']);
    let let_: &[char] = &['l', 'e', 't'];
    assert(let_@ == seq!['l', 'e', 't']);
    let mut_: &[char] = &['m', 'u', 't'];
    assert(mut_@ == seq!['m', 'u', 't']);
    let use_: &[char] = &['u', 's', 'e'];
    assert(use_@ == seq!['u', 's', 'e']);
    let pub_: &[char] = &['p', 'u', 'b'];
    assert(pub_@ == seq!['p', 'u', 'b']);
    let impl_: &[char] = &['i', 'm', 'p', 'l'];
    assert(impl_@ == seq!['i', 'm', 'p', 'l']);
    let self_: &[char] = &['s', 'e', 'l', 'f'];
    assert(self_@ == seq!['s', 'e', 'l', 'f']);
    chars_eq(t, the) || chars_eq(t, and) || chars_eq(t, are) || chars_eq(t, with) || chars_eq(
        t,
        for_,
    ) || chars_eq(t, from) || chars_eq(t, into) || chars_eq(t, this) || chars_eq(t, that)
        || chars_eq(t, let_) || chars_eq(t, mut_) || chars_eq(t, use_) || chars_eq(t, pub_)
        || chars_eq(t, impl_) || chars_eq(t, self_)
}

pub fn is_ascii_stop_word(t: &[char]) -> (r: bool)
    ensures
        r == is_stop_word(t@),
{
    stop_word_short(t) || stop_word_long(t)
}

/// The parts of an identifier in increasing order, each once.
pub open spec fn sorted_subtokens(t: Seq<char>) -> Seq<Seq<char>> {
    choose|s: Seq<Seq<char>>| strictly_sorted(s) && s.to_set() == subtoken_set(t)
}

/// A token found by the scanner: its text and its byte range.
pub ghost struct RawToken {
    pub text: Seq<char>,
    pub start: int,
    pub end: int,
}

/// The scanner's state: tokens so far, the pending ASCII word (lowercased)
/// and the pending run of CJK characters, each with its byte start.
pub ghost struct Scan {
    pub tokens: Seq<RawToken>,
    pub ascii: Seq<char>,
    pub ascii_start: int,
    pub run: Seq<char>,
    pub run_start: int,
}

/// The terms an ASCII word yields: the word, then its parts that are long
/// enough, differ from it and are no stop words.
pub open spec fn ascii_terms(word: Seq<char>, min_len: nat) -> Seq<Seq<char>> {
    if word.len() >= min_len && !is_stop_word(word) {
        seq![word] + sorted_subtokens(word).filter(part_kept(word, min_len))
    } else {
        Seq::empty()
    }
}

/// Parts of `word` that are indexed besides it.
pub open spec fn part_kept(word: Seq<char>, min_len: nat) -> spec_fn(Seq<char>) -> bool {
    |p: Seq<char>| p.len() >= min_len && p != word && !is_stop_word(p)
}

/// Jieba words of `run` that are indexed.
pub open spec fn run_word_kept(run: Seq<char>) -> spec_fn(Seq<char>) -> bool {
    |t: Seq<char>| t.len() > 0 && !(t.len() == 1 && run.len() > 1)
}

pub open spec fn trim_fn() -> spec_fn(Seq<char>) -> Seq<char> {
    |w: Seq<char>| trim(w)
}

/// The terms a run of CJK characters yields: its jieba words, trimmed, minus
/// empty ones and single characters cut from a longer run.
pub open spec fn run_terms(run: Seq<char>) -> Seq<Seq<char>> {
    jieba_cut_words(run).map_values(trim_fn()).filter(run_word_kept(run))
}

/// Terms that all cover the byte range `start..end`.
pub open spec fn ranged(terms: Seq<Seq<char>>, start: int, end: int) -> Seq<RawToken> {
    terms.map_values(|t: Seq<char>| RawToken { text: t, start, end })
}

pub open spec fn flush_ascii_state(st: Scan, min_len: nat) -> Scan {
    Scan {
        tokens: st.tokens + ranged(
            ascii_terms(st.ascii, min_len),
            st.ascii_start,
            st.ascii_start + st.ascii.len(),
        ),
        ascii: Seq::empty(),
        ..st
    }
}

pub open spec fn flush_run_state(st: Scan) -> Scan {
    if st.run.len() == 0 {
        st
    } else {
        Scan {
            tokens: st.tokens + ranged(
                run_terms(st.run),
                st.run_start,
                st.run_start + utf8_len(st.run),
            ),
            run: Seq::empty(),
            ..st
        }
    }
}

/// One character `c` at byte offset `at`.
pub open spec fn scan_step(st: Scan, c: char, at: int, min_len: nat) -> Scan {
    if spec_is_word_char(c) {
        let s1 = flush_run_state(st);
        Scan {
            ascii: s1.ascii.push(spec_ascii_lower(c)),
            ascii_start: if s1.ascii.len() == 0 {
                at
            } else {
                s1.ascii_start
            },
            ..s1
        }
    } else if spec_is_cjk(c) {
        let s1 = flush_ascii_state(st, min_len);
        Scan {
            run: s1.run.push(c),
            run_start: if s1.run.len() == 0 {
                at
            } else {
                s1.run_start
            },
            ..s1
        }
    } else {
        flush_run_state(flush_ascii_state(st, min_len))
    }
}

pub open spec fn scan_start() -> Scan {
    Scan {
        tokens: Seq::empty(),
        ascii: Seq::empty(),
        ascii_start: 0,
        run: Seq::empty(),
        run_start: 0,
    }
}

/// The scanner's state after the characters of `text`.
pub open spec fn scan(text: Seq<char>, min_len: nat) -> Scan
    decreases text.len(),
{
    if text.len() == 0 {
        scan_start()
    } else {
        let p = text.drop_last();
        scan_step(scan(p, min_len), text.last(), utf8_len(p) as int, min_len)
    }
}

/// The tokens of `text`, in order.
pub open spec fn raw_tokens(text: Seq<char>, min_len: nat) -> Seq<RawToken> {
    flush_run_state(flush_ascii_state(scan(text, min_len), min_len)).tokens
}

/// Token occurrences numbered from `base`, all on `page`.
pub open spec fn numbered(raw: Seq<RawToken>, page: Option<u32>, base: int) -> Seq<TokenView> {
    Seq::new(
        raw.len(),
        |k: int|
            TokenView {
                token: raw[k].text,
                position: base + k,
                char_start: raw[k].start,
                char_end: raw[k].end,
                page,
            },
    )
}

/// What the tokenizer with minimum ASCII length `min_ascii_len` returns for
/// `text` on `page`.
pub open spec fn tokenize_spec(text: Seq<char>, min_ascii_len: nat, page: Option<u32>) -> Seq<
    TokenView,
> {
    let m = if min_ascii_len >= 1 {
        min_ascii_len
    } else {
        1
    };
    numbered(raw_tokens(text, m), page, 0)
}

/// A source of tokens for indexing and searching.
pub trait Tokenizer: Sized {
    spec fn spec_tokenize(&self, text: Seq<char>) -> Seq<TokenView>;

    fn tokenize(&self, text: &str) -> (out: Vec<TokenOccurrence>)
        ensures
            token_views(out@) == self.spec_tokenize(text@),
    ;
}

/// Splits English words, identifiers, numbers and Chinese text into terms.
#[derive(Clone)]
pub struct SimpleTokenizer {
    min_ascii_len: usize,
    jieba: Arc<Jieba>,
}

impl SimpleTokenizer {
    pub closed spec fn min_len(&self) -> nat {
        self.min_ascii_len as nat
    }

    pub fn new(min_ascii_len: usize) -> (t: Self)
        ensures
            t.min_len() == min_ascii_len,
    {
        SimpleTokenizer { min_ascii_len, jieba: Arc::new(new_jieba()) }
    }

    /// The tokenizer with minimum ASCII length 2.
    pub fn default() -> (t: Self)
        ensures
            t.min_len() == 2,
    {
        Self::new(2)
    }

    /// Tokens of `text`, each marked with `page`.
    pub fn tokenize_with_page(&self, text: &str, page: Option<u32>) -> (out: Vec<
        TokenOccurrence,
    >)
        ensures
            token_views(out@) == tokenize_spec(text@, self.min_len(), page),
    {
        self.tokenize_internal(text, page)
    }

    fn tokenize_internal(&self, text: &str, page: Option<u32>) -> (out: Vec<TokenOccurrence>)
        ensures
            token_views(out@) == tokenize_spec(text@, self.min_len(), page),
    {
        let _text_bytes = str_byte_len(text);
        let min_len: usize = if self.min_ascii_len >= 1 {
            self.min_ascii_len
        } else {
            1
        };
        let ghost m = min_len as nat;
        let chars = chars_of(text);
        let ghost t = chars@;
        let mut occurrences: Vec<TokenOccurrence> = Vec::new();
        let mut ascii_buf: Vec<char> = Vec::new();
        let mut ascii_start: usize = 0;
        let mut run: Vec<char> = Vec::new();
        let mut run_start: usize = 0;
        let mut byte_index: usize = 0;
        let mut i: usize = 0;
        assert(t.take(0) == Seq::<char>::empty());
        assert(token_views(occurrences@) == numbered(Seq::<RawToken>::empty(), page, 0));
        while i < chars.len()
            invariant
                i <= chars@.len(),
                t == chars@,
                t == text@,
                utf8_len(t) <= usize::MAX,
                m >= 1,
                m == min_len,
                byte_index == utf8_len(t.take(i as int)),
                token_views(occurrences@) == numbered(scan(t.take(i as int), m).tokens, page, 0),
                ascii_buf@ == scan(t.take(i as int), m).ascii,
                ascii_start == scan(t.take(i as int), m).ascii_start,
                run@ == scan(t.take(i as int), m).run,
                run_start == scan(t.take(i as int), m).run_start,
                ascii_buf@.len() > 0 ==> ascii_start + ascii_buf@.len() == byte_index,
                run@.len() > 0 ==> run_start + utf8_len(run@) == byte_index,
                ascii_buf@.len() == 0 || run@.len() == 0,
            decreases chars.len() - i,
        {
            let ch = chars[i];
            let ghost p = t.take(i as int);
            let ghost q = t.take(i + 1);
            proof {
                assert(q.drop_last() == p);
                assert(q.last() == ch);
                lemma_utf8_len_push(p, ch);
                assert(p.push(ch) == q);
                lemma_utf8_prefix_mono(t, i + 1, t.len() as int);
                assert(t.take(t.len() as int) == t);
            }
            if is_word_char(ch) {
                self.flush_chinese(&mut run, run_start, page, &mut occurrences);
                if ascii_buf.len() == 0 {
                    ascii_start = byte_index;
                }
                ascii_buf.push(ascii_lower(ch));
            } else if is_cjk(ch) {
                flush_ascii(&mut ascii_buf, ascii_start, page, min_len, &mut occurrences);
                if run.len() == 0 {
                    run_start = byte_index;
                }
                let ghost run_before = run@;
                run.push(ch);
                proof {
                    lemma_utf8_len_push(run_before, ch);
                    assert(run@ == run_before.push(ch));
                    if run_before.len() == 0 {
                        assert(utf8_len(run_before) == 0);
                    }
                }
            } else {
                flush_ascii(&mut ascii_buf, ascii_start, page, min_len, &mut occurrences);
                self.flush_chinese(&mut run, run_start, page, &mut occurrences);
            }
            byte_index = byte_index + len_utf8(ch);
            i = i + 1;
            assert(t.take(i as int) == q);
        }
        assert(t.take(t.len() as int) == t);
        flush_ascii(&mut ascii_buf, ascii_start, page, min_len, &mut occurrences);
        self.flush_chinese(&mut run, run_start, page, &mut occurrences);
        occurrences
    }

    /// Emits the terms of the pending CJK run and clears it.
    fn flush_chinese(
        &self,
        run: &mut Vec<char>,
        run_start: usize,
        page: Option<u32>,
        occurrences: &mut Vec<TokenOccurrence>,
    )
        requires
            old(run)@.len() > 0 ==> run_start + utf8_len(old(run)@) <= usize::MAX,
        ensures
            final(run)@.len() == 0,
            ({
                let st = Scan {
                    tokens: Seq::empty(),
                    ascii: Seq::empty(),
                    ascii_start: 0,
                    run: old(run)@,
                    run_start: run_start as int,
                };
                token_views(final(occurrences)@) == token_views(old(occurrences)@) + numbered(
                    flush_run_state(st).tokens,
                    page,
                    old(occurrences)@.len() as int,
                )
            }),
            old(run)@.len() == 0 ==> final(occurrences)@ == old(occurrences)@,
    {
        let ghost start_occ = occurrences@;
        let ghost r = run@;
        if run.len() == 0 {
            proof {
                assert(numbered(Seq::<RawToken>::empty(), page, start_occ.len() as int) =~= Seq::<
                    TokenView,
                >::empty());
                assert(token_views(start_occ) + Seq::<TokenView>::empty() == token_views(start_occ));
            }
            return;
        }
        let end = run_start + byte_len(run.as_slice());
        let run_text = string_from_chars(run.as_slice());
        let words = jieba_cut(&self.jieba, run_text.as_str());
        let ghost all = jieba_cut_words(r).map_values(trim_fn());
        let ghost keep = run_word_kept(r);
        let run_len = run.len();
        let mut k: usize = 0;
        assert(all.take(0).filter(keep) == Seq::<Seq<char>>::empty());
        while k < words.len()
            invariant
                k <= words@.len(),
                words@.map_values(|w: String| w@) == jieba_cut_words(r),
                all == jieba_cut_words(r).map_values(trim_fn()),
                keep == run_word_kept(r),
                run_len == r.len(),
                end == run_start + utf8_len(r),
                token_views(occurrences@) == token_views(start_occ) + numbered(
                    ranged(all.take(k as int).filter(keep), run_start as int, end as int),
                    page,
                    start_occ.len() as int,
                ),
                occurrences@.len() == start_occ.len() + all.take(k as int).filter(keep).len(),
            decreases words@.len() - k,
        {
            let w = chars_of(words[k].as_str());
            let token = trim_chars(w.as_slice());
            proof {
                assert(words@.map_values(|w: String| w@)[k as int] == words@[k as int]@);
                assert(all[k as int] == trim(jieba_cut_words(r)[k as int]));
                assert(token@ == all[k as int]);
                assert(all.take(k + 1) == all.take(k as int).push(all[k as int]));
                all.take(k as int).lemma_filter_push(all[k as int], keep);
            }
            if token.len() > 0 && !(token.len() == 1 && run_len > 1) {
                let ghost before = occurrences@;
                let ghost kept = all.take(k as int).filter(keep);
                let position = occurrences.len();
                occurrences.push(
                    TokenOccurrence {
                        token: string_from_chars(token.as_slice()),
                        position,
                        char_start: run_start,
                        char_end: end,
                        page,
                    },
                );
                proof {
                    assert(token_views(occurrences@) == token_views(before).push(
                        occurrences@.last()@,
                    ));
                    assert(ranged(kept.push(token@), run_start as int, end as int) =~= ranged(
                        kept,
                        run_start as int,
                        end as int,
                    ).push(RawToken { text: token@, start: run_start as int, end: end as int }));
                    assert(numbered(
                        ranged(kept.push(token@), run_start as int, end as int),
                        page,
                        start_occ.len() as int,
                    ) =~= numbered(ranged(kept, run_start as int, end as int), page, start_occ.len() as int).push(
                        TokenView {
                            token: token@,
                            position: (start_occ.len() + kept.len()) as int,
                            char_start: run_start as int,
                            char_end: end as int,
                            page,
                        },
                    ));
                    assert(token_views(occurrences@) =~= token_views(start_occ) + numbered(
                        ranged(kept.push(token@), run_start as int, end as int),
                        page,
                        start_occ.len() as int,
                    ));
                }
            }
            k = k + 1;
        }
        proof {
            assert(words@.len() == jieba_cut_words(r).len());
            assert(all.take(words@.len() as int) == all);
        }
        run.clear();
    }
}

/// Emits the terms of the pending ASCII word and clears it.
fn flush_ascii(
    ascii_buf: &mut Vec<char>,
    byte_start: usize,
    page: Option<u32>,
    min_len: usize,
    occurrences: &mut Vec<TokenOccurrence>,
)
    requires
        byte_start + old(ascii_buf)@.len() <= usize::MAX,
    ensures
        final(ascii_buf)@.len() == 0,
        token_views(final(occurrences)@) == token_views(old(occurrences)@) + numbered(
            ranged(
                ascii_terms(old(ascii_buf)@, min_len as nat),
                byte_start as int,
                byte_start + old(ascii_buf)@.len(),
            ),
            page,
            old(occurrences)@.len() as int,
        ),
{
    let ghost start_occ = occurrences@;
    let ghost word = ascii_buf@;
    let end = byte_start + ascii_buf.len();
    if ascii_buf.len() >= min_len && !is_ascii_stop_word(ascii_buf.as_slice()) {
        let parts = ascii_subtokens(ascii_buf.as_slice());
        proof {
            assert(strictly_sorted(views(parts@)) && views(parts@).to_set() == subtoken_set(word));
            let chosen = sorted_subtokens(word);
            assert(strictly_sorted(chosen) && chosen.to_set() == subtoken_set(word));
            lemma_sorted_unique(chosen, views(parts@));
        }
        let ghost pv = views(parts@);
        let ghost keep = part_kept(word, min_len as nat);
        let position = occurrences.len();
        occurrences.push(
            TokenOccurrence {
                token: string_from_chars(ascii_buf.as_slice()),
                position,
                char_start: byte_start,
                char_end: end,
                page,
            },
        );
        let mut k: usize = 0;
        assert(pv.take(0).filter(keep) == Seq::<Seq<char>>::empty());
        proof {
            assert(token_views(occurrences@) =~= token_views(start_occ) + numbered(
                ranged(seq![word] + pv.take(0).filter(keep), byte_start as int, end as int),
                page,
                start_occ.len() as int,
            ));
        }
        while k < parts.len()
            invariant
                k <= parts@.len(),
                pv == views(parts@),
                word == ascii_buf@,
                min_len >= 0,
                keep == part_kept(word, min_len as nat),
                end == byte_start + word.len(),
                token_views(occurrences@) == token_views(start_occ) + numbered(
                    ranged(seq![word] + pv.take(k as int).filter(keep), byte_start as int, end as int),
                    page,
                    start_occ.len() as int,
                ),
                occurrences@.len() == start_occ.len() + 1 + pv.take(k as int).filter(keep).len(),
            decreases parts@.len() - k,
        {
            let part = &parts[k];
            proof {
                assert(pv[k as int] == part@);
                assert(pv.take(k + 1) == pv.take(k as int).push(pv[k as int]));
                pv.take(k as int).lemma_filter_push(pv[k as int], keep);
            }
            if part.len() >= min_len && !chars_eq(part.as_slice(), ascii_buf.as_slice())
                && !is_ascii_stop_word(part.as_slice()) {
                let ghost before = occurrences@;
                let ghost kept = seq![word] + pv.take(k as int).filter(keep);
                let position = occurrences.len();
                occurrences.push(
                    TokenOccurrence {
                        token: string_from_chars(part.as_slice()),
                        position,
                        char_start: byte_start,
                        char_end: end,
                        page,
                    },
                );
                proof {
                    assert(seq![word] + pv.take(k as int).filter(keep).push(part@) == kept.push(
                        part@,
                    ));
                    assert(token_views(occurrences@) == token_views(before).push(
                        occurrences@.last()@,
                    ));
                    assert(numbered(
                        ranged(kept.push(part@), byte_start as int, end as int),
                        page,
                        start_occ.len() as int,
                    ) =~= numbered(ranged(kept, byte_start as int, end as int), page, start_occ.len() as int).push(
                        TokenView {
                            token: part@,
                            position: (start_occ.len() + kept.len()) as int,
                            char_start: byte_start as int,
                            char_end: end as int,
                            page,
                        },
                    ));
                    assert(token_views(occurrences@) =~= token_views(start_occ) + numbered(
                        ranged(kept.push(part@), byte_start as int, end as int),
                        page,
                        start_occ.len() as int,
                    ));
                }
            }
            k = k + 1;
        }
        proof {
            assert(pv.take(pv.len() as int) == pv);
        }
    } else {
        proof {
            assert(ascii_terms(word, min_len as nat) == Seq::<Seq<char>>::empty());
            assert(numbered(
                ranged(Seq::<Seq<char>>::empty(), byte_start as int, end as int),
                page,
                start_occ.len() as int,
            ) =~= Seq::<TokenView>::empty());
            assert(token_views(start_occ) + Seq::<TokenView>::empty() == token_views(start_occ));
        }
    }
    ascii_buf.clear();
}


impl Tokenizer for SimpleTokenizer {
    open spec fn spec_tokenize(&self, text: Seq<char>) -> Seq<TokenView> {
        tokenize_spec(text, self.min_len(), None)
    }

    fn tokenize(&self, text: &str) -> (out: Vec<TokenOccurrence>) {
        self.tokenize_internal(text, None)
    }
}

/// Whether every character of `text` is a CJK ideograph.
pub fn is_cjk_run(text: &str) -> (r: bool)
    ensures
        r == forall|i: int| 0 <= i < text@.len() ==> spec_is_cjk(#[trigger] text@[i]),
{
    let cs = chars_of(text);
    let mut i: usize = 0;
    while i < cs.len()
        invariant
            i <= cs@.len(),
            cs@ == text@,
            forall|j: int| 0 <= j < i ==> spec_is_cjk(#[trigger] cs@[j]),
        decreases cs.len() - i,
    {
        if !is_cjk(cs[i]) {
            return false;
        }
        i = i + 1;
    }
    true
}

// ---------------------------------------------------------------------------
// Titles and the text that is indexed for a file
// ---------------------------------------------------------------------------
/// The title a line gives when, trimmed, it starts with `# ` followed by
/// some non-blank text.
pub open spec fn heading_title(line: Seq<char>) -> Option<Seq<char>> {
    let t = trim(line);
    if t.len() >= 2 && t[0] == '#' && t[1] == ' ' && trim(t.skip(2)).len() > 0 {
        Some(trim(t.skip(2)))
    } else {
        None
    }
}

/// The title of the first line that is a heading.
pub open spec fn first_heading(lines: Seq<Seq<char>>) -> Option<Seq<char>>
    decreases lines.len(),
{
    if lines.len() == 0 {
        None
    } else {
        match heading_title(lines[0]) {
            Some(t) => Some(t),
            None => first_heading(lines.drop_first()),
        }
    }
}

/// The title of a document: the first `# ` heading of a Markdown file,
/// otherwise the file stem, otherwise the path.
pub open spec fn title_spec(content: Seq<char>, path: Seq<char>, file_type: SupportedFileType) -> Seq<char> {
    if file_type == SupportedFileType::Markdown && first_heading(split_on(content, '\n')) is Some {
        first_heading(split_on(content, '\n'))->0
    } else {
        match file_stem(path) {
            Some(stem) => if stem.len() > 0 {
                stem
            } else {
                path
            },
            None => path,
        }
    }
}

proof fn lemma_split_no_sep(a: Seq<char>, sep: char)
    requires
        forall|i: int| 0 <= i < a.len() ==> a[i] != sep,
    ensures
        split_on(a, sep) == seq![a],
    decreases a.len(),
{
    if a.len() > 0 {
        lemma_split_no_sep(a.drop_last(), sep);
        assert(a.drop_last().push(a.last()) == a);
        assert(seq![a.drop_last()].update(0, a) == seq![a]);
    } else {
        assert(a == Seq::<char>::empty());
    }
}

proof fn lemma_split_first_line(a: Seq<char>, b: Seq<char>, sep: char)
    requires
        forall|i: int| 0 <= i < a.len() ==> a[i] != sep,
    ensures
        split_on(a + seq![sep] + b, sep).len() >= 2,
        split_on(a + seq![sep] + b, sep)[0] == a,
    decreases b.len(),
{
    let s = a + seq![sep] + b;
    if b.len() == 0 {
        assert(s.drop_last() == a);
        assert(s.last() == sep);
        lemma_split_no_sep(a, sep);
    } else {
        lemma_split_first_line(a, b.drop_last(), sep);
        assert(s.drop_last() == a + seq![sep] + b.drop_last());
        assert(s.last() == b.last());
    }
}

/// A Markdown file whose first line is `# ` followed by a title gets that
/// title, whatever follows it.
pub proof fn lemma_markdown_first_heading_title(t: Seq<char>, rest: Seq<char>, path: Seq<char>)
    requires
        t.len() > 0,
        !spec_is_whitespace(t[0]),
        !spec_is_whitespace(t.last()),
        forall|i: int| 0 <= i < t.len() ==> t[i] != '\n',
    ensures
        title_spec(seq!['#', ' '] + t + seq!['\n'] + rest, path, SupportedFileType::Markdown) == t,
{
    let line = seq!['#', ' '] + t;
    let content = line + seq!['\n'] + rest;
    assert forall|i: int| 0 <= i < line.len() implies line[i] != '\n' by {
        if i >= 2 {
            assert(line[i] == t[i - 2]);
        }
    }
    lemma_split_first_line(line, rest, '\n');
    let lines = split_on(content, '\n');
    assert(!spec_is_whitespace('#'));
    assert(line[0] == '#');
    assert(crate::textfmt::trim_start(line) == line);
    assert(line.last() == t.last());
    assert(crate::textfmt::trim_end(line) == line);
    assert(trim(line) == line);
    assert(line.skip(2) == t);
    assert(crate::textfmt::trim_start(t) == t);
    assert(crate::textfmt::trim_end(t) == t);
    assert(trim(t) == t);
    assert(heading_title(line) == Some(t));
    assert(lines[0] == line);
    assert(first_heading(lines) == Some(t));
}

/// A file that is not Markdown is titled after its path alone, whatever it
/// holds.
pub proof fn lemma_title_of_other_types(c1: Seq<char>, c2: Seq<char>, path: Seq<char>, file_type: SupportedFileType)
    requires
        file_type != SupportedFileType::Markdown,
    ensures
        title_spec(c1, path, file_type) == title_spec(c2, path, file_type),
        file_stem(path) matches Some(stem) ==> (stem.len() > 0 ==> title_spec(c1, path, file_type) == stem),
{
}

fn heading_title_exec(line: &[char]) -> (r: Option<Vec<char>>)
    ensures
        match r {
            Some(v) => heading_title(line@) == Some(v@),
            None => heading_title(line@) is None,
        },
{
    let t = trim_chars(line);
    if t.len() >= 2 && t[0] == '#' && t[1] == ' ' {
        let rest = sub_chars(t.as_slice(), 2, t.len());
        assert(rest@ == t@.skip(2));
        let title = trim_chars(rest.as_slice());
        if title.len() > 0 {
            return Some(title);
        }
    }
    None
}

pub fn extract_title(content: &str, path: &str, file_type: SupportedFileType) -> (title: String)
    ensures
        title@ == title_spec(content@, path@, file_type),
{
    if file_type == SupportedFileType::Markdown {
        let cs = chars_of(content);
        let lines = split_chars(cs.as_slice(), '\n');
        let ghost ls = split_on(content@, '\n');
        let mut k: usize = 0;
        assert(ls.skip(0) == ls);
        while k < lines.len()
            invariant
                k <= lines@.len() == ls.len(),
                ls == split_on(content@, '\n'),
                file_type == SupportedFileType::Markdown,
                forall|m: int| 0 <= m < lines@.len() ==> #[trigger] lines@[m]@ == ls[m],
                first_heading(ls) == first_heading(ls.skip(k as int)),
            decreases lines.len() - k,
        {
            assert(ls.skip(k as int)[0] == ls[k as int]);
            assert(ls.skip(k as int).drop_first() == ls.skip(k + 1));
            match heading_title_exec(lines[k].as_slice()) {
                Some(t) => {
                    proof {
                        assert(heading_title(ls[k as int]) == Some(t@));
                        assert(first_heading(ls.skip(k as int)) == Some(t@));
                    }
                    return string_from_chars(t.as_slice());
                },
                None => {},
            }
            k = k + 1;
        }
        assert(ls.skip(ls.len() as int) == Seq::<Seq<char>>::empty());
    }
    let p = chars_of(path);
    match file_stem_chars(p.as_slice()) {
        Some(stem) => {
            if stem.len() > 0 {
                return string_from_chars(stem.as_slice());
            }
        },
        None => {},
    }
    string_from_chars(p.as_slice())
}

/// `title`, the file name and the file stem of `path`, one per line.
pub open spec fn metadata_text_spec(path: Seq<char>, title: Seq<char>) -> Seq<char> {
    let name = match file_name(path) {
        Some(n) => n,
        None => Seq::empty(),
    };
    let stem = match file_stem(path) {
        Some(s) => s,
        None => Seq::empty(),
    };
    title + seq!['\n'] + name + seq!['\n'] + stem
}

/// The metadata lines followed by the content.
pub open spec fn searchable_text_spec(path: Seq<char>, title: Seq<char>, content: Seq<char>) -> Seq<char> {
    metadata_text_spec(path, title) + seq!['\n'] + content
}

pub fn searchable_metadata_text(path: &str, title: &str) -> (out: String)
    ensures
        out@ == metadata_text_spec(path@, title@),
{
    let p = chars_of(path);
    let mut out = String::new();
    push_str_chars(&mut out, title);
    out.push('\n');
    match file_name_chars(p.as_slice()) {
        Some(n) => push_chars(&mut out, n.as_slice()),
        None => {},
    }
    out.push('\n');
    match file_stem_chars(p.as_slice()) {
        Some(st) => push_chars(&mut out, st.as_slice()),
        None => {},
    }
    proof {
        let name = match file_name(path@) {
            Some(n) => n,
            None => Seq::<char>::empty(),
        };
        let stem = match file_stem(path@) {
            Some(s) => s,
            None => Seq::<char>::empty(),
        };
        assert(out@ =~= title@ + seq!['\n'] + name + seq!['\n'] + stem);
    }
    out
}

pub fn searchable_text(path: &str, title: &str, content: &str) -> (out: String)
    ensures
        out@ == searchable_text_spec(path@, title@, content@),
{
    let mut out = searchable_metadata_text(path, title);
    out.push('\n');
    push_str_chars(&mut out, content);
    out
}

/// Control characters other than newline and tab become spaces.
pub open spec fn blank_controls(c: char) -> char {
    if spec_is_control(c) && c != '\n' && c != '\t' {
        ' '
    } else {
        c
    }
}

/// Text extracted from a PDF, with control characters blanked and every run
/// of whitespace turned into one space, trimmed at both ends.
pub open spec fn pdf_clean_spec(text: Seq<char>) -> Seq<char> {
    join(words(text.map_values(|c: char| blank_controls(c))), ' ')
}

pub fn clean_extracted_pdf_text(text: &str) -> (out: String)
    ensures
        out@ == pdf_clean_spec(text@),
{
    let cs = chars_of(text);
    let mut mapped: Vec<char> = Vec::new();
    let mut i: usize = 0;
    while i < cs.len()
        invariant
            i <= cs@.len(),
            cs@ == text@,
            mapped@ == cs@.take(i as int).map_values(|c: char| blank_controls(c)),
        decreases cs.len() - i,
    {
        let c = cs[i];
        let m = if is_control(c) && c != '\n' && c != '\t' {
            ' '
        } else {
            c
        };
        mapped.push(m);
        i = i + 1;
        assert(cs@.take(i as int) == cs@.take(i - 1).push(c));
        assert(mapped@ =~= cs@.take(i as int).map_values(|c: char| blank_controls(c)));
    }
    assert(cs@.take(cs@.len() as int) == cs@);
    let collapsed = collapse_whitespace(mapped.as_slice());
    string_from_chars(collapsed.as_slice())
}

// ---------------------------------------------------------------------------
// PDF pages and parsed documents
// ---------------------------------------------------------------------------
/// `ts` with `offset` added (wrapping) to each position.
pub open spec fn shift_positions(ts: Seq<TokenView>, offset: usize) -> Seq<TokenView> {
    ts.map_values(
        |t: TokenView| TokenView { position: ((t.position as usize).wrapping_add(offset)) as int, ..t },
    )
}

/// `ts` with every page set to `page`.
pub open spec fn on_page(ts: Seq<TokenView>, page: u32) -> Seq<TokenView> {
    ts.map_values(|t: TokenView| TokenView { page: Some(page), ..t })
}

/// Tokens of the pages of a PDF (number and raw text of each page, in
/// order): each page's cleaned text is tokenized, its positions continue
/// from the tokens before it and its tokens carry the page number.
pub open spec fn pdf_tokens_spec<T: Tokenizer>(tokenizer: &T, pages: Seq<(u32, Seq<char>)>) -> Seq<TokenView>
    decreases pages.len(),
{
    if pages.len() == 0 {
        Seq::empty()
    } else {
        let prev = pdf_tokens_spec(tokenizer, pages.drop_last());
        let (num, text) = pages.last();
        prev + on_page(
            shift_positions(tokenizer.spec_tokenize(pdf_clean_spec(text)), prev.len() as usize),
            num,
        )
    }
}

pub open spec fn page_views(pages: Seq<(u32, String)>) -> Seq<(u32, Seq<char>)> {
    pages.map_values(|p: (u32, String)| (p.0, p.1@))
}

/// Tokens of the pages of a PDF.
pub fn pdf_page_tokens<T: Tokenizer>(tokenizer: &T, pages: &Vec<(u32, String)>) -> (out: Vec<TokenOccurrence>)
    ensures
        token_views(out@) == pdf_tokens_spec(tokenizer, page_views(pages@)),
{
    let ghost pv = page_views(pages@);
    let mut tokens: Vec<TokenOccurrence> = Vec::new();
    let mut k: usize = 0;
    assert(pv.take(0) == Seq::<(u32, Seq<char>)>::empty());
    while k < pages.len()
        invariant
            k <= pages@.len(),
            pv == page_views(pages@),
            token_views(tokens@) == pdf_tokens_spec(tokenizer, pv.take(k as int)),
        decreases pages.len() - k,
    {
        let num = pages[k].0;
        let text = clean_extracted_pdf_text(pages[k].1.as_str());
        proof {
            assert(pv[k as int] == (num, pages@[k as int].1@));
            assert(pv.take(k + 1).drop_last() == pv.take(k as int));
            assert(pv.take(k + 1).last() == pv[k as int]);
        }
        let page_tokens = tokenizer.tokenize(text.as_str());
        let offset = tokens.len();
        let ghost before = token_views(tokens@);
        let ghost added = on_page(shift_positions(token_views(page_tokens@), offset), num);
        let mut j: usize = 0;
        while j < page_tokens.len()
            invariant
                j <= page_tokens@.len(),
                offset == before.len(),
                added == on_page(shift_positions(token_views(page_tokens@), offset), num),
                token_views(tokens@) == before + added.take(j as int),
            decreases page_tokens.len() - j,
        {
            let t = &page_tokens[j];
            let ghost tb = token_views(tokens@);
            tokens.push(
                TokenOccurrence {
                    token: t.token.clone(),
                    position: t.position.wrapping_add(offset),
                    char_start: t.char_start,
                    char_end: t.char_end,
                    page: Some(num),
                },
            );
            proof {
                assert(token_views(tokens@) == tb.push(tokens@.last()@));
                assert(added[j as int] == tokens@.last()@);
                assert(added.take(j + 1) == added.take(j as int).push(added[j as int]));
            }
            j = j + 1;
        }
        assert(added.take(page_tokens@.len() as int) == added);
        k = k + 1;
    }
    assert(pv.take(pages@.len() as int) == pv);
    tokens
}

/// Metadata tokens of a PDF followed by its page tokens, whose positions
/// continue after the metadata tokens.
pub open spec fn pdf_tokens_with_metadata_spec<T: Tokenizer>(
    tokenizer: &T,
    path: Seq<char>,
    title: Seq<char>,
    pages: Seq<(u32, Seq<char>)>,
) -> Seq<TokenView> {
    let meta = tokenizer.spec_tokenize(metadata_text_spec(path, title));
    meta + shift_positions(pdf_tokens_spec(tokenizer, pages), meta.len() as usize)
}

pub fn pdf_tokens_with_metadata<T: Tokenizer>(
    tokenizer: &T,
    path: &str,
    title: &str,
    pages: &Vec<(u32, String)>,
) -> (out: Vec<TokenOccurrence>)
    ensures
        token_views(out@) == pdf_tokens_with_metadata_spec(tokenizer, path@, title@, page_views(pages@)),
{
    let meta_text = searchable_metadata_text(path, title);
    let mut tokens = tokenizer.tokenize(meta_text.as_str());
    let page_tokens = pdf_page_tokens(tokenizer, pages);
    let offset = tokens.len();
    let ghost before = token_views(tokens@);
    let ghost added = shift_positions(token_views(page_tokens@), offset);
    let mut j: usize = 0;
    while j < page_tokens.len()
        invariant
            j <= page_tokens@.len(),
            offset == before.len(),
            added == shift_positions(token_views(page_tokens@), offset),
            token_views(tokens@) == before + added.take(j as int),
        decreases page_tokens.len() - j,
    {
        let t = &page_tokens[j];
        let ghost tb = token_views(tokens@);
        tokens.push(
            TokenOccurrence {
                token: t.token.clone(),
                position: t.position.wrapping_add(offset),
                char_start: t.char_start,
                char_end: t.char_end,
                page: t.page,
            },
        );
        proof {
            assert(token_views(tokens@) == tb.push(tokens@.last()@));
            assert(added[j as int] == tokens@.last()@);
            assert(added.take(j + 1) == added.take(j as int).push(added[j as int]));
        }
        j = j + 1;
    }
    assert(added.take(page_tokens@.len() as int) == added);
    tokens
}

/// The parsed form of a file whose content has been read: the raw text for
/// text files, or the text that PDF extraction gave and, where the pages
/// could be read, each page's number and raw text.
pub open spec fn parse_document_spec<T: Tokenizer>(
    tokenizer: &T,
    path: Seq<char>,
    file_type: SupportedFileType,
    raw_content: Seq<char>,
    pdf_pages: Option<Seq<(u32, Seq<char>)>>,
) -> (Seq<char>, Seq<char>, Seq<TokenView>) {
    let content = if file_type == SupportedFileType::Pdf {
        pdf_clean_spec(raw_content)
    } else {
        raw_content
    };
    let title = title_spec(content, path, file_type);
    let tokens = if file_type == SupportedFileType::Pdf && pdf_pages is Some {
        pdf_tokens_with_metadata_spec(tokenizer, path, title, pdf_pages->0)
    } else {
        tokenizer.spec_tokenize(searchable_text_spec(path, title, content))
    };
    (content, title, tokens)
}

/// `doc` is the parsed form of the file at `path` of type `file_type`, read
/// as `raw_content` (and, for a PDF whose pages could be read, `pages`).
pub open spec fn parsed_from<T: Tokenizer>(
    tokenizer: &T,
    doc: ParsedDocument,
    path: Seq<char>,
    file_type: SupportedFileType,
    modified_secs: u64,
    size_bytes: u64,
    raw_content: Seq<char>,
    pages: Option<Seq<(u32, Seq<char>)>>,
) -> bool {
    let (content, title, tokens) = parse_document_spec(tokenizer, path, file_type, raw_content, pages);
    &&& doc.path@ == path
    &&& doc.title@ == title
    &&& doc.file_type == file_type
    &&& doc.modified_secs == modified_secs
    &&& doc.size_bytes == size_bytes
    &&& doc.content@ == content
    &&& token_views(doc.tokens@) == tokens
}

/// Builds the parsed document of a file from what was read from it.
pub fn parse_document<T: Tokenizer>(
    tokenizer: &T,
    path: &str,
    file_type: SupportedFileType,
    modified_secs: u64,
    size_bytes: u64,
    raw_content: &str,
    pdf_pages: Option<&Vec<(u32, String)>>,
) -> (doc: ParsedDocument)
    ensures
        parsed_from(
            tokenizer,
            doc,
            path@,
            file_type,
            modified_secs,
            size_bytes,
            raw_content@,
            match pdf_pages {
                Some(p) => Some(page_views(p@)),
                None => None,
            },
        ),
{
    let content = if file_type == SupportedFileType::Pdf {
        clean_extracted_pdf_text(raw_content)
    } else {
        let c = chars_of(raw_content);
        string_from_chars(c.as_slice())
    };
    let title = extract_title(content.as_str(), path, file_type);
    let tokens = match (file_type, pdf_pages) {
        (SupportedFileType::Pdf, Some(pages)) => pdf_tokens_with_metadata(
            tokenizer,
            path,
            title.as_str(),
            pages,
        ),
        _ => {
            let text = searchable_text(path, title.as_str(), content.as_str());
            tokenizer.tokenize(text.as_str())
        },
    };
    let p = chars_of(path);
    ParsedDocument {
        path: string_from_chars(p.as_slice()),
        title,
        file_type,
        modified_secs,
        size_bytes,
        content,
        tokens,
    }
}

/// A PDF read page by page is found by its title and file name: its tokens
/// start with all the tokens of its metadata text (title, file name and
/// stem, one per line) and go on with the tokens of its pages, in order,
/// with the same terms and pages.
pub proof fn lemma_pdf_tokens_metadata_first<T: Tokenizer>(
    tokenizer: &T,
    path: Seq<char>,
    title: Seq<char>,
    pages: Seq<(u32, Seq<char>)>,
)
    ensures
        pdf_tokens_with_metadata_spec(tokenizer, path, title, pages).len() == tokenizer.spec_tokenize(
            metadata_text_spec(path, title),
        ).len() + pdf_tokens_spec(tokenizer, pages).len(),
        pdf_tokens_with_metadata_spec(tokenizer, path, title, pages).take(
            tokenizer.spec_tokenize(metadata_text_spec(path, title)).len() as int,
        ) == tokenizer.spec_tokenize(metadata_text_spec(path, title)),
        forall|i: int|
            0 <= i < tokenizer.spec_tokenize(metadata_text_spec(path, title)).len()
                ==> pdf_tokens_with_metadata_spec(tokenizer, path, title, pages).contains(
                #[trigger] tokenizer.spec_tokenize(metadata_text_spec(path, title))[i],
            ),
        forall|i: int|
            0 <= i < pdf_tokens_spec(tokenizer, pages).len() ==> {
                let t = pdf_tokens_with_metadata_spec(tokenizer, path, title, pages)[tokenizer.spec_tokenize(
                    metadata_text_spec(path, title),
                ).len() + i];
                let u = #[trigger] pdf_tokens_spec(tokenizer, pages)[i];
                t.token == u.token && t.page == u.page && t.char_start == u.char_start && t.char_end == u.char_end
            },
        metadata_text_spec(path, title).take(title.len() as int) == title,
        file_name(path) matches Some(n) ==> metadata_text_spec(path, title).subrange(
            title.len() as int + 1,
            title.len() as int + 1 + n.len(),
        ) == n,
{
    let meta = tokenizer.spec_tokenize(metadata_text_spec(path, title));
    let body = pdf_tokens_spec(tokenizer, pages);
    let all = pdf_tokens_with_metadata_spec(tokenizer, path, title, pages);
    assert(all == meta + shift_positions(body, meta.len() as usize));
    assert(all.take(meta.len() as int) == meta);
    assert forall|i: int| 0 <= i < meta.len() implies all.contains(#[trigger] meta[i]) by {
        assert(all[i] == meta[i]);
    }
    let name = match file_name(path) {
        Some(n) => n,
        None => Seq::<char>::empty(),
    };
    let stem = match file_stem(path) {
        Some(s) => s,
        None => Seq::<char>::empty(),
    };
    let text = metadata_text_spec(path, title);
    assert(text == title + seq!['\n'] + name + seq!['\n'] + stem);
    assert(text.take(title.len() as int) == title);
    assert(text.subrange(title.len() as int + 1, title.len() as int + 1 + name.len()) == name);
}

/// The tokens of a PDF parsed with its pages start with the tokens of its
/// metadata text: its title, file name and stem.
pub proof fn lemma_parsed_pdf_metadata_first<T: Tokenizer>(
    tokenizer: &T,
    doc: ParsedDocument,
    path: Seq<char>,
    modified_secs: u64,
    size_bytes: u64,
    raw_content: Seq<char>,
    pages: Seq<(u32, Seq<char>)>,
)
    requires
        parsed_from(tokenizer, doc, path, SupportedFileType::Pdf, modified_secs, size_bytes, raw_content, Some(pages)),
    ensures
        token_views(doc.tokens@).take(tokenizer.spec_tokenize(metadata_text_spec(path, doc.title@)).len() as int)
            == tokenizer.spec_tokenize(metadata_text_spec(path, doc.title@)),
        token_views(doc.tokens@).len() == tokenizer.spec_tokenize(metadata_text_spec(path, doc.title@)).len()
            + pdf_tokens_spec(tokenizer, pages).len(),
{
    lemma_pdf_tokens_metadata_first(tokenizer, path, doc.title@, pages);
}

} // verus!
