//! The Markdown report of an index.
use vstd::prelude::*;
use crate::analysis::{TermStat, push_decimal, push_lit, top_of, top_terms, frequencies_fit};
use crate::model::{Document, InvertedIndex};
use crate::order::{Ranked, stable_sort, stable_sorted};
use crate::scanner::{
    compare_comps, comps_lt, components_of, lemma_comps_lt_asym, lemma_comps_lt_total, lemma_comps_lt_trans,
};
use crate::subtokens::views;
use crate::textfmt::path_components;
use crate::text::{chars_of, string_from_chars};
use crate::textfmt::decimal;

verus! {

/// The characters that stand for `c` in a table cell.
pub open spec fn escape_char(c: char) -> Seq<char> {
    if c == '|' {
        seq!['\\', '|']
    } else if c == '\n' {
        seq![' ']
    } else {
        seq![c]
    }
}

/// `text` with `|` escaped and line breaks turned into spaces.
pub open spec fn escape_cell(text: Seq<char>) -> Seq<char>
    decreases text.len(),
{
    if text.len() == 0 {
        Seq::empty()
    } else {
        escape_cell(text.drop_last()) + escape_char(text.last())
    }
}

pub fn escape_markdown_cell(text: &str) -> (r: String)
    ensures
        r@ == escape_cell(text@),
{
    let cs = chars_of(text);
    let mut out: Vec<char> = Vec::new();
    let mut i: usize = 0;
    while i < cs.len()
        invariant
            i <= cs@.len(),
            out@ == escape_cell(cs@.take(i as int)),
        decreases cs.len() - i,
    {
        assert(cs@.take(i + 1).drop_last() == cs@.take(i as int));
        let c = cs[i];
        let ghost before = out@;
        if c == '|' {
            out.push('\\');
            out.push('|');
        } else if c == '\n' {
            out.push(' ');
        } else {
            out.push(c);
        }
        assert(out@ =~= before + escape_char(c));
        i = i + 1;
    }
    assert(cs@.take(cs@.len() as int) == cs@);
    string_from_chars(out.as_slice())
}

/// A document by its id and the components of its path, with its position
/// in the index.
#[derive(Debug, Clone)]
pub struct DocOrder {
    pub id: usize,
    pub comps: Vec<Vec<char>>,
    pub position: usize,
}

impl Ranked for DocOrder {
    open spec fn spec_le(&self, other: &Self) -> bool {
        self.id < other.id || (self.id == other.id && !comps_lt(views(other.comps@), views(self.comps@)))
    }

    fn le(&self, other: &Self) -> (r: bool) {
        self.id < other.id || (self.id == other.id && compare_comps(&other.comps, &self.comps) >= 0)
    }

    proof fn lemma_total(a: &Self, b: &Self) {
        lemma_comps_lt_total(views(a.comps@), views(b.comps@));
        if comps_lt(views(a.comps@), views(b.comps@)) {
            lemma_comps_lt_asym(views(a.comps@), views(b.comps@));
        }
    }

    proof fn lemma_trans(a: &Self, b: &Self, c: &Self) {
        let x = views(a.comps@);
        let y = views(b.comps@);
        let z = views(c.comps@);
        if a.id == b.id && b.id == c.id {
            lemma_comps_lt_total(x, y);
            lemma_comps_lt_total(y, z);
            if comps_lt(z, x) {
                if comps_lt(x, y) && comps_lt(y, z) {
                    lemma_comps_lt_trans(x, y, z);
                    lemma_comps_lt_asym(x, z);
                } else if x == y {
                    lemma_comps_lt_total(y, z);
                }
            }
        }
    }
}

/// `keys` are the documents' ids and path components with their
/// positions, in index order.
pub open spec fn doc_keys(docs: Seq<Document>, keys: Seq<DocOrder>) -> bool {
    &&& keys.len() == docs.len()
    &&& forall|i: int|
        0 <= i < keys.len() ==> (#[trigger] keys[i]).id == docs[i].id && keys[i].position == i && views(
            keys[i].comps@,
        ) == path_components(docs[i].path@)
}

/// The documents in increasing order of id, equal ids in order of path,
/// equal ones in index order.
pub open spec fn documents_by_id(docs: Seq<Document>, order: Seq<DocOrder>) -> bool {
    exists|keys: Seq<DocOrder>| doc_keys(docs, keys) && stable_sorted(keys, order)
}

/// The positions of the documents in increasing order of id, then path.
pub fn sorted_documents(documents: &Vec<Document>) -> (order: Vec<DocOrder>)
    ensures
        documents_by_id(documents@, order@),
        forall|k: int| 0 <= k < order@.len() ==> (#[trigger] order@[k]).position < documents@.len(),
{
    let mut keys: Vec<DocOrder> = Vec::new();
    let mut i: usize = 0;
    while i < documents.len()
        invariant
            i <= documents@.len(),
            keys@.len() == i,
            forall|j: int|
                0 <= j < i ==> (#[trigger] keys@[j]).id == documents@[j].id && keys@[j].position == j && views(
                    keys@[j].comps@,
                ) == path_components(documents@[j].path@),
        decreases documents.len() - i,
    {
        let comps = components_of(documents[i].path.as_str());
        keys.push(DocOrder { id: documents[i].id, comps, position: i });
        i = i + 1;
    }
    let ghost k0 = keys@;
    assert(doc_keys(documents@, k0));
    let order = stable_sort(keys);
    proof {
        crate::order::lemma_stable_sorted_elements(k0, order@);
        assert forall|k: int| 0 <= k < order@.len() implies (#[trigger] order@[k]).position < documents@.len() by {
            assert(k0.contains(order@[k]));
            let j = choose|j: int| 0 <= j < k0.len() && k0[j] == order@[k];
            assert(k0[j].position == j);
        }
    }
    order
}

/// One row of the table of terms.
pub open spec fn term_row(k: int, t: TermStat) -> Seq<char> {
    "| "@ + decimal((k + 1) as nat) + " | `"@ + escape_cell(t.term@) + "` | "@ + decimal(t.total_frequency as nat)
        + " | "@ + decimal(t.document_frequency as nat) + " |\n"@
}

pub open spec fn term_rows(ts: Seq<TermStat>) -> Seq<char>
    decreases ts.len(),
{
    if ts.len() == 0 {
        Seq::empty()
    } else {
        term_rows(ts.drop_last()) + term_row(ts.len() - 1, ts.last())
    }
}

/// One row of the table of documents.
pub open spec fn document_row(d: Document) -> Seq<char> {
    "| "@ + decimal(d.id as nat) + " | "@ + escape_cell(d.title@) + " | "@ + decimal(d.token_count as nat) + " | "@
        + decimal(d.size_bytes as nat) + " | `"@ + d.path@ + "` |\n"@
}

pub open spec fn document_rows(docs: Seq<Document>, order: Seq<DocOrder>) -> Seq<char>
    decreases order.len(),
{
    if order.len() == 0 {
        Seq::empty()
    } else {
        document_rows(docs, order.drop_last()) + document_row(docs[order.last().position as int])
    }
}

pub open spec fn report_head(index: InvertedIndex, average: Seq<char>) -> Seq<char> {
    "# RustNoteSearch Index Report\n\n"@ + "## Summary\n\n"@ + "- Root: `"@ + index.metadata.root@ + "`\n"@
        + "- Documents: "@ + decimal(index.metadata.document_count as nat) + "\n"@ + "- Terms: "@ + decimal(
        index.metadata.term_count as nat,
    ) + "\n"@ + "- Total tokens: "@ + decimal(index.metadata.total_tokens as nat) + "\n"@
        + "- Average tokens/document: "@ + average + "\n"@ + "- Index version: "@ + decimal(
        index.metadata.version as nat,
    ) + "\n"@ + "- Created timestamp: "@ + decimal(index.metadata.created_secs as nat) + "\n"@
}

pub open spec fn report_notes() -> Seq<char> {
    "\n## Notes\n\n"@ + "- This report is generated from the local JSON inverted index.\n"@
        + "- It can be used as supporting material for the experiment report.\n"@
        + "- Search quality depends on the tokenizer and the indexed file set.\n"@
}

/// The report: a summary (with `average`, the average number of tokens per
/// document written with two decimals), the table of the `terms`, and the
/// table of the documents in `order`.
pub open spec fn report_text(index: InvertedIndex, average: Seq<char>, terms: Seq<TermStat>, order: Seq<DocOrder>) -> Seq<char> {
    report_head(index, average) + "\n## Top Terms\n\n"@ + "| Rank | Term | Frequency | Documents |\n"@
        + "| --- | --- | ---: | ---: |\n"@ + term_rows(terms) + "\n## Documents\n\n"@
        + "| ID | Title | Tokens | Size | Path |\n"@ + "| ---: | --- | ---: | ---: | --- |\n"@ + document_rows(
        index.documents@,
        order,
    ) + report_notes()
}

fn push_head(out: &mut Vec<char>, index: &InvertedIndex, average: &str)
    ensures
        final(out)@ == old(out)@ + report_head(*index, average@),
{
    let ghost o = out@;
    push_lit(out, "# RustNoteSearch Index Report\n\n");
    push_lit(out, "## Summary\n\n");
    push_lit(out, "- Root: `");
    push_lit(out, index.metadata.root.as_str());
    push_lit(out, "`\n");
    push_lit(out, "- Documents: ");
    push_decimal(out, index.metadata.document_count as u64);
    push_lit(out, "\n");
    push_lit(out, "- Terms: ");
    push_decimal(out, index.metadata.term_count as u64);
    push_lit(out, "\n");
    push_lit(out, "- Total tokens: ");
    push_decimal(out, index.metadata.total_tokens as u64);
    push_lit(out, "\n");
    push_lit(out, "- Average tokens/document: ");
    push_lit(out, average);
    push_lit(out, "\n");
    push_lit(out, "- Index version: ");
    push_decimal(out, index.metadata.version as u64);
    push_lit(out, "\n");
    push_lit(out, "- Created timestamp: ");
    push_decimal(out, index.metadata.created_secs);
    push_lit(out, "\n");
    assert(out@ =~= o + report_head(*index, average@));
}

fn push_term_row(out: &mut Vec<char>, k: usize, t: &TermStat)
    requires
        k < usize::MAX,
    ensures
        final(out)@ == old(out)@ + term_row(k as int, *t),
{
    let ghost o = out@;
    push_lit(out, "| ");
    push_decimal(out, (k + 1) as u64);
    push_lit(out, " | `");
    let e = escape_markdown_cell(t.term.as_str());
    push_lit(out, e.as_str());
    push_lit(out, "` | ");
    push_decimal(out, t.total_frequency as u64);
    push_lit(out, " | ");
    push_decimal(out, t.document_frequency as u64);
    push_lit(out, " |\n");
    assert(out@ =~= o + term_row(k as int, *t));
}

fn push_document_row(out: &mut Vec<char>, d: &Document)
    ensures
        final(out)@ == old(out)@ + document_row(*d),
{
    let ghost o = out@;
    push_lit(out, "| ");
    push_decimal(out, d.id as u64);
    push_lit(out, " | ");
    let e = escape_markdown_cell(d.title.as_str());
    push_lit(out, e.as_str());
    push_lit(out, " | ");
    push_decimal(out, d.token_count as u64);
    push_lit(out, " | ");
    push_decimal(out, d.size_bytes);
    push_lit(out, " | `");
    push_lit(out, d.path.as_str());
    push_lit(out, "` |\n");
    assert(out@ =~= o + document_row(*d));
}

/// The Markdown report of `index` with its `term_limit` most frequent
/// terms and all its documents by id; `average` is the average number of
/// tokens per document, already written with two decimals.
pub fn build_markdown_report(index: &InvertedIndex, term_limit: usize, average: &str) -> (r: String)
    requires
        frequencies_fit(index.postings@),
    ensures
        exists|terms: Seq<TermStat>, order: Seq<DocOrder>|
            top_of(index.postings@, terms, term_limit as int) && documents_by_id(index.documents@, order)
                && r@ == report_text(*index, average@, terms, order),
{
    let terms = top_terms(index, term_limit);
    let order = sorted_documents(&index.documents);
    let mut out: Vec<char> = Vec::new();
    push_head(&mut out, index, average);
    push_lit(&mut out, "\n## Top Terms\n\n");
    push_lit(&mut out, "| Rank | Term | Frequency | Documents |\n");
    push_lit(&mut out, "| --- | --- | ---: | ---: |\n");
    let ghost mid = out@;
    let mut k: usize = 0;
    assert(terms@.take(0) == Seq::<TermStat>::empty());
    assert(mid + term_rows(terms@.take(0)) == mid);
    while k < terms.len()
        invariant
            k <= terms@.len(),
            out@ == mid + term_rows(terms@.take(k as int)),
        decreases terms.len() - k,
    {
        assert(terms@.take(k + 1).drop_last() == terms@.take(k as int));
        push_term_row(&mut out, k, &terms[k]);
        k = k + 1;
        assert(out@ =~= mid + term_rows(terms@.take(k as int)));
    }
    assert(terms@.take(terms@.len() as int) == terms@);
    push_lit(&mut out, "\n## Documents\n\n");
    push_lit(&mut out, "| ID | Title | Tokens | Size | Path |\n");
    push_lit(&mut out, "| ---: | --- | ---: | ---: | --- |\n");
    let ghost mid2 = out@;
    let mut q: usize = 0;
    assert(order@.take(0) == Seq::<DocOrder>::empty());
    assert(mid2 + document_rows(index.documents@, order@.take(0)) == mid2);
    while q < order.len()
        invariant
            q <= order@.len(),
            forall|k: int| 0 <= k < order@.len() ==> (#[trigger] order@[k]).position < index.documents@.len(),
            out@ == mid2 + document_rows(index.documents@, order@.take(q as int)),
        decreases order.len() - q,
    {
        assert(order@.take(q + 1).drop_last() == order@.take(q as int));
        assert(order@.take(q + 1).last() == order@[q as int]);
        let pos = order[q].position;
        assert(order@[q as int].position < index.documents@.len());
        push_document_row(&mut out, &index.documents[pos]);
        q = q + 1;
        assert(out@ =~= mid2 + document_rows(index.documents@, order@.take(q as int)));
    }
    assert(order@.take(order@.len() as int) == order@);
    push_lit(&mut out, "\n## Notes\n\n");
    push_lit(&mut out, "- This report is generated from the local JSON inverted index.\n");
    push_lit(&mut out, "- It can be used as supporting material for the experiment report.\n");
    push_lit(&mut out, "- Search quality depends on the tokenizer and the indexed file set.\n");
    assert(out@ =~= report_text(*index, average@, terms@, order@));
    string_from_chars(out.as_slice())
}

} // verus!
