//! Reading the pages of PDF files from their bytes through lopdf, and the
//! parse of a PDF file as a document. The text of the whole file comes from
//! pdf-extract, which the caller runs on the file: it can panic on a
//! malformed file, so no function of this library makes that call.
use vstd::prelude::*;
use lopdf::Document as LopdfDocument;
use crate::error::AppError;
use crate::model::{ParsedDocument, SupportedFileType};
use crate::parser::{Tokenizer, page_views, parse_document, parsed_from};

verus! {

#[verifier::external_type_specification]
#[verifier::external_body]
pub struct ExPdfDocument(LopdfDocument);

/// A document that lopdf loaded, with the bytes it was loaded from. Only
/// `load_pdf` makes one.
pub struct LoadedPdf {
    doc: LopdfDocument,
    bytes: Vec<u8>,
}

impl LoadedPdf {
    /// The bytes the document was loaded from.
    pub closed spec fn source(&self) -> Seq<u8> {
        self.bytes@
    }
}

/// Whether `lopdf::Document::load_mem` loads the bytes `bytes`.
pub uninterp spec fn pdf_loads(bytes: Seq<u8>) -> bool;

/// The page numbers that `lopdf::Document::get_pages` gives for the
/// document loaded from `bytes`.
pub uninterp spec fn pdf_page_numbers_of(bytes: Seq<u8>) -> Seq<u32>;

/// What `lopdf::Document::extract_text` gives for page `page` of the
/// document loaded from `bytes`: its text, or nothing where it fails.
pub uninterp spec fn pdf_page_text_of(bytes: Seq<u8>, page: u32) -> Option<Seq<char>>;

/// Calls `lopdf::Document::load_mem`, which parses the bytes (returning an
/// error, not panicking, on malformed input); the document is kept with a
/// copy of the bytes. Whether it loads is named `pdf_loads(bytes)`.
#[verifier::external_body]
fn load_pdf(bytes: &[u8]) -> (r: Option<LoadedPdf>)
    ensures
        r is Some <==> pdf_loads(bytes@),
        r matches Some(p) ==> p.source() == bytes@,
{
    LopdfDocument::load_mem(bytes).ok().map(|doc| LoadedPdf { doc, bytes: bytes.to_vec() })
}

/// Calls `lopdf::Document::get_pages` and returns its keys, the page
/// numbers, named `pdf_page_numbers_of` of the bytes the document was
/// loaded from; they are the keys of a `BTreeMap`, so they come in strictly
/// increasing order.
#[verifier::external_body]
fn pdf_page_numbers(pdf: &LoadedPdf) -> (r: Vec<u32>)
    ensures
        r@ == pdf_page_numbers_of(pdf.source()),
        forall|i: int, j: int| 0 <= i < j < r@.len() ==> r@[i] < r@[j],
{
    pdf.doc.get_pages().keys().copied().collect()
}

/// Calls `lopdf::Document::extract_text` for one page; `None` where it
/// fails. The text is named `pdf_page_text_of` of the bytes the document
/// was loaded from and the page.
#[verifier::external_body]
fn pdf_page_text(pdf: &LoadedPdf, page: u32) -> (r: Option<String>)
    ensures
        match r {
            Some(t) => pdf_page_text_of(pdf.source(), page) == Some(t@),
            None => pdf_page_text_of(pdf.source(), page) is None,
        },
{
    pdf.doc.extract_text(&[page]).ok()
}

/// The pages of the PDF file `bytes`, each with its number and text: none
/// where lopdf does not load it or cannot read the text of some page.
pub open spec fn pdf_page_texts(bytes: Seq<u8>) -> Option<Seq<(u32, Seq<char>)>> {
    let ns = pdf_page_numbers_of(bytes);
    if !pdf_loads(bytes) {
        None
    } else if forall|i: int| 0 <= i < ns.len() ==> pdf_page_text_of(bytes, #[trigger] ns[i]) is Some {
        Some(Seq::new(ns.len(), |i: int| (ns[i], pdf_page_text_of(bytes, ns[i])->0)))
    } else {
        None
    }
}

/// Each page's number and text, where the document loads and every page's
/// text can be read; the pages come in increasing order of number.
pub fn pdf_pages(bytes: &[u8]) -> (r: Option<Vec<(u32, String)>>)
    ensures
        match r {
            Some(v) => pdf_page_texts(bytes@) == Some(page_views(v@)),
            None => pdf_page_texts(bytes@) is None,
        },
        r matches Some(v) ==> forall|i: int, j: int| 0 <= i < j < v@.len() ==> v@[i].0 < v@[j].0,
{
    let pdf = match load_pdf(bytes) {
        Some(d) => d,
        None => {
            return None;
        },
    };
    let numbers = pdf_page_numbers(&pdf);
    let ghost ns = numbers@;
    let mut pages: Vec<(u32, String)> = Vec::new();
    let mut i: usize = 0;
    while i < numbers.len()
        invariant
            i <= numbers@.len(),
            ns == numbers@,
            ns == pdf_page_numbers_of(bytes@),
            pdf.source() == bytes@,
            pages@.len() == i,
            forall|a: int, b: int| 0 <= a < b < numbers@.len() ==> numbers@[a] < numbers@[b],
            forall|k: int|
                0 <= k < i ==> (#[trigger] pages@[k]).0 == ns[k] && pdf_page_text_of(bytes@, ns[k]) == Some(
                    pages@[k].1@,
                ),
        decreases numbers.len() - i,
    {
        match pdf_page_text(&pdf, numbers[i]) {
            Some(text) => {
                pages.push((numbers[i], text));
            },
            None => {
                assert(pdf_page_text_of(bytes@, ns[i as int]) is None);
                return None;
            },
        }
        i = i + 1;
    }
    assert forall|k: int| 0 <= k < ns.len() implies pdf_page_text_of(bytes@, #[trigger] ns[k]) is Some by {
        assert(pages@[k].0 == ns[k]);
    }
    assert(page_views(pages@) =~= Seq::new(ns.len(), |i: int| (ns[i], pdf_page_text_of(bytes@, ns[i])->0)));
    Some(pages)
}

/// Parses a PDF file: `text` is what pdf-extract gave for the file (an
/// error of kind `Pdf` with its message where it failed), and the tokens
/// come page by page where lopdf reads every page of `bytes`, else from the
/// whole text.
pub fn parse_pdf<T: Tokenizer>(
    tokenizer: &T,
    path: &str,
    modified_secs: u64,
    size_bytes: u64,
    text: Result<String, String>,
    bytes: &[u8],
) -> (r: Result<ParsedDocument, AppError>)
    ensures
        match text {
            Err(m) => r == Err::<ParsedDocument, AppError>(AppError::Pdf(m)),
            Ok(t) => r matches Ok(doc) && parsed_from(
                tokenizer,
                doc,
                path@,
                SupportedFileType::Pdf,
                modified_secs,
                size_bytes,
                t@,
                pdf_page_texts(bytes@),
            ),
        },
{
    let text = match text {
        Ok(t) => t,
        Err(m) => {
            return Err(AppError::Pdf(m));
        },
    };
    let pages = pdf_pages(bytes);
    let doc = parse_document(
        tokenizer,
        path,
        SupportedFileType::Pdf,
        modified_secs,
        size_bytes,
        text.as_str(),
        pages.as_ref(),
    );
    Ok(doc)
}

} // verus!
