use rust_note_search::error::AppError;
use rust_note_search::indexing::index_documents;
use rust_note_search::parser::SimpleTokenizer;
use rust_note_search::pdf::{parse_pdf, pdf_pages};
use rust_note_search::search::SearchEngine;

fn text_pdf(text: &str) -> Vec<u8> {
    let content = format!("BT /F1 24 Tf 72 700 Td ({text}) Tj ET");
    let objects = vec![
        "<< /Type /Catalog /Pages 2 0 R >>".to_string(),
        "<< /Type /Pages /Kids [3 0 R] /Count 1 >>".to_string(),
        "<< /Type /Page /Parent 2 0 R /MediaBox [0 0 612 792] /Resources << /Font << /F1 4 0 R >> >> /Contents 5 0 R >>"
            .to_string(),
        "<< /Type /Font /Subtype /Type1 /BaseFont /Helvetica >>".to_string(),
        format!("<< /Length {} >>\nstream\n{}\nendstream", content.len(), content),
    ];
    let mut out = b"%PDF-1.5\n".to_vec();
    let mut offsets = Vec::new();
    for (i, body) in objects.iter().enumerate() {
        offsets.push(out.len());
        out.extend_from_slice(format!("{} 0 obj\n{}\nendobj\n", i + 1, body).as_bytes());
    }
    let xref = out.len();
    out.extend_from_slice(format!("xref\n0 {}\n0000000000 65535 f \n", objects.len() + 1).as_bytes());
    for offset in offsets {
        out.extend_from_slice(format!("{offset:010} 00000 n \n").as_bytes());
    }
    out.extend_from_slice(
        format!("trailer\n<< /Size {} /Root 1 0 R >>\nstartxref\n{}\n%%EOF\n", objects.len() + 1, xref).as_bytes(),
    );
    out
}

#[test]
fn text_pdf_can_be_indexed_and_searched() {
    let bytes = text_pdf("Rust ownership pdf search");
    let tokenizer = SimpleTokenizer::default();
    let text = pdf_extract::extract_text_from_mem(&bytes).map_err(|err| err.to_string());
    let doc = parse_pdf(&tokenizer, "/papers/paper.pdf", 0, bytes.len() as u64, text, &bytes).expect("parse");
    assert_eq!(doc.title, "paper");
    let index = index_documents("/papers", vec![doc], 1).expect("index");
    let engine = SearchEngine::new(&index, SimpleTokenizer::default());
    let results = engine.search("ownership", 5).expect("search");

    assert!(results.iter().any(|result| result.title == "paper"));
    assert!(results.iter().flat_map(|result| result.matches.iter()).any(|item| item.page == Some(1)));
}

#[test]
fn invalid_pdf_returns_indexing_error() {
    let tokenizer = SimpleTokenizer::default();
    let bytes = b"not a real pdf";
    let text = pdf_extract::extract_text_from_mem(bytes).map_err(|err| err.to_string());
    assert!(text.is_err());
    let result = parse_pdf(&tokenizer, "/papers/broken.pdf", 0, 14, text, bytes);
    assert!(matches!(result, Err(AppError::Pdf(_))));
    assert!(pdf_pages(b"not a real pdf").is_none());
}

#[test]
fn pdf_pages_are_numbered_in_order() {
    let pages = pdf_pages(&text_pdf("first page words")).expect("pages");
    assert_eq!(pages.len(), 1);
    assert_eq!(pages[0].0, 1);
    assert!(pages[0].1.contains("first page words"));
}
