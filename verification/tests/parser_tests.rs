use rust_note_search::model::SupportedFileType;
use rust_note_search::parser::{
    clean_extracted_pdf_text, extract_title, is_cjk_run, parse_document, searchable_metadata_text,
    searchable_text, SimpleTokenizer, Tokenizer,
};

fn token_texts(tokenizer: &impl Tokenizer, text: &str) -> Vec<String> {
    tokenizer
        .tokenize(text)
        .into_iter()
        .map(|item| item.token)
        .collect()
}

fn assert_contains_token(tokens: &[String], expected: &str) {
    assert!(
        tokens.contains(&expected.to_string()),
        "expected token `{expected}` in {tokens:?}"
    );
}

fn assert_not_contains_token(tokens: &[String], unexpected: &str) {
    assert!(
        !tokens.contains(&unexpected.to_string()),
        "unexpected token `{unexpected}` in {tokens:?}"
    );
}

#[test]
fn tokenizer_handles_english_code_and_chinese() {
    let tokenizer = SimpleTokenizer::default();
    let tokens = token_texts(&tokenizer, "Rust ownership, borrow_check and 所有权模型");

    assert_contains_token(&tokens, "rust");
    assert_contains_token(&tokens, "ownership");
    assert_contains_token(&tokens, "borrow_check");
    assert_contains_token(&tokens, "borrow");
    assert_contains_token(&tokens, "check");
    assert_contains_token(&tokens, "所有权");
    assert_contains_token(&tokens, "模型");
    assert_not_contains_token(&tokens, "有权");
    assert_not_contains_token(&tokens, "and");
}

#[test]
fn tokenizer_splits_letter_number_identifiers() {
    let tokenizer = SimpleTokenizer::default();
    let tokens = token_texts(&tokenizer, "fli-icml03 paper");

    assert_contains_token(&tokens, "icml03");
    assert_contains_token(&tokens, "icml");
    assert_contains_token(&tokens, "03");
}

#[test]
fn tokenizer_uses_natural_chinese_words() {
    let tokenizer = SimpleTokenizer::default();
    let tokens = token_texts(&tokenizer, "本地知识库搜索系统支持所有权模型");

    assert_contains_token(&tokens, "本地");
    assert_contains_token(&tokens, "知识库");
    assert_contains_token(&tokens, "搜索");
    assert_contains_token(&tokens, "所有权");
    assert_not_contains_token(&tokens, "地知");
    assert_not_contains_token(&tokens, "库搜");
}

#[test]
fn markdown_title_is_extracted() {
    let title = extract_title("# Rust Notes\n\nbody", "note.md", SupportedFileType::Markdown);
    assert_eq!(title, "Rust Notes");
}

#[test]
fn non_markdown_uses_file_stem() {
    let title = extract_title("fn main() {}", "src/main.rs", SupportedFileType::Rust);
    assert_eq!(title, "main");
}

#[test]
fn searchable_text_includes_file_name_and_title() {
    let text = searchable_text(
        "knowledge_base/论文资料/icml03.pdf",
        "1776943102908-fli-icml03",
        "paper body",
    );

    assert!(text.contains("icml03"));
    assert!(text.contains("paper body"));
}

#[test]
fn pdf_text_cleaner_removes_control_characters() {
    let cleaned = clean_extracted_pdf_text("hello\u{0}\u{2}   world\npdf");

    assert_eq!(cleaned, "hello world pdf");
}

#[test]
fn token_positions_count_up_from_zero() {
    let tokenizer = SimpleTokenizer::default();
    let tokens = tokenizer.tokenize("alpha beta gamma");
    let positions: Vec<usize> = tokens.iter().map(|t| t.position).collect();
    assert_eq!(positions, vec![0, 1, 2]);
    assert_eq!(tokens[1].token, "beta");
    assert_eq!(tokens[1].char_start, 6);
    assert_eq!(tokens[1].char_end, 10);
    assert_eq!(tokens[1].page, None);
}

#[test]
fn tokenizer_drops_stop_words_and_short_words() {
    let tokenizer = SimpleTokenizer::default();
    let tokens = token_texts(&tokenizer, "the a x Rust");
    assert_eq!(tokens, vec!["rust".to_string()]);
}

#[test]
fn tokenizer_marks_pages() {
    let tokenizer = SimpleTokenizer::default();
    let tokens = tokenizer.tokenize_with_page("ownership", Some(3));
    assert_eq!(tokens.len(), 1);
    assert_eq!(tokens[0].page, Some(3));
}

#[test]
fn markdown_without_heading_uses_file_stem() {
    let title = extract_title("no heading here\n#nospace", "notes/plain.md", SupportedFileType::Markdown);
    assert_eq!(title, "plain");
}

#[test]
fn metadata_text_holds_title_name_and_stem() {
    let text = searchable_metadata_text("dir/report.final.txt", "Report");
    assert_eq!(text, "Report\nreport.final.txt\nreport.final");
}

#[test]
fn cjk_runs_are_detected() {
    assert!(is_cjk_run("知识库"));
    assert!(!is_cjk_run("知识a"));
}

#[test]
fn parsed_markdown_document_keeps_content_and_metadata() {
    let tokenizer = SimpleTokenizer::default();
    let doc = parse_document(
        &tokenizer,
        "notes/rust.md",
        SupportedFileType::Markdown,
        7,
        30,
        "# Rust\nOwnership rules",
        None,
    );
    assert_eq!(doc.title, "Rust");
    assert_eq!(doc.content, "# Rust\nOwnership rules");
    assert_eq!(doc.modified_secs, 7);
    assert_eq!(doc.size_bytes, 30);
    assert!(doc.tokens.iter().any(|t| t.token == "ownership"));
    assert!(doc.tokens.iter().any(|t| t.token == "rust"));
}

#[test]
fn parsed_pdf_document_marks_page_tokens() {
    let tokenizer = SimpleTokenizer::default();
    let pages = vec![(1u32, "first page text".to_string()), (2u32, "ownership\u{1}here".to_string())];
    let doc = parse_document(
        &tokenizer,
        "papers/paper.pdf",
        SupportedFileType::Pdf,
        0,
        0,
        "first page text ownership here",
        Some(&pages),
    );
    let ownership = doc
        .tokens
        .iter()
        .find(|t| t.token == "ownership")
        .expect("ownership token");
    assert_eq!(ownership.page, Some(2));
    let positions: Vec<usize> = doc.tokens.iter().map(|t| t.position).collect();
    let expected: Vec<usize> = (0..doc.tokens.len()).collect();
    assert_eq!(positions, expected);
}
