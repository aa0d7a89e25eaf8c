use rust_note_search::engine::{SearchEngine, SearchOptions};
use rust_note_search::error::AppError;
use rust_note_search::index::build_from_parsed;
use rust_note_search::model::{InvertedIndex, SearchMode, SupportedFileType};
use rust_note_search::parser::{parse_document, SimpleTokenizer};
use rust_note_search::search::{
    build_search_matches, find_char_index_case_insensitive, make_snippet, make_snippet_around_range,
    make_snippet_checked, truncate_to, MatchedOccurrence,
};
use rust_note_search::matching::{find_all_term_ranges, highlight_term, highlight_term_checked};

fn index_of(files: &[(&str, &str)]) -> InvertedIndex {
    let tokenizer = SimpleTokenizer::default();
    let parsed = files
        .iter()
        .map(|(path, content)| {
            let file_type = SupportedFileType::from_path(path).expect("supported");
            parse_document(&tokenizer, path, file_type, 0, content.len() as u64, content, None)
        })
        .collect();
    build_from_parsed("/notes", parsed, 0)
}

#[test]
fn snippet_contains_highlighted_ascii_term() {
    let snippet = make_snippet("Rust ownership rules are useful", &["ownership".into()], 80);
    assert!(snippet.contains("[ownership]"));
}

#[test]
fn snippet_contains_highlighted_chinese_term() {
    let snippet = make_snippet("支持所有权模型", &["所有权".into()], 80);
    assert!(snippet.contains("[所有权]"));
}

#[test]
fn truncate_helper_is_generic() {
    let mut values = vec![1, 2, 3, 4];
    truncate_to(&mut values, 2);
    assert_eq!(values, vec![1, 2]);
}

#[test]
fn truncate_keeps_shorter_lists() {
    let mut values = vec!["a", "b"];
    truncate_to(&mut values, 5);
    assert_eq!(values, vec!["a", "b"]);
}

#[test]
fn snippet_of_long_text_is_cut_with_ellipses() {
    let content = format!("{}ownership{}", "x ".repeat(100), " y".repeat(100));
    let snippet = make_snippet(&content, &["ownership".into()], 30);
    assert!(snippet.starts_with("..."));
    assert!(snippet.ends_with("..."));
    assert!(snippet.contains("[ownership]"));
}

#[test]
fn snippet_matches_without_case_and_joins_lines() {
    let snippet = make_snippet("Line one\nOWNERSHIP here", &["ownership".into()], 80);
    assert_eq!(snippet, "Line one [OWNERSHIP] here");
}

#[test]
fn snippet_of_empty_content_is_empty() {
    assert_eq!(make_snippet("", &["x".into()], 10), "");
    assert_eq!(make_snippet_checked("", &["x".into()], 10), Some(String::new()));
}

#[test]
fn highlight_wraps_every_match() {
    assert_eq!(highlight_term("Rust and rust", "RUST"), "[Rust] and [rust]");
    assert_eq!(highlight_term("nothing", ""), "nothing");
    assert_eq!(highlight_term_checked("abcabc", "bc"), Some("a[bc]a[bc]".to_string()));
}

#[test]
fn char_index_is_found_after_lowercasing() {
    assert_eq!(find_char_index_case_insensitive("所有 Rust", "rust"), Some(Some(3)));
    assert_eq!(find_char_index_case_insensitive("abc", "zz"), Some(None));
}

#[test]
fn term_ranges_give_bytes_and_characters() {
    let content: Vec<char> = "支持Rust和rust".chars().collect();
    let ranges = find_all_term_ranges(&content, "RUST").expect("ranges");
    assert_eq!(ranges, vec![(6, 10, 2, 6), (13, 17, 7, 11)]);
}

#[test]
fn snippet_around_range_takes_context_before_and_after() {
    let content: Vec<char> = "0123456789abcdefghij".chars().collect();
    let snippet = make_snippet_around_range(&content, 10, 11, &["a".into()], 9).expect("snippet");
    assert_eq!(snippet, "...789[a]bcdefg...");
}

#[test]
fn matches_fall_back_to_title_note() {
    let occs = vec![MatchedOccurrence {
        term: "rust".to_string(),
        occurrence: rust_note_search::model::IndexedOccurrence {
            token_position: 0,
            char_start: 0,
            char_end: 4,
            page: None,
        },
    }];
    let matches = build_search_matches("", "Rust Guide", &["rust".to_string()], &occs).expect("matches");
    assert_eq!(matches.len(), 1);
    assert_eq!(matches[0].snippet, "Matched in title or file name: Rust Guide");
    assert_eq!(matches[0].matched_terms, vec!["rust".to_string()]);
}

#[test]
fn search_result_keeps_multiple_matches_in_one_document_of_index() {
    let index = index_of(&[(
        "/notes/multi.md",
        "# Multi\nOwnership starts here.\nA later paragraph mentions ownership again.",
    )]);
    let engine = SearchEngine::new(&index, SimpleTokenizer::default());
    let results = engine.search("ownership", 10).expect("search");

    assert_eq!(results[0].title, "Multi");
    assert!(results[0].matches.len() >= 2);
    assert!(results[0].matches[0].char_start < results[0].matches[1].char_start);
}

#[test]
fn search_result_keeps_twelve_matches_in_one_document() {
    let repeated = (0..12)
        .map(|idx| format!("Paragraph {idx} mentions ownership."))
        .collect::<Vec<_>>()
        .join("\n");
    let content = format!("# Many\n{repeated}");
    let index = index_of(&[("/notes/many.md", content.as_str())]);
    let engine = SearchEngine::new(&index, SimpleTokenizer::default());
    let results = engine.search("ownership", 10).expect("search");

    assert_eq!(results[0].matches.len(), 12);
}

#[test]
fn search_finds_documents_holding_a_term() {
    let index = index_of(&[
        ("/notes/a.md", "# A\nRust ownership ownership borrowing"),
        ("/notes/b.md", "# B\nRust only"),
    ]);
    let engine = SearchEngine::new(&index, SimpleTokenizer::default());
    let results = engine.search("ownership", 10).expect("search");
    assert_eq!(results.len(), 1);
    assert_eq!(results[0].title, "A");
    assert_eq!(results[0].hits.len(), 1);
    assert_eq!(results[0].hits[0].frequency, 2);
    assert_eq!(results[0].hits[0].document_frequency, 1);
    let both = engine.search("rust", 10).expect("search");
    assert_eq!(both.len(), 2);
}

#[test]
fn search_mode_all_requires_every_term() {
    let index = index_of(&[
        ("/notes/a.md", "# A\nownership borrowing"),
        ("/notes/b.md", "# B\nownership only"),
    ]);
    let engine = SearchEngine::new(&index, SimpleTokenizer::default());
    let any = engine
        .search_with_options("ownership borrowing", SearchOptions { limit: 10, mode: SearchMode::Any })
        .expect("any");
    let all = engine
        .search_with_options("ownership borrowing", SearchOptions { limit: 10, mode: SearchMode::All })
        .expect("all");
    assert_eq!(any.len(), 2);
    assert_eq!(all.len(), 1);
    assert_eq!(all[0].title, "A");
    assert_eq!(all[0].matched_terms, vec!["borrowing".to_string(), "ownership".to_string()]);
}

#[test]
fn search_of_empty_index_is_an_error() {
    let index = index_of(&[]);
    let engine = SearchEngine::new(&index, SimpleTokenizer::default());
    assert!(matches!(engine.search("rust", 10), Err(AppError::EmptyIndex)));
}

#[test]
fn search_with_zero_limit_or_no_terms_finds_nothing() {
    let index = index_of(&[("/notes/a.md", "# A\nrust")]);
    let engine = SearchEngine::new(&index, SimpleTokenizer::default());
    assert!(engine.search("rust", 0).expect("search").is_empty());
    assert!(engine.search("the", 10).expect("search").is_empty());
}

#[test]
fn query_terms_are_distinct_in_order() {
    let index = index_of(&[("/notes/a.md", "# A\nrust")]);
    let engine = SearchEngine::new(&index, SimpleTokenizer::default());
    assert_eq!(engine.query_terms("rust search rust"), vec!["rust".to_string(), "search".to_string()]);
}

#[test]
fn chinese_search_finds_chinese_document() {
    let index = index_of(&[
        ("/notes/rust.md", "# Rust\nOwnership and borrowing are central Rust ideas."),
        ("/notes/cn.md", "# 中文\n本地知识库搜索支持所有权和模块化设计。"),
    ]);
    let engine = SearchEngine::new(&index, SimpleTokenizer::default());
    let english = engine.search("ownership", 5).expect("english");
    let chinese = engine.search("所有权", 5).expect("chinese");
    assert!(english.iter().any(|item| item.title == "Rust"));
    assert!(chinese.iter().any(|item| item.title == "中文"));
}
