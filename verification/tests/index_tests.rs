use rust_note_search::analysis::{
    check_frequencies_fit, compare_terms, document_top_terms, format_inspection, format_summary, format_terms,
    inspect_document, largest_documents, preview_content, summarize_index, top_terms,
    truncate_display, TermStat,
};
use rust_note_search::error::AppError;
use rust_note_search::index::{build_from_parsed, check_terms_sorted, IndexBuilder};
use rust_note_search::search::SearchEngine;
use rust_note_search::model::{InvertedIndex, SupportedFileType, INDEX_VERSION};
use rust_note_search::parser::{parse_document, SimpleTokenizer};
use rust_note_search::report::{build_markdown_report, escape_markdown_cell, sorted_documents};
use rust_note_search::scanner::{candidate_for, should_enter, sort_candidates};
use rust_note_search::storage::{check_index_version, postings_in_term_order};
use std::cmp::Ordering;

fn index_of(files: &[(&str, &str)]) -> InvertedIndex {
    let builder = IndexBuilder::new(SimpleTokenizer::default());
    let parsed = files
        .iter()
        .map(|(path, content)| {
            let file_type = SupportedFileType::from_path(path).expect("supported");
            parse_document(builder.tokenizer_ref(), path, file_type, 0, content.len() as u64, content, None)
        })
        .collect();
    build_from_parsed("/notes", parsed, 42)
}

fn postings<'a>(index: &'a InvertedIndex, term: &str) -> &'a [rust_note_search::model::Posting] {
    &index
        .postings
        .iter()
        .find(|entry| entry.term == term)
        .expect("term")
        .postings
}

#[test]
fn built_index_records_frequency_and_occurrences() {
    let index = index_of(&[("/notes/one.md", "# One\nRust Rust ownership")]);
    let rust_posting = &postings(&index, "rust")[0];

    assert_eq!(index.documents.len(), 1);
    assert_eq!(rust_posting.frequency, 2);
    assert_eq!(rust_posting.doc_id, 0);
    assert!(rust_posting.occurrences.len() >= 2);
    assert!(rust_posting.occurrences[0].token_position < rust_posting.occurrences[1].token_position);
}

#[test]
fn built_index_holds_multiple_documents() {
    let index = index_of(&[("/notes/one.md", "# One\nRust ownership"), ("/notes/two.txt", "local search index")]);

    assert_eq!(index.metadata.document_count, 2);
    assert!(index.postings.iter().any(|e| e.term == "rust"));
    assert!(index.postings.iter().any(|e| e.term == "search"));
    assert!(check_terms_sorted(&index.postings));
    assert_eq!(index.metadata.version, INDEX_VERSION);
    assert_eq!(index.metadata.root, "/notes");
    assert_eq!(index.metadata.created_secs, 42);
    assert_eq!(index.metadata.term_count, index.postings.len());
    let total: usize = index.documents.iter().map(|d| d.token_count).sum();
    assert_eq!(index.metadata.total_tokens, total);
    assert_eq!(index.documents[1].id, 1);
    assert!(index.document(1).is_some());
    assert!(index.document(2).is_none());
}

#[test]
fn summary_counts_terms_and_documents() {
    let index = index_of(&[("/notes/a.md", "# A\nRust Rust search"), ("/notes/b.md", "# B\nlocal knowledge base")]);
    let summary = summarize_index(&index, 3);

    assert_eq!(summary.document_count, 2);
    assert_eq!(summary.top_terms.len(), 3);
    assert_eq!(summary.largest_documents.len(), 2);
    let text = format_summary(&summary, "3.50");
    assert!(text.starts_with("Root: /notes\nDocuments: 2\n"));
    assert!(text.contains("Average tokens/document: 3.50\n"));
    assert!(text.contains("\nTop terms:\n"));
}

#[test]
fn inspection_returns_document_terms() {
    let index = index_of(&[("/notes/a.md", "# A\nRust Rust ownership")]);
    let inspection = inspect_document(&index, 0, 5).expect("inspect");

    assert_eq!(inspection.document.title, "A");
    assert!(inspection.top_terms.iter().any(|term| term.term == "rust"));
    assert_eq!(inspection.top_terms[0].term, "rust");
    assert_eq!(inspection.top_terms[0].total_frequency, 2);
    assert_eq!(inspection.preview, "# A Rust Rust ownership");
    let text = format_inspection(&inspection);
    assert!(text.starts_with("Document #0\nTitle: A\nPath: /notes/a.md\n"));
    assert!(text.ends_with("\nPreview:\n# A Rust Rust ownership\n"));
    assert!(matches!(inspect_document(&index, 9, 5), Err(AppError::MissingPath(ref m)) if m == "document id 9"));
    assert_eq!(document_top_terms(&index, 0, 1).len(), 1);
    assert_eq!(largest_documents(&index, 0).len(), 0);
}

#[test]
fn terms_are_ranked_by_frequency_then_documents_then_name() {
    let a = TermStat { term: "b".to_string(), total_frequency: 3, document_frequency: 1 };
    let b = TermStat { term: "a".to_string(), total_frequency: 3, document_frequency: 1 };
    let c = TermStat { term: "z".to_string(), total_frequency: 3, document_frequency: 2 };
    assert_eq!(compare_terms(&a, &b), Ordering::Greater);
    assert_eq!(compare_terms(&c, &a), Ordering::Less);
    assert_eq!(compare_terms(&a, &a), Ordering::Equal);
    let index = index_of(&[("/notes/a.md", "# A\nzeta zeta alpha"), ("/notes/b.md", "# B\nbeta alpha")]);
    let terms = top_terms(&index, 3);
    let names: Vec<&str> = terms.iter().map(|t| t.term.as_str()).collect();
    assert_eq!(names, vec!["alpha", "md", "zeta"]);
}

#[test]
fn term_list_text_is_aligned() {
    let terms = vec![TermStat { term: "rust".to_string(), total_frequency: 12, document_frequency: 3 }];
    assert_eq!(format_terms(&terms), "   1. rust               freq=12   docs=3\n");
    assert_eq!(format_terms(&[]), "  (none)\n");
}

#[test]
fn long_text_is_cut_for_display() {
    assert_eq!(truncate_display("abcdefgh", 5), "ab...");
    assert_eq!(truncate_display("abc", 5), "abc");
    assert_eq!(preview_content("  line one\nline two  ", 8), "line one...");
}

#[test]
fn report_contains_summary_terms_and_documents() {
    let index = index_of(&[("/notes/note.md", "# Note\nRust Rust report")]);
    let report = build_markdown_report(&index, 5, "7.00");

    assert!(report.starts_with("# RustNoteSearch Index Report\n\n## Summary\n\n- Root: `/notes`\n"));
    assert!(report.contains("## Top Terms"));
    assert!(report.contains("| 1 | `note` | 4 | 1 |"));
    assert!(report.contains("`rust` | 2 | 1 |"));
    assert!(report.contains("## Documents"));
    assert!(report.contains("| 0 | Note |"));
    assert!(report.contains("- Average tokens/document: 7.00\n"));
}

#[test]
fn markdown_cells_are_escaped() {
    assert_eq!(escape_markdown_cell("a|b\nc"), "a\\|b c");
}

#[test]
fn supported_extensions_are_detected() {
    assert_eq!(SupportedFileType::from_path("note.md"), Some(SupportedFileType::Markdown));
    assert_eq!(SupportedFileType::from_path("main.rs"), Some(SupportedFileType::Rust));
    assert_eq!(SupportedFileType::from_path("paper.pdf"), Some(SupportedFileType::Pdf));
    assert_eq!(SupportedFileType::from_path("image.png"), None);
}

#[test]
fn scan_skips_hidden_and_target_directories_by_name() {
    assert!(should_enter(0, true, ".hidden"));
    assert!(!should_enter(1, true, ".git"));
    assert!(!should_enter(1, true, "target"));
    assert!(!should_enter(2, true, ".cache"));
    assert!(should_enter(1, true, "notes"));
    assert!(should_enter(1, false, ".env"));
}

#[test]
fn candidates_are_sorted_by_path_components() {
    let items = vec![
        candidate_for("root/a-b.md").expect("md"),
        candidate_for("root/a/b.md").expect("md"),
        candidate_for("root/B.TXT").expect("txt"),
    ];
    assert!(candidate_for("root/x.png").is_none());
    let sorted = sort_candidates(items);
    let paths: Vec<&str> = sorted.iter().map(|c| c.path.as_str()).collect();
    assert_eq!(paths, vec!["root/B.TXT", "root/a/b.md", "root/a-b.md"]);
    assert_eq!(sorted[0].file_type, SupportedFileType::Text);
}

#[test]
fn loaded_index_version_is_checked() {
    assert!(check_index_version(INDEX_VERSION).is_ok());
    assert!(matches!(
        check_index_version(1),
        Err(AppError::IncompatibleIndex { expected, found: 1 }) if expected == INDEX_VERSION
    ));
}

#[test]
fn loaded_terms_are_put_in_order() {
    let index = index_of(&[("/notes/a.md", "# A\nzeta alpha")]);
    let mut entries = index.postings.clone();
    entries.reverse();
    let ordered = postings_in_term_order(entries).expect("distinct");
    assert!(check_terms_sorted(&ordered));
    let mut twice = index.postings.clone();
    twice.push(index.postings[0].clone());
    assert!(postings_in_term_order(twice).is_none());
}

#[test]
fn file_tree_of_index_paths() {
    let index = index_of(&[
        ("/notes/数据库/MySQL/index.md", "# MySQL\ntransaction"),
        ("/notes/a.md", "# A\nx"),
    ]);
    let tree = rust_note_search::tree::build_file_tree(&index);
    assert_eq!(
        tree,
        vec![
            "notes".to_string(),
            "|-- a.md".to_string(),
            "`-- 数据库".to_string(),
            "    `-- MySQL".to_string(),
            "        `-- index.md".to_string(),
        ]
    );
}

#[test]
fn frequency_totals_are_checked_against_usize() {
    let index = index_of(&[("/notes/a.md", "# A\nrust rust"), ("/notes/b.md", "# B\nrust")]);
    assert!(check_frequencies_fit(&index.postings));

    let at = index.postings.iter().position(|e| e.term == "rust").expect("rust");
    let mut huge = index.clone();
    huge.postings[at].postings[0].frequency = usize::MAX;
    assert!(!check_frequencies_fit(&huge.postings));
    huge.postings[at].postings.truncate(1);
    assert!(check_frequencies_fit(&huge.postings));
}

#[test]
fn report_documents_are_ordered_by_id_then_path() {
    let mut index = index_of(&[("/notes/b.md", "# B\nrust"), ("/notes/a.md", "# A\nrust"), ("/notes/c.md", "# C\nrust")]);
    index.documents[0].id = 5;
    index.documents[1].id = 5;
    index.documents[2].id = 1;
    index.documents[0].path = "/notes/z/b.md".to_string();
    index.documents[1].path = "/notes/y.md".to_string();
    let order = sorted_documents(&index.documents);
    let positions = order.iter().map(|o| o.position).collect::<Vec<_>>();
    assert_eq!(positions, vec![2, 1, 0]);
    let report = build_markdown_report(&index, 5, "1.00");
    let first = report.find("| 1 | C |").expect("row of document 1");
    let second = report.find("`/notes/y.md`").expect("row of y");
    let third = report.find("`/notes/z/b.md`").expect("row of z/b");
    assert!(first < second && second < third);
}

#[test]
fn reordered_postings_come_back_as_saved() {
    let index = index_of(&[("/notes/a.md", "# A\nzeta alpha rust"), ("/notes/b.md", "# B\nrust beta")]);
    let mut entries = index.postings.clone();
    entries.reverse();
    entries.swap(0, 2);
    let restored = postings_in_term_order(entries).expect("distinct terms");
    let saved_terms = index.postings.iter().map(|e| e.term.clone()).collect::<Vec<_>>();
    let restored_terms = restored.iter().map(|e| e.term.clone()).collect::<Vec<_>>();
    assert_eq!(restored_terms, saved_terms);
    for (a, b) in restored.iter().zip(index.postings.iter()) {
        let da = a.postings.iter().map(|p| (p.doc_id, p.frequency, p.occurrences.clone())).collect::<Vec<_>>();
        let db = b.postings.iter().map(|p| (p.doc_id, p.frequency, p.occurrences.clone())).collect::<Vec<_>>();
        assert_eq!(da, db);
    }
}

#[test]
fn summary_contains_top_terms_and_largest_documents() {
    let index = index_of(&[("/notes/a.md", "# A\nRust Rust search"), ("/notes/b.md", "# B\nlocal knowledge base")]);

    let summary = summarize_index(&index, 3);

    assert_eq!(summary.document_count, 2);
    assert!(!summary.top_terms.is_empty());
    assert!(!summary.largest_documents.is_empty());
}

#[test]
fn document_inspection_returns_document_terms() {
    let index = index_of(&[("/notes/a.md", "# A\nRust Rust ownership")]);

    let inspection = inspect_document(&index, 0, 5).expect("inspect");

    assert_eq!(inspection.document.title, "A");
    assert!(inspection.top_terms.iter().any(|term| term.term == "rust"));
}

#[test]
fn index_records_frequency_and_occurrences() {
    let index = index_of(&[("/notes/one.md", "# One\nRust Rust ownership")]);
    let rust_posting = postings(&index, "rust").first().expect("rust posting").clone();

    assert_eq!(index.documents.len(), 1);
    assert_eq!(rust_posting.frequency, 2);
    assert_eq!(rust_posting.doc_id, 0);
    assert!(rust_posting.occurrences.len() >= 2);
    assert!(rust_posting.occurrences[0].token_position < rust_posting.occurrences[1].token_position);
}

#[test]
fn index_builds_multiple_documents() {
    let index = index_of(&[("/notes/one.md", "# One\nRust ownership"), ("/notes/two.txt", "local search index")]);

    assert_eq!(index.metadata.document_count, 2);
    assert!(index.postings.iter().any(|e| e.term == "rust"));
    assert!(index.postings.iter().any(|e| e.term == "search"));
}

#[test]
fn search_result_keeps_multiple_matches_in_one_document() {
    let index = index_of(&[("/notes/multi.md", "# Multi\nOwnership starts here.\nA later paragraph mentions ownership again.")]);
    let engine = SearchEngine::new(&index, SimpleTokenizer::default());

    let results = engine.search("ownership", 10).expect("search");

    assert_eq!(results[0].title, "Multi");
    assert!(results[0].matches.len() >= 2);
    assert!(results[0].matches[0].char_start < results[0].matches[1].char_start);
}

#[test]
fn search_result_keeps_more_than_eight_matches_in_one_document() {
    let repeated = (0..12).map(|idx| format!("Paragraph {idx} mentions ownership.")).collect::<Vec<_>>().join("\n");
    let content = format!("# Many\n{repeated}");
    let index = index_of(&[("/notes/many.md", content.as_str())]);
    let engine = SearchEngine::new(&index, SimpleTokenizer::default());

    let results = engine.search("ownership", 10).expect("search");

    assert_eq!(results[0].matches.len(), 12);
}

#[test]
fn file_tree_uses_index_paths() {
    let index = index_of(&[("/notes/数据库/MySQL/index.md", "# MySQL\ntransaction")]);
    let tree = rust_note_search::tree::build_file_tree(&index).join("\n");

    assert!(tree.contains("数据库"));
    assert!(tree.contains("MySQL"));
    assert!(tree.contains("index.md"));
}

#[test]
fn every_document_with_a_query_term_is_found() {
    let index = index_of(&[
        ("/notes/a.md", "# A\nalpha rust"),
        ("/notes/b.md", "# B\nbeta"),
        ("/notes/c.md", "# C\nrust gamma"),
    ]);
    let engine = SearchEngine::new(&index, SimpleTokenizer::default());
    let any = engine.search("rust", 10).expect("search");
    assert_eq!(any.iter().map(|r| r.doc_id).collect::<Vec<_>>(), vec![0, 2]);

    let options = rust_note_search::search::SearchOptions { limit: 10, mode: rust_note_search::model::SearchMode::All };
    let all = engine.search_checked("gamma rust", options).expect("defined").expect("search");
    assert_eq!(all.iter().map(|r| r.doc_id).collect::<Vec<_>>(), vec![2]);
    assert_eq!(all[0].matched_terms, vec!["gamma".to_string(), "rust".to_string()]);
}

#[test]
fn documents_are_indexed_in_path_order() {
    let builder = IndexBuilder::new(SimpleTokenizer::default());
    let files = [("/notes/z.md", "# Z\nzeta"), ("/notes/a/b.md", "# B\nbeta"), ("/notes/a.md", "# A\nalpha")];
    let parsed = files
        .iter()
        .map(|(path, content)| {
            let file_type = SupportedFileType::from_path(path).expect("supported");
            parse_document(builder.tokenizer_ref(), path, file_type, 0, content.len() as u64, content, None)
        })
        .collect();
    let index = rust_note_search::indexing::index_documents("/notes", parsed, 9).expect("fits");
    let paths = index.documents.iter().map(|d| d.path.clone()).collect::<Vec<_>>();
    assert_eq!(paths, vec!["/notes/a/b.md", "/notes/a.md", "/notes/z.md"]);
    assert_eq!(index.documents.iter().map(|d| d.id).collect::<Vec<_>>(), vec![0, 1, 2]);
    assert_eq!(index.metadata.document_count, 3);
    assert_eq!(index.metadata.version, INDEX_VERSION);
    assert_eq!(index.metadata.created_secs, 9);
}
