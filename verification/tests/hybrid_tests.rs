use rust_note_search::cli::{CliSearchMode, CliStrategy};
use rust_note_search::hybrid::{group_by_document, has_all_terms, merge_hybrid_result, same_match, unique_terms};
use rust_note_search::model::{Document, SearchMatch, SearchMode, SearchResult, SearchStrategy, SupportedFileType};

fn doc() -> Document {
    Document {
        id: 0,
        path: "/notes/note.md".to_string(),
        title: "Note".to_string(),
        file_type: SupportedFileType::Markdown,
        modified_secs: 0,
        size_bytes: 0,
        token_count: 3,
        content: "semantic database".to_string(),
    }
}

fn m(start: usize, end: usize, snippet: &str) -> SearchMatch {
    SearchMatch {
        snippet: snippet.to_string(),
        matched_terms: vec!["meaning".to_string()],
        token_position: 0,
        char_start: start,
        char_end: end,
        page: None,
    }
}

#[test]
fn vector_only_document_gets_a_result() {
    let result = merge_hybrid_result(None, 0, &doc(), &["meaning".to_string(), "meaning".to_string()], vec![m(0, 17, "semantic database")]);
    assert_eq!(result.doc_id, 0);
    assert_eq!(result.title, "Note");
    assert_eq!(result.snippet, "semantic database");
    assert_eq!(result.matched_terms, vec!["meaning".to_string()]);
    assert_eq!(result.matches.len(), 1);
}

#[test]
fn keyword_result_gains_new_vector_matches_only() {
    let base = SearchResult {
        doc_id: 0,
        title: "Note".to_string(),
        path: "/notes/note.md".to_string(),
        matched_terms: vec!["semantic".to_string()],
        snippet: String::new(),
        matches: vec![m(0, 8, "[semantic] database")],
        hits: Vec::new(),
    };
    let result = merge_hybrid_result(
        Some(base),
        0,
        &doc(),
        &["database".to_string(), "semantic".to_string()],
        vec![m(0, 8, "dup"), m(9, 17, "database"), m(9, 17, "dup again")],
    );
    assert_eq!(result.matches.len(), 2);
    assert_eq!(result.matches[1].snippet, "database");
    assert_eq!(result.snippet, "[semantic] database");
    assert_eq!(result.matched_terms, vec!["database".to_string(), "semantic".to_string()]);
    assert!(has_all_terms(&result, &["semantic".to_string(), "database".to_string()]));
    assert!(!has_all_terms(&result, &["missing".to_string()]));
}

#[test]
fn matches_are_the_same_by_place() {
    assert!(same_match(&m(1, 2, "a"), &m(1, 2, "b")));
    assert!(!same_match(&m(1, 2, "a"), &m(1, 3, "a")));
    assert_eq!(unique_terms(&["b".to_string(), "a".to_string(), "b".to_string()]), vec!["b".to_string(), "a".to_string()]);
}

#[test]
fn command_line_choices_convert() {
    assert_eq!(SearchMode::from(CliSearchMode::All), SearchMode::All);
    assert_eq!(SearchMode::from(CliSearchMode::Any), SearchMode::Any);
    assert_eq!(SearchStrategy::from(CliStrategy::Hybrid), SearchStrategy::Hybrid);
}

#[test]
fn results_and_hits_are_grouped_by_document() {
    let groups = group_by_document(&vec![4, 1], &vec![1, 7, 1, 4, 7]);
    let ids = groups.iter().map(|g| g.doc_id).collect::<Vec<_>>();
    assert_eq!(ids, vec![4, 1, 7]);
    assert_eq!(groups[0].keyword, vec![0]);
    assert_eq!(groups[0].hits, vec![3]);
    assert_eq!(groups[1].keyword, vec![1]);
    assert_eq!(groups[1].hits, vec![0, 2]);
    assert_eq!(groups[2].keyword, Vec::<usize>::new());
    assert_eq!(groups[2].hits, vec![1, 4]);
    assert!(group_by_document(&Vec::new(), &Vec::new()).is_empty());
}
