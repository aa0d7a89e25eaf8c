use rust_note_search::embedding::{batch_ranges, check_chunk_vectors, check_embeddings, order_by_index};
use rust_note_search::error::AppError;
use rust_note_search::index::build_from_parsed;
use rust_note_search::model::{SupportedFileType, TokenOccurrence, ParsedDocument};
use rust_note_search::parser::SimpleTokenizer;
use rust_note_search::vector::{build_chunks, page_for_range, point_id, split_text_into_chunks, VectorSearchHit};

#[test]
fn chunker_keeps_short_text_as_one_chunk() {
    let chunks = split_text_into_chunks("hello 世界");

    assert_eq!(chunks.len(), 1);
    assert_eq!(chunks[0].0, "hello 世界");
}

#[test]
fn chunker_handles_chinese_boundaries() {
    let text = "知识库".repeat(300);
    let chunks = split_text_into_chunks(&text);

    assert!(chunks.len() > 1);
    for (chunk, _, _) in chunks {
        assert!(chunk.is_char_boundary(chunk.len()));
    }
}

#[test]
fn point_ids_are_stable() {
    assert_eq!(point_id(7, 3), 7_000_003);
}

#[test]
fn chunks_overlap_by_one_hundred_characters() {
    let text = "a".repeat(1500);
    let chunks = split_text_into_chunks(&text);
    let ranges: Vec<(usize, usize)> = chunks.iter().map(|c| (c.1, c.2)).collect();
    assert_eq!(ranges, vec![(0, 700), (600, 1300), (1200, 1500)]);
    assert!(split_text_into_chunks("").is_empty());
}

fn doc(path: &str, content: &str, tokens: Vec<TokenOccurrence>) -> ParsedDocument {
    ParsedDocument {
        path: path.to_string(),
        title: "T".to_string(),
        file_type: SupportedFileType::Pdf,
        modified_secs: 0,
        size_bytes: 0,
        content: content.to_string(),
        tokens,
    }
}

fn token(text: &str, position: usize, start: usize, page: Option<u32>) -> TokenOccurrence {
    TokenOccurrence {
        token: text.to_string(),
        position,
        char_start: start,
        char_end: start + text.len(),
        page,
    }
}

#[test]
fn chunks_carry_document_fields_and_pages() {
    let index = build_from_parsed(
        "/r",
        vec![doc("/r/p.pdf", "alpha beta", vec![token("alpha", 0, 0, Some(4)), token("beta", 1, 6, Some(5))])],
        0,
    );
    let chunks = build_chunks(&index);
    assert_eq!(chunks.len(), 1);
    assert_eq!(chunks[0].file_type, "Pdf");
    assert_eq!(chunks[0].embedding_text, "T\n/r/p.pdf\nalpha beta");
    assert_eq!(chunks[0].page, Some(4));
    assert_eq!(page_for_range(&index, 0, 5, 10), Some(5));
    assert_eq!(page_for_range(&index, 0, 11, 20), None);
    let _ = SimpleTokenizer::default();
}

#[test]
fn vector_hit_becomes_a_match() {
    let hit = VectorSearchHit {
        doc_id: 0,
        path: "p".to_string(),
        title: "t".to_string(),
        text: "semantic\ndatabase".to_string(),
        start_char: 3,
        end_char: 9,
        page: Some(2),
    };
    let m = hit.to_search_match(&SimpleTokenizer::default(), "Semantic search");
    assert_eq!(m.snippet, "semantic database");
    assert_eq!(m.matched_terms, vec!["semantic".to_string(), "search".to_string()]);
    assert_eq!((m.char_start, m.char_end, m.page, m.token_position), (3, 9, Some(2), 0));
}

#[test]
fn batches_are_cut_like_slice_chunks() {
    assert_eq!(batch_ranges(25, 10), vec![(0, 10), (10, 20), (20, 25)]);
    assert!(batch_ranges(0, 10).is_empty());
}

#[test]
fn embedding_answers_are_ordered_and_checked() {
    let order = order_by_index(&vec![2, 0, 1]);
    let positions: Vec<usize> = order.iter().map(|a| a.position).collect();
    assert_eq!(positions, vec![1, 2, 0]);
    assert!(check_embeddings(3, &vec![3, 3], 2).is_ok());
    assert!(matches!(check_embeddings(3, &vec![3, 4], 2), Err(AppError::Embedding(ref m)) if m == "embedding dimension mismatch: expected 3, got 4"));
    assert!(matches!(check_embeddings(3, &vec![3], 2), Err(AppError::Embedding(ref m)) if m == "embedding response count mismatch: expected 2, got 1"));
    assert!(check_chunk_vectors(2, 2).is_ok());
    assert!(matches!(check_chunk_vectors(2, 1), Err(AppError::Qdrant(ref m)) if m == "chunk/vector count mismatch: 2 chunks, 1 vectors"));
}
