use rust_note_search::config::{
    env_or_default, parse_usize, EmbeddingConfig, QdrantConfig, DEFAULT_EMBED_DIMENSIONS,
    DEFAULT_EMBED_MODEL_NAME, DEFAULT_HYBRID_SCORE_THRESHOLD_HUNDREDTHS, DEFAULT_QDRANT_COLLECTION,
};
use rust_note_search::error::AppError;

#[test]
fn qdrant_config_uses_defaults() {
    let config = QdrantConfig::from_env(None, None);

    assert!(!config.url.is_empty());
    assert!(!config.collection.is_empty());
}

#[test]
fn default_constants_match_plan() {
    assert_eq!(DEFAULT_EMBED_MODEL_NAME, "text-embedding-v3");
    assert_eq!(DEFAULT_EMBED_DIMENSIONS, 1024);
    assert_eq!(DEFAULT_QDRANT_COLLECTION, "cheesebase_chunks");
    assert_eq!(DEFAULT_HYBRID_SCORE_THRESHOLD_HUNDREDTHS as f64 / 100.0, 0.45);
}

#[test]
fn qdrant_settings_are_trimmed() {
    let config = QdrantConfig::from_env(Some(" http://db:6333// ".to_string()), Some("   ".to_string()));
    assert_eq!(config.url, "http://db:6333");
    assert_eq!(config.collection, "cheesebase_chunks");
}

#[test]
fn blank_values_fall_back_to_defaults() {
    assert_eq!(env_or_default(Some("  x ".to_string()), "d"), "x");
    assert_eq!(env_or_default(Some(" ".to_string()), "d"), "d");
    assert_eq!(env_or_default(None, "d"), "d");
}

#[test]
fn whole_numbers_are_parsed_like_std() {
    assert_eq!(parse_usize("1024"), Some(1024));
    assert_eq!(parse_usize("+7"), Some(7));
    assert_eq!(parse_usize(""), None);
    assert_eq!(parse_usize("+"), None);
    assert_eq!(parse_usize("12a"), None);
    assert_eq!(parse_usize("99999999999999999999999"), None);
    assert_eq!(parse_usize(&usize::MAX.to_string()), Some(usize::MAX));
}

#[test]
fn embedding_config_requires_key_and_dashscope() {
    let missing = EmbeddingConfig::from_env(None, None, None, None, None);
    assert!(matches!(missing, Err(AppError::Config(ref m)) if m == "缺少 EMBED_API_KEY 环境变量"));

    let other = EmbeddingConfig::from_env(Some("openai".to_string()), Some("k".to_string()), None, None, None);
    assert!(matches!(other, Err(AppError::Config(ref m)) if m == "当前版本仅支持 dashscope embedding，不支持 openai"));

    let bad = EmbeddingConfig::from_env(None, Some("k".to_string()), None, None, Some("x".to_string()));
    assert!(matches!(bad, Err(AppError::Config(ref m)) if m == "EMBED_DIMENSIONS 必须是正整数"));

    let ok = EmbeddingConfig::from_env(
        None,
        Some(" key ".to_string()),
        None,
        Some("https://example.com/v1/".to_string()),
        Some(" 512 ".to_string()),
    )
    .expect("config");
    assert_eq!(ok.api_key, "key");
    assert_eq!(ok.model_type, "dashscope");
    assert_eq!(ok.model_name, "text-embedding-v3");
    assert_eq!(ok.base_url, "https://example.com/v1");
    assert_eq!(ok.dimensions, 512);
}
