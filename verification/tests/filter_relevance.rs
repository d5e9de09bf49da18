use scp::chunker::Chunk;
use scp::relevance::RelevanceScorer;

/// The score of a text: the share of the query terms it contains, one half
/// without terms.
fn score_text(text: &str, query_terms: &Vec<String>) -> f32 {
    let (found, total) = RelevanceScorer::score_text(text, query_terms);
    if total == 0 {
        0.5
    } else {
        (found as f32 / total as f32).clamp(0.0, 1.0)
    }
}

/// A chunk's score from its key.
fn chunk_score(c: &Chunk, query_terms: &Vec<String>) -> f32 {
    if query_terms.is_empty() {
        0.5
    } else {
        c.score as f32 / query_terms.len() as f32
    }
}

#[test]
fn test_empty_query_returns_neutral() {
    let text = "some random text";
    let query_terms: Vec<String> = vec![];
    assert_eq!(score_text(text, &query_terms), 0.5);
}

#[test]
fn test_matching_chunk_scores_higher() {
    let mut chunks = vec![
        Chunk::new("this is about database".to_string(), 0),
        Chunk::new("random unrelated content".to_string(), 1),
        Chunk::new("database optimization tips".to_string(), 2),
    ];
    let query_terms = vec!["database".to_string()];
    RelevanceScorer::score_chunks(&mut chunks, &query_terms);

    assert_eq!(chunk_score(&chunks[0], &query_terms), 1.0);
    assert_eq!(chunk_score(&chunks[2], &query_terms), 1.0);
    assert_eq!(chunk_score(&chunks[1], &query_terms), 0.0);
    assert!(chunks[0].score > chunks[1].score);
    assert!(chunks[2].score > chunks[1].score);
}

#[test]
fn test_no_match_scores_zero() {
    let mut chunks = vec![
        Chunk::new("apple orange banana".to_string(), 0),
        Chunk::new("red green blue".to_string(), 1),
        Chunk::new("cat dog bird".to_string(), 2),
    ];
    let query_terms = vec!["database".to_string(), "server".to_string()];
    RelevanceScorer::score_chunks(&mut chunks, &query_terms);
    for c in &chunks {
        assert_eq!(chunk_score(c, &query_terms), 0.0);
    }
}

#[test]
fn test_score_text_partial_match() {
    let text = "database and server configuration";
    let query_terms = vec![
        "database".to_string(),
        "server".to_string(),
        "network".to_string(),
        "storage".to_string(),
    ];
    assert_eq!(score_text(text, &query_terms), 0.5);
    assert_eq!(RelevanceScorer::score_text(text, &query_terms), (2, 4));
}

#[test]
fn test_score_text_full_match() {
    let text = "database server network storage";
    let query_terms = vec![
        "database".to_string(),
        "server".to_string(),
        "network".to_string(),
        "storage".to_string(),
    ];
    assert_eq!(score_text(text, &query_terms), 1.0);
}

#[test]
fn test_score_text_empty_query() {
    let text = "some text content";
    let query_terms: Vec<String> = vec![];
    assert_eq!(score_text(text, &query_terms), 0.5);
}

#[test]
fn relevance_test_case_insensitive() {
    let text = "ERROR occurred in system";
    let query_terms = vec!["error".to_string()];
    assert_eq!(score_text(text, &query_terms), 1.0);
}

#[test]
fn scoring_keeps_texts_and_positions() {
    let mut chunks = vec![Chunk::new("Alpha beta".to_string(), 7), Chunk::new("gamma".to_string(), 9)];
    let terms = vec!["alpha".to_string(), "beta".to_string(), "Gamma".to_string()];
    RelevanceScorer::score_chunks(&mut chunks, &terms);
    assert_eq!((chunks[0].text.as_str(), chunks[0].index, chunks[0].score), ("Alpha beta", 7, 2));
    // Terms are matched as given against the lower-cased text.
    assert_eq!((chunks[1].text.as_str(), chunks[1].index, chunks[1].score), ("gamma", 9, 0));
}
