use scp::budget::BudgetEnforcer;
use scp::chunker::{Chunk, ChunkSplitter, ChunkStrategy};
use scp::token_count::count_tokens;

#[test]
fn test_truncate_under_budget() {
    let text = "Hello, World!";
    let result = BudgetEnforcer::truncate_to_budget(text, 100);
    assert_eq!(result, text);
}

#[test]
fn test_truncate_over_budget() {
    let text = "a".repeat(1000);
    let result = BudgetEnforcer::truncate_to_budget(&text, 100);
    assert!(result.ends_with("..."));
    let tokens = count_tokens(&result);
    assert!(tokens <= 100 || tokens >= 200);
}

#[test]
fn test_truncate_minimum_delivery() {
    let text = "a".repeat(10000);
    let result = BudgetEnforcer::truncate_to_budget(&text, 50);
    let tokens = count_tokens(&result);
    assert!(tokens >= 200);
}

#[test]
fn test_truncate_preserves_boundaries() {
    let text = "Hello, 世界! This is a test.";
    let result = BudgetEnforcer::truncate_to_budget(text, 5);
    assert!(result.is_ascii() || result.chars().all(|c| !c.is_control()));
}

#[test]
fn truncation_keeps_the_longest_prefix_within_the_target() {
    // 1000 ASCII bytes are 286 tokens; 200 tokens allow 700 bytes.
    let text = "a".repeat(1000);
    let result = BudgetEnforcer::truncate_to_budget(&text, 100);
    assert_eq!(result, format!("{}...", "a".repeat(700)));
    // A budget above the minimum is the target itself: 300 tokens fit all.
    let text = "a".repeat(2000);
    let result = BudgetEnforcer::truncate_to_budget(&text, 300);
    assert_eq!(result, format!("{}...", "a".repeat(1050)));
}

#[test]
fn truncation_never_splits_a_character() {
    // 600 three-byte characters: 1800 bytes, all non-ASCII, 720 tokens.
    let text = "世".repeat(600);
    let result = BudgetEnforcer::truncate_to_budget(&text, 10);
    assert!(result.ends_with("..."));
    let kept = &result[..result.len() - 3];
    assert!(text.starts_with(kept));
    assert!(count_tokens(kept) <= 200);
    assert_eq!(kept.len() % 3, 0);
}

fn chunk(text: &str, index: usize, score: u64) -> Chunk {
    let mut c = Chunk::new(text.to_string(), index);
    c.score = score;
    c
}

#[test]
fn selection_prefers_high_scores_and_keeps_document_order() {
    let chunks = vec![
        chunk("chunk one", 0, 50),
        chunk("chunk two", 1, 90),
        chunk("chunk three", 2, 30),
        chunk("chunk four", 3, 70),
        chunk("chunk five", 4, 20),
    ];
    // Each chunk is 3 or 4 tokens; 10 tokens fit the three best.
    let (selected, total) = BudgetEnforcer::select_chunks(chunks, 10, 0);
    assert_eq!(total, 5);
    let indices: Vec<usize> = selected.iter().map(|c| c.index).collect();
    assert_eq!(indices, vec![0, 1, 3]);
}

#[test]
fn selection_forces_the_best_chunk_when_nothing_fits() {
    let chunks = vec![chunk("low score", 0, 10), chunk("high score", 1, 90)];
    let (selected, total) = BudgetEnforcer::select_chunks(chunks, 0, 0);
    assert_eq!(total, 2);
    assert_eq!(selected.len(), 1);
    assert_eq!(selected[0].score, 90);
}

#[test]
fn selection_of_nothing_is_nothing() {
    let (selected, total) = BudgetEnforcer::select_chunks(vec![], 100, 0);
    assert!(selected.is_empty());
    assert_eq!(total, 0);
}

#[test]
fn reassembly_joins_with_blank_lines() {
    let chunks = vec![chunk("first chunk", 0, 0), chunk("second chunk", 1, 0), chunk("third chunk", 2, 0)];
    assert_eq!(BudgetEnforcer::reassemble(&chunks), "first chunk\n\nsecond chunk\n\nthird chunk");
    assert_eq!(BudgetEnforcer::reassemble(&[]), "");
    assert_eq!(BudgetEnforcer::reassemble(&chunks[..1]), "first chunk");
}

#[test]
fn paragraphs_are_trimmed_and_numbered() {
    let splitter = ChunkSplitter::new(ChunkStrategy::Paragraph);
    let chunks = splitter.split("  foo  \n\n  bar  ");
    let texts: Vec<&str> = chunks.iter().map(|c| c.text.as_str()).collect();
    assert_eq!(texts, vec!["foo", "bar"]);
    assert_eq!(chunks[1].index, 1);
    assert!(splitter.split("").is_empty());
    // Three newlines: the odd one joins the next piece and is trimmed away.
    let chunks = splitter.split("a\n\n\nb");
    let texts: Vec<&str> = chunks.iter().map(|c| c.text.as_str()).collect();
    assert_eq!(texts, vec!["a", "b"]);
}

#[test]
fn lines_skip_blank_ones() {
    let splitter = ChunkSplitter::new(ChunkStrategy::Line);
    let chunks = splitter.split("a\n\n b \r\nc\n");
    let texts: Vec<&str> = chunks.iter().map(|c| c.text.as_str()).collect();
    assert_eq!(texts, vec!["a", "b", "c"]);
}

#[test]
fn plain_text_with_the_json_strategy_is_one_chunk() {
    let splitter = ChunkSplitter::new(ChunkStrategy::JsonElement);
    assert!(splitter.split("").is_empty());
    let chunks = splitter.split("[1, 2]");
    assert_eq!(chunks.len(), 1);
    assert_eq!(chunks[0].text, "[1, 2]");
}

#[test]
fn fixed_windows_overlap() {
    let text = "word ".repeat(100);
    let splitter = ChunkSplitter::new(ChunkStrategy::FixedSize { tokens: 10, overlap: 2 });
    let chunks = splitter.split(&text);
    // "word" is 2 tokens: 5 words per window, each window 3 words further on.
    assert!(chunks.len() > 1);
    assert_eq!(chunks[0].text, "word word word word word");
    for c in &chunks {
        assert!(!c.text.is_empty());
    }
    let single = ChunkSplitter::new(ChunkStrategy::FixedSize { tokens: 200, overlap: 20 }).split("short text");
    assert_eq!(single.len(), 1);
    assert_eq!(single[0].text, "short text");
}

#[test]
fn automatic_strategy_follows_the_text_shape() {
    assert_eq!(ChunkSplitter::auto("paragraph 1\n\nparagraph 2").strategy, ChunkStrategy::Paragraph);
    assert_eq!(ChunkSplitter::auto("line1\nline2\nline3\nline4\nline5\nline6").strategy, ChunkStrategy::Line);
    assert_eq!(
        ChunkSplitter::auto("short").strategy,
        ChunkStrategy::FixedSize { tokens: 200, overlap: 20 }
    );
    assert_eq!(
        ChunkSplitter::auto("1\n2\n3\n4\n5\n").strategy,
        ChunkStrategy::FixedSize { tokens: 200, overlap: 20 }
    );
}

/// The chunks of a JSON array: each element serialized, then numbered.
fn split_json_array(splitter: &ChunkSplitter, array: &[serde_json::Value]) -> Vec<Chunk> {
    let texts: Vec<String> = array.iter().map(|v| v.to_string()).collect();
    splitter.split_serialized_elements(&texts)
}

#[test]
fn test_json_element_split() {
    let array = vec![serde_json::Value::from(1), serde_json::Value::from(2), serde_json::Value::from(3)];
    let splitter = ChunkSplitter::new(ChunkStrategy::JsonElement);
    let chunks = split_json_array(&splitter, &array);
    assert_eq!(chunks.len(), 3);
    assert_eq!(chunks[0].text, "1");
    assert_eq!(chunks[1].text, "2");
    assert_eq!(chunks[2].text, "3");
}

#[test]
fn test_json_element_single() {
    let mut obj = serde_json::Map::new();
    obj.insert("key".to_string(), serde_json::Value::from("val"));
    let array = vec![serde_json::Value::Object(obj)];
    let splitter = ChunkSplitter::new(ChunkStrategy::JsonElement);
    let chunks = split_json_array(&splitter, &array);
    assert_eq!(chunks.len(), 1);
    assert!(chunks[0].text.contains("key"));
}

#[test]
fn test_measure_response_tokens() {
    let mut result = serde_json::Map::new();
    result.insert("message".to_string(), serde_json::Value::from("Hello, World!"));
    let mut response = serde_json::Map::new();
    response.insert("jsonrpc".to_string(), serde_json::Value::from("2.0"));
    response.insert("id".to_string(), serde_json::Value::from(1));
    response.insert("result".to_string(), serde_json::Value::Object(result));
    let text = serde_json::to_string(&serde_json::Value::Object(response)).unwrap_or_default();
    let tokens = count_tokens(&text);
    assert!(tokens > 0);
}
