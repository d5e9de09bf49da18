use scp::budget::BudgetEnforcer;
use scp::chunker::{Chunk, ChunkSplitter, ChunkStrategy};
use scp::content_type::{ContentType, ContentTypeRouter};
use scp::dedup::{DedupFilter, DeliveryLog};
use scp::delivery_logger::DeliveryLogger;
use scp::json::Json;
use scp::pipeline::extract_text;
use scp::progressive::ProgressiveDisclosureAnnotator;
use scp::protocol::{JsonRpcResponse, RequestId};
use scp::token_count::count_tokens;

// Relevance scores become order keys: non-negative floats order like their bits.
fn chunk(text: &str, index: usize, score: f32) -> Chunk {
    Chunk { text: text.to_string(), index, score: score.to_bits() as u64 }
}

fn s(v: &str) -> Json {
    Json::Str(v.to_string())
}

fn obj(members: Vec<(&str, Json)>) -> Json {
    Json::Object(members.into_iter().map(|(k, v)| (k.to_string(), v)).collect())
}

fn num(n: i64) -> Json {
    Json::Number(n.to_string())
}

#[test]
fn test_enforce_response() {
    let mut response = JsonRpcResponse {
        jsonrpc: "2.0".to_string(),
        id: Some(RequestId::Number(1)),
        result: Some(obj(vec![("content", s(&"a".repeat(1000)))])),
        error: None,
    };
    BudgetEnforcer::enforce(&mut response, 100);
    if let Some(Json::Object(members)) = &response.result {
        if let Some((_, Json::Str(text))) = members.iter().find(|(k, _)| k == "content") {
            assert!(text.ends_with("..."));
        }
    }
}

#[test]
fn test_select_chunks_respects_budget() {
    let chunks = vec![
        chunk("chunk one", 0, 0.5),
        chunk("chunk two", 1, 0.9),
        chunk("chunk three", 2, 0.3),
        chunk("chunk four", 3, 0.7),
        chunk("chunk five", 4, 0.2),
    ];
    let (selected, total) = BudgetEnforcer::select_chunks(chunks, 30, 0);
    assert_eq!(total, 5);
    assert!(selected.len() >= 2);
    for i in 1..selected.len() {
        assert!(selected[i].index > selected[i - 1].index);
    }
}

#[test]
fn test_select_chunks_preserves_document_order() {
    let chunks = vec![chunk("first", 0, 0.3), chunk("second", 1, 0.9), chunk("third", 2, 0.5)];
    let (selected, _) = BudgetEnforcer::select_chunks(chunks, 100, 0);
    assert_eq!(selected.len(), 3);
    assert_eq!(selected[0].index, 0);
    assert_eq!(selected[1].index, 1);
    assert_eq!(selected[2].index, 2);
}

#[test]
fn test_select_chunks_empty_budget_force_includes_top() {
    let chunks = vec![chunk("low score", 0, 0.1), chunk("high score", 1, 0.9)];
    let (selected, total) = BudgetEnforcer::select_chunks(chunks, 0, 0);
    assert_eq!(total, 2);
    assert_eq!(selected.len(), 1);
    assert_eq!(selected[0].score, 0.9f32.to_bits() as u64);
}

#[test]
fn test_select_chunks_all_fit() {
    let chunks = vec![chunk("a", 0, 0.5), chunk("b", 1, 0.7), chunk("c", 2, 0.3)];
    let (selected, total) = BudgetEnforcer::select_chunks(chunks, 1000, 0);
    assert_eq!(total, 3);
    assert_eq!(selected.len(), 3);
    assert_eq!(selected[0].index, 0);
    assert_eq!(selected[1].index, 1);
    assert_eq!(selected[2].index, 2);
}

#[test]
fn test_reassemble_joins_with_separator() {
    let chunks = vec![chunk("first chunk", 0, 0.5), chunk("second chunk", 1, 0.7), chunk("third chunk", 2, 0.3)];
    let result = BudgetEnforcer::reassemble(&chunks);
    assert_eq!(result, "first chunk\n\nsecond chunk\n\nthird chunk");
}

#[test]
fn test_reassemble_empty() {
    let chunks: Vec<Chunk> = vec![];
    let result = BudgetEnforcer::reassemble(&chunks);
    assert_eq!(result, "");
}

#[test]
fn test_reassemble_single_chunk() {
    let chunks = vec![chunk("only chunk", 0, 0.5)];
    let result = BudgetEnforcer::reassemble(&chunks);
    assert_eq!(result, "only chunk");
}

#[test]
fn test_paragraph_split() {
    let splitter = ChunkSplitter::new(ChunkStrategy::Paragraph);
    let chunks = splitter.split("foo\n\nbar\n\nbaz");
    assert_eq!(chunks.len(), 3);
    assert_eq!(chunks[0].text, "foo");
    assert_eq!(chunks[1].text, "bar");
    assert_eq!(chunks[2].text, "baz");
}

#[test]
fn test_paragraph_empty_input() {
    let splitter = ChunkSplitter::new(ChunkStrategy::Paragraph);
    assert_eq!(splitter.split("").len(), 0);
}

#[test]
fn test_paragraph_single_chunk() {
    let splitter = ChunkSplitter::new(ChunkStrategy::Paragraph);
    let chunks = splitter.split("hello world");
    assert_eq!(chunks.len(), 1);
    assert_eq!(chunks[0].text, "hello world");
}

#[test]
fn test_line_split() {
    let splitter = ChunkSplitter::new(ChunkStrategy::Line);
    let chunks = splitter.split("a\nb\nc");
    assert_eq!(chunks.len(), 3);
    assert_eq!(chunks[0].text, "a");
    assert_eq!(chunks[1].text, "b");
    assert_eq!(chunks[2].text, "c");
}

#[test]
fn test_line_empty_input() {
    let splitter = ChunkSplitter::new(ChunkStrategy::Line);
    assert_eq!(splitter.split("").len(), 0);
}

#[test]
fn test_fixed_size_split() {
    let text = "word ".repeat(100);
    let splitter = ChunkSplitter::new(ChunkStrategy::FixedSize { tokens: 10, overlap: 2 });
    let chunks = splitter.split(&text);
    assert!(chunks.len() > 1);
    for chunk in &chunks {
        assert!(!chunk.text.is_empty());
    }
}

#[test]
fn test_fixed_size_single_chunk() {
    let splitter = ChunkSplitter::new(ChunkStrategy::FixedSize { tokens: 200, overlap: 20 });
    let chunks = splitter.split("short text");
    assert_eq!(chunks.len(), 1);
    assert_eq!(chunks[0].text, "short text");
}

#[test]
fn test_chunk_indices_sequential() {
    let splitter = ChunkSplitter::new(ChunkStrategy::Paragraph);
    let chunks = splitter.split("foo\n\nbar\n\nbaz");
    for (i, chunk) in chunks.iter().enumerate() {
        assert_eq!(chunk.index, i);
    }
}

#[test]
fn test_paragraph_strips_whitespace() {
    let splitter = ChunkSplitter::new(ChunkStrategy::Paragraph);
    let chunks = splitter.split("  foo  \n\n  bar  ");
    assert_eq!(chunks.len(), 2);
    assert_eq!(chunks[0].text, "foo");
    assert_eq!(chunks[1].text, "bar");
}

#[test]
fn test_chunk_default_score() {
    let chunk = Chunk::new("test".to_string(), 0);
    assert_eq!(chunk.score, 0);
}

#[test]
fn test_auto_strategy_paragraph() {
    let text = "paragraph 1\n\nparagraph 2";
    let splitter = ChunkSplitter::auto(text);
    assert_eq!(splitter.split(text).len(), 2);
}

#[test]
fn test_auto_strategy_line() {
    let text = "line1\nline2\nline3\nline4\nline5\nline6";
    let splitter = ChunkSplitter::auto(text);
    assert_eq!(splitter.split(text).len(), 6);
}

#[test]
fn test_auto_strategy_fixed_size() {
    let text = "short";
    let splitter = ChunkSplitter::auto(text);
    assert_eq!(splitter.split(text).len(), 1);
}

#[test]
fn prose_is_split_into_sentences() {
    let text = "First sentence. Second sentence? Third one!";
    let splitter = ChunkSplitter::auto(text);
    assert_eq!(splitter.strategy, ChunkStrategy::Sentence);
    let chunks = splitter.split(text);
    let texts: Vec<&str> = chunks.iter().map(|c| c.text.as_str()).collect();
    assert_eq!(texts, vec!["First sentence.", "Second sentence?", "Third one!"]);
    let indices: Vec<usize> = chunks.iter().map(|c| c.index).collect();
    assert_eq!(indices, vec![0, 1, 2]);
}

#[test]
fn a_sentence_end_without_a_space_does_not_split() {
    let text = "version 1.2 is out. see notes";
    let chunks = ChunkSplitter::new(ChunkStrategy::Sentence).split(text);
    let texts: Vec<&str> = chunks.iter().map(|c| c.text.as_str()).collect();
    assert_eq!(texts, vec!["version 1.2 is out.", "see notes"]);
}

#[test]
fn windows_always_move_on_past_long_words() {
    let text = "a".repeat(1000) + " " + &"b".repeat(1000);
    let splitter = ChunkSplitter::new(ChunkStrategy::FixedSize { tokens: 200, overlap: 20 });
    let chunks = splitter.split(&text);
    let texts: Vec<String> = chunks.iter().map(|c| c.text.clone()).collect();
    assert_eq!(texts, vec!["a".repeat(1000), "b".repeat(1000)]);
}

#[test]
fn test_plain_text_string() {
    assert_eq!(ContentTypeRouter::classify(&s("Hello, World!")), ContentType::Text);
}

#[test]
fn test_json_object() {
    assert_eq!(ContentTypeRouter::classify(&obj(vec![("key", s("value"))])), ContentType::StructuredJson);
}

#[test]
fn test_json_array() {
    assert_eq!(ContentTypeRouter::classify(&Json::Array(vec![num(1), num(2), num(3)])), ContentType::StructuredJson);
}

#[test]
fn test_data_uri_image() {
    let content = s("data:image/png;base64,iVBORw0KGgoAAAANSUhEUgAAAAEAAAABCAYAAAAfFcSJAAAADUlEQVR42mNk+M9QDwADhgGAWjR9awAAAABJRU5ErkJggg==");
    assert_eq!(ContentTypeRouter::classify(&content), ContentType::Image);
}

#[test]
fn test_mcp_content_array_text() {
    let content = Json::Array(vec![obj(vec![("type", s("text")), ("text", s("hello"))])]);
    assert_eq!(ContentTypeRouter::classify(&content), ContentType::Text);
}

#[test]
fn test_mcp_content_array_image() {
    let content = Json::Array(vec![obj(vec![("type", s("image")), ("data", s("base64encodeddata"))])]);
    assert_eq!(ContentTypeRouter::classify(&content), ContentType::Image);
}

#[test]
fn test_mcp_content_array_mixed() {
    let content = Json::Array(vec![
        obj(vec![("type", s("text")), ("text", s("a"))]),
        obj(vec![("type", s("image")), ("data", s("base64encodeddata"))]),
    ]);
    assert_eq!(ContentTypeRouter::classify(&content), ContentType::Mixed);
}

#[test]
fn test_null_value() {
    assert_eq!(ContentTypeRouter::classify(&Json::Null), ContentType::Text);
}

#[test]
fn test_number_value() {
    assert_eq!(ContentTypeRouter::classify(&num(42)), ContentType::Text);
}

#[test]
fn test_base64_long_string() {
    assert_eq!(ContentTypeRouter::classify(&s(&"A".repeat(2000))), ContentType::Image);
}

#[test]
fn test_base64_short_string() {
    assert_eq!(ContentTypeRouter::classify(&s("AAAA")), ContentType::Text);
}

#[test]
fn test_mixed_array_strings_and_objects() {
    let content = Json::Array(vec![s("text string"), obj(vec![("key", s("value"))])]);
    assert_eq!(ContentTypeRouter::classify(&content), ContentType::Mixed);
}

#[test]
fn test_mcp_content_array_with_resource() {
    let content = Json::Array(vec![
        obj(vec![("type", s("text")), ("text", s("hello"))]),
        obj(vec![("type", s("resource")), ("uri", s("file:///path"))]),
    ]);
    assert_eq!(ContentTypeRouter::classify(&content), ContentType::StructuredJson);
}

#[test]
fn test_empty_array() {
    assert_eq!(ContentTypeRouter::classify(&Json::Array(vec![])), ContentType::Text);
}

#[test]
fn test_bool_value() {
    assert_eq!(ContentTypeRouter::classify(&Json::Bool(true)), ContentType::Text);
}

#[test]
fn test_hash_text_deterministic() {
    assert_eq!(DedupFilter::hash_text("hello world"), DedupFilter::hash_text("hello world"));
}

#[test]
fn test_hash_text_different() {
    assert_ne!(DedupFilter::hash_text("hello world"), DedupFilter::hash_text("hello world!"));
}

#[test]
fn test_delivery_log_insert_and_contains() {
    let mut log = DeliveryLog::new(10);
    let hash = DedupFilter::hash_text("test content");
    assert!(!log.contains(&hash));
    log.insert(hash);
    assert!(log.contains(&hash));
}

#[test]
fn test_delivery_log_not_contains() {
    let log = DeliveryLog::new(10);
    let hash = DedupFilter::hash_text("test content");
    assert!(!log.contains(&hash));
}

#[test]
fn test_delivery_log_lru_eviction() {
    let mut log = DeliveryLog::new(3);
    let hash1 = DedupFilter::hash_text("content 1");
    let hash2 = DedupFilter::hash_text("content 2");
    let hash3 = DedupFilter::hash_text("content 3");
    let hash4 = DedupFilter::hash_text("content 4");
    log.insert(hash1);
    log.insert(hash2);
    log.insert(hash3);
    assert_eq!(log.len(), 3);
    assert!(log.contains(&hash1));
    assert!(log.contains(&hash2));
    assert!(log.contains(&hash3));
    log.insert(hash4);
    assert_eq!(log.len(), 3);
    assert!(!log.contains(&hash1));
    assert!(log.contains(&hash2));
    assert!(log.contains(&hash3));
    assert!(log.contains(&hash4));
}

#[test]
fn test_dedup_filter_is_duplicate_true() {
    let mut log = DeliveryLog::new(10);
    let text = "test content";
    log.insert(DedupFilter::hash_text(text));
    assert!(DedupFilter::is_duplicate(text, &log));
}

#[test]
fn test_record_chunks_adds_to_log() {
    let mut log = DeliveryLog::new(10);
    let chunks = vec![
        Chunk::new("chunk 1".to_string(), 0),
        Chunk::new("chunk 2".to_string(), 1),
        Chunk::new("chunk 3".to_string(), 2),
    ];
    DeliveryLogger::record(&chunks, &mut log);
    for chunk in &chunks {
        assert!(log.contains(&DedupFilter::hash_text(&chunk.text)));
    }
}

#[test]
fn test_record_empty_chunks() {
    let mut log = DeliveryLog::new(10);
    let chunks: Vec<Chunk> = vec![];
    DeliveryLogger::record(&chunks, &mut log);
    assert_eq!(log.len(), 0);
}

#[test]
fn test_record_then_dedup_filters() {
    let mut log = DeliveryLog::new(10);
    let text = "test content";
    DeliveryLogger::record(&[Chunk::new(text.to_string(), 0)], &mut log);
    assert!(DedupFilter::is_duplicate(text, &log));
}

const HINT: &str = "[SCP: {shown} of {total} chunks shown. Some content was filtered for relevance.]";

#[test]
fn test_annotate_when_no_chunks_dropped() {
    let annotator = ProgressiveDisclosureAnnotator::new(true);
    let content = "This is the content".to_string();
    let (result_content, dropped) = annotator.annotate(content.clone(), 5, vec![], "req-1", HINT);
    assert_eq!(result_content, content);
    assert!(dropped.is_empty());
}

#[test]
fn test_annotate_when_some_filtered() {
    let annotator = ProgressiveDisclosureAnnotator::new(true);
    let content = "This is the content".to_string();
    let dropped_chunks = vec![Chunk::new("dropped1".to_string(), 5), Chunk::new("dropped2".to_string(), 6)];
    let (result_content, returned_dropped) = annotator.annotate(content.clone(), 3, dropped_chunks.clone(), "req-1", HINT);
    assert!(result_content.contains("[SCP:"));
    assert!(result_content.contains("3 of 5 chunks shown"));
    assert!(result_content.contains("Some content was filtered for relevance."));
    assert_eq!(returned_dropped.len(), 2);
    assert_eq!(returned_dropped, dropped_chunks);
}

#[test]
fn test_annotate_when_disabled() {
    let annotator = ProgressiveDisclosureAnnotator::new(false);
    let content = "This is the content".to_string();
    let dropped_chunks = vec![Chunk::new("dropped1".to_string(), 5), Chunk::new("dropped2".to_string(), 6)];
    let (result_content, returned_dropped) = annotator.annotate(content.clone(), 3, dropped_chunks, "req-1", HINT);
    assert_eq!(result_content, content);
    assert!(returned_dropped.is_empty());
}

#[test]
fn test_annotate_hint_contains_numbers() {
    let annotator = ProgressiveDisclosureAnnotator::new(true);
    let dropped_chunks: Vec<Chunk> = (7..12).map(|i| Chunk::new(format!("dropped{}", i - 6), i)).collect();
    let (result_content, _) = annotator.annotate("This is the content".to_string(), 2, dropped_chunks, "req-1", HINT);
    assert!(result_content.contains("2"));
    assert!(result_content.contains("7"));
}

#[test]
fn test_annotate_empty_content() {
    let annotator = ProgressiveDisclosureAnnotator::new(true);
    let dropped_chunks = vec![Chunk::new("dropped1".to_string(), 1)];
    let (result_content, _) = annotator.annotate(String::new(), 1, dropped_chunks, "req-1", HINT);
    assert!(result_content.contains("[SCP:"));
    assert!(result_content.contains("1 of 2 chunks shown"));
}

#[test]
fn test_annotate_zero_shown() {
    let annotator = ProgressiveDisclosureAnnotator::new(true);
    let dropped_chunks: Vec<Chunk> = (0..5).map(|i| Chunk::new(format!("dropped{}", i + 1), i)).collect();
    let (result_content, _) = annotator.annotate("This is the content".to_string(), 0, dropped_chunks, "req-1", HINT);
    assert!(result_content.contains("[SCP:"));
    assert!(result_content.contains("0 of 5 chunks shown"));
}

#[test]
fn test_annotate_with_request_id_substitution() {
    let annotator = ProgressiveDisclosureAnnotator::new(true);
    let hint_text = "[SCP: {shown} of {total} chunks shown. Request ID: {id}]";
    let dropped_chunks: Vec<Chunk> = (2..5).map(|i| Chunk::new(format!("dropped{}", i - 1), i)).collect();
    let (result_content, _) = annotator.annotate("This is the content".to_string(), 2, dropped_chunks, "my-request-123", hint_text);
    assert!(result_content.contains("my-request-123"));
    assert!(result_content.contains("2 of 5 chunks shown"));
}

#[test]
fn test_extract_text_string() {
    assert_eq!(extract_text(&s("hello world")).as_deref(), Some("hello world"));
}

#[test]
fn test_extract_text_mcp_array() {
    let content = Json::Array(vec![
        obj(vec![("type", s("text")), ("text", s("first"))]),
        obj(vec![("type", s("text")), ("text", s("second"))]),
    ]);
    assert_eq!(extract_text(&content).as_deref(), Some("first\nsecond"));
}

#[test]
fn extracted_text_skips_items_without_text() {
    let content = Json::Array(vec![
        obj(vec![("type", s("image")), ("data", s("xx"))]),
        s("loose"),
        obj(vec![("text", s("only"))]),
    ]);
    assert_eq!(extract_text(&content).as_deref(), Some("only"));
    assert_eq!(extract_text(&obj(vec![("key", s("value"))])), None);
    assert_eq!(count_tokens(&extract_text(&Json::Array(vec![])).unwrap()), 0);
}

#[test]
fn serialized_elements_become_numbered_chunks() {
    let splitter = ChunkSplitter::new(ChunkStrategy::JsonElement);
    let texts = vec!["{\"a\":1}".to_string(), "2".to_string(), "\"x\"".to_string()];
    let chunks = splitter.split_serialized_elements(&texts);
    assert_eq!(chunks.len(), 3);
    for (i, c) in chunks.iter().enumerate() {
        assert_eq!(c.index, i);
        assert_eq!(c.text, texts[i]);
        assert_eq!(c.score, 0);
    }
}
