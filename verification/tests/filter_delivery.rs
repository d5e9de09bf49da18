use scp::chunker::Chunk;
use scp::content_type::{ContentShape, ContentType, ContentTypeRouter, ElementShape};
use scp::dedup::{DedupFilter, DeliveryLog};
use scp::delivery_logger::DeliveryLogger;
use scp::progressive::ProgressiveDisclosureAnnotator;
use scp::token_count::count_tokens;

#[test]
fn test_count_tokens_empty() {
    assert_eq!(count_tokens(""), 0);
}

#[test]
fn test_count_tokens_ascii() {
    let tokens = count_tokens("Hello, World!");
    assert!((3..=5).contains(&tokens));
}

#[test]
fn test_count_tokens_code() {
    let code = "fn main() { println!(\"Hello\"); }";
    let tokens = count_tokens(code);
    assert!(tokens > 0);
}

#[test]
fn test_count_tokens_cjk() {
    let cjk = "你好世界";
    let tokens = count_tokens(cjk);
    assert!((4..=6).contains(&tokens));
}

#[test]
fn test_count_tokens_mixed() {
    let mixed = "Hello 世界";
    let tokens = count_tokens(mixed);
    assert!(tokens > 0);
}

#[test]
fn token_estimates_are_exact_ceilings() {
    // 13 ASCII bytes / 3.5 = 3.71.. -> 4; 12 non-ASCII bytes / 2.5 = 4.8 -> 5.
    assert_eq!(count_tokens("Hello, World!"), 4);
    assert_eq!(count_tokens("你好世界"), 5);
    // 7 bytes exactly 2 tokens; 3 of 10 bytes non-ASCII is not above 30%.
    assert_eq!(count_tokens("abcdefg"), 2);
    assert_eq!(count_tokens("abcdefg世"), 3);
}

#[test]
fn test_dedup_filter_is_duplicate_false() {
    let log = DeliveryLog::new(10);
    let text = "test content";
    assert!(!DedupFilter::is_duplicate(text, &log));
}

#[test]
fn recorded_text_is_a_duplicate() {
    let mut log = DeliveryLog::new(10);
    let text = "test content";
    log.insert(DedupFilter::hash_text(text));
    assert!(DedupFilter::is_duplicate(text, &log));
    assert!(!DedupFilter::is_duplicate("other content", &log));
}

#[test]
fn hashes_are_sha256() {
    let h = DedupFilter::hash_text("abc");
    assert_eq!(h[0], 0xba);
    assert_eq!(h[1], 0x78);
    assert_eq!(h[31], 0xad);
    assert_ne!(DedupFilter::hash_text("hello world"), DedupFilter::hash_text("hello world!"));
}

#[test]
fn the_oldest_hash_makes_room() {
    let mut log = DeliveryLog::new(3);
    let hashes: Vec<_> = (1..=4).map(|i| DedupFilter::hash_text(&format!("content {}", i))).collect();
    for h in &hashes[..3] {
        log.insert(*h);
    }
    log.insert(hashes[0]);
    assert_eq!(log.len(), 3);
    log.insert(hashes[3]);
    assert_eq!(log.len(), 3);
    assert!(!log.contains(&hashes[0]));
    assert!(log.contains(&hashes[1]));
    assert!(log.contains(&hashes[3]));
    let mut tiny = DeliveryLog::new(0);
    assert!(tiny.is_empty());
    tiny.insert(hashes[0]);
    tiny.insert(hashes[1]);
    assert_eq!(tiny.len(), 0);
    assert!(!tiny.contains(&hashes[1]));
}

#[test]
fn test_update_budget_decrements() {
    let mut budget = 1000;
    let result = DeliveryLogger::update_budget(300, &mut budget);
    assert_eq!(budget, 700);
    assert_eq!(result, 700);
}

#[test]
fn test_update_budget_saturates_at_zero() {
    let mut budget = 100;
    let result = DeliveryLogger::update_budget(200, &mut budget);
    assert_eq!(budget, 0);
    assert_eq!(result, 0);
}

#[test]
fn recorded_chunks_count_as_delivered() {
    let mut log = DeliveryLog::new(10);
    let chunks = vec![Chunk::new("chunk 1".to_string(), 0), Chunk::new("chunk 2".to_string(), 1)];
    DeliveryLogger::record(&chunks, &mut log);
    assert_eq!(log.len(), 2);
    assert!(DedupFilter::is_duplicate("chunk 1", &log));
    assert!(DedupFilter::is_duplicate("chunk 2", &log));
    DeliveryLogger::record(&[], &mut log);
    assert_eq!(log.len(), 2);
}

#[test]
fn content_is_classified_by_shape() {
    assert_eq!(ContentTypeRouter::classify_shape(&ContentShape::Scalar), ContentType::Text);
    assert_eq!(ContentTypeRouter::classify_shape(&ContentShape::Object), ContentType::StructuredJson);
    assert_eq!(ContentTypeRouter::classify_shape(&ContentShape::Array(vec![])), ContentType::Text);
    let typed = |t: &str| ElementShape::Object { has_type: true, type_tag: Some(t.to_string()) };
    assert_eq!(ContentTypeRouter::classify_shape(&ContentShape::Array(vec![typed("text")])), ContentType::Text);
    assert_eq!(ContentTypeRouter::classify_shape(&ContentShape::Array(vec![typed("image")])), ContentType::Image);
    assert_eq!(
        ContentTypeRouter::classify_shape(&ContentShape::Array(vec![typed("text"), typed("image")])),
        ContentType::Mixed
    );
    assert_eq!(
        ContentTypeRouter::classify_shape(&ContentShape::Array(vec![typed("text"), typed("resource")])),
        ContentType::StructuredJson
    );
    let untyped = ElementShape::Object { has_type: false, type_tag: None };
    assert_eq!(
        ContentTypeRouter::classify_shape(&ContentShape::Array(vec![ElementShape::Str, untyped])),
        ContentType::Mixed
    );
    assert_eq!(
        ContentTypeRouter::classify_shape(&ContentShape::Array(vec![ElementShape::Other, ElementShape::Other])),
        ContentType::StructuredJson
    );
}

#[test]
fn strings_are_images_when_they_look_like_images() {
    assert_eq!(ContentTypeRouter::classify_string("Hello, World!"), ContentType::Text);
    assert_eq!(ContentTypeRouter::classify_string("data:image/png;base64,iVBORw0KGgo="), ContentType::Image);
    assert_eq!(ContentTypeRouter::classify_string(&"A".repeat(2000)), ContentType::Image);
    assert_eq!(ContentTypeRouter::classify_string("AAAA"), ContentType::Text);
    assert!(ContentTypeRouter::is_base64("aZ09+/="));
    assert!(!ContentTypeRouter::is_base64(""));
    assert!(!ContentTypeRouter::is_base64("a b"));
}

#[test]
fn hints_are_appended_only_when_chunks_were_dropped() {
    let annotator = ProgressiveDisclosureAnnotator::new(true);
    let hint = "[SCP: {shown} of {total} chunks shown. Request ID: {id}]";
    let (content, dropped) = annotator.annotate("body".to_string(), 5, vec![], "r", hint);
    assert_eq!(content, "body");
    assert!(dropped.is_empty());
    let dropped_chunks = vec![Chunk::new("d1".to_string(), 5), Chunk::new("d2".to_string(), 6)];
    let (content, dropped) = annotator.annotate("body".to_string(), 3, dropped_chunks.clone(), "req-9", hint);
    assert_eq!(content, "body\n\n[SCP: 3 of 5 chunks shown. Request ID: req-9]");
    assert_eq!(dropped, dropped_chunks);
    let off = ProgressiveDisclosureAnnotator::new(false);
    let (content, dropped) = off.annotate("body".to_string(), 3, dropped_chunks, "req-9", hint);
    assert_eq!(content, "body");
    assert!(dropped.is_empty());
}
