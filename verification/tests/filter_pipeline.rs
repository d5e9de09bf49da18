use scp::config::{EmbeddingConfig, FilterConfig};
use scp::content_type::ContentTypeRouter;
use scp::dedup::DeliveryLog;
use scp::json::Json;
use scp::pipeline::{extract_text, FilterContext, FilterPipeline, FilterResult};

fn create_test_context(session_id: &str) -> FilterContext {
    FilterContext {
        session_id: session_id.to_string(),
        tool_name: "test_tool".to_string(),
        budget_tokens: 1000,
        query_terms: vec!["test".to_string(), "content".to_string()],
        short_circuit_below_tokens: 500,
        request_id: "test-req-1".to_string(),
    }
}

fn create_test_config(enabled: bool) -> FilterConfig {
    FilterConfig {
        enabled,
        budget_strategy: "truncate".to_string(),
        chunking_strategy: "paragraph".to_string(),
        relevance_engine: "tags".to_string(),
        progressive_disclosure_enabled: true,
        short_circuit_below_tokens: 500,
        embedding: EmbeddingConfig { endpoint: String::new(), model: String::new(), dimension: 0 },
        progressive_hint_text:
            "[SCP: {shown} of {total} results shown. Call scp_get_more(request_id=\"{id}\") for more.]".to_string(),
    }
}

fn to_value(j: &Json) -> serde_json::Value {
    match j {
        Json::Null => serde_json::Value::Null,
        Json::Bool(b) => serde_json::Value::Bool(*b),
        Json::Number(n) => serde_json::from_str(n).expect("a number"),
        Json::Str(s) => serde_json::Value::String(s.clone()),
        Json::Array(a) => serde_json::Value::Array(a.iter().map(to_value).collect()),
        Json::Object(o) => {
            let mut m = serde_json::Map::new();
            for (k, v) in o {
                m.insert(k.clone(), to_value(v));
            }
            serde_json::Value::Object(m)
        }
    }
}

/// The pipeline on a tool's content: its text (other values serialized),
/// its content type, then the stages.
fn run(pipeline: &FilterPipeline, content: &Json, ctx: &FilterContext, log: &mut DeliveryLog) -> FilterResult {
    let text = extract_text(content).unwrap_or_else(|| to_value(content).to_string());
    let content_type = ContentTypeRouter::classify(content);
    pipeline.run(&text, content_type, ctx, log)
}

fn text_item(t: &str) -> Json {
    Json::Object(vec![
        ("type".to_string(), Json::Str("text".to_string())),
        ("text".to_string(), Json::Str(t.to_string())),
    ])
}

#[test]
fn test_pipeline_short_circuit_small_content() {
    let pipeline = FilterPipeline::new(&create_test_config(true));
    let ctx = create_test_context("session1");
    let mut log = DeliveryLog::new(100);
    let result = run(&pipeline, &Json::Str("short".to_string()), &ctx, &mut log);
    assert_eq!(result.content, "short");
    assert_eq!(result.tokens_saved, 0);
    assert!(result.tokens_received <= 500);
}

#[test]
fn test_pipeline_image_passthrough() {
    let pipeline = FilterPipeline::new(&create_test_config(true));
    let ctx = create_test_context("session1");
    let mut log = DeliveryLog::new(100);
    let image_uri = "data:image/png;base64,iVBORw0KGgoAAAANSUhEUgAAAAEAAAABCAYAAAAfFcSJAAAADUlEQVR42mNk+M9QDwADhgGAWjR9awAAAABJRU5ErkJggg==";
    let result = run(&pipeline, &Json::Str(image_uri.to_string()), &ctx, &mut log);
    assert_eq!(result.content, image_uri);
    assert_eq!(result.tokens_saved, 0);
}

#[test]
fn test_pipeline_disabled_passthrough() {
    let pipeline = FilterPipeline::new(&create_test_config(false));
    let ctx = create_test_context("session1");
    let mut log = DeliveryLog::new(100);
    let large_text = "word ".repeat(200);
    let result = run(&pipeline, &Json::Str(large_text.clone()), &ctx, &mut log);
    assert_eq!(result.content, large_text);
    assert_eq!(result.tokens_saved, 0);
}

#[test]
fn test_pipeline_full_run() {
    let pipeline = FilterPipeline::new(&create_test_config(true));
    let ctx = create_test_context("session1");
    let mut log = DeliveryLog::new(100);
    let large_text =
        "This is a test content about testing.\n\nMore test content here.\n\nUnrelated paragraph about something else."
            .repeat(10);
    let result = run(&pipeline, &Json::Str(large_text), &ctx, &mut log);
    assert!(!result.content.is_empty());
    assert!(result.tokens_delivered <= result.tokens_received);
    assert!(result.tokens_saved <= result.tokens_received);
    assert!(result.chunks_shown > 0);
    assert!(result.chunks_total > 0);
}

#[test]
fn test_pipeline_dedup_second_call() {
    let pipeline = FilterPipeline::new(&create_test_config(true));
    let mut shared_log = DeliveryLog::new(100);
    let ctx1 = FilterContext {
        session_id: "session1".to_string(),
        tool_name: "test_tool".to_string(),
        budget_tokens: 1000,
        query_terms: vec!["test".to_string()],
        short_circuit_below_tokens: 500,
        request_id: "test-req-1".to_string(),
    };
    let content = Json::Str("This is test content that should be deduplicated. ".repeat(50));

    let result1 = run(&pipeline, &content, &ctx1, &mut shared_log);
    assert!(!result1.content.is_empty());

    let result2 = run(&pipeline, &content, &ctx1, &mut shared_log);
    assert_eq!(result2.content, "");
    assert_eq!(result2.tokens_delivered, 0);
    assert_eq!(result2.tokens_saved, result2.tokens_received);
}

#[test]
fn test_pipeline_mcp_array_format() {
    let pipeline = FilterPipeline::new(&create_test_config(true));
    let ctx = create_test_context("session1");
    let mut log = DeliveryLog::new(100);
    let content = Json::Array(vec![
        text_item("First paragraph with test content."),
        text_item("Second paragraph with more test information."),
    ]);
    let result = run(&pipeline, &content, &ctx, &mut log);
    assert!(!result.content.is_empty());
    assert!(result.content.contains("First paragraph"));
    assert!(result.content.contains("Second paragraph"));
}

#[test]
fn test_pipeline_empty_content() {
    let pipeline = FilterPipeline::new(&create_test_config(true));
    let ctx = create_test_context("session1");
    let mut log = DeliveryLog::new(100);
    let result = run(&pipeline, &Json::Str(String::new()), &ctx, &mut log);
    assert_eq!(result.content, "");
    assert_eq!(result.tokens_received, 0);
}

#[test]
fn test_pipeline_json_object_passthrough() {
    let pipeline = FilterPipeline::new(&create_test_config(true));
    let ctx = create_test_context("session1");
    let mut log = DeliveryLog::new(100);
    let content = Json::Object(vec![
        ("key".to_string(), Json::Str("value".to_string())),
        ("nested".to_string(), Json::Object(vec![("data".to_string(), Json::Str("test".to_string()))])),
    ]);
    let result = run(&pipeline, &content, &ctx, &mut log);
    assert!(!result.content.is_empty());
}

#[test]
fn test_extract_text_json_object() {
    let content = Json::Object(vec![("key".to_string(), Json::Str("value".to_string()))]);
    // An object has no text of its own: the tool's content is its serialization.
    assert!(extract_text(&content).is_none());
    let text = to_value(&content).to_string();
    assert!(text.contains("key"));
    assert!(text.contains("value"));
}

#[test]
fn relevant_paragraphs_are_kept_within_the_budget() {
    let pipeline = FilterPipeline::new(&create_test_config(true));
    let mut ctx = create_test_context("s");
    ctx.budget_tokens = 200;
    ctx.query_terms = vec!["needle".to_string()];
    let mut log = DeliveryLog::new(100);
    let mut paragraphs: Vec<String> = (0..40).map(|i| format!("filler paragraph number {} {}", i, "x ".repeat(40))).collect();
    paragraphs[25] = "the needle is here".to_string();
    let result = run(&pipeline, &Json::Str(paragraphs.join("\n\n")), &ctx, &mut log);
    assert!(result.content.contains("the needle is here"));
    assert!(result.chunks_shown < result.chunks_total);
    assert!(!result.dropped_chunks.is_empty());
    assert!(result.content.contains("scp_get_more(request_id=\"test-req-1\")"));
}
