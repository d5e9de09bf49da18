use scp::registry::ToolEntry;
use scp::termstats::{corpus_counts, search_document, term_counts};
use scp::tfidf::tokenize;

fn sorted(mut v: Vec<(String, usize)>) -> Vec<(String, usize)> {
    v.sort();
    v
}

fn words(items: &[&str]) -> Vec<String> {
    items.iter().map(|s| s.to_string()).collect()
}

#[test]
fn terms_are_counted_once_each() {
    let counts = term_counts(&words(&["read", "file", "read", "disk", "read"]));
    assert_eq!(
        sorted(counts),
        vec![("disk".to_string(), 1), ("file".to_string(), 1), ("read".to_string(), 3)]
    );
    assert!(term_counts(&vec![]).is_empty());
}

#[test]
fn corpus_counts_occurrences_or_documents() {
    let docs = vec![words(&["read", "file", "read"]), words(&["web", "search"]), words(&["read"])];
    assert_eq!(
        sorted(corpus_counts(&docs, false)),
        vec![
            ("file".to_string(), 1),
            ("read".to_string(), 3),
            ("search".to_string(), 1),
            ("web".to_string(), 1)
        ]
    );
    assert_eq!(
        sorted(corpus_counts(&docs, true)),
        vec![
            ("file".to_string(), 1),
            ("read".to_string(), 2),
            ("search".to_string(), 1),
            ("web".to_string(), 1)
        ]
    );
}

#[test]
fn a_tool_is_searched_by_its_names_and_description() {
    let entry = ToolEntry {
        original_name: "read_text-file".to_string(),
        qualified_name: "fs/read_text-file".to_string(),
        server_name: "fs".to_string(),
        description: Some("Reads a file".to_string()),
        input_schema: "{}".to_string(),
        tags: vec![],
        call_count: 0,
    };
    let doc = search_document(&entry);
    assert_eq!(doc, "read text file fs/read_text-file Reads a file");
    assert_eq!(tokenize(&doc), words(&["read", "text", "file", "read", "text", "file", "reads", "file"]));
    let bare = ToolEntry { description: None, ..entry };
    assert_eq!(search_document(&bare), "read text file fs/read_text-file ");
}
