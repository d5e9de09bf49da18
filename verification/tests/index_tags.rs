use scp::tags::{tag_match, TagMatch};

fn str_vec(items: &[&str]) -> Vec<String> {
    items.iter().map(|s| s.to_string()).collect()
}

/// The Jaccard similarity of the tags and keywords (0.5 when neutral).
fn score(tags: &Vec<String>, keywords: &Vec<String>) -> f32 {
    match tag_match(tags, keywords) {
        TagMatch::Neutral => 0.5,
        TagMatch::NoTags => 0.0,
        TagMatch::Overlap { shared, combined } => shared as f32 / combined as f32,
    }
}

#[test]
fn test_exact_match() {
    let tags = str_vec(&["search", "index"]);
    let keywords = str_vec(&["search", "index"]);
    assert_eq!(score(&tags, &keywords), 1.0);
}

#[test]
fn test_no_overlap() {
    let tags = str_vec(&["search", "index"]);
    let keywords = str_vec(&["read", "write"]);
    assert_eq!(score(&tags, &keywords), 0.0);
}

#[test]
fn test_partial_overlap() {
    let tags = str_vec(&["a", "b"]);
    let keywords = str_vec(&["b", "c"]);
    let s = score(&tags, &keywords);
    assert!((s - 1.0 / 3.0).abs() < 0.001);
    assert_eq!(tag_match(&tags, &keywords), TagMatch::Overlap { shared: 1, combined: 3 });
}

#[test]
fn test_empty_keywords() {
    let tags = str_vec(&["search", "index"]);
    let keywords = vec![];
    assert_eq!(score(&tags, &keywords), 0.5);
}

#[test]
fn test_empty_tags() {
    let tags = vec![];
    let keywords = str_vec(&["search", "index"]);
    assert_eq!(score(&tags, &keywords), 0.0);
}

#[test]
fn test_both_empty() {
    let tags = vec![];
    let keywords = vec![];
    assert_eq!(score(&tags, &keywords), 0.5);
}

#[test]
fn tags_test_case_insensitive() {
    let tags = str_vec(&["Search", "INDEX"]);
    let keywords = str_vec(&["search", "index"]);
    assert_eq!(score(&tags, &keywords), 1.0);
}

#[test]
fn test_single_tag_match() {
    let tags = str_vec(&["search"]);
    let keywords = str_vec(&["search"]);
    assert_eq!(score(&tags, &keywords), 1.0);
}

#[test]
fn test_single_tag_no_match() {
    let tags = str_vec(&["search"]);
    let keywords = str_vec(&["read"]);
    assert_eq!(score(&tags, &keywords), 0.0);
}

#[test]
fn test_duplicate_tags() {
    let tags = str_vec(&["search", "search", "index"]);
    let keywords = str_vec(&["search"]);
    let s = score(&tags, &keywords);
    assert!((s - 0.5).abs() < 0.001);
    assert_eq!(tag_match(&tags, &keywords), TagMatch::Overlap { shared: 1, combined: 2 });
}

#[test]
fn test_multiple_partial_overlap() {
    let tags = str_vec(&["a", "b", "c"]);
    let keywords = str_vec(&["b", "c", "d"]);
    let s = score(&tags, &keywords);
    assert!((s - 0.5).abs() < 0.001);
}

#[test]
fn repeated_keywords_in_other_cases_count_once() {
    let tags = str_vec(&["Rust", "rust", "WEB"]);
    let keywords = str_vec(&["RUST", "Rust", "rust", "cli"]);
    assert_eq!(tag_match(&tags, &keywords), TagMatch::Overlap { shared: 1, combined: 3 });
}
