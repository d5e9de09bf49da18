use scp::ordering::stable_order;
use scp::tfidf::tokenize;
use scp::usage::UsageTracker;

#[test]
fn test_score_tools_sorted_by_score() {
    let results = [("tool1".to_string(), 0.5f64), ("tool2".to_string(), 0.9f64), ("tool3".to_string(), 0.3f64)];
    // Non-negative floats are ordered like their bit patterns.
    let keys: Vec<u64> = results.iter().map(|r| r.1.to_bits()).collect();
    let order = stable_order(&keys, true);
    let sorted: Vec<f64> = order.iter().map(|&i| results[i].1).collect();
    assert_eq!(sorted[0], 0.9);
    assert_eq!(sorted[1], 0.5);
    assert_eq!(sorted[2], 0.3);
}

#[test]
fn equal_keys_keep_their_order() {
    assert_eq!(stable_order(&vec![2, 1, 2, 3, 1], true), vec![3, 0, 2, 1, 4]);
    assert_eq!(stable_order(&vec![2, 1, 2, 3, 1], false), vec![1, 4, 0, 2, 3]);
    assert!(stable_order(&vec![], true).is_empty());
}

#[test]
fn test_tokenization_filters_stop_words() {
    let tokens = tokenize("the quick brown fox jumps over the lazy dog");
    assert!(!tokens.contains(&"the".to_string()));
    assert!(tokens.contains(&"quick".to_string()));
    assert!(tokens.contains(&"brown".to_string()));
    assert!(tokens.contains(&"fox".to_string()));
    assert!(tokens.contains(&"jumps".to_string()));
    assert!(tokens.contains(&"over".to_string()));
    assert!(tokens.contains(&"lazy".to_string()));
}

#[test]
fn test_tokenization_filters_short_tokens() {
    let tokens = tokenize("a ab abc abcd");
    assert!(!tokens.contains(&"a".to_string()));
    assert!(!tokens.contains(&"ab".to_string()));
    assert!(tokens.contains(&"abc".to_string()));
    assert!(tokens.contains(&"abcd".to_string()));
}

#[test]
fn test_tokenization_lowercase() {
    let tokens = tokenize("FileSystem ReadFile");
    assert!(tokens.contains(&"filesystem".to_string()));
    assert!(tokens.contains(&"readfile".to_string()));
}

#[test]
fn tokens_come_in_order_split_on_punctuation() {
    assert_eq!(tokenize("Read-file: the FILE_system, used for ünïcode"), vec!["read", "file", "file", "system", "ünïcode"]);
    assert!(tokenize("").is_empty());
}

#[test]
fn test_record_call_increments_count() {
    let mut tracker = UsageTracker::new();
    tracker.record_call("profile1", "tool1");
    tracker.record_call("profile1", "tool1");
    tracker.record_call("profile1", "tool2");

    assert_eq!(tracker.call_count("profile1", "tool1"), 2);
    assert_eq!(tracker.call_count("profile1", "tool2"), 1);
}

#[test]
fn test_multiple_profiles_independent() {
    let mut tracker = UsageTracker::new();
    tracker.record_call("profile1", "tool1");
    tracker.record_call("profile1", "tool1");
    tracker.record_call("profile2", "tool1");

    assert_eq!(tracker.call_count("profile1", "tool1"), 2);
    assert_eq!(tracker.call_count("profile2", "tool1"), 1);
}

#[test]
fn test_call_count_returns_zero_for_unknown() {
    let tracker = UsageTracker::new();
    assert_eq!(tracker.call_count("unknown_profile", "unknown_tool"), 0);
}

#[test]
fn score_inputs_add_up_to_a_shared_denominator() {
    let mut tracker = UsageTracker::new();
    tracker.record_call("p", "tool1");
    tracker.record_call("p", "tool1");
    tracker.record_call("p", "tool2");
    tracker.record_call("p", "tool3");
    tracker.record_call("q", "tool1");
    assert_eq!(tracker.score_inputs("p", "tool1"), Some((2, 4, 3)));
    assert_eq!(tracker.score_inputs("p", "tool9"), Some((0, 4, 3)));
    assert_eq!(tracker.score_inputs("q", "tool1"), Some((1, 1, 1)));
    assert_eq!(tracker.score_inputs("nobody", "tool1"), None);
}

#[test]
fn counts_grow_by_the_calls_recorded() {
    let mut tracker = UsageTracker::new();
    let calls = [("p1", "s/a"), ("p1", "s/b"), ("p1", "s/a"), ("p2", "s/a"), ("p1", "s/a")];
    for (p, t) in calls {
        tracker.record_call(p, t);
    }
    assert_eq!(tracker.call_count("p1", "s/a"), 3);
    assert_eq!(tracker.call_count("p1", "s/b"), 1);
    assert_eq!(tracker.call_count("p2", "s/a"), 1);
    assert_eq!(tracker.call_count("p2", "s/b"), 0);
}
