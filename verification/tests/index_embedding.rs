use scp::embedding_cache::{cache_key, EmbeddingCache};

#[test]
fn test_cache_insert_and_get() {
    let mut cache = EmbeddingCache::new();
    let text = "hello world";
    let embedding = vec![0.1f32, 0.2, 0.3];

    cache.insert(text, embedding.clone());
    let retrieved = cache.get(text);

    assert!(retrieved.is_some());
    assert_eq!(retrieved.unwrap(), &embedding);
}

#[test]
fn test_cache_key_deterministic() {
    let text = "test text";
    let key1 = cache_key(text);
    let key2 = cache_key(text);

    assert_eq!(key1, key2);
}

#[test]
fn test_cache_miss() {
    let cache: EmbeddingCache<Vec<f32>> = EmbeddingCache::new();
    let result = cache.get("nonexistent");

    assert!(result.is_none());
}

#[test]
fn keys_are_hex_sha256_digests() {
    assert_eq!(cache_key("hello world"), "b94d27b9934d3e08a52e52d7da7dabfac484efe37a5380ee9088f7ace2efcde9");
    assert_eq!(cache_key(""), "e3b0c44298fc1c149afbf4c8996fb92427ae41e4649b934ca495991b7852b855");
}

#[test]
fn inserting_again_replaces_the_embedding() {
    let mut cache = EmbeddingCache::new();
    assert!(cache.is_empty());
    cache.insert("a", vec![1.0f32]);
    cache.insert("b", vec![2.0f32]);
    cache.insert("a", vec![3.0f32]);
    assert_eq!(cache.len(), 2);
    assert_eq!(cache.get("a"), Some(&vec![3.0f32]));
    assert_eq!(cache.get_keyed(&cache_key("b")), Some(&vec![2.0f32]));
    assert_eq!(cache.keyed_entries().len(), 2);
}
