use scp::field_stripper::{split_path, strip_fields};
use scp::json::{string_leaves_of, Json};

fn num(n: i64) -> Json {
    Json::Number(n.to_string())
}

fn s(v: &str) -> Json {
    Json::Str(v.to_string())
}

fn obj(members: Vec<(&str, Json)>) -> Json {
    Json::Object(members.into_iter().map(|(k, v)| (k.to_string(), v)).collect())
}

fn paths(p: &[&str]) -> Vec<String> {
    p.iter().map(|x| x.to_string()).collect()
}

#[test]
fn test_strip_top_level_field() {
    let mut val = obj(vec![("a", num(1)), ("b", num(2))]);
    strip_fields(&mut val, &paths(&["a"]));
    assert_eq!(val, obj(vec![("b", num(2))]));
}

#[test]
fn test_strip_nested_field() {
    let mut val = obj(vec![
        ("metadata", obj(vec![("managedFields", Json::Array(vec![s("x")])), ("name", s("foo"))])),
        ("spec", obj(vec![])),
    ]);
    strip_fields(&mut val, &paths(&["metadata.managedFields"]));
    assert_eq!(val, obj(vec![("metadata", obj(vec![("name", s("foo"))])), ("spec", obj(vec![]))]));
}

#[test]
fn test_strip_nonexistent_path_is_noop() {
    let mut val = obj(vec![("a", num(1))]);
    strip_fields(&mut val, &paths(&["b.c.d"]));
    assert_eq!(val, obj(vec![("a", num(1))]));
}

#[test]
fn test_strip_applies_to_array_elements() {
    let mut val = Json::Array(vec![
        obj(vec![("metadata", obj(vec![("managedFields", Json::Array(vec![s("x")])), ("name", s("foo"))]))]),
        obj(vec![("metadata", obj(vec![("managedFields", Json::Array(vec![s("y")])), ("name", s("bar"))]))]),
    ]);
    strip_fields(&mut val, &paths(&["metadata.managedFields"]));
    assert_eq!(
        val,
        Json::Array(vec![
            obj(vec![("metadata", obj(vec![("name", s("foo"))]))]),
            obj(vec![("metadata", obj(vec![("name", s("bar"))]))]),
        ])
    );
}

#[test]
fn test_strip_multiple_paths() {
    let mut val = obj(vec![(
        "metadata",
        obj(vec![
            ("managedFields", Json::Array(vec![s("x")])),
            ("annotations", obj(vec![("k", s("v"))])),
            ("name", s("foo")),
        ]),
    )]);
    strip_fields(&mut val, &paths(&["metadata.managedFields", "metadata.annotations"]));
    assert_eq!(val, obj(vec![("metadata", obj(vec![("name", s("foo"))]))]));
}

#[test]
fn test_strip_empty_paths_is_noop() {
    let mut val = obj(vec![("a", num(1))]);
    strip_fields(&mut val, &vec![]);
    assert_eq!(val, obj(vec![("a", num(1))]));
}

#[test]
fn paths_split_at_every_dot() {
    assert_eq!(split_path("a.b.c"), vec!["a", "b", "c"]);
    assert_eq!(split_path("a..b"), vec!["a", "", "b"]);
    assert_eq!(split_path(""), vec![""]);
}

#[test]
fn scalars_are_left_alone() {
    let mut val = Json::Bool(true);
    strip_fields(&mut val, &paths(&["a"]));
    assert_eq!(val, Json::Bool(true));
    let mut null = Json::Null;
    strip_fields(&mut null, &paths(&["a.b"]));
    assert_eq!(null, Json::Null);
}

#[test]
fn string_leaves_come_in_document_order() {
    let val = obj(vec![
        ("user", obj(vec![("name", s("alice")), ("age", num(30)), ("email", s("alice@example.com"))])),
        ("tags", Json::Array(vec![s("python"), Json::Null, s("rust")])),
        ("flag", Json::Bool(false)),
    ]);
    assert_eq!(string_leaves_of(&val), vec!["alice", "alice@example.com", "python", "rust"]);
    assert!(string_leaves_of(&num(3)).is_empty());
    assert_eq!(string_leaves_of(&s("x")), vec!["x"]);
}
