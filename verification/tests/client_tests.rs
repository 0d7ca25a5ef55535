//! End-to-end tests of the client: typed puts and gets, nested
//! paths, lists, diffs, change capture and persistence.

use automerge::transaction::Transactable;
use redis_automerge::{RedisAutomergeClient, RedisAutomergeExt};

#[test]
fn apply_and_persist() {
    // Build a change on a separate document.
    let mut base = automerge::AutoCommit::new();
    base.put(automerge::ROOT, "field", 1).unwrap();
    let hash = base.commit().unwrap();
    let change = base.get_change_by_hash(&hash).unwrap();

    // Apply the change using the client.
    let mut client = RedisAutomergeClient::new();
    client.apply(vec![change.clone()]).unwrap();

    // The buffer should capture the change.
    let aof = client.commands();
    assert_eq!(aof.len(), 1);

    // Snapshot roundtrip.
    let bytes = client.save();
    let mut loaded = RedisAutomergeClient::load(&bytes).unwrap();
    assert_eq!(loaded.save(), bytes);
}

#[test]
fn put_and_get_text_roundtrip() {
    let mut client = RedisAutomergeClient::new();
    client.put_text("greeting", "hello").unwrap();
    assert_eq!(client.get_text("greeting").unwrap(), Some("hello".to_string()));

    let bytes = client.save();
    let loaded = RedisAutomergeClient::load(&bytes).unwrap();
    assert_eq!(loaded.get_text("greeting").unwrap(), Some("hello".to_string()));
}

#[test]
fn put_and_get_int_roundtrip() {
    let mut client = RedisAutomergeClient::new();
    client.put_int("age", 42).unwrap();
    assert_eq!(client.get_int("age").unwrap(), Some(42));

    let bytes = client.save();
    let loaded = RedisAutomergeClient::load(&bytes).unwrap();
    assert_eq!(loaded.get_int("age").unwrap(), Some(42));
}

#[test]
fn put_and_get_int_negative() {
    let mut client = RedisAutomergeClient::new();
    client.put_int("temperature", -10).unwrap();
    assert_eq!(client.get_int("temperature").unwrap(), Some(-10));
}

#[test]
fn put_and_get_double_roundtrip() {
    let mut client = RedisAutomergeClient::new();
    client.put_double("pi", "3.14159").unwrap();
    assert_eq!(client.get_double("pi").unwrap(), Some("3.14159".to_string()));

    let bytes = client.save();
    let loaded = RedisAutomergeClient::load(&bytes).unwrap();
    assert_eq!(loaded.get_double("pi").unwrap(), Some("3.14159".to_string()));
}

#[test]
fn put_and_get_bool_roundtrip() {
    let mut client = RedisAutomergeClient::new();
    client.put_bool("active", true).unwrap();
    assert_eq!(client.get_bool("active").unwrap(), Some(true));

    client.put_bool("disabled", false).unwrap();
    assert_eq!(client.get_bool("disabled").unwrap(), Some(false));

    let bytes = client.save();
    let loaded = RedisAutomergeClient::load(&bytes).unwrap();
    assert_eq!(loaded.get_bool("active").unwrap(), Some(true));
    assert_eq!(loaded.get_bool("disabled").unwrap(), Some(false));
}

#[test]
fn get_nonexistent_fields() {
    let client = RedisAutomergeClient::new();
    assert_eq!(client.get_text("missing").unwrap(), None);
    assert_eq!(client.get_int("missing").unwrap(), None);
    assert_eq!(client.get_double("missing").unwrap(), None);
    assert_eq!(client.get_bool("missing").unwrap(), None);
}

#[test]
fn mixed_types_in_document() {
    let mut client = RedisAutomergeClient::new();
    client.put_text("name", "Alice").unwrap();
    client.put_int("age", 30).unwrap();
    client.put_double("height", "5.6").unwrap();
    client.put_bool("verified", true).unwrap();

    assert_eq!(client.get_text("name").unwrap(), Some("Alice".to_string()));
    assert_eq!(client.get_int("age").unwrap(), Some(30));
    assert_eq!(client.get_double("height").unwrap(), Some("5.6".to_string()));
    assert_eq!(client.get_bool("verified").unwrap(), Some(true));

    let bytes = client.save();
    let loaded = RedisAutomergeClient::load(&bytes).unwrap();
    assert_eq!(loaded.get_text("name").unwrap(), Some("Alice".to_string()));
    assert_eq!(loaded.get_int("age").unwrap(), Some(30));
    assert_eq!(loaded.get_double("height").unwrap(), Some("5.6".to_string()));
    assert_eq!(loaded.get_bool("verified").unwrap(), Some(true));
}

#[test]
fn nested_path_operations() {
    let mut client = RedisAutomergeClient::new();

    client.put_text("user.profile.name", "Bob").unwrap();
    assert_eq!(client.get_text("user.profile.name").unwrap(), Some("Bob".to_string()));

    client.put_int("user.profile.age", 25).unwrap();
    assert_eq!(client.get_int("user.profile.age").unwrap(), Some(25));

    client.put_double("metrics.cpu.usage", "75.5").unwrap();
    assert_eq!(client.get_double("metrics.cpu.usage").unwrap(), Some("75.5".to_string()));

    client.put_bool("flags.features.enabled", true).unwrap();
    assert_eq!(client.get_bool("flags.features.enabled").unwrap(), Some(true));

    assert_eq!(client.get_text("user.profile.email").unwrap(), None);
    assert_eq!(client.get_int("missing.path.value").unwrap(), None);
}

#[test]
fn nested_path_with_dollar_prefix() {
    let mut client = RedisAutomergeClient::new();

    client.put_text("$.user.name", "Charlie").unwrap();
    assert_eq!(client.get_text("$.user.name").unwrap(), Some("Charlie".to_string()));

    assert_eq!(client.get_text("user.name").unwrap(), Some("Charlie".to_string()));
}

#[test]
fn nested_path_persistence() {
    let mut client = RedisAutomergeClient::new();

    client.put_text("user.profile.name", "Diana").unwrap();
    client.put_int("user.profile.age", 28).unwrap();
    client.put_double("user.metrics.score", "95.7").unwrap();
    client.put_bool("user.active", true).unwrap();

    let bytes = client.save();
    let loaded = RedisAutomergeClient::load(&bytes).unwrap();

    assert_eq!(loaded.get_text("user.profile.name").unwrap(), Some("Diana".to_string()));
    assert_eq!(loaded.get_int("user.profile.age").unwrap(), Some(28));
    assert_eq!(loaded.get_double("user.metrics.score").unwrap(), Some("95.7".to_string()));
    assert_eq!(loaded.get_bool("user.active").unwrap(), Some(true));
}

#[test]
fn deeply_nested_paths() {
    let mut client = RedisAutomergeClient::new();

    client.put_text("a.b.c.d.e.f.value", "deeply nested").unwrap();
    assert_eq!(
        client.get_text("a.b.c.d.e.f.value").unwrap(),
        Some("deeply nested".to_string())
    );

    let bytes = client.save();
    let loaded = RedisAutomergeClient::load(&bytes).unwrap();
    assert_eq!(
        loaded.get_text("a.b.c.d.e.f.value").unwrap(),
        Some("deeply nested".to_string())
    );
}

#[test]
fn mixed_nested_and_flat_keys() {
    let mut client = RedisAutomergeClient::new();

    client.put_text("simple", "flat value").unwrap();
    client.put_text("nested.key", "nested value").unwrap();

    assert_eq!(client.get_text("simple").unwrap(), Some("flat value".to_string()));
    assert_eq!(client.get_text("nested.key").unwrap(), Some("nested value".to_string()));
}

#[test]
fn list_operations() {
    let mut client = RedisAutomergeClient::new();

    client.create_list("users").unwrap();
    assert_eq!(client.list_len("users").unwrap(), Some(0));

    client.append_text("users", "Alice").unwrap();
    client.append_text("users", "Bob").unwrap();
    assert_eq!(client.list_len("users").unwrap(), Some(2));

    assert_eq!(client.get_text("users[0]").unwrap(), Some("Alice".to_string()));
    assert_eq!(client.get_text("users[1]").unwrap(), Some("Bob".to_string()));
}

#[test]
fn list_with_different_types() {
    let mut client = RedisAutomergeClient::new();

    client.create_list("names").unwrap();
    client.create_list("ages").unwrap();
    client.create_list("scores").unwrap();
    client.create_list("flags").unwrap();

    client.append_text("names", "Alice").unwrap();
    client.append_int("ages", 25).unwrap();
    client.append_double("scores", "95.5").unwrap();
    client.append_bool("flags", true).unwrap();

    assert_eq!(client.get_text("names[0]").unwrap(), Some("Alice".to_string()));
    assert_eq!(client.get_int("ages[0]").unwrap(), Some(25));
    assert_eq!(client.get_double("scores[0]").unwrap(), Some("95.5".to_string()));
    assert_eq!(client.get_bool("flags[0]").unwrap(), Some(true));
}

#[test]
fn nested_list_path() {
    let mut client = RedisAutomergeClient::new();

    client.create_list("data.items").unwrap();
    client.append_text("data.items", "item1").unwrap();
    client.append_text("data.items", "item2").unwrap();

    assert_eq!(client.list_len("data.items").unwrap(), Some(2));
    assert_eq!(client.get_text("data.items[0]").unwrap(), Some("item1".to_string()));
    assert_eq!(client.get_text("data.items[1]").unwrap(), Some("item2".to_string()));
}

#[test]
fn array_index_in_path() {
    let mut client = RedisAutomergeClient::new();

    client.create_list("users").unwrap();
    client.append_text("users", "placeholder").unwrap();

    assert_eq!(client.get_text("users[0]").unwrap(), Some("placeholder".to_string()));
}

#[test]
fn list_persistence() {
    let mut client = RedisAutomergeClient::new();

    client.create_list("items").unwrap();
    client.append_text("items", "first").unwrap();
    client.append_int("items", 42).unwrap();

    let bytes = client.save();
    let loaded = RedisAutomergeClient::load(&bytes).unwrap();

    assert_eq!(loaded.list_len("items").unwrap(), Some(2));
    assert_eq!(loaded.get_text("items[0]").unwrap(), Some("first".to_string()));
    assert_eq!(loaded.get_int("items[1]").unwrap(), Some(42));
}

#[test]
fn path_parsing_with_brackets() {
    let mut client = RedisAutomergeClient::new();

    client.create_list("users").unwrap();
    client.append_text("users", "user0").unwrap();

    assert_eq!(client.get_text("users[0]").unwrap(), Some("user0".to_string()));
    assert_eq!(client.get_text("$.users[0]").unwrap(), Some("user0".to_string()));
}

#[test]
fn put_diff_simple_replacement() {
    let mut client = RedisAutomergeClient::new();

    client.put_text("content", "Hello World").unwrap();
    assert_eq!(client.get_text("content").unwrap(), Some("Hello World".to_string()));

    let diff = "--- a/content\n+++ b/content\n@@ -1 +1 @@\n-Hello World\n+Hello Rust\n";
    client.put_diff("content", diff).unwrap();

    assert_eq!(client.get_text("content").unwrap(), Some("Hello Rust".to_string()));
}

#[test]
fn put_diff_insertion() {
    let mut client = RedisAutomergeClient::new();

    client.put_text("doc", "Line 1\nLine 3\n").unwrap();

    let diff = "--- a/doc\n+++ b/doc\n@@ -1,2 +1,3 @@\n Line 1\n+Line 2\n Line 3\n";
    client.put_diff("doc", diff).unwrap();

    assert_eq!(client.get_text("doc").unwrap(), Some("Line 1\nLine 2\nLine 3\n".to_string()));
}

#[test]
fn put_diff_deletion() {
    let mut client = RedisAutomergeClient::new();

    client.put_text("doc", "Line 1\nLine 2\nLine 3\n").unwrap();

    let diff = "--- a/doc\n+++ b/doc\n@@ -1,3 +1,2 @@\n Line 1\n-Line 2\n Line 3\n";
    client.put_diff("doc", diff).unwrap();

    assert_eq!(client.get_text("doc").unwrap(), Some("Line 1\nLine 3\n".to_string()));
}

#[test]
fn put_text_returns_change_bytes() {
    let mut client = RedisAutomergeClient::new();

    let change_bytes = client.put_text_with_change("field", "hello").unwrap();
    assert!(change_bytes.is_some(), "First change should return bytes");

    let mut client2 = RedisAutomergeClient::new();
    client2.apply_change_bytes(&change_bytes.unwrap()).unwrap();

    assert_eq!(client2.get_text("field").unwrap(), Some("hello".to_string()));
}

#[test]
fn put_int_returns_change_bytes() {
    let mut client = RedisAutomergeClient::new();

    let change_bytes = client.put_int_with_change("count", 42).unwrap();
    assert!(change_bytes.is_some());

    let mut client2 = RedisAutomergeClient::new();
    client2.apply_change_bytes(&change_bytes.unwrap()).unwrap();

    assert_eq!(client2.get_int("count").unwrap(), Some(42));
}

#[test]
fn multiple_changes_sync() {
    let mut client1 = RedisAutomergeClient::new();

    let change1 = client1.put_text_with_change("name", "Alice").unwrap().unwrap();
    let change2 = client1.put_int_with_change("age", 30).unwrap().unwrap();
    let change3 = client1.put_bool_with_change("active", true).unwrap().unwrap();

    let mut client2 = RedisAutomergeClient::new();
    client2.apply_change_bytes(&change1).unwrap();
    client2.apply_change_bytes(&change2).unwrap();
    client2.apply_change_bytes(&change3).unwrap();

    assert_eq!(client2.get_text("name").unwrap(), Some("Alice".to_string()));
    assert_eq!(client2.get_int("age").unwrap(), Some(30));
    assert_eq!(client2.get_bool("active").unwrap(), Some(true));
}
