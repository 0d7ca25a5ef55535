//! Tests of the documented semantics: path grammar edge cases, the
//! error taxonomy, type isolation, list discipline, change capture
//! and drain, snapshot round-trips, and replica convergence.

use automerge::transaction::Transactable;
use redis_automerge::{AmError, RedisAutomergeClient, RedisAutomergeExt};

#[test]
fn scenario_put_get_text_and_miss() {
    let mut c = RedisAutomergeClient::new();
    c.put_text("user.name", "Alice").unwrap();
    assert_eq!(c.get_text("user.name").unwrap(), Some("Alice".to_string()));
    assert_eq!(c.get_text("user.age").unwrap(), None);
}

#[test]
fn scenario_put_get_int_nested_and_map_miss() {
    let mut c = RedisAutomergeClient::new();
    c.put_int("a.b.c", 7).unwrap();
    assert_eq!(c.get_int("$.a.b.c").unwrap(), Some(7));
    // `a` is a map, not an integer.
    assert_eq!(c.get_int("a").unwrap(), None);
}

#[test]
fn scenario_list_build_and_read() {
    let mut c = RedisAutomergeClient::new();
    c.create_list("xs").unwrap();
    c.append_text("xs", "first").unwrap();
    c.append_text("xs", "second").unwrap();
    assert_eq!(c.list_len("xs").unwrap(), Some(2));
    assert_eq!(c.get_text("xs[0]").unwrap(), Some("first".to_string()));
    assert_eq!(c.get_text("xs[1]").unwrap(), Some("second".to_string()));
}

#[test]
fn scenario_diff_replaces_text() {
    let mut c = RedisAutomergeClient::new();
    c.put_text("k", "Hello World").unwrap();
    c.put_diff("k", "@@ -1 +1 @@\n-Hello World\n+Hello Rust\n").unwrap();
    assert_eq!(c.get_text("k").unwrap(), Some("Hello Rust".to_string()));
}

#[test]
fn scenario_append_to_missing_list_fails() {
    let mut c = RedisAutomergeClient::new();
    assert_eq!(c.append_text("missing", "x"), Err(AmError::NotFound));
}

#[test]
fn scenario_two_replicas_converge() {
    let mut d1 = RedisAutomergeClient::new();
    let mut d2 = RedisAutomergeClient::new();
    let c1 = d1.put_int_with_change("x", 1).unwrap().unwrap();
    let c2 = d2.put_int_with_change("x", 2).unwrap().unwrap();
    d1.apply_change_bytes(&c2).unwrap();
    d2.apply_change_bytes(&c1).unwrap();
    // The replicas agree on the surviving value, whichever the
    // engine's tie-break picked.
    assert_eq!(d1.get_int("x").unwrap(), d2.get_int("x").unwrap());
    assert!(d1.get_int("x").unwrap().is_some());
    // Each replica's snapshot reloads to the same observable state.
    let r1 = RedisAutomergeClient::load(&d1.save()).unwrap();
    let r2 = RedisAutomergeClient::load(&d2.save()).unwrap();
    assert_eq!(r1.get_int("x").unwrap(), r2.get_int("x").unwrap());
    // Both replicas hold exactly the same change set: their document
    // heads coincide.  (Their snapshots are not byte-equal on this
    // engine: it serializes op columns in application order.)
    let mut e1 = automerge::AutoCommit::load(&d1.save()).unwrap();
    let mut e2 = automerge::AutoCommit::load(&d2.save()).unwrap();
    let mut h1 = e1.get_heads();
    let mut h2 = e2.get_heads();
    h1.sort();
    h2.sort();
    assert_eq!(h1, h2);
}

#[test]
fn snapshot_round_trip_is_stable() {
    let mut c = RedisAutomergeClient::new();
    c.put_text("a.b", "v").unwrap();
    c.create_list("l").unwrap();
    c.append_int("l", 5).unwrap();
    let b1 = c.save();
    let mut reloaded = RedisAutomergeClient::load(&b1).unwrap();
    let b2 = reloaded.save();
    assert_eq!(b1, b2);
}

#[test]
fn type_isolation_between_scalars() {
    let mut c = RedisAutomergeClient::new();
    c.put_text("t", "x").unwrap();
    c.put_int("i", 1).unwrap();
    c.put_double("d", "1.5").unwrap();
    c.put_bool("b", true).unwrap();

    assert_eq!(c.get_int("t").unwrap(), None);
    assert_eq!(c.get_double("t").unwrap(), None);
    assert_eq!(c.get_bool("t").unwrap(), None);

    assert_eq!(c.get_text("i").unwrap(), None);
    assert_eq!(c.get_double("i").unwrap(), None);
    assert_eq!(c.get_bool("i").unwrap(), None);

    assert_eq!(c.get_text("d").unwrap(), None);
    assert_eq!(c.get_int("d").unwrap(), None);
    assert_eq!(c.get_bool("d").unwrap(), None);

    assert_eq!(c.get_text("b").unwrap(), None);
    assert_eq!(c.get_int("b").unwrap(), None);
    assert_eq!(c.get_double("b").unwrap(), None);
}

#[test]
fn overwrite_keeps_prefix_maps_and_last_value() {
    let mut c = RedisAutomergeClient::new();
    c.put_text("a.b.c", "v").unwrap();
    c.put_text("a.b.c", "w").unwrap();
    assert_eq!(c.get_text("a.b.c").unwrap(), Some("w".to_string()));
    // The interior nodes are maps: writing deeper under them works.
    c.put_text("a.b.d", "u").unwrap();
    assert_eq!(c.get_text("a.b.d").unwrap(), Some("u".to_string()));
}

#[test]
fn append_succeeds_only_after_create() {
    let mut c = RedisAutomergeClient::new();
    assert_eq!(c.append_text("l", "v"), Err(AmError::NotFound));
    c.create_list("l").unwrap();
    c.append_text("l", "v").unwrap();
    assert_eq!(c.list_len("l").unwrap(), Some(1));
    assert_eq!(c.get_text("l[0]").unwrap(), Some("v".to_string()));
}

#[test]
fn capture_matches_drain_order() {
    let mut c = RedisAutomergeClient::new();
    let b1 = c.put_text_with_change("x", "1").unwrap().unwrap();
    let b2 = c.put_int_with_change("y", 2).unwrap().unwrap();
    let drained = c.commands();
    assert_eq!(drained, vec![b1, b2]);
    assert!(c.commands().is_empty());
}

#[test]
fn foreign_apply_is_atomic() {
    let mut src = RedisAutomergeClient::new();
    let good = src.put_int_with_change("x", 1).unwrap().unwrap();

    let mut c = RedisAutomergeClient::new();
    let batch = vec![good, vec![1u8, 2, 3, 4]];
    assert_eq!(c.apply_bytes(&batch), Err(AmError::InvalidChange));
    // Neither the document nor the buffer moved.
    assert_eq!(c.get_int("x").unwrap(), None);
    assert!(c.commands().is_empty());
}

#[test]
fn apply_batch_buffers_all_blobs() {
    let mut src = RedisAutomergeClient::new();
    let b1 = src.put_int_with_change("x", 1).unwrap().unwrap();
    let b2 = src.put_text_with_change("y", "v").unwrap().unwrap();

    let mut c = RedisAutomergeClient::new();
    c.apply_bytes(&vec![b1.clone(), b2.clone()]).unwrap();
    assert_eq!(c.get_int("x").unwrap(), Some(1));
    assert_eq!(c.get_text("y").unwrap(), Some("v".to_string()));
    assert_eq!(c.commands(), vec![b1, b2]);
}

#[test]
fn bad_paths_are_rejected() {
    let mut c = RedisAutomergeClient::new();
    assert_eq!(c.put_text(".a", "v"), Err(AmError::BadPath));
    assert_eq!(c.put_text("a..b", "v"), Err(AmError::BadPath));
    assert_eq!(c.put_text("a.", "v"), Err(AmError::BadPath));
    assert_eq!(c.put_text("a.[0]", "v"), Err(AmError::BadPath));
    assert_eq!(c.put_text("a[", "v"), Err(AmError::BadPath));
    assert_eq!(c.put_text("a[]", "v"), Err(AmError::BadPath));
    assert_eq!(c.put_text("a[x]", "v"), Err(AmError::BadPath));
    assert_eq!(c.put_text("a[1x]", "v"), Err(AmError::BadPath));
    assert_eq!(c.put_text("a[99999999999999999999999]", "v"), Err(AmError::BadPath));
    // The empty path and the bare prefix denote the root: no leaf to
    // write.
    assert_eq!(c.put_text("", "v"), Err(AmError::BadPath));
    assert_eq!(c.put_text("$.", "v"), Err(AmError::BadPath));
}

#[test]
fn reads_of_the_root_are_bad_paths() {
    let mut c = RedisAutomergeClient::new();
    c.put_text("k", "v").unwrap();
    assert_eq!(c.get_text(""), Err(AmError::BadPath));
    assert_eq!(c.get_int("$."), Err(AmError::BadPath));
    assert_eq!(c.put_diff("", "@@ -1 +1 @@\n-x\n+y\n"), Err(AmError::BadPath));
}

#[test]
fn permissive_path_forms_parse() {
    let mut c = RedisAutomergeClient::new();
    // A key may follow a closing bracket directly.
    c.create_list("l").unwrap();
    c.put_text("l]x", "v").unwrap();
    assert_eq!(c.get_text("l]x").unwrap(), Some("v".to_string()));
}

#[test]
fn scalar_in_the_middle_is_a_type_mismatch() {
    let mut c = RedisAutomergeClient::new();
    c.put_int("a", 1).unwrap();
    assert_eq!(c.put_text("a.b", "v"), Err(AmError::PathTypeMismatch));
    // Reads through a scalar are misses, not errors.
    assert_eq!(c.get_text("a.b").unwrap(), None);
}

#[test]
fn index_errors() {
    let mut c = RedisAutomergeClient::new();
    c.create_list("l").unwrap();
    c.append_text("l", "x").unwrap();
    // Overwriting an existing slot works.
    c.put_text("l[0]", "y").unwrap();
    assert_eq!(c.get_text("l[0]").unwrap(), Some("y".to_string()));
    // Out of bounds is an error; the navigator never extends a list.
    assert_eq!(c.put_text("l[1]", "z"), Err(AmError::IndexOutOfRange));
    assert_eq!(c.put_text("l[5].k", "z"), Err(AmError::IndexOutOfRange));
    // An index into a map is out of range too.
    c.put_text("m.k", "v").unwrap();
    assert_eq!(c.put_text("m[0]", "z"), Err(AmError::IndexOutOfRange));
}

#[test]
fn create_list_leaf_must_be_a_key() {
    let mut c = RedisAutomergeClient::new();
    c.create_list("l").unwrap();
    c.append_text("l", "x").unwrap();
    assert_eq!(c.create_list("l[0]"), Err(AmError::BadPath));
    // Creating a list overwrites whatever was there.
    c.put_text("v", "old").unwrap();
    c.create_list("v").unwrap();
    assert_eq!(c.get_text("v").unwrap(), None);
    assert_eq!(c.list_len("v").unwrap(), Some(0));
}

#[test]
fn list_len_on_maps_and_scalars() {
    let mut c = RedisAutomergeClient::new();
    c.put_text("m.a", "1").unwrap();
    c.put_text("m.b", "2").unwrap();
    // A map reports its number of keys, as the engine's length does.
    assert_eq!(c.list_len("m").unwrap(), Some(2));
    // The root is a map as well.
    assert_eq!(c.list_len("").unwrap(), Some(1));
    // A scalar has no length.
    assert_eq!(c.list_len("m.a").unwrap(), None);
    assert_eq!(c.list_len("missing").unwrap(), None);
}

#[test]
fn doubles_are_validated() {
    let mut c = RedisAutomergeClient::new();
    assert_eq!(c.put_double("d", "not-a-number"), Err(AmError::InvalidValue));
    assert_eq!(c.append_double("d", "nope"), Err(AmError::InvalidValue));
    c.put_double("d", "2.5e3").unwrap();
    assert_eq!(c.get_double("d").unwrap(), Some("2.5e3".to_string()));
}

#[test]
fn double_survives_engine_round_trip() {
    // After a snapshot reload the text comes back from the engine's
    // floating-point value, so it must have really been stored as one.
    let mut c = RedisAutomergeClient::new();
    c.put_double("d", "2.5").unwrap();
    let bytes = c.save();
    let loaded = RedisAutomergeClient::load(&bytes).unwrap();
    assert_eq!(loaded.get_double("d").unwrap(), Some("2.5".to_string()));
    let parsed: f64 = loaded.get_double("d").unwrap().unwrap().parse().unwrap();
    assert_eq!(parsed, 2.5f64);
}

#[test]
fn put_diff_error_kinds() {
    let mut c = RedisAutomergeClient::new();
    assert_eq!(c.put_diff("missing", "@@ -1 +1 @@\n-x\n+y\n"), Err(AmError::NotFound));
    c.put_int("i", 3).unwrap();
    assert_eq!(c.put_diff("i", "@@ -1 +1 @@\n-x\n+y\n"), Err(AmError::TypeMismatch));
    c.put_text("t", "hello").unwrap();
    assert_eq!(c.put_diff("t", "@@ -1 +1 @@\n-goodbye\n+bye\n"), Err(AmError::DiffMismatch));
    assert_eq!(c.get_text("t").unwrap(), Some("hello".to_string()));
}

#[test]
fn hunk_headers_are_checked() {
    let mut c = RedisAutomergeClient::new();
    c.put_text("t", "hello").unwrap();
    // A truncated header is no header, hence a mismatch.
    assert_eq!(c.put_diff("t", "@@ -1 +1\n-hello\n+bye\n"), Err(AmError::DiffMismatch));
    assert_eq!(c.put_diff("t", "@@ -1\n-hello\n+bye\n"), Err(AmError::DiffMismatch));
    assert_eq!(c.get_text("t").unwrap(), Some("hello".to_string()));
    // Counts and a section heading after the closing marker are fine.
    c.put_diff("t", "@@ -1,1 +1,1 @@ greeting\n-hello\n+bye\n").unwrap();
    assert_eq!(c.get_text("t").unwrap(), Some("bye".to_string()));
}

#[test]
fn invalid_change_bytes_are_refused() {
    let mut c = RedisAutomergeClient::new();
    assert_eq!(c.apply_change_bytes(&[0u8, 1, 2]), Err(AmError::InvalidChange));
    assert!(c.commands().is_empty());
}

#[test]
fn invalid_snapshot_bytes_are_refused() {
    assert!(matches!(
        RedisAutomergeClient::load(&[0u8, 1, 2, 3]),
        Err(AmError::InvalidChange)
    ));
}

#[test]
fn foreign_document_with_nested_list_objects() {
    // A peer can nest maps inside lists, which the typed API never
    // creates; after a snapshot load they are fully navigable.
    let mut doc = automerge::AutoCommit::new();
    let l = doc.put_object(automerge::ROOT, "l", automerge::ObjType::List).unwrap();
    let m = doc.insert_object(&l, 0, automerge::ObjType::Map).unwrap();
    doc.put(&m, "k", "v").unwrap();
    let bytes = doc.save();

    let mut c = RedisAutomergeClient::load(&bytes).unwrap();
    assert_eq!(c.get_text("l[0].k").unwrap(), Some("v".to_string()));
    assert_eq!(c.list_len("l").unwrap(), Some(1));
    // Writing through the list element works too.
    c.put_text("l[0].k2", "w").unwrap();
    assert_eq!(c.get_text("l[0].k2").unwrap(), Some("w".to_string()));
}

#[test]
fn foreign_scalar_kinds_are_untyped() {
    // Unsigned integers, counters and timestamps have no typed
    // reader; they are misses, not errors.
    let mut doc = automerge::AutoCommit::new();
    doc.put(automerge::ROOT, "u", automerge::ScalarValue::Uint(5)).unwrap();
    doc.put(automerge::ROOT, "ts", automerge::ScalarValue::Timestamp(7)).unwrap();
    let bytes = doc.save();

    let c = RedisAutomergeClient::load(&bytes).unwrap();
    assert_eq!(c.get_int("u").unwrap(), None);
    assert_eq!(c.get_text("u").unwrap(), None);
    assert_eq!(c.get_int("ts").unwrap(), None);
    assert_eq!(c.list_len("u").unwrap(), None);
}

#[test]
fn default_is_a_fresh_client() {
    let c = RedisAutomergeClient::default();
    assert_eq!(c.get_text("anything").unwrap(), None);
}

#[test]
fn drained_blobs_replay_on_a_peer() {
    let mut c = RedisAutomergeClient::new();
    c.put_text("a", "1").unwrap();
    c.put_int("b", 2).unwrap();
    let blobs = c.commands();
    assert_eq!(blobs.len(), 2);

    let mut peer = RedisAutomergeClient::new();
    peer.apply_bytes(&blobs).unwrap();
    assert_eq!(peer.get_text("a").unwrap(), Some("1".to_string()));
    assert_eq!(peer.get_int("b").unwrap(), Some(2));
}

#[test]
fn idempotent_write_may_capture_nothing() {
    let mut c = RedisAutomergeClient::new();
    c.put_text("k", "v").unwrap();
    let first = c.commands().len();
    assert_eq!(first, 1);
    // Whatever the engine coalesces, the buffer and the returned
    // blob stay in step.
    let blob = c.put_text_with_change("k", "v").unwrap();
    let drained = c.commands();
    match blob {
        Some(b) => assert_eq!(drained, vec![b]),
        None => assert!(drained.is_empty()),
    }
}
