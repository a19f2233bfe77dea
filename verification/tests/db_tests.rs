use rbtree_db::db::Database;

fn populated() -> Database {
    let mut db = Database::new();
    // Out-of-order insertion on purpose: the tree keeps keys sorted.
    db.set("carlos".to_string(), "3".to_string());
    db.set("ana".to_string(), "1".to_string());
    db.set("bruno".to_string(), "2".to_string());
    db
}

#[test]
fn set_and_get_roundtrip() {
    let mut db = Database::new();
    assert_eq!(db.set("nome".to_string(), "Gabriel".to_string()), "OK");
    assert_eq!(db.get("nome"), "\"Gabriel\"");
}

#[test]
fn get_missing_key_returns_nil() {
    assert_eq!(Database::new().get("nada"), "(nil)");
}

#[test]
fn set_upsert_replaces_value() {
    let mut db = Database::new();
    db.set("k".to_string(), "v1".to_string());
    db.set("k".to_string(), "v2".to_string());
    assert_eq!(db.get("k"), "\"v2\"");
}

#[test]
fn delete_existing_key() {
    let mut db = Database::new();
    db.set("k".to_string(), "v".to_string());
    assert_eq!(db.delete("k"), "OK");
    assert_eq!(db.get("k"), "(nil)");
}

#[test]
fn delete_missing_key_returns_nil() {
    assert_eq!(Database::new().delete("nada"), "(nil)");
}

#[test]
fn db_range_returns_pairs_in_order() {
    let db = populated();
    let result = db.range("ana", "bruno");
    let lines: Vec<&str> = result.lines().collect();
    assert_eq!(lines.len(), 2);
    assert!(lines[0].starts_with("ana"));
    assert!(lines[1].starts_with("bruno"));
}

#[test]
fn range_excludes_keys_outside_bounds() {
    let db = populated();
    let result = db.range("ana", "bruno");
    assert!(!result.contains("carlos"));
}

#[test]
fn range_empty_returns_empty_marker() {
    assert_eq!(populated().range("x", "z"), "(empty)");
}

#[test]
fn range_inverted_bounds_returns_empty() {
    assert_eq!(populated().range("z", "a"), "(empty)");
}

#[test]
fn keys_returns_sorted_order() {
    let result = populated().keys();
    let lines: Vec<&str> = result.lines().collect();
    assert_eq!(lines, vec!["ana", "bruno", "carlos"]);
}

#[test]
fn keys_empty_db() {
    assert_eq!(Database::new().keys(), "(empty)");
}

#[test]
fn min_returns_smallest_key() {
    assert!(populated().min().starts_with("ana"));
}

#[test]
fn max_returns_largest_key() {
    assert!(populated().max().starts_with("carlos"));
}

#[test]
fn min_max_empty_db() {
    assert_eq!(Database::new().min(), "(nil)");
    assert_eq!(Database::new().max(), "(nil)");
}

#[test]
fn iter_yields_all_pairs_in_order() {
    let db = populated();
    let pairs: Vec<(&String, &String)> = db.iter();
    assert_eq!(pairs.len(), 3);
    assert_eq!(pairs[0].0, "ana");
    assert_eq!(pairs[1].0, "bruno");
    assert_eq!(pairs[2].0, "carlos");
}

// ── Exact answers ───────────────────────────────────────────────────────────

#[test]
fn range_renders_each_pair_exactly() {
    let db = populated();
    assert_eq!(db.range("ana", "carlos"), "ana -> \"1\"\nbruno -> \"2\"\ncarlos -> \"3\"");
    assert_eq!(db.range("b", "c"), "bruno -> \"2\"");
}

#[test]
fn range_with_equal_bounds_finds_the_key() {
    assert_eq!(populated().range("bruno", "bruno"), "bruno -> \"2\"");
}

#[test]
fn min_and_max_render_exactly() {
    let db = populated();
    assert_eq!(db.min(), "ana -> \"1\"");
    assert_eq!(db.max(), "carlos -> \"3\"");
}

#[test]
fn keys_renders_exactly() {
    assert_eq!(populated().keys(), "ana\nbruno\ncarlos");
}

#[test]
fn get_after_set_leaves_other_keys() {
    let mut db = populated();
    db.set("bruno".to_string(), "20".to_string());
    assert_eq!(db.get("bruno"), "\"20\"");
    assert_eq!(db.get("ana"), "\"1\"");
    assert_eq!(db.get("carlos"), "\"3\"");
    assert_eq!(db.len(), 3);
}

#[test]
fn get_after_delete_leaves_other_keys() {
    let mut db = populated();
    assert_eq!(db.delete("bruno"), "OK");
    assert_eq!(db.get("bruno"), "(nil)");
    assert_eq!(db.get("ana"), "\"1\"");
    assert_eq!(db.keys(), "ana\ncarlos");
    assert_eq!(db.delete("bruno"), "(nil)");
    assert_eq!(db.len(), 2);
}

#[test]
fn keys_order_is_by_characters() {
    let mut db = Database::new();
    db.set("b".to_string(), "1".to_string());
    db.set("B".to_string(), "2".to_string());
    db.set("ab".to_string(), "3".to_string());
    db.set("a".to_string(), "4".to_string());
    db.set("é".to_string(), "5".to_string());
    assert_eq!(db.keys(), "B\na\nab\nb\né");
}

#[test]
fn save_and_load_are_left_to_the_program() {
    let mut db = populated();
    assert_eq!(db.save(), "(not implemented)");
    assert_eq!(db.load(), "(not implemented)");
    assert_eq!(db.len(), 3);
}

#[test]
fn many_keys_stay_sorted_through_deletes() {
    let mut db = Database::new();
    for i in 0..200 {
        db.set(format!("k{:03}", (i * 37) % 200), format!("v{i}"));
    }
    for i in 0..200 {
        if i % 3 == 0 {
            assert_eq!(db.delete(&format!("k{:03}", i)), "OK");
        }
    }
    let keys = db.keys();
    let expected: Vec<String> = (0..200).filter(|i| i % 3 != 0).map(|i| format!("k{:03}", i)).collect();
    assert_eq!(keys, expected.join("\n"));
}

#[test]
fn delete_of_fresh_key_restores_contents() {
    let mut db = Database::new();
    db.set("carlos".to_string(), "1".to_string());
    db.set("ana".to_string(), "2".to_string());
    let keys_before = db.keys();
    assert_eq!(db.set("bruno".to_string(), "3".to_string()), "OK");
    assert_eq!(db.delete("bruno"), "OK");
    assert_eq!(db.keys(), keys_before);
    assert_eq!(db.get("bruno"), "(nil)");
    assert_eq!(db.min(), "ana -> \"2\"");
    assert_eq!(db.max(), "carlos -> \"1\"");
}
