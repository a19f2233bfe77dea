use rbtree_db::persistence::save_outcome;
use rbtree_db::persistence::{decimal_string, encode_dump, read_dump, read_dump_line};

fn lines_of(text: &str) -> Vec<String> {
    text.lines().map(|l| l.to_string()).collect()
}

#[test]
fn dump_roundtrip_in_memory() {
    let pairs = vec![
        ("cidade".to_string(), "Brasilia".to_string()),
        ("nome".to_string(), "Gabriel".to_string()),
    ];
    let text = encode_dump(&pairs);
    assert_eq!(text, "SET cidade Brasilia\nSET nome Gabriel\n");
    let loaded = read_dump("data/x.rdb", &lines_of(&text)).unwrap();
    assert_eq!(loaded, pairs);
}

#[test]
fn empty_dump_is_empty() {
    assert_eq!(encode_dump(&vec![]), "");
    assert!(read_dump("p", &vec![]).unwrap().is_empty());
}

#[test]
fn value_with_spaces_survives_dump() {
    let pairs = vec![("nome".to_string(), "Gabriel Zanetti".to_string())];
    let loaded = read_dump("p", &lines_of(&encode_dump(&pairs))).unwrap();
    assert_eq!(loaded[0].1, "Gabriel Zanetti");
}

#[test]
fn dump_line_is_a_set_command() {
    let pairs = vec![("chave".to_string(), "valor".to_string())];
    assert_eq!(encode_dump(&pairs).trim(), "SET chave valor");
}

#[test]
fn twenty_pairs_survive_dump() {
    let pairs: Vec<(String, String)> = (0..20)
        .map(|i| (format!("key{i:02}"), format!("val{i}")))
        .collect();
    let loaded = read_dump("p", &lines_of(&encode_dump(&pairs))).unwrap();
    assert_eq!(loaded.len(), 20);
    for (i, (k, v)) in loaded.iter().enumerate() {
        assert_eq!(k, &format!("key{i:02}"));
        assert_eq!(v, &format!("val{i}"));
    }
}

#[test]
fn blank_lines_are_skipped_and_lines_trimmed() {
    let lines = lines_of("\n  SET a 1  \n\t\nSET b dois tres\n");
    let loaded = read_dump("p", &lines).unwrap();
    assert_eq!(
        loaded,
        vec![("a".to_string(), "1".to_string()), ("b".to_string(), "dois tres".to_string())]
    );
}

#[test]
fn malformed_line_is_reported_with_its_number() {
    let lines = lines_of("SET a 1\n\nGET a\nSET b 2\n");
    assert_eq!(read_dump("data/dump.rdb", &lines).unwrap_err(), "ERR: malformed line 3 in data/dump.rdb");
    let lines = lines_of("SET a\n");
    assert_eq!(read_dump("f", &lines).unwrap_err(), "ERR: malformed line 1 in f");
    let lines: Vec<String> = (0..12).map(|_| "SET k v".to_string()).chain(["set k v".to_string()]).collect();
    assert_eq!(read_dump("f", &lines).unwrap_err(), "ERR: malformed line 13 in f");
}

#[test]
fn single_lines_read_as_specified() {
    assert_eq!(read_dump_line("   "), Some(None));
    assert_eq!(read_dump_line("SET k v w"), Some(Some(("k".to_string(), "v w".to_string()))));
    assert_eq!(read_dump_line("SET  v"), Some(Some(("".to_string(), "v".to_string()))));
    assert_eq!(read_dump_line("SET k"), None);
    assert_eq!(read_dump_line("PUT k v"), None);
}

#[test]
fn decimal_notation() {
    assert_eq!(decimal_string(0), "0");
    assert_eq!(decimal_string(7), "7");
    assert_eq!(decimal_string(10), "10");
    assert_eq!(decimal_string(1234567890), "1234567890");
}

#[test]
fn save_outcome_reports_count_and_path() {
    assert_eq!(
        save_outcome(Ok(()), 2, "data/dump.rdb"),
        "Persisted 2 keys to data/dump.rdb"
    );
    assert_eq!(save_outcome(Ok(()), 0, "x.rdb"), "Persisted 0 keys to x.rdb");
    assert_eq!(
        save_outcome(Err("disk full".to_string()), 3, "x.rdb"),
        "ERR: could not write to x.rdb: disk full"
    );
}
