use rbtree_db::command::{execute, parse_command, parse_words, Command};
use rbtree_db::db::Database;

#[test]
fn parse_set_simple() {
    match parse_command("SET foo bar").unwrap() {
        Command::SetValue(k, v) => {
            assert_eq!(k, "foo");
            assert_eq!(v, "bar");
        }
        _ => panic!("expected Set"),
    }
}

#[test]
fn parse_set_value_with_spaces() {
    match parse_command("SET nome Gabriel Zanetti").unwrap() {
        Command::SetValue(k, v) => {
            assert_eq!(k, "nome");
            assert_eq!(v, "Gabriel Zanetti");
        }
        _ => panic!("expected Set"),
    }
}

#[test]
fn parse_set_case_insensitive() {
    assert!(matches!(parse_command("set foo bar"), Ok(Command::SetValue(_, _))));
}

#[test]
fn parse_get() {
    assert!(matches!(
        parse_command("GET nome"),
        Ok(Command::Get(k)) if k == "nome"
    ));
}

#[test]
fn parse_delete() {
    assert!(matches!(
        parse_command("DELETE key"),
        Ok(Command::Delete(k)) if k == "key"
    ));
}

#[test]
fn parse_range() {
    match parse_command("RANGE ana pedro").unwrap() {
        Command::Range(low, high) => {
            assert_eq!(low, "ana");
            assert_eq!(high, "pedro");
        }
        _ => panic!("expected Range"),
    }
}

#[test]
fn parse_no_arg_commands() {
    assert!(matches!(parse_command("KEYS"), Ok(Command::Keys)));
    assert!(matches!(parse_command("MIN"), Ok(Command::Min)));
    assert!(matches!(parse_command("MAX"), Ok(Command::Max)));
    assert!(matches!(parse_command("SAVE"), Ok(Command::Save)));
    assert!(matches!(parse_command("LOAD"), Ok(Command::Load)));
    assert!(matches!(parse_command("EXIT"), Ok(Command::Exit)));
}

#[test]
fn parse_unknown_command_is_error() {
    let err = parse_command("FLUSHALL").unwrap_err();
    assert!(err.contains("unknown command"));
}

#[test]
fn parse_set_missing_value_is_error() {
    assert!(parse_command("SET key").is_err());
}

#[test]
fn parse_get_missing_key_is_error() {
    assert!(parse_command("GET").is_err());
}

#[test]
fn parse_range_missing_second_key_is_error() {
    assert!(parse_command("RANGE ana").is_err());
}

#[test]
fn parse_empty_input_is_error() {
    assert!(parse_command("").is_err());
}

// ── Exact messages and edge cases ───────────────────────────────────────────

#[test]
fn parse_error_messages_are_exact() {
    assert_eq!(parse_command("SET key").unwrap_err(), "usage: SET <key> <value>");
    assert_eq!(parse_command("SET key   ").unwrap_err(), "usage: SET <key> <value>");
    assert_eq!(parse_command("GET").unwrap_err(), "usage: GET <key>");
    assert_eq!(parse_command("DELETE").unwrap_err(), "usage: DELETE <key>");
    assert_eq!(parse_command("RANGE ana").unwrap_err(), "usage: RANGE <key1> <key2>");
    assert_eq!(parse_command("RANGE").unwrap_err(), "usage: RANGE <key1> <key2>");
    assert_eq!(parse_command("flushall now").unwrap_err(), "unknown command 'FLUSHALL'");
    assert_eq!(parse_command("").unwrap_err(), "unknown command ''");
}

#[test]
fn parse_arguments_are_trimmed() {
    match parse_command("SET k    valor com espaço   ").unwrap() {
        Command::SetValue(k, v) => {
            assert_eq!(k, "k");
            assert_eq!(v, "valor com espaço");
        }
        _ => panic!("expected Set"),
    }
    assert!(matches!(parse_command("GET   nome  "), Ok(Command::Get(k)) if k == "nome"));
    assert!(matches!(parse_command("get nome composto"), Ok(Command::Get(k)) if k == "nome composto"));
}

#[test]
fn parse_range_splits_on_any_white_space() {
    match parse_command("range  a\tb  c").unwrap() {
        Command::Range(low, high) => {
            assert_eq!(low, "a");
            assert_eq!(high, "b");
        }
        _ => panic!("expected Range"),
    }
}

#[test]
fn parse_words_takes_the_uppercased_word() {
    assert!(matches!(parse_words("KEYS", ""), Ok(Command::Keys)));
    assert!(parse_words("keys", "").is_err());
    match parse_words("SET", "a b") {
        Ok(Command::SetValue(k, v)) => {
            assert_eq!(k, "a");
            assert_eq!(v, "b");
        }
        _ => panic!("expected Set"),
    }
}

#[test]
fn execute_runs_each_command() {
    let mut db = Database::new();
    assert_eq!(execute(&mut db, Command::SetValue("b".to_string(), "2".to_string())), "OK");
    assert_eq!(execute(&mut db, Command::SetValue("a".to_string(), "1".to_string())), "OK");
    assert_eq!(execute(&mut db, Command::Get("a".to_string())), "\"1\"");
    assert_eq!(execute(&mut db, Command::Range("a".to_string(), "b".to_string())), "a -> \"1\"\nb -> \"2\"");
    assert_eq!(execute(&mut db, Command::Keys), "a\nb");
    assert_eq!(execute(&mut db, Command::Min), "a -> \"1\"");
    assert_eq!(execute(&mut db, Command::Max), "b -> \"2\"");
    assert_eq!(execute(&mut db, Command::Delete("a".to_string())), "OK");
    assert_eq!(execute(&mut db, Command::Get("a".to_string())), "(nil)");
    assert_eq!(execute(&mut db, Command::Save), "(not implemented)");
    assert_eq!(execute(&mut db, Command::Load), "(not implemented)");
}
