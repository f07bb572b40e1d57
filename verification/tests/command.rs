use simple_kv_store::command::{assemble_set, parse_command, parse_u64_str, split_command, Command};

#[test]
fn split_on_unquoted_spaces() {
    assert_eq!(split_command("set key value"), vec!["set", "key", "value"]);
    assert_eq!(split_command("   a   b "), vec!["a", "b"]);
    assert_eq!(split_command(""), Vec::<String>::new());
    assert_eq!(split_command("   "), Vec::<String>::new());
}

#[test]
fn split_keeps_quotes_and_groups_words() {
    assert_eq!(split_command("set k 'a b'"), vec!["set", "k", "'a b'"]);
    assert_eq!(split_command("\"x y\" z"), vec!["\"x y\"", "z"]);
}

#[test]
fn split_honors_backslash_escapes() {
    // An escape is kept as a literal backslash before an ordinary character,
    // while an unquoted space still separates parts.
    assert_eq!(split_command("a\\ b"), vec!["a", "\\b"]);
    assert_eq!(split_command("a\\xb"), vec!["a\\xb"]);
    assert_eq!(split_command("a\\\\b"), vec!["a\\b"]);
    assert_eq!(split_command("a\\'b"), vec!["a\\'b"]);
}

#[test]
fn parse_recognises_every_command() {
    match parse_command(&split_command("get k")) {
        Command::Get { key } => assert_eq!(key, "k"),
        _ => panic!("expected a get"),
    }
    match parse_command(&split_command("set k v")) {
        Command::Put { key, value, ttl } => {
            assert_eq!(key, "k");
            assert_eq!(value, "v");
            assert_eq!(ttl, None);
        }
        _ => panic!("expected a set"),
    }
    match parse_command(&split_command("set k v --ttl 30")) {
        Command::Put { key, value, ttl } => {
            assert_eq!(key, "k");
            assert_eq!(value, "v");
            assert_eq!(ttl, Some(30));
        }
        _ => panic!("expected a set with ttl"),
    }
    match parse_command(&split_command("delete k")) {
        Command::Delete { key } => assert_eq!(key, "k"),
        _ => panic!("expected a delete"),
    }
    assert!(matches!(parse_command(&split_command("list")), Command::List));
    match parse_command(&split_command("ttl k")) {
        Command::Ttl { key } => assert_eq!(key, "k"),
        _ => panic!("expected a ttl"),
    }
    assert!(matches!(parse_command(&split_command("exit")), Command::Exit));
    assert!(matches!(parse_command(&split_command("quit")), Command::Exit));
    assert!(matches!(parse_command(&split_command("help")), Command::Help));
    assert!(matches!(parse_command(&split_command("")), Command::Empty));
    assert!(matches!(parse_command(&split_command("set k")), Command::SetUsage));
    assert!(matches!(parse_command(&split_command("frobnicate")), Command::Unknown));
    assert!(matches!(parse_command(&split_command("get")), Command::Unknown));
    assert!(matches!(parse_command(&split_command("get a b")), Command::Unknown));
}

#[test]
fn a_malformed_ttl_is_ignored() {
    match parse_command(&split_command("set k v --ttl soon")) {
        Command::Put { ttl, .. } => assert_eq!(ttl, None),
        _ => panic!("expected a set"),
    }
    match parse_command(&split_command("set k v --wrong 30")) {
        Command::Put { ttl, .. } => assert_eq!(ttl, None),
        _ => panic!("expected a set"),
    }
}

#[test]
fn numbers_parse_whole_or_not_at_all() {
    assert_eq!(parse_u64_str("0"), Some(0));
    assert_eq!(parse_u64_str("30"), Some(30));
    assert_eq!(parse_u64_str("18446744073709551615"), Some(u64::MAX));
    assert_eq!(parse_u64_str("18446744073709551616"), None);
    assert_eq!(parse_u64_str(""), None);
    assert_eq!(parse_u64_str("12a"), None);
    assert_eq!(parse_u64_str("-1"), None);
}

#[test]
fn set_lines_assemble_key_value_and_ttl() {
    let parts = split_command("set name 'John Doe' 60");
    match assemble_set(&parts) {
        Some((key, value, ttl)) => {
            assert_eq!(key, "name");
            assert_eq!(value, "John Doe");
            assert_eq!(ttl, Some(60));
        }
        None => panic!("expected an assembled set"),
    }
    let parts = split_command("set name John Doe");
    match assemble_set(&parts) {
        Some((key, value, ttl)) => {
            assert_eq!(key, "name");
            assert_eq!(value, "John Doe");
            assert_eq!(ttl, None);
        }
        None => panic!("expected an assembled set"),
    }
    let parts = split_command("set name \"v\"");
    match assemble_set(&parts) {
        Some((key, value, ttl)) => {
            assert_eq!(key, "name");
            assert_eq!(value, "v");
            assert_eq!(ttl, None);
        }
        None => panic!("expected an assembled set"),
    }
    assert!(assemble_set(&split_command("set name")).is_none());
}
