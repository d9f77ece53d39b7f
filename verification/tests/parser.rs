use knowsql::parser::Command;
use knowsql::parser::KeyValue;
use knowsql::parser::parse_command;

fn kv(key: &str, value: &str) -> KeyValue {
    KeyValue { key: key.to_string(), value: value.to_string() }
}

#[test]
fn test_parse_get() {
    assert_eq!(parse_command("get key"), Some(Command::Get("key".to_string())));
}

#[test]
fn test_parse_set() {
    assert_eq!(parse_command("set key value"), Some(Command::Put(kv("key", "value"))));
}

#[test]
fn test_parse_mset() {
    assert_eq!(
        parse_command("mset key1 value1 key2 value2"),
        Some(Command::MSet(vec![kv("key1", "value1"), kv("key2", "value2")]))
    );
}

#[test]
fn test_parse_increment() {
    assert_eq!(parse_command("incr key"), Some(Command::Increment("key".to_string())));
}

#[test]
fn test_parse_list() {
    assert_eq!(parse_command("list"), Some(Command::List));
}

#[test]
fn test_parse_exit() {
    assert_eq!(parse_command("exit"), Some(Command::Exit));
}

#[test]
fn test_parse_command() {
    assert_eq!(parse_command("get key"), Some(Command::Get("key".to_string())));
    assert_eq!(parse_command("set key value"), Some(Command::Put(kv("key", "value"))));
    assert_eq!(
        parse_command("mset key1 value1 key2 value2"),
        Some(Command::MSet(vec![kv("key1", "value1"), kv("key2", "value2")]))
    );
    assert_eq!(parse_command("incr key"), Some(Command::Increment("key".to_string())));
    assert_eq!(parse_command("list"), Some(Command::List));
    assert_eq!(parse_command("exit"), Some(Command::Exit));
    assert_eq!(parse_command("invalid"), None);
}

#[test]
fn test_parse_command_case_insensitive() {
    assert_eq!(parse_command("GEt key"), Some(Command::Get("key".to_string())));
    assert_eq!(parse_command("SeT key value"), Some(Command::Put(kv("key", "value"))));
    assert_eq!(parse_command("LIST"), Some(Command::List));
    assert_eq!(parse_command("eXIT"), Some(Command::Exit));
}

#[test]
fn arguments_are_case_sensitive() {
    assert_eq!(parse_command("get K"), Some(Command::Get("K".to_string())));
    assert_ne!(parse_command("get K"), parse_command("get k"));
    assert_eq!(parse_command("set Key Value"), Some(Command::Put(kv("Key", "Value"))));
}

#[test]
fn whitespace_must_be_exact() {
    assert_eq!(parse_command(""), None);
    assert_eq!(parse_command(" "), None);
    assert_eq!(parse_command(" get key"), None);
    assert_eq!(parse_command("get key "), None);
    assert_eq!(parse_command("get  key"), None);
    assert_eq!(parse_command("get key\n"), None);
    assert_eq!(parse_command("set key  value"), None);
}

#[test]
fn arity_must_be_exact() {
    assert_eq!(parse_command("get"), None);
    assert_eq!(parse_command("get a b"), None);
    assert_eq!(parse_command("set key"), None);
    assert_eq!(parse_command("set key value extra"), None);
    assert_eq!(parse_command("incr"), None);
    assert_eq!(parse_command("list now"), None);
    assert_eq!(parse_command("exit now"), None);
}

#[test]
fn mset_needs_complete_pairs() {
    assert_eq!(parse_command("mset"), None);
    assert_eq!(parse_command("mset key"), None);
    assert_eq!(parse_command("mset key value extra"), None);
    assert_eq!(parse_command("mset a 1"), Some(Command::MSet(vec![kv("a", "1")])));
    assert_eq!(
        parse_command("MsEt a 1 b 2 c 3"),
        Some(Command::MSet(vec![kv("a", "1"), kv("b", "2"), kv("c", "3")]))
    );
}

#[test]
fn tokens_are_alphanumeric_only() {
    assert_eq!(parse_command("get k-1"), None);
    assert_eq!(parse_command("set key va!ue"), None);
    assert_eq!(parse_command("incr counter_1"), None);
    assert_eq!(parse_command("get caf\u{e9}"), None);
    assert_eq!(parse_command("get Key9"), Some(Command::Get("Key9".to_string())));
}

#[test]
fn unknown_keywords_do_not_parse() {
    assert_eq!(parse_command("getx key"), None);
    assert_eq!(parse_command("gets key"), None);
    assert_eq!(parse_command("put key value"), None);
    assert_eq!(parse_command("lists"), None);
}
