use knowsql::session::Session;
use knowsql::session::SessionState;
use knowsql::session::handle_line;
use knowsql::store::KvStore;

fn run(store: &mut KvStore, line: &str) -> String {
    let (reply, state) = handle_line(store, line);
    assert_eq!(state, SessionState::Active);
    reply
}

#[test]
fn set_then_get_returns_the_value() {
    let mut store = KvStore::new();
    assert_eq!(run(&mut store, "set a 1"), "OK");
    assert_eq!(run(&mut store, "get a"), "1");
}

#[test]
fn get_on_missing_key_is_nil() {
    let mut store = KvStore::new();
    assert_eq!(run(&mut store, "get missing"), "NIL");
}

#[test]
fn increment_counts_from_one() {
    let mut store = KvStore::new();
    assert_eq!(run(&mut store, "incr counter"), "1");
    assert_eq!(run(&mut store, "incr counter"), "2");
    assert_eq!(run(&mut store, "incr counter"), "3");
    assert_eq!(run(&mut store, "get counter"), "3");
}

#[test]
fn mset_stores_every_pair() {
    let mut store = KvStore::new();
    assert_eq!(run(&mut store, "mset x 1 y 2"), "OK");
    assert_eq!(run(&mut store, "get x"), "1");
    assert_eq!(run(&mut store, "get y"), "2");
}

#[test]
fn unparseable_line_is_inv_and_mutates_nothing() {
    let mut store = KvStore::new();
    assert_eq!(run(&mut store, "set a 1"), "OK");
    assert_eq!(run(&mut store, "blah"), "INV");
    assert_eq!(run(&mut store, "set a  2"), "INV");
    assert_eq!(run(&mut store, "list"), "a");
    assert_eq!(run(&mut store, "get a"), "1");
}

#[test]
fn exit_replies_bye_and_closes() {
    let mut store = KvStore::new();
    let (reply, state) = handle_line(&mut store, "exit");
    assert_eq!(reply, "BYE");
    assert_eq!(state, SessionState::Closed);
}

#[test]
fn session_state_machine_follows_the_commands() {
    let mut store = KvStore::new();
    let mut session = Session::new();
    assert!(session.is_active());
    assert_eq!(session.process_line(&mut store, "set a 1"), "OK");
    assert!(session.is_active());
    assert_eq!(session.process_line(&mut store, "nonsense"), "INV");
    assert!(session.is_active());
    assert_eq!(session.process_line(&mut store, "exit"), "BYE");
    assert!(!session.is_active());
}

#[test]
fn set_overwrites_without_duplicating_the_key() {
    let mut store = KvStore::new();
    assert_eq!(run(&mut store, "set a 1"), "OK");
    assert_eq!(run(&mut store, "set a 2"), "OK");
    assert_eq!(run(&mut store, "get a"), "2");
    assert_eq!(run(&mut store, "list"), "a");
}

#[test]
fn list_reflects_exactly_the_touched_keys() {
    let mut store = KvStore::new();
    assert_eq!(run(&mut store, "list"), "");
    assert_eq!(run(&mut store, "set b 1"), "OK");
    assert_eq!(run(&mut store, "set a 2"), "OK");
    assert_eq!(run(&mut store, "incr c"), "1");
    assert_eq!(run(&mut store, "list"), "b a c");

    let mut other = KvStore::new();
    assert_eq!(run(&mut other, "incr c"), "1");
    assert_eq!(run(&mut other, "set a 2"), "OK");
    assert_eq!(run(&mut other, "set b 1"), "OK");
    let mut keys = run(&mut store, "list").split(' ').map(str::to_string).collect::<Vec<_>>();
    let mut other_keys = run(&mut other, "list").split(' ').map(str::to_string).collect::<Vec<_>>();
    keys.sort();
    other_keys.sort();
    assert_eq!(keys, other_keys);
}

#[test]
fn increment_keeps_keyword_case_insensitive() {
    let mut store = KvStore::new();
    assert_eq!(run(&mut store, "InCr n"), "1");
    assert_eq!(run(&mut store, "INCR n"), "2");
}

#[test]
fn increment_reads_leading_zeros_as_decimal() {
    let mut store = KvStore::new();
    assert_eq!(run(&mut store, "set n 007"), "OK");
    assert_eq!(run(&mut store, "incr n"), "8");
}

#[test]
fn increment_on_non_numeral_is_err_and_keeps_the_value() {
    let mut store = KvStore::new();
    assert_eq!(run(&mut store, "set n abc"), "OK");
    assert_eq!(run(&mut store, "incr n"), "ERR");
    assert_eq!(run(&mut store, "get n"), "abc");
}

#[test]
fn increment_overflow_is_err_not_a_panic() {
    let mut store = KvStore::new();
    assert_eq!(run(&mut store, "set n 18446744073709551615"), "OK");
    assert_eq!(run(&mut store, "incr n"), "ERR");
    assert_eq!(run(&mut store, "get n"), "18446744073709551615");

    assert_eq!(run(&mut store, "set m 99999999999999999999"), "OK");
    assert_eq!(run(&mut store, "incr m"), "ERR");

    assert_eq!(run(&mut store, "set k 18446744073709551614"), "OK");
    assert_eq!(run(&mut store, "incr k"), "18446744073709551615");
}

#[test]
fn mset_applies_pairs_left_to_right() {
    let mut store = KvStore::new();
    assert_eq!(run(&mut store, "mset a 1 a 2"), "OK");
    assert_eq!(run(&mut store, "get a"), "2");
    assert_eq!(run(&mut store, "list"), "a");
}

#[test]
fn empty_line_is_invalid_not_fatal() {
    let mut store = KvStore::new();
    let mut session = Session::new();
    assert_eq!(session.process_line(&mut store, ""), "INV");
    assert!(session.is_active());
}
