//! Tests of the transport-facing dispatcher: command semantics, responses,
//! log records and snapshot images, in live and replay mode.
use rust_mini_redis::cmd_handler::proc_cmd;
use rust_mini_redis::store::Store;
use rust_mini_redis::types::Mode;

#[test]
fn cmd_handler_test_set_new_key() {
    let mut storage = Store::new();
    let result = proc_cmd(b"SET foo bar", &mut storage, Mode::Live).unwrap();
    assert_eq!(result.response, b"OK".to_vec());
    assert_eq!(storage.get(b"foo").cloned(), Some(b"bar".to_vec()));
}

#[test]
fn cmd_handler_test_set_overwrite_existing() {
    let mut storage = Store::new();
    proc_cmd(b"SET foo bar", &mut storage, Mode::Live).unwrap();
    let result = proc_cmd(b"SET foo baz", &mut storage, Mode::Live).unwrap();
    assert_eq!(result.response, b"OK".to_vec());
    assert_eq!(storage.get(b"foo").cloned(), Some(b"baz".to_vec())); // overwritten
}

#[test]
fn cmd_handler_test_get_existing_key() {
    let mut storage = Store::new();
    proc_cmd(b"SET name Alice", &mut storage, Mode::Live).unwrap();
    let result = proc_cmd(b"GET name", &mut storage, Mode::Live).unwrap();
    assert_eq!(result.response, b"Alice".to_vec());
}

#[test]
fn cmd_handler_test_get_nonexistent_key() {
    let mut storage = Store::new();
    let result = proc_cmd(b"GET missing", &mut storage, Mode::Live).unwrap();
    assert_eq!(result.response, b"(nil)".to_vec());
}

#[test]
fn cmd_handler_test_del_existing_key() {
    let mut storage = Store::new();
    proc_cmd(b"SET mykey hello", &mut storage, Mode::Live).unwrap();
    let result = proc_cmd(b"DEL mykey", &mut storage, Mode::Live).unwrap();
    assert_eq!(result.response, b"(integer) 1".to_vec()); // key existed and was deleted
    assert!(storage.get(b"mykey").is_none());
}

#[test]
fn cmd_handler_test_del_nonexistent_key() {
    let mut storage = Store::new();
    let result = proc_cmd(b"DEL not_here", &mut storage, Mode::Live).unwrap();
    assert_eq!(result.response, b"(integer) 0".to_vec()); // no key deleted
}

#[test]
fn cmd_handler_test_get_after_del() {
    let mut storage = Store::new();
    proc_cmd(b"SET foo bar", &mut storage, Mode::Live).unwrap();
    proc_cmd(b"DEL foo", &mut storage, Mode::Live).unwrap();
    let result = proc_cmd(b"GET foo", &mut storage, Mode::Live).unwrap();
    assert_eq!(result.response, b"(nil)".to_vec());
}

#[test]
fn set_live_produces_log_record() {
    let mut storage = Store::new();
    let out = proc_cmd(b"SET foo bar", &mut storage, Mode::Live).unwrap();
    assert_eq!(out.log_record, Some(b"SET foo bar\n".to_vec()));
    assert!(out.snapshot.is_none());
}

#[test]
fn set_replay_suppresses_log_record() {
    let mut storage = Store::new();
    let out = proc_cmd(b"SET foo bar", &mut storage, Mode::Replay).unwrap();
    assert!(out.log_record.is_none());
    assert_eq!(storage.get(b"foo").cloned(), Some(b"bar".to_vec()));
}

#[test]
fn del_live_logs_only_when_key_removed() {
    let mut storage = Store::new();
    let miss = proc_cmd(b"DEL ghost", &mut storage, Mode::Live).unwrap();
    assert!(miss.log_record.is_none());
    proc_cmd(b"SET k v", &mut storage, Mode::Live).unwrap();
    let hit = proc_cmd(b"DEL k", &mut storage, Mode::Live).unwrap();
    assert_eq!(hit.log_record, Some(b"DEL k\n".to_vec()));
}

#[test]
fn del_replay_suppresses_log_record() {
    let mut storage = Store::new();
    proc_cmd(b"SET k v", &mut storage, Mode::Live).unwrap();
    let out = proc_cmd(b"DEL k", &mut storage, Mode::Replay).unwrap();
    assert_eq!(out.response, b"(integer) 1".to_vec());
    assert!(out.log_record.is_none());
}

#[test]
fn set_with_ex_clause_accepted_and_logged() {
    let mut storage = Store::new();
    let out = proc_cmd(b"SET session abc EX 1800", &mut storage, Mode::Live).unwrap();
    assert_eq!(out.response, b"OK".to_vec());
    assert_eq!(out.log_record, Some(b"SET session abc EX 1800\n".to_vec()));
    // the EX clause has no runtime effect: the key stays readable
    let got = proc_cmd(b"GET session", &mut storage, Mode::Live).unwrap();
    assert_eq!(got.response, b"abc".to_vec());
}

#[test]
fn set_with_plus_signed_ex_number_accepted() {
    let mut storage = Store::new();
    let out = proc_cmd(b"SET k v EX +5", &mut storage, Mode::Live).unwrap();
    assert_eq!(out.response, b"OK".to_vec());
}

#[test]
fn set_with_largest_ex_number_accepted() {
    let mut storage = Store::new();
    let out = proc_cmd(b"SET k v EX 18446744073709551615", &mut storage, Mode::Live).unwrap();
    assert_eq!(out.response, b"OK".to_vec());
}

#[test]
fn set_with_overflowing_ex_number_rejected() {
    let mut storage = Store::new();
    let err = proc_cmd(b"SET k v EX 18446744073709551616", &mut storage, Mode::Live).unwrap_err();
    assert_eq!(err.message(), b"Invalid option: expected 'EX 1500'".to_vec());
    assert!(storage.get(b"k").is_none());
}

#[test]
fn save_returns_snapshot_image() {
    let mut storage = Store::new();
    proc_cmd(b"SET foo bar", &mut storage, Mode::Live).unwrap();
    let out = proc_cmd(b"SAVE", &mut storage, Mode::Live).unwrap();
    assert_eq!(out.response, b"OK".to_vec());
    assert!(out.log_record.is_none());
    assert_eq!(out.snapshot, Some(b"{\"foo\":\"bar\"}\n".to_vec()));
}

#[test]
fn save_of_empty_store() {
    let mut storage = Store::new();
    let out = proc_cmd(b"SAVE", &mut storage, Mode::Live).unwrap();
    assert_eq!(out.snapshot, Some(b"{}\n".to_vec()));
}

#[test]
fn whitespace_around_tokens_is_ignored() {
    let mut storage = Store::new();
    let out = proc_cmd(b"  SET\t foo   bar \r\n", &mut storage, Mode::Live).unwrap();
    assert_eq!(out.response, b"OK".to_vec());
    assert_eq!(out.log_record, Some(b"SET foo bar\n".to_vec()));
    assert_eq!(storage.get(b"foo").cloned(), Some(b"bar".to_vec()));
}
