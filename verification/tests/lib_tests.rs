//! Tests of the minimal in-memory dispatcher at the crate root, and of the
//! command error messages.
use rust_mini_redis::cmd_helper::split_cmd;
use rust_mini_redis::clean_cmd;
use rust_mini_redis::proc_cmd;
use rust_mini_redis::store::Store;
use rust_mini_redis::types::Mode;

#[test]
fn lib_test_set_new_key() {
    let mut storage = Store::new();
    let result = proc_cmd(b"SET foo bar", &mut storage).unwrap();
    assert_eq!(result, b"OK".to_vec());
    assert_eq!(storage.get(b"foo").cloned(), Some(b"bar".to_vec()));
}

#[test]
fn lib_test_set_overwrite_existing() {
    let mut storage = Store::new();
    proc_cmd(b"SET foo bar", &mut storage).unwrap();
    let result = proc_cmd(b"SET foo baz", &mut storage).unwrap();
    assert_eq!(result, b"OK".to_vec());
    assert_eq!(storage.get(b"foo").cloned(), Some(b"baz".to_vec())); // overwritten
}

#[test]
fn lib_test_get_existing_key() {
    let mut storage = Store::new();
    proc_cmd(b"SET name Alice", &mut storage).unwrap();
    let result = proc_cmd(b"GET name", &mut storage).unwrap();
    assert_eq!(result, b"Alice".to_vec());
}

#[test]
fn lib_test_get_nonexistent_key() {
    let mut storage = Store::new();
    let result = proc_cmd(b"GET missing", &mut storage).unwrap();
    assert_eq!(result, b"(nil)".to_vec());
}

#[test]
fn lib_test_del_existing_key() {
    let mut storage = Store::new();
    proc_cmd(b"SET mykey hello", &mut storage).unwrap();
    let result = proc_cmd(b"DEL mykey", &mut storage).unwrap();
    assert_eq!(result, b"(integer) 1".to_vec()); // key existed and was deleted
    assert!(storage.get(b"mykey").is_none());
}

#[test]
fn lib_test_del_nonexistent_key() {
    let mut storage = Store::new();
    let result = proc_cmd(b"DEL not_here", &mut storage).unwrap();
    assert_eq!(result, b"(integer) 0".to_vec()); // no key deleted
}

#[test]
fn lib_test_get_after_del() {
    let mut storage = Store::new();
    proc_cmd(b"SET foo bar", &mut storage).unwrap();
    proc_cmd(b"DEL foo", &mut storage).unwrap();
    let result = proc_cmd(b"GET foo", &mut storage).unwrap();
    assert_eq!(result, b"(nil)".to_vec());
}

#[test]
fn lib_rejects_save_as_unknown_verb() {
    let mut storage = Store::new();
    let err = proc_cmd(b"SAVE", &mut storage).unwrap_err();
    assert_eq!(err.message(), b"Invalid command: SAVE".to_vec());
}

#[test]
fn set_wrong_arity_names_expected_and_found() {
    let mut storage = Store::new();
    let err = proc_cmd(b"SET a", &mut storage).unwrap_err();
    assert_eq!(
        err.message(),
        b"Invalid arguments for SET command: expected 2 args, found 1".to_vec()
    );
}

#[test]
fn get_wrong_arity_names_expected_and_found() {
    let mut storage = Store::new();
    let err = proc_cmd(b"GET a b", &mut storage).unwrap_err();
    assert_eq!(
        err.message(),
        b"Invalid arguments for GET command: expected 1 args, found 2".to_vec()
    );
}

#[test]
fn del_wrong_arity_names_expected_and_found() {
    let mut storage = Store::new();
    let err = proc_cmd(b"DEL", &mut storage).unwrap_err();
    assert_eq!(
        err.message(),
        b"Invalid arguments for DEL command: expected 1 args, found 0".to_vec()
    );
}

#[test]
fn empty_command_is_rejected() {
    let mut storage = Store::new();
    let err = proc_cmd(b"", &mut storage).unwrap_err();
    assert_eq!(err.message(), b"Empty command".to_vec());
    let err2 = proc_cmd(b"   \t  ", &mut storage).unwrap_err();
    assert_eq!(err2.message(), b"Empty command".to_vec());
}

#[test]
fn unknown_verb_is_echoed_in_error() {
    let mut storage = Store::new();
    let err = proc_cmd(b"PING now", &mut storage).unwrap_err();
    assert_eq!(err.message(), b"Invalid command: PING".to_vec());
}

#[test]
fn verbs_are_case_sensitive() {
    let mut storage = Store::new();
    let err = proc_cmd(b"set foo bar", &mut storage).unwrap_err();
    assert_eq!(err.message(), b"Invalid command: set".to_vec());
}

#[test]
fn full_dispatcher_arity_errors() {
    let mut storage = Store::new();
    let e1 = rust_mini_redis::cmd_handler::proc_cmd(b"SET a", &mut storage, Mode::Live)
        .unwrap_err();
    assert_eq!(
        e1.message(),
        b"Invalid arguments for SET command: expected 2 args, found 1".to_vec()
    );
    let e2 = rust_mini_redis::cmd_handler::proc_cmd(b"SET a b c", &mut storage, Mode::Live)
        .unwrap_err();
    assert_eq!(
        e2.message(),
        b"Invalid arguments for SET command: expected 4 args, found 3".to_vec()
    );
    let e3 = rust_mini_redis::cmd_handler::proc_cmd(b"SAVE now", &mut storage, Mode::Live)
        .unwrap_err();
    assert_eq!(
        e3.message(),
        b"Invalid arguments for SET command: expected 0 args, found 1".to_vec()
    );
    let e4 = rust_mini_redis::cmd_handler::proc_cmd(b"SET k v PX 10", &mut storage, Mode::Live)
        .unwrap_err();
    assert_eq!(
        e4.message(),
        b"Invalid option: expected 'EX', found 'PX'".to_vec()
    );
    let e5 = rust_mini_redis::cmd_handler::proc_cmd(b"SET k v EX soon", &mut storage, Mode::Live)
        .unwrap_err();
    assert_eq!(e5.message(), b"Invalid option: expected 'EX 1500'".to_vec());
}

#[test]
fn split_cmd_drops_extra_whitespace() {
    let toks = split_cmd(b"  SET  foo   bar ");
    assert_eq!(
        toks,
        vec![b"SET".to_vec(), b"foo".to_vec(), b"bar".to_vec()]
    );
}

#[test]
fn clean_cmd_matches_split_cmd() {
    assert_eq!(clean_cmd(b"GET x"), split_cmd(b"GET x"));
    assert_eq!(clean_cmd(b""), Vec::<Vec<u8>>::new());
}
