//! Tests of the persistence and recovery subsystem: append-log records,
//! replay, snapshot images and the save/load round trip.
use rust_mini_redis::aof_handler::{append_cmd, startup_load};
use rust_mini_redis::cmd_handler::proc_cmd;
use rust_mini_redis::snapshot_handler::{snapshot_load, snapshot_save};
use rust_mini_redis::store::Store;
use rust_mini_redis::types::{DangerCmd, Mode, SnapshotError};

#[test]
fn append_cmd_builds_one_record_line() {
    let args = vec![b"foo".to_vec(), b"bar".to_vec()];
    let rec = append_cmd(&args, DangerCmd::SetCmd);
    assert_eq!(rec, b"SET foo bar\n".to_vec());
    let del_args = vec![b"foo".to_vec()];
    let rec2 = append_cmd(&del_args, DangerCmd::DelCmd);
    assert_eq!(rec2, b"DEL foo\n".to_vec());
}

#[test]
fn startup_load_replays_in_file_order() {
    let mut storage = Store::new();
    let log = b"SET foo bar\nSET foo baz\nDEL absent\nSET x y\n";
    startup_load(&mut storage, log);
    assert_eq!(storage.get(b"foo").cloned(), Some(b"baz".to_vec()));
    assert_eq!(storage.get(b"x").cloned(), Some(b"y".to_vec()));
    assert!(storage.get(b"absent").is_none());
}

#[test]
fn startup_load_skips_invalid_lines() {
    let mut storage = Store::new();
    let log = b"SET a 1\nnot a command\n\nSET b\nSET c 3\n";
    startup_load(&mut storage, log);
    assert_eq!(storage.get(b"a").cloned(), Some(b"1".to_vec()));
    assert_eq!(storage.get(b"c").cloned(), Some(b"3".to_vec()));
    assert!(storage.get(b"b").is_none());
}

#[test]
fn startup_load_handles_crlf_and_missing_final_newline() {
    let mut storage = Store::new();
    let log = b"SET a 1\r\nSET b 2";
    startup_load(&mut storage, log);
    assert_eq!(storage.get(b"a").cloned(), Some(b"1".to_vec()));
    assert_eq!(storage.get(b"b").cloned(), Some(b"2".to_vec()));
}

#[test]
fn startup_load_never_logs() {
    let mut storage = Store::new();
    // a record produced live replays to the same store state
    let out = proc_cmd(b"SET k v", &mut storage, Mode::Live).unwrap();
    let rec = out.log_record.unwrap();
    let mut recovered = Store::new();
    startup_load(&mut recovered, &rec);
    assert_eq!(recovered.get(b"k").cloned(), Some(b"v".to_vec()));
}

#[test]
fn replaying_a_log_twice_equals_replaying_it_once() {
    let log = b"SET a 1\nSET b 2\nDEL a\nSET b 3\nDEL ghost\n";
    let mut once = Store::new();
    startup_load(&mut once, log);
    let mut twice = Store::new();
    startup_load(&mut twice, log);
    startup_load(&mut twice, log);
    assert_eq!(snapshot_save(&once), snapshot_save(&twice));
    assert!(once.get(b"a").is_none());
    assert_eq!(once.get(b"b").cloned(), Some(b"3".to_vec()));
}

#[test]
fn snapshot_roundtrip_reproduces_store() {
    let mut storage = Store::new();
    proc_cmd(b"SET foo bar", &mut storage, Mode::Live).unwrap();
    proc_cmd(b"SET name Alice", &mut storage, Mode::Live).unwrap();
    let image = snapshot_save(&storage);
    let loaded = snapshot_load(&image).unwrap();
    assert_eq!(loaded.get(b"foo").cloned(), Some(b"bar".to_vec()));
    assert_eq!(loaded.get(b"name").cloned(), Some(b"Alice".to_vec()));
    assert_eq!(snapshot_save(&loaded), image);
}

#[test]
fn snapshot_roundtrip_escapes_special_bytes() {
    let mut storage = Store::new();
    storage.set(b"qu\"ote", b"back\\slash");
    storage.set(b"ctl", &[1u8, 31, 65]);
    let image = snapshot_save(&storage);
    let loaded = snapshot_load(&image).unwrap();
    assert_eq!(loaded.get(b"qu\"ote").cloned(), Some(b"back\\slash".to_vec()));
    assert_eq!(loaded.get(b"ctl").cloned(), Some(vec![1u8, 31, 65]));
}

#[test]
fn snapshot_image_is_json_object_text() {
    let mut storage = Store::new();
    storage.set(b"a", b"1");
    assert_eq!(snapshot_save(&storage), b"{\"a\":\"1\"}\n".to_vec());
    storage.set(b"b\n", b"x");
    assert_eq!(
        snapshot_save(&storage),
        b"{\"a\":\"1\",\"b\\u000a\":\"x\"}\n".to_vec()
    );
}

#[test]
fn snapshot_load_of_empty_input_is_empty_store() {
    let loaded = snapshot_load(b"").unwrap();
    assert!(loaded.get(b"anything").is_none());
    let loaded2 = snapshot_load(b"{}\n").unwrap();
    assert!(loaded2.get(b"anything").is_none());
}

#[test]
fn snapshot_load_rejects_corrupt_input() {
    assert!(matches!(snapshot_load(b"not json"), Err(SnapshotError::Corrupt)));
    assert!(matches!(snapshot_load(b"{\"a\":\"1\""), Err(SnapshotError::Corrupt)));
    assert!(matches!(snapshot_load(b"{\"a\":1}"), Err(SnapshotError::Corrupt)));
    assert!(matches!(snapshot_load(b"{\"a\":\"1\"}x"), Err(SnapshotError::Corrupt)));
    assert!(matches!(snapshot_load(b"[]"), Err(SnapshotError::Corrupt)));
}

#[test]
fn snapshot_load_takes_last_duplicate_key() {
    let loaded = snapshot_load(b"{\"a\":\"1\",\"a\":\"2\"}\n").unwrap();
    assert_eq!(loaded.get(b"a").cloned(), Some(b"2".to_vec()));
}

#[test]
fn save_then_recovery_reproduces_state() {
    // a full cycle: live traffic, SAVE, then the recovery protocol
    let mut storage = Store::new();
    let mut log: Vec<u8> = Vec::new();
    for cmd in [&b"SET a 1"[..], b"SET b 2", b"DEL a", b"SET c 3"] {
        let out = proc_cmd(cmd, &mut storage, Mode::Live).unwrap();
        if let Some(rec) = out.log_record {
            log.extend_from_slice(&rec);
        }
    }
    let image = snapshot_save(&storage);
    // recovery: load the snapshot, then replay the whole log over it
    let mut recovered = snapshot_load(&image).unwrap();
    startup_load(&mut recovered, &log);
    assert!(recovered.get(b"a").is_none());
    assert_eq!(recovered.get(b"b").cloned(), Some(b"2".to_vec()));
    assert_eq!(recovered.get(b"c").cloned(), Some(b"3".to_vec()));
    assert_eq!(snapshot_save(&recovered), image);
}
