use start_command::codec::{decode, encode, Value};
use start_command::record::{ExecutionRecord, ExecutionRecordOptions, ExecutionStatus, RecordContext};
use start_command::store::{
    apply_cleanup, find_record, is_stale_record, keep_status, load_records, records_from_value,
    records_text, records_to_value, remove_record, stale_candidates, upsert, CleanupOptions,
    ExecutionStore, ExecutionStoreOptions, LockInfo, LockManager, LockStep,
};

fn ctx(uuid: &str, start: &str) -> RecordContext {
    RecordContext {
        uuid: uuid.to_string(),
        start_time: start.to_string(),
        working_directory: "/home/user".to_string(),
        shell: "/bin/sh".to_string(),
        platform: "linux".to_string(),
    }
}

fn record(uuid: &str, command: &str) -> ExecutionRecord {
    ExecutionRecord::new(command, ctx(uuid, "2025-01-01T00:00:00Z"))
}

fn store() -> ExecutionStore {
    ExecutionStore::new("/tmp/tracking", false)
}

#[test]
fn test_execution_record_new() {
    let record = record("u-1", "echo hello");
    assert!(!record.uuid.is_empty());
    assert_eq!(record.command, "echo hello");
    assert_eq!(record.status, ExecutionStatus::Executing);
    assert!(record.exit_code.is_none());
    assert!(record.end_time.is_none());
}

#[test]
fn test_execution_record_complete() {
    let mut record = record("u-1", "echo hello");
    assert_eq!(record.status, ExecutionStatus::Executing);
    assert!(record.exit_code.is_none());
    record.complete(0, "2025-01-01T00:00:05Z".to_string());
    assert_eq!(record.status, ExecutionStatus::Executed);
    assert_eq!(record.exit_code, Some(0));
    assert!(record.end_time.is_some());
}

#[test]
fn test_execution_record_json_roundtrip() {
    let mut record = record("u-1", "echo hello");
    record.pid = Some(12345);
    record.log_path = "/tmp/test.log".to_string();
    let value = record.to_value();
    let restored = ExecutionRecord::from_value(&value).unwrap();
    assert_eq!(restored.uuid, record.uuid);
    assert_eq!(restored.command, "echo hello");
    assert_eq!(restored.pid, Some(12345));
}

#[test]
fn record_with_options_fills_from_context() {
    let r = ExecutionRecord::with_options(
        ExecutionRecordOptions {
            uuid: Some("given".to_string()),
            command: "ls".to_string(),
            pid: Some(7),
            status: Some(ExecutionStatus::Executed),
            exit_code: Some(2),
            log_path: None,
            start_time: None,
            end_time: Some("2025-01-01T00:00:09Z".to_string()),
            working_directory: None,
            shell: Some("/bin/zsh".to_string()),
            platform: None,
            options: Some(vec![("isolated".to_string(), "tmux".to_string())]),
        },
        ctx("generated", "2025-01-01T00:00:00Z"),
    );
    assert_eq!(r.uuid, "given");
    assert_eq!(r.start_time, "2025-01-01T00:00:00Z");
    assert_eq!(r.shell, "/bin/zsh");
    assert_eq!(r.platform, "linux");
    assert_eq!(r.log_path, "");
    assert_eq!(r.options.len(), 1);
}

#[test]
fn record_text_round_trip() {
    let mut a = record("a", "echo a");
    a.options.push(("mode".to_string(), "attached".to_string()));
    let mut b = record("b", "echo \"b\" (x)\n");
    b.complete(3, "2025-01-01T00:00:02Z".to_string());
    let records = vec![a, b];
    let text = records_text(&records);
    let back = load_records(&text).unwrap();
    assert_eq!(back.len(), 2);
    assert_eq!(back[0].options, vec![("mode".to_string(), "attached".to_string())]);
    assert_eq!(back[1].command, "echo \"b\" (x)\n");
    assert_eq!(back[1].exit_code, Some(3));
    assert_eq!(back[1].status, ExecutionStatus::Executed);
    assert_eq!(records_text(&back), text);
}

#[test]
fn blank_or_broken_primary_file() {
    assert_eq!(load_records("").unwrap().len(), 0);
    assert_eq!(load_records("  \n").unwrap().len(), 0);
    assert!(load_records("(array (int").is_err());
    let v = decode("(array (int 1) (object))").unwrap();
    assert_eq!(records_from_value(&v).len(), 0);
}

#[test]
fn upsert_twice_keeps_one_latest() {
    let mut records = vec![record("x", "other")];
    let mut r = record("A", "echo hi");
    upsert(&mut records, r.clone());
    r.complete(0, "2025-01-01T00:00:01Z".to_string());
    upsert(&mut records, r);
    assert_eq!(records.len(), 2);
    let same: Vec<_> = records.iter().filter(|x| x.uuid == "A").collect();
    assert_eq!(same.len(), 1);
    assert_eq!(same[0].status, ExecutionStatus::Executed);
    assert_eq!(same[0].exit_code, Some(0));
}

#[test]
fn test_store_get_by_status() {
    let mut records = vec![record("1", "a"), record("2", "b"), record("3", "c")];
    records[1].complete(0, "t".to_string());
    keep_status(&mut records, ExecutionStatus::Executing);
    let ids: Vec<&str> = records.iter().map(|r| r.uuid.as_str()).collect();
    assert_eq!(ids, vec!["1", "3"]);
}

#[test]
fn test_store_delete() {
    let mut records = vec![record("1", "a"), record("2", "b")];
    assert!(remove_record(&mut records, "1"));
    assert_eq!(records.len(), 1);
    assert!(!remove_record(&mut records, "1"));
    assert_eq!(find_record(&records, "2"), Some(0));
    assert_eq!(find_record(&records, "1"), None);
}

#[test]
fn test_store_get_stats() {
    let mut records = vec![record("1", "a"), record("2", "b"), record("3", "c"), record("4", "d")];
    records[0].complete(0, "t".to_string());
    records[1].complete(1, "t".to_string());
    records[2].complete(0, "t".to_string());
    let stats = store().get_stats(&records);
    assert_eq!(stats.total, 4);
    assert_eq!(stats.executing, 1);
    assert_eq!(stats.executed, 3);
    assert_eq!(stats.successful, 2);
    assert_eq!(stats.failed, 1);
    assert!(!stats.clink_available);
    assert_eq!(stats.lino_db_path, "/tmp/tracking/executions.lino");
}

#[test]
fn store_paths() {
    let s = ExecutionStore::new("/data/", true);
    assert_eq!(s.app_folder(), "/data/");
    assert_eq!(s.lino_db_path(), "/data/executions.lino");
    assert_eq!(s.lock_file_path(), "/data/executions.lock");
    assert_eq!(s.links_db_path(), "/data/executions.links");
    let s = ExecutionStore::with_options(
        ExecutionStoreOptions { app_folder: None, use_links: Some(false), verbose: true },
        "/home/u/.start-command",
        true,
    );
    assert_eq!(s.app_folder(), "/home/u/.start-command");
    assert!(!s.use_links());
    assert!(s.verbose());
}

#[test]
fn stale_dead_process_regardless_of_age() {
    let mut r = record("1", "sleep");
    r.start_time = "2025-01-01T00:00:00Z".to_string();
    r.pid = Some(4242);
    let start = 1735689600000i64;
    assert!(is_stale_record(&r, "linux", false, start, 86400000));
    assert!(!is_stale_record(&r, "linux", true, start, 86400000));
    assert!(!is_stale_record(&r, "macos", false, start, 86400000));
}

#[test]
fn stale_by_age_boundaries() {
    let r = record("1", "sleep");
    let start = 1735689600000i64;
    let max = 1000u64;
    assert!(!is_stale_record(&r, "linux", true, start + 999, max));
    assert!(!is_stale_record(&r, "linux", true, start + 1000, max));
    assert!(is_stale_record(&r, "linux", true, start + 1001, max));
    let mut done = record("2", "x");
    done.complete(0, "t".to_string());
    assert!(!is_stale_record(&done, "linux", false, start + 5000, max));
}

#[test]
fn execution_store_test_cleanup_stale_dry_run() {
    let records = vec![record("1", "a"), record("2", "b")];
    let opts = CleanupOptions { max_age_ms: Some(1000), dry_run: true };
    let now = 1735689600000i64 + 5000;
    let picked = stale_candidates(&records, "linux", &vec![true, true], now, &opts);
    assert_eq!(picked, vec![0, 1]);
    let uuids: Vec<String> = picked.iter().map(|&i| records[i].uuid.clone()).collect();
    let mut copy = records.clone();
    assert_eq!(apply_cleanup(&mut copy, &uuids, &"end".to_string(), true), 2);
    assert!(copy.iter().all(|r| r.status == ExecutionStatus::Executing));
    assert_eq!(apply_cleanup(&mut copy, &uuids, &"end".to_string(), false), 2);
    assert!(copy.iter().all(|r| r.status == ExecutionStatus::Executed && r.exit_code == Some(-1)));
}

#[test]
fn execution_store_test_cleanup_stale_no_stale_records() {
    let records = vec![record("1", "a")];
    let opts = CleanupOptions { max_age_ms: None, dry_run: false };
    let picked = stale_candidates(&records, "linux", &vec![true], 1735689600000i64 + 1000, &opts);
    assert!(picked.is_empty());
}

#[test]
fn execution_store_test_cleanup_stale_only_executing_records() {
    let mut records = vec![record("1", "a"), record("2", "b")];
    records[0].complete(0, "t".to_string());
    let opts = CleanupOptions { max_age_ms: Some(1), dry_run: false };
    let picked = stale_candidates(&records, "linux", &vec![false, true], 1735689600000i64 + 10, &opts);
    assert_eq!(picked, vec![1]);
}

#[test]
fn lock_staleness_and_steps() {
    let fresh = LockInfo { pid: Some(1), timestamp: Some(100_000) };
    assert!(!LockManager::is_lock_stale(&fresh, 100_000 + 60_000, Some(true)));
    assert!(LockManager::is_lock_stale(&fresh, 100_000 + 60_001, Some(true)));
    assert!(LockManager::is_lock_stale(&fresh, 100_001, Some(false)));
    assert!(LockManager::is_lock_stale(&LockInfo { pid: None, timestamp: None }, 0, None));
    assert_eq!(LockManager::next_step(30_000, 30_000, &None, 0, None), LockStep::GiveUp);
    assert_eq!(LockManager::next_step(0, 30_000, &None, 0, None), LockStep::Create);
    assert_eq!(
        LockManager::next_step(0, 30_000, &Some(LockInfo { pid: None, timestamp: Some(0) }), 70_000, None),
        LockStep::RemoveStaleThenCreate
    );
    let mut lock = LockManager::new("/tmp/x.lock");
    assert!(!lock.is_acquired());
    lock.mark_acquired();
    assert!(lock.release());
    assert!(!lock.release());
}

#[test]
fn end_to_end_scenario() {
    let mut records: Vec<ExecutionRecord> = Vec::new();
    let mut r = record("A", "echo hi");
    upsert(&mut records, r.clone());
    let text = records_text(&records);
    let loaded = load_records(&text).unwrap();
    let i = find_record(&loaded, "A").unwrap();
    assert_eq!(loaded[i].command, "echo hi");
    assert_eq!(loaded[i].status, ExecutionStatus::Executing);
    r.complete(0, "2025-01-01T00:00:01Z".to_string());
    let mut records = loaded;
    upsert(&mut records, r);
    let loaded = load_records(&records_text(&records)).unwrap();
    let i = find_record(&loaded, "A").unwrap();
    assert_eq!(loaded[i].status, ExecutionStatus::Executed);
    assert_eq!(loaded[i].exit_code, Some(0));
    assert!(loaded[i].end_time.is_some());
    let stats = store().get_stats(&loaded);
    assert_eq!((stats.total, stats.executed, stats.successful, stats.failed), (1, 1, 1, 0));
}

#[test]
fn collection_value_shape() {
    let records = vec![record("A", "x")];
    let text = encode(&records_to_value(&records));
    assert!(text.starts_with("(array (object ((str dXVpZA==) (str QQ==))"));
}

#[test]
fn recent_records_latest_first() {
    let mut a = record("a", "x");
    a.start_time = "2025-01-02T00:00:00Z".to_string();
    let mut b = record("b", "x");
    b.start_time = "2025-01-03T00:00:00Z".to_string();
    let mut c = record("c", "x");
    c.start_time = "2025-01-01T00:00:00Z".to_string();
    let mut d = record("d", "x");
    d.start_time = "2025-01-03T00:00:00Z".to_string();
    let recent = start_command::store::get_recent(vec![a.clone(), b.clone(), c.clone(), d.clone()], 3);
    let ids: Vec<&str> = recent.iter().map(|r| r.uuid.as_str()).collect();
    assert_eq!(ids, vec!["b", "d", "a"]);
    assert_eq!(start_command::store::get_recent(vec![a, b], 0).len(), 0);
}

#[test]
fn consistency_with_index_output() {
    let s = ExecutionStore::new("/tmp/t", true);
    let u1 = "aaaaaaaa-bbbb-4ccc-8ddd-eeeeeeeeeeee";
    let u2 = "11111111-2222-4333-8444-555555555555";
    let records = vec![record(u1, "a"), record(u2, "b")];
    let out = format!("ExecutionRecord {}\nExecutionRecord {}\nExecutionRecord {}", u1, u2, u1);
    let r = s.verify_consistency(&records, Ok(out.as_str()));
    assert!(r.consistent);
    assert_eq!((r.lino_count, r.links_count), (2, 2));
    let out = format!("ExecutionRecord {}", u1);
    let r = s.verify_consistency(&records, Ok(out.as_str()));
    assert!(!r.consistent);
    assert!(!r.errors.is_empty());
    let r = s.verify_consistency(&records, Err("no clink"));
    assert!(!r.consistent);
    let off = ExecutionStore::new("/tmp/t", false);
    assert!(off.verify_consistency(&records, Ok("")).consistent);
}

#[test]
fn execution_store_test_cleanup_stale_actual_cleanup() {
    let mut records = vec![record("1", "a"), record("2", "b")];
    records[0].pid = Some(999_999);
    let opts = CleanupOptions { max_age_ms: None, dry_run: false };
    let now = 1735689600000i64 + 1000;
    let picked = stale_candidates(&records, "linux", &vec![false, true], now, &opts);
    assert_eq!(picked, vec![0]);
    let uuids: Vec<String> = picked.iter().map(|&i| records[i].uuid.clone()).collect();
    assert_eq!(apply_cleanup(&mut records, &uuids, &"end".to_string(), false), 1);
    assert_eq!(records[0].status, ExecutionStatus::Executed);
    assert_eq!(records[0].exit_code, Some(-1));
    assert_eq!(records[0].end_time.as_deref(), Some("end"));
    assert_eq!(records[1].status, ExecutionStatus::Executing);
}

#[test]
fn execution_store_test_cleanup_stale_custom_max_age() {
    let records = vec![record("1", "a")];
    let start = 1735689600000i64;
    let short = CleanupOptions { max_age_ms: Some(100), dry_run: true };
    let long = CleanupOptions { max_age_ms: Some(10_000), dry_run: true };
    assert_eq!(stale_candidates(&records, "linux", &vec![true], start + 500, &short), vec![0]);
    assert!(stale_candidates(&records, "linux", &vec![true], start + 500, &long).is_empty());
}

#[test]
fn cleanup_keeps_a_record_finished_meanwhile() {
    let mut current = vec![record("1", "a")];
    current[0].complete(7, "done".to_string());
    let uuids = vec!["1".to_string()];
    assert_eq!(apply_cleanup(&mut current, &uuids, &"end".to_string(), false), 0);
    assert_eq!(current[0].exit_code, Some(7));
    assert_eq!(current[0].end_time.as_deref(), Some("done"));
}

#[test]
fn malformed_primary_file_is_an_error() {
    assert!(load_records("(array").is_err());
    assert!(load_records("(array (int 1)").is_err());
    assert!(load_records("(str 'abc").is_err());
    assert!(load_records("(foo 1)").is_err());
}

#[test]
fn record_with_non_string_option_is_kept() {
    let rec = record("k", "ls");
    let mut v = rec.to_value();
    if let Value::Object(ps) = &mut v {
        for entry in ps.iter_mut() {
            if entry.0 == "options" {
                entry.1 = Value::Object(vec![("retries".to_string(), Value::Int(5))]);
            }
        }
    }
    let back = ExecutionRecord::from_value(&v).unwrap();
    assert_eq!(back.uuid, "k");
    assert_eq!(back.options, vec![("retries".to_string(), "(int 5)".to_string())]);
}
