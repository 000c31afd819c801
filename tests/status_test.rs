use start_command::record::{ExecutionRecord, ExecutionRecordOptions, ExecutionStatus, RecordContext};
use start_command::signal::SignalState;
use start_command::status::{
    format_record, format_record_as_links_notation, format_record_as_text, query_status,
};
use start_command::store::ExecutionStore;

fn create_test_record() -> ExecutionRecord {
    ExecutionRecord::with_options(
        ExecutionRecordOptions {
            uuid: Some("test-uuid-1234".to_string()),
            command: "echo hello".to_string(),
            pid: Some(12345),
            status: Some(ExecutionStatus::Executed),
            exit_code: Some(0),
            log_path: Some("/tmp/test.log".to_string()),
            start_time: Some("2025-01-01T00:00:00Z".to_string()),
            end_time: Some("2025-01-01T00:00:01Z".to_string()),
            working_directory: Some("/home/user".to_string()),
            shell: Some("/bin/bash".to_string()),
            platform: Some("linux".to_string()),
            options: None,
        },
        RecordContext {
            uuid: "unused".to_string(),
            start_time: "unused".to_string(),
            working_directory: "unused".to_string(),
            shell: "unused".to_string(),
            platform: "unused".to_string(),
        },
    )
}

#[test]
fn status_formatter_test_format_record_as_links_notation() {
    let output = format_record_as_links_notation(&create_test_record());
    assert!(output.contains("test-uuid-1234.uuid:"));
    assert!(output.contains("test-uuid-1234.status:"));
    assert!(output.contains("test-uuid-1234.command:"));
    assert!(output.contains("echo hello"));
    assert!(output.contains("executed"));
}

#[test]
fn status_formatter_test_format_record_as_text() {
    let output = format_record_as_text(&create_test_record());
    assert!(output.contains("Execution Status"));
    assert!(output.contains("UUID:              test-uuid-1234"));
    assert!(output.contains("Status:            executed"));
    assert!(output.contains("Command:           echo hello"));
    assert!(output.contains("Exit Code:         0"));
    assert!(output.contains("PID:               12345"));
}

#[test]
fn status_formatter_test_format_record_as_json() {
    let output = format_record(&create_test_record(), "json").unwrap();
    let parsed: serde_json::Value = serde_json::from_str(&output).unwrap();
    assert_eq!(parsed["uuid"], "test-uuid-1234");
    assert_eq!(parsed["command"], "echo hello");
    assert_eq!(parsed["status"], "executed");
}

#[test]
fn status_formatter_test_format_record_invalid_format() {
    let result = format_record(&create_test_record(), "invalid");
    assert!(result.is_err());
    assert!(result.unwrap_err().contains("Unknown output format"));
}

#[test]
fn status_formatter_test_query_status_no_store() {
    let result = query_status(None, "some-uuid", None);
    assert!(!result.success);
    assert!(result.error.unwrap().contains("tracking is disabled"));
}

#[test]
fn status_formatter_test_query_status_not_found() {
    let records: Vec<ExecutionRecord> = Vec::new();
    let result = query_status(Some(&records), "nonexistent-uuid", None);
    assert!(!result.success);
    assert!(result.error.unwrap().contains("No execution found"));
}

#[test]
fn status_formatter_test_query_status_success() {
    let records = vec![create_test_record()];
    let result = query_status(Some(&records), "test-uuid-1234", Some("json"));
    assert!(result.success);
    assert!(result.output.unwrap().contains("\"uuid\": \"test-uuid-1234\""));
}

#[test]
fn status_formatter_test_query_status_default_format() {
    let records = vec![create_test_record()];
    let result = query_status(Some(&records), "test-uuid-1234", None);
    assert!(result.success);
    assert!(result.output.unwrap().contains("(test-uuid-1234.uuid: uuid \"test-uuid-1234\")"));
}

#[test]
fn json_escapes_control_characters() {
    let mut r = create_test_record();
    r.command = "a\"b\\c\nd\u{1}".to_string();
    let output = format_record(&r, "json").unwrap();
    let parsed: serde_json::Value = serde_json::from_str(&output).unwrap();
    assert_eq!(parsed["command"], "a\"b\\c\nd\u{1}");
}

#[test]
fn test_signal_received_initially_false() {
    let state = SignalState::new();
    assert!(!state.was_signal_received());
    assert_eq!(state.get_signal_exit_code(), 0);
}

#[test]
fn test_set_and_clear_current_execution() {
    let mut state = SignalState::new();
    state.clear_current_execution();
    let record = create_test_record();
    state.set_current_execution(record, ExecutionStore::new("/tmp/s", false));
    state.clear_current_execution();
    assert!(state.on_signal(2, "end".to_string()).is_none());
}

#[test]
fn signal_finishes_registered_execution() {
    let mut state = SignalState::new();
    let mut record = create_test_record();
    record.status = ExecutionStatus::Executing;
    record.exit_code = None;
    state.set_current_execution(record, ExecutionStore::new("/tmp/s", false));
    let (done, _) = state.on_signal(15, "later".to_string()).unwrap();
    assert!(state.was_signal_received());
    assert_eq!(state.get_signal_exit_code(), 143);
    assert_eq!(done.exit_code, Some(143));
    assert_eq!(done.status, ExecutionStatus::Executed);
    assert!(state.on_signal(15, "again".to_string()).is_none());
}
