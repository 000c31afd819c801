use start_command::blocks::{
    create_command_line, create_empty_spine_line, create_empty_timeline_line, create_finish_block,
    create_spine_line, create_start_block, create_timeline_line, create_timeline_separator,
    create_virtual_command_block, create_virtual_command_result, escape_for_links_notation,
    generate_isolation_lines, get_result_marker, parse_isolation_metadata, FinishBlockOptions,
    IsolationMetadata, StartBlockOptions, FAILURE_MARKER, SUCCESS_MARKER, TIMELINE_MARKER,
};

#[test]
fn test_create_timeline_line() {
    let line = create_timeline_line("session", "abc123");
    assert!(line.starts_with("│"));
    assert!(line.contains("session"));
    assert!(line.contains("abc123"));
}

#[test]
fn timeline_line_pads_label_to_ten() {
    assert_eq!(create_timeline_line("session", "abc123"), "│ session   abc123");
    assert_eq!(create_timeline_line("a-long-label", "v"), "│ a-long-labelv");
    assert_eq!(create_spine_line("exit", "0"), "│ exit      0");
    assert_eq!(create_empty_timeline_line(), "│");
    assert_eq!(create_empty_spine_line(), "│");
    assert_eq!(create_timeline_separator(), "│");
}

#[test]
fn test_create_command_line() {
    let line = create_command_line("echo hello");
    assert_eq!(line, "$ echo hello");
}

#[test]
fn test_parse_isolation_metadata_screen() {
    let extra_lines = vec![
        "[Isolation] Environment: screen, Mode: attached",
        "[Isolation] Session: screen-1234567890-abc123",
    ];
    let metadata = parse_isolation_metadata(&extra_lines);
    assert_eq!(metadata.isolation, Some("screen".to_string()));
    assert_eq!(metadata.mode, Some("attached".to_string()));
    assert_eq!(metadata.session, Some("screen-1234567890-abc123".to_string()));
}

#[test]
fn test_parse_isolation_metadata_tmux() {
    let extra_lines = vec![
        "[Isolation] Environment: tmux, Mode: detached",
        "[Isolation] Session: tmux-1234567890-xyz789",
    ];
    let metadata = parse_isolation_metadata(&extra_lines);
    assert_eq!(metadata.isolation, Some("tmux".to_string()));
    assert_eq!(metadata.mode, Some("detached".to_string()));
    assert_eq!(metadata.session, Some("tmux-1234567890-xyz789".to_string()));
}

#[test]
fn test_parse_isolation_metadata_docker() {
    let extra_lines = vec![
        "[Isolation] Environment: docker, Mode: attached",
        "[Isolation] Session: docker-1234567890-def456",
        "[Isolation] Image: alpine:latest",
    ];
    let metadata = parse_isolation_metadata(&extra_lines);
    assert_eq!(metadata.isolation, Some("docker".to_string()));
    assert_eq!(metadata.mode, Some("attached".to_string()));
    assert_eq!(metadata.session, Some("docker-1234567890-def456".to_string()));
    assert_eq!(metadata.image, Some("alpine:latest".to_string()));
}

#[test]
fn test_parse_isolation_metadata() {
    let extra_lines = vec![
        "[Isolation] Environment: docker, Mode: attached",
        "[Isolation] Session: docker-container-123",
        "[Isolation] Image: ubuntu:latest",
    ];
    let metadata = parse_isolation_metadata(&extra_lines);
    assert_eq!(metadata.isolation, Some("docker".to_string()));
    assert_eq!(metadata.mode, Some("attached".to_string()));
    assert_eq!(metadata.session, Some("docker-container-123".to_string()));
    assert_eq!(metadata.image, Some("ubuntu:latest".to_string()));
}

#[test]
fn test_generate_isolation_lines_screen() {
    let metadata = IsolationMetadata {
        isolation: Some("screen".to_string()),
        mode: Some("attached".to_string()),
        session: Some("screen-1234567890-abc123".to_string()),
        ..Default::default()
    };
    let lines = generate_isolation_lines(&metadata, None);
    assert!(lines.iter().any(|l| l.contains("isolation") && l.contains("screen")));
    assert!(lines.iter().any(|l| l.contains("mode") && l.contains("attached")));
    assert!(
        lines.iter().any(|l| l.contains("screen") && l.contains("screen-1234567890-abc123")),
        "Should display screen session name for reconnection (issue #67)"
    );
}

#[test]
fn test_generate_isolation_lines_tmux() {
    let metadata = IsolationMetadata {
        isolation: Some("tmux".to_string()),
        mode: Some("detached".to_string()),
        session: Some("tmux-1234567890-xyz789".to_string()),
        ..Default::default()
    };
    let lines = generate_isolation_lines(&metadata, None);
    assert!(lines.iter().any(|l| l.contains("isolation") && l.contains("tmux")));
    assert!(lines.iter().any(|l| l.contains("mode") && l.contains("detached")));
    assert!(
        lines.iter().any(|l| l.contains("tmux") && l.contains("tmux-1234567890-xyz789")),
        "Should display tmux session name for reconnection (issue #67)"
    );
}

#[test]
fn test_generate_isolation_lines_docker() {
    let metadata = IsolationMetadata {
        isolation: Some("docker".to_string()),
        mode: Some("attached".to_string()),
        session: Some("docker-1234567890-def456".to_string()),
        image: Some("alpine:latest".to_string()),
        ..Default::default()
    };
    let lines = generate_isolation_lines(&metadata, None);
    assert!(lines.iter().any(|l| l.contains("isolation") && l.contains("docker")));
    assert!(lines.iter().any(|l| l.contains("mode") && l.contains("attached")));
    assert!(lines.iter().any(|l| l.contains("image") && l.contains("alpine:latest")));
    assert!(
        lines.iter().any(|l| l.contains("container") && l.contains("docker-1234567890-def456")),
        "Should display docker container name for reconnection (issue #67)"
    );
}

#[test]
fn isolation_lines_for_ssh_and_given_name() {
    let metadata = IsolationMetadata {
        isolation: Some("ssh".to_string()),
        endpoint: Some("user@host".to_string()),
        user: Some("bob".to_string()),
        ..Default::default()
    };
    let lines = generate_isolation_lines(&metadata, Some("ignored-name"));
    assert_eq!(
        lines,
        vec!["│ isolation ssh", "│ endpoint  user@host", "│ user      bob"]
    );
    let metadata = IsolationMetadata { isolation: Some("screen".to_string()), ..Default::default() };
    assert_eq!(
        generate_isolation_lines(&metadata, Some("given")),
        vec!["│ isolation screen", "│ screen    given"]
    );
}

#[test]
fn output_blocks_test_create_start_block_with_isolation() {
    let extra_lines: Vec<&str> = vec![
        "[Isolation] Environment: screen, Mode: attached",
        "[Isolation] Session: screen-1234567890-test",
    ];
    let block = create_start_block(&StartBlockOptions {
        session_id: "uuid-123",
        timestamp: "2026-01-08 12:00:00",
        command: "echo hello",
        extra_lines: Some(extra_lines),
        style: None,
        width: None,
        defer_command: false,
    });
    assert!(block.contains("│ session   uuid-123"));
    assert!(block.contains("│ isolation screen"));
    assert!(
        block.contains("│ screen    screen-1234567890-test"),
        "Start block should display screen session name for reconnection (issue #67)"
    );
}

#[test]
fn test_create_finish_block_with_isolation() {
    let extra_lines: Vec<&str> = vec![
        "[Isolation] Environment: docker, Mode: attached",
        "[Isolation] Session: docker-1234567890-test",
        "[Isolation] Image: alpine:latest",
    ];
    let block = create_finish_block(&FinishBlockOptions {
        session_id: "uuid-456",
        timestamp: "2026-01-08 12:00:01",
        exit_code: 0,
        log_path: "/tmp/test.log",
        duration: Some("0.100s"),
        result_message: None,
        extra_lines: Some(extra_lines),
        style: None,
        width: None,
    });
    assert!(block.contains("✓"));
    assert!(block.contains("│ session   uuid-456"));
    assert!(
        block.contains("│ container docker-1234567890-test"),
        "Finish block should display docker container name for reconnection (issue #67)"
    );
}

#[test]
fn test_escape_for_links_notation() {
    assert_eq!(escape_for_links_notation("simple"), "simple");
    assert_eq!(escape_for_links_notation("hello world"), "\"hello world\"");
    assert_eq!(escape_for_links_notation("key:value"), "\"key:value\"");
}

#[test]
fn test_timeline_constants() {
    assert_eq!(TIMELINE_MARKER, "│");
    assert_eq!(SUCCESS_MARKER, "✓");
    assert_eq!(FAILURE_MARKER, "✗");
}

#[test]
fn test_get_result_marker() {
    assert_eq!(get_result_marker(0), "✓");
    assert_eq!(get_result_marker(1), "✗");
    assert_eq!(get_result_marker(127), "✗");
}

#[test]
fn test_create_start_block() {
    let block = create_start_block(&StartBlockOptions {
        session_id: "test-uuid",
        timestamp: "2025-01-01 00:00:00",
        command: "echo hello",
        extra_lines: None,
        style: Some("rounded"),
        width: Some(50),
        defer_command: false,
    });
    assert!(block.contains("│ session   test-uuid"));
    assert!(block.contains("│ start     2025-01-01 00:00:00"));
    assert!(block.contains("$ echo hello"));
}

#[test]
fn output_blocks_test_test_create_start_block_with_isolation() {
    let extra = vec![
        "[Isolation] Environment: screen, Mode: attached",
        "[Isolation] Session: my-session",
    ];
    let block = create_start_block(&StartBlockOptions {
        session_id: "test-uuid",
        timestamp: "2025-01-01 00:00:00",
        command: "echo hello",
        extra_lines: Some(extra),
        style: Some("rounded"),
        width: Some(60),
        defer_command: false,
    });
    assert!(block.contains("│ session   test-uuid"));
    assert!(block.contains("│ start     2025-01-01 00:00:00"));
    assert!(block.contains("│ isolation screen"));
    assert!(block.contains("│ mode      attached"));
    assert!(block.contains("│ screen    my-session"));
    assert!(block.contains("$ echo hello"));
}

#[test]
fn test_create_start_block_with_docker_isolation() {
    let extra = vec![
        "[Isolation] Environment: docker, Mode: attached",
        "[Isolation] Image: ubuntu",
        "[Isolation] Session: docker-container-123",
    ];
    let block = create_start_block(&StartBlockOptions {
        session_id: "test-uuid",
        timestamp: "2025-01-01 00:00:00",
        command: "echo hello",
        extra_lines: Some(extra),
        style: None,
        width: None,
        defer_command: false,
    });
    assert!(block.contains("│ isolation docker"));
    assert!(block.contains("│ image     ubuntu"));
    assert!(block.contains("│ container docker-container-123"));
}

#[test]
fn test_create_start_block_with_defer_command() {
    let extra = vec![
        "[Isolation] Environment: docker, Mode: attached",
        "[Isolation] Image: alpine:latest",
        "[Isolation] Session: docker-container-456",
    ];
    let block = create_start_block(&StartBlockOptions {
        session_id: "test-uuid",
        timestamp: "2025-01-01 00:00:00",
        command: "echo hello",
        extra_lines: Some(extra),
        style: None,
        width: None,
        defer_command: true,
    });
    assert!(block.contains("│ session   test-uuid"));
    assert!(block.contains("│ isolation docker"));
    assert!(block.contains("│ image     alpine:latest"));
    assert!(!block.contains("$ echo hello"), "Command should not appear when defer_command is true");
}

#[test]
fn test_create_finish_block() {
    let block = create_finish_block(&FinishBlockOptions {
        session_id: "test-uuid",
        timestamp: "2025-01-01 00:00:01",
        exit_code: 0,
        log_path: "/tmp/test.log",
        duration: Some("0.017s"),
        result_message: None,
        extra_lines: None,
        style: Some("rounded"),
        width: Some(60),
    });
    assert!(block.contains("✓"));
    assert!(block.contains("│ finish    2025-01-01 00:00:01"));
    assert!(block.contains("│ duration  0.017s"));
    assert!(block.contains("│ exit      0"));
    assert!(block.contains("│ log       /tmp/test.log"));
    assert!(block.contains("│ session   test-uuid"));
}

#[test]
fn test_create_finish_block_failure() {
    let block = create_finish_block(&FinishBlockOptions {
        session_id: "test-uuid",
        timestamp: "2025-01-01 00:00:01",
        exit_code: 1,
        log_path: "/tmp/test.log",
        duration: Some("0.100s"),
        result_message: None,
        extra_lines: None,
        style: None,
        width: None,
    });
    assert!(block.contains("✗"));
    assert!(block.contains("│ exit      1"));
}

#[test]
fn test_create_finish_block_with_isolation_repeated() {
    let extra = vec![
        "[Isolation] Environment: docker, Mode: attached",
        "[Isolation] Image: ubuntu",
        "[Isolation] Session: docker-container-123",
    ];
    let block = create_finish_block(&FinishBlockOptions {
        session_id: "test-uuid",
        timestamp: "2025-01-01 00:00:01",
        exit_code: 0,
        log_path: "/tmp/test.log",
        duration: Some("0.017s"),
        result_message: None,
        extra_lines: Some(extra),
        style: None,
        width: None,
    });
    assert!(block.contains("│ isolation docker"));
    assert!(block.contains("│ mode      attached"));
    assert!(block.contains("│ image     ubuntu"));
    assert!(block.contains("│ container docker-container-123"));
}

#[test]
fn test_create_finish_block_without_duration() {
    let block = create_finish_block(&FinishBlockOptions {
        session_id: "test-uuid",
        timestamp: "2025-01-01 00:00:01",
        exit_code: 0,
        log_path: "/tmp/test.log",
        duration: None,
        result_message: None,
        extra_lines: None,
        style: Some("rounded"),
        width: Some(50),
    });
    assert!(block.contains("│ finish    2025-01-01 00:00:01"));
    assert!(!block.contains("duration"));
}

#[test]
fn test_finish_block_log_session_last() {
    let extra = vec![
        "[Isolation] Environment: screen, Mode: attached",
        "[Isolation] Session: my-screen",
    ];
    let block = create_finish_block(&FinishBlockOptions {
        session_id: "test-uuid",
        timestamp: "2025-01-01 00:00:01",
        exit_code: 0,
        log_path: "/tmp/test.log",
        duration: Some("0.017s"),
        result_message: None,
        extra_lines: Some(extra),
        style: None,
        width: None,
    });
    let lines: Vec<&str> = block.lines().collect();
    assert_eq!(lines[lines.len() - 1], "│ session   test-uuid");
    assert_eq!(lines[lines.len() - 2], "│ log       /tmp/test.log");
}

#[test]
fn test_escape_for_links_notation_no_quoting() {
    assert_eq!(escape_for_links_notation("simple"), "simple");
    assert_eq!(escape_for_links_notation("123"), "123");
}

#[test]
fn test_escape_for_links_notation_with_space() {
    assert_eq!(escape_for_links_notation("hello world"), "\"hello world\"");
}

#[test]
fn test_escape_for_links_notation_with_colon() {
    assert_eq!(escape_for_links_notation("key:value"), "\"key:value\"");
}

#[test]
fn test_escape_for_links_notation_with_double_quotes() {
    assert_eq!(escape_for_links_notation("say \"hello\""), "'say \"hello\"'");
}

#[test]
fn test_escape_for_links_notation_with_single_quotes() {
    assert_eq!(escape_for_links_notation("it's cool"), "\"it's cool\"");
}

#[test]
fn escape_with_both_quote_kinds_doubles_the_rarer() {
    assert_eq!(escape_for_links_notation("a'b\"c\"d"), "'a''b\"c\"d'");
    assert_eq!(escape_for_links_notation("a'b'c\"d"), "\"a'b'c\"\"d\"");
}

#[test]
fn test_start_block_ends_with_empty_timeline_when_defer_command_true() {
    let extra = vec![
        "[Isolation] Environment: docker, Mode: attached",
        "[Isolation] Image: alpine:latest",
        "[Isolation] Session: docker-container-123",
    ];
    let block = create_start_block(&StartBlockOptions {
        session_id: "test-uuid",
        timestamp: "2026-01-08 12:00:00",
        command: "echo hello",
        extra_lines: Some(extra),
        style: None,
        width: None,
        defer_command: true,
    });
    let lines: Vec<&str> = block.lines().collect();
    assert_eq!(lines[lines.len() - 1], "│", "Start block with defer_command should end with empty timeline line");
    assert!(!block.contains("$ echo hello"), "Command should not appear when defer_command is true");
}

#[test]
fn test_visual_continuity_start_block_for_docker_isolation() {
    let extra = vec![
        "[Isolation] Environment: docker, Mode: attached",
        "[Isolation] Image: alpine:latest",
        "[Isolation] Session: docker-1234",
    ];
    let block = create_start_block(&StartBlockOptions {
        session_id: "uuid-abc",
        timestamp: "2026-01-08 12:00:00",
        command: "echo hi",
        extra_lines: Some(extra),
        style: None,
        width: None,
        defer_command: true,
    });
    let lines: Vec<&str> = block.lines().collect();
    assert_eq!(lines[lines.len() - 1], "│", "Should end with empty timeline line");
    assert!(block.contains("│ container docker-1234"), "Should contain container name");
    assert!(!block.contains("$ echo hi"), "Command should be deferred");
}

#[test]
fn test_visual_continuity_output_formatting() {
    let command_line = create_command_line("docker pull alpine:latest");
    assert_eq!(command_line, "$ docker pull alpine:latest");
    let virtual_command_line = create_virtual_command_block("docker pull alpine:latest");
    assert_eq!(virtual_command_line, command_line);
    assert_eq!(create_virtual_command_result(true), "✓");
    assert_eq!(create_virtual_command_result(false), "✗");
}
