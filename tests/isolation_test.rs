use start_command::isolation::{
    create_log_footer, create_log_header, create_log_path, LogHeaderParams, generate_log_filename, supports_logfile_option,
    wrap_command_with_user,
};
use start_command::user::generate_isolated_username;

#[test]
fn test_wrap_command_with_user() {
    let cmd = wrap_command_with_user("echo hello", None);
    assert_eq!(cmd, "echo hello");

    let cmd = wrap_command_with_user("echo hello", Some("testuser"));
    assert!(cmd.contains("sudo"));
    assert!(cmd.contains("testuser"));
}

#[test]
fn wrap_command_quotes_single_quotes() {
    let cmd = wrap_command_with_user("echo 'hi'", Some("bob"));
    assert_eq!(cmd, "sudo -n -u bob sh -c 'echo '\\''hi'\\'''");
}

#[test]
fn test_generate_log_filename() {
    let name = generate_log_filename("test");
    assert!(name.starts_with("start-command-test-"));
    assert!(name.ends_with(".log"));
}

#[test]
fn test_create_log_path() {
    let path = create_log_path("/tmp", "test");
    assert!(path.contains("start-command-test-"));
}

#[test]
fn logfile_option_version_gate() {
    assert!(!supports_logfile_option(None));
    assert!(!supports_logfile_option(Some((4, 5, 0))));
    assert!(supports_logfile_option(Some((4, 5, 1))));
    assert!(supports_logfile_option(Some((4, 6, 0))));
    assert!(supports_logfile_option(Some((5, 0, 0))));
    assert!(!supports_logfile_option(Some((3, 9, 9))));
}

#[test]
fn log_footer_text() {
    let footer = create_log_footer("2025-01-01 00:00:00", -2);
    let rule = "=".repeat(50);
    assert_eq!(
        footer,
        format!("\n{}\nFinished: 2025-01-01 00:00:00\nExit Code: -2\n", rule)
    );
}

#[test]
fn test_generate_isolated_username() {
    let name1 = generate_isolated_username(None);
    let name2 = generate_isolated_username(None);
    assert!(name1.starts_with("start-"));
    assert!(name1.len() <= 31);
    assert_ne!(name1, name2);
}

#[test]
fn test_generate_isolated_username_with_prefix() {
    let name = generate_isolated_username(Some("test"));
    assert!(name.starts_with("test-"));
}

#[test]
fn long_prefix_is_cut_to_31() {
    let name = generate_isolated_username(Some("a-very-long-prefix-for-user-names"));
    assert_eq!(name.chars().count(), 31);
    assert!(name.starts_with("a-very-long-prefix-for-user-nam"));
}

#[test]
fn log_header_lines() {
    let header = create_log_header(
        &LogHeaderParams {
            command: "ls".to_string(),
            environment: "tmux".to_string(),
            mode: "attached".to_string(),
            session_name: "s1".to_string(),
            image: None,
            user: Some("bob".to_string()),
            start_time: "t0".to_string(),
        },
        "linux",
        "/home",
    );
    let expected = format!(
        "=== Start Command Log ===\nTimestamp: t0\nCommand: ls\nEnvironment: tmux\nMode: attached\nSession: s1\nUser: bob\nPlatform: linux\nWorking Directory: /home\n{}\n\n",
        "=".repeat(50)
    );
    assert_eq!(header, expected);
}
