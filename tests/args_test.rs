use start_command::args::{get_effective_mode, has_isolation, is_valid_uuid, parse_args, WrapperOptions};

fn argv(xs: &[&str]) -> Vec<String> {
    xs.iter().map(|x| x.to_string()).collect()
}

#[test]
fn test_parse_simple_command() {
    let args = argv(&["echo", "hello", "world"]);
    let result = parse_args(&args).unwrap();
    assert_eq!(result.command, "echo hello world");
    assert!(result.wrapper_options.isolated.is_none());
    assert!(!result.wrapper_options.attached);
    assert!(!result.wrapper_options.detached);
}

#[test]
fn args_parser_test_parse_with_separator() {
    let args = argv(&["--", "npm", "test"]);
    let result = parse_args(&args).unwrap();
    assert_eq!(result.command, "npm test");
}

#[test]
fn test_parse_isolated_option() {
    let args = argv(&["--isolated", "tmux", "--", "npm", "test"]);
    let result = parse_args(&args).unwrap();
    assert_eq!(result.wrapper_options.isolated, Some("tmux".to_string()));
    assert_eq!(result.command, "npm test");
}

#[test]
fn test_parse_shorthand() {
    let args = argv(&["-i", "screen", "-d", "--", "npm", "start"]);
    let result = parse_args(&args).unwrap();
    assert_eq!(result.wrapper_options.isolated, Some("screen".to_string()));
    assert!(result.wrapper_options.detached);
}

#[test]
fn test_attached_detached_conflict() {
    let args = argv(&["--attached", "--detached", "--", "npm", "test"]);
    assert!(parse_args(&args).is_err());
}

#[test]
fn test_docker_uses_default_image() {
    let args = argv(&["--isolated", "docker", "--", "npm", "test"]);
    let result = parse_args(&args).unwrap();
    assert_eq!(result.wrapper_options.isolated, Some("docker".to_string()));
    assert!(result.wrapper_options.image.is_some(), "Expected default image to be set");
    let known_defaults = vec![
        "alpine:latest",
        "ubuntu:latest",
        "debian:latest",
        "archlinux:latest",
        "fedora:latest",
        "centos:latest",
    ];
    let image = result.wrapper_options.image.as_ref().unwrap();
    assert!(
        known_defaults.contains(&image.as_str()),
        "Expected image to be one of {:?}, got {}",
        known_defaults,
        image
    );
}

#[test]
fn args_parser_test_docker_with_image() {
    let args = argv(&["--isolated", "docker", "--image", "node:20", "--", "npm", "test"]);
    let result = parse_args(&args).unwrap();
    assert_eq!(result.wrapper_options.isolated, Some("docker".to_string()));
    assert_eq!(result.wrapper_options.image, Some("node:20".to_string()));
}

#[test]
fn test_ssh_requires_endpoint() {
    let args = argv(&["--isolated", "ssh", "--", "npm", "test"]);
    assert!(parse_args(&args).is_err());
}

#[test]
fn test_ssh_with_endpoint() {
    let args = argv(&["--isolated", "ssh", "--endpoint", "user@host", "--", "ls"]);
    let result = parse_args(&args).unwrap();
    assert_eq!(result.wrapper_options.isolated, Some("ssh".to_string()));
    assert_eq!(result.wrapper_options.endpoint, Some("user@host".to_string()));
}

#[test]
fn test_isolated_user() {
    let args = argv(&["--isolated-user", "--", "npm", "test"]);
    let result = parse_args(&args).unwrap();
    assert!(result.wrapper_options.user);
    assert!(result.wrapper_options.user_name.is_none());
}

#[test]
fn test_isolated_user_with_name() {
    let args = argv(&["--isolated-user", "myuser", "--", "npm", "test"]);
    let result = parse_args(&args).unwrap();
    assert!(result.wrapper_options.user);
    assert_eq!(result.wrapper_options.user_name, Some("myuser".to_string()));
}

#[test]
fn test_has_isolation() {
    let mut options = WrapperOptions::default();
    assert!(!has_isolation(&options));
    options.isolated = Some("tmux".to_string());
    assert!(has_isolation(&options));
}

#[test]
fn test_get_effective_mode() {
    let mut options = WrapperOptions::default();
    assert_eq!(get_effective_mode(&options), "attached");
    options.detached = true;
    assert_eq!(get_effective_mode(&options), "detached");
}

#[test]
fn test_keep_user_requires_user() {
    let args = argv(&["--keep-user", "--", "npm", "test"]);
    assert!(parse_args(&args).is_err());
}

#[test]
fn test_use_command_stream() {
    let args = argv(&["--use-command-stream", "--", "npm", "test"]);
    let result = parse_args(&args).unwrap();
    assert!(result.wrapper_options.use_command_stream);
}

#[test]
fn test_status_option() {
    let args = argv(&["--status", "a1b2c3d4-e5f6-7890-abcd-ef1234567890"]);
    let result = parse_args(&args).unwrap();
    assert_eq!(
        result.wrapper_options.status,
        Some("a1b2c3d4-e5f6-7890-abcd-ef1234567890".to_string())
    );
}

#[test]
fn test_status_with_output_format() {
    let args = argv(&["--status", "a1b2c3d4-e5f6-7890-abcd-ef1234567890", "--output-format", "json"]);
    let result = parse_args(&args).unwrap();
    assert_eq!(
        result.wrapper_options.status,
        Some("a1b2c3d4-e5f6-7890-abcd-ef1234567890".to_string())
    );
    assert_eq!(result.wrapper_options.output_format, Some("json".to_string()));
}

#[test]
fn test_status_with_links_notation() {
    let args = argv(&["--status", "uuid-here", "--output-format", "links-notation"]);
    let result = parse_args(&args).unwrap();
    assert_eq!(result.wrapper_options.output_format, Some("links-notation".to_string()));
}

#[test]
fn test_status_with_text_format() {
    let args = argv(&["--status", "uuid-here", "--output-format", "text"]);
    let result = parse_args(&args).unwrap();
    assert_eq!(result.wrapper_options.output_format, Some("text".to_string()));
}

#[test]
fn test_status_equals_syntax() {
    let args = argv(&["--status=my-uuid-here"]);
    let result = parse_args(&args).unwrap();
    assert_eq!(result.wrapper_options.status, Some("my-uuid-here".to_string()));
}

#[test]
fn test_output_format_equals_syntax() {
    let args = argv(&["--status=my-uuid", "--output-format=json"]);
    let result = parse_args(&args).unwrap();
    assert_eq!(result.wrapper_options.output_format, Some("json".to_string()));
}

#[test]
fn test_status_requires_uuid() {
    let args = argv(&["--status"]);
    assert!(parse_args(&args).is_err());
}

#[test]
fn test_output_format_requires_format() {
    let args = argv(&["--status", "uuid", "--output-format"]);
    assert!(parse_args(&args).is_err());
}

#[test]
fn test_invalid_output_format() {
    let args = argv(&["--status", "uuid", "--output-format", "invalid"]);
    assert!(parse_args(&args).is_err());
}

#[test]
fn test_output_format_without_status() {
    let args = argv(&["--output-format", "json", "--", "npm", "test"]);
    assert!(parse_args(&args).is_err());
}

#[test]
fn test_cleanup_option() {
    let args = argv(&["--cleanup"]);
    let result = parse_args(&args).unwrap();
    assert!(result.wrapper_options.cleanup);
    assert!(!result.wrapper_options.cleanup_dry_run);
}

#[test]
fn test_cleanup_dry_run_option() {
    let args = argv(&["--cleanup-dry-run"]);
    let result = parse_args(&args).unwrap();
    assert!(result.wrapper_options.cleanup);
    assert!(result.wrapper_options.cleanup_dry_run);
}

#[test]
fn command_starts_at_first_non_option() {
    let args = argv(&["-i", "TMUX", "npm", "run", "-x"]);
    let result = parse_args(&args).unwrap();
    assert_eq!(result.wrapper_options.isolated, Some("tmux".to_string()));
    assert_eq!(result.raw_command, argv(&["npm", "run", "-x"]));
    assert_eq!(result.command, "npm run -x");
}

#[test]
fn uuid_validation_and_session_ids() {
    assert!(is_valid_uuid("A1B2C3D4-E5F6-4890-ABCD-EF1234567890"));
    assert!(!is_valid_uuid("a1b2c3d4-e5f6-7890-abcd-ef1234567890"));
    let args = argv(&["--session-id", "not-a-uuid", "--", "ls"]);
    assert!(parse_args(&args).is_err());
    let args = argv(&["--session-id=a1b2c3d4-e5f6-4890-abcd-ef1234567890", "--", "ls"]);
    assert!(parse_args(&args).is_ok());
}

#[test]
fn option_coherence_errors() {
    assert!(parse_args(&argv(&["--isolated", "podman", "--", "ls"])).is_err());
    assert!(parse_args(&argv(&["--session", "s", "--", "ls"])).is_err());
    assert!(parse_args(&argv(&["--image", "x", "--", "ls"])).is_err());
    assert!(parse_args(&argv(&["--keep-alive", "--", "ls"])).is_err());
    assert!(parse_args(&argv(&["-i", "docker", "-u", "--", "ls"])).is_err());
    assert!(parse_args(&argv(&["--isolated-user=bad name", "--", "ls"])).is_err());
    assert!(parse_args(&argv(&["-i", "tmux", "-s", "work", "-k", "--", "ls"])).is_ok());
}

#[test]
fn test_generate_session_name() {
    let name1 = start_command::args::generate_session_name(None);
    let name2 = start_command::args::generate_session_name(None);
    assert!(name1.starts_with("start-"));
    assert_ne!(name1, name2);
}

#[test]
fn test_generate_session_name_with_prefix() {
    let name = start_command::args::generate_session_name(Some("custom"));
    assert!(name.starts_with("custom-"));
}
