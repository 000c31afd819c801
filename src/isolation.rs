//! Pieces of isolated execution that are pure: command wrapping, log file
//! names and footers, and the backend's capability check.

use vstd::prelude::*;
use crate::numbers::{int_text, nat_text, push_int_text, push_nat_text};
use crate::text::{chars_of, push_char, push_str};

verus! {

/// The outcome of running a command in an isolation backend.
pub struct IsolationResult {
    pub success: bool,
    /// Session or container name.
    pub session_name: Option<String>,
    pub container_id: Option<String>,
    pub message: String,
    pub exit_code: Option<i32>,
    /// Captured output.
    pub output: Option<String>,
}

impl Default for IsolationResult {
    fn default() -> (r: IsolationResult)
        ensures
            !r.success && r.session_name is None && r.container_id is None && r.message@.len()
                == 0 && r.exit_code is None && r.output is None,
    {
        IsolationResult {
            success: false,
            session_name: None,
            container_id: None,
            message: String::new(),
            exit_code: None,
            output: None,
        }
    }
}

/// How a command is to be isolated.
pub struct IsolationOptions {
    pub session: Option<String>,
    pub image: Option<String>,
    pub endpoint: Option<String>,
    pub detached: bool,
    /// User to run the command as.
    pub user: Option<String>,
    pub keep_alive: bool,
    pub auto_remove_docker_container: bool,
}

impl Default for IsolationOptions {
    fn default() -> (r: IsolationOptions)
        ensures
            r.session is None && r.image is None && r.endpoint is None && !r.detached
                && r.user is None && !r.keep_alive && !r.auto_remove_docker_container,
    {
        IsolationOptions {
            session: None,
            image: None,
            endpoint: None,
            detached: false,
            user: None,
            keep_alive: false,
            auto_remove_docker_container: false,
        }
    }
}

/// What the header of a log file records.
pub struct LogHeaderParams {
    pub command: String,
    pub environment: String,
    pub mode: String,
    pub session_name: String,
    pub image: Option<String>,
    pub user: Option<String>,
    pub start_time: String,
}

/// An output stream of a command.
#[derive(PartialEq, Eq, Structural, Clone, Copy, Debug)]
pub enum Stream {
    Stdout,
    Stderr,
}

/// `s` with each single quote written as `'\''`, for a single-quoted shell
/// word.
pub open spec fn shell_quoted(s: Seq<char>) -> Seq<char>
    decreases s.len(),
{
    if s.len() == 0 {
        Seq::empty()
    } else {
        shell_quoted(s.subrange(0, s.len() - 1)) + if s[s.len() - 1] == '\'' {
            seq!['\'', '\\', '\'', '\'']
        } else {
            seq![s[s.len() - 1]]
        }
    }
}

/// The command as given, or, with a user, run through `sudo` as that user.
pub fn wrap_command_with_user(command: &str, user: Option<&str>) -> (r: String)
    ensures
        r@ == match user {
            Some(u) => "sudo -n -u "@ + u@ + " sh -c '"@ + shell_quoted(command@) + "'"@,
            None => command@,
        },
{
    match user {
        Some(u) => {
            let mut out = "sudo -n -u ".to_owned();
            push_str(&mut out, u);
            push_str(&mut out, " sh -c '");
            let cs = chars_of(command);
            let ghost base = out@;
            let mut i: usize = 0;
            while i < cs.len()
                invariant
                    i <= cs@.len(),
                    out@ == base + shell_quoted(cs@.subrange(0, i as int)),
                decreases cs.len() - i,
            {
                proof {
                    let t = cs@.subrange(0, i + 1);
                    assert(t.subrange(0, i as int) == cs@.subrange(0, i as int));
                }
                if cs[i] == '\'' {
                    push_char(&mut out, '\'');
                    push_char(&mut out, '\\');
                    push_char(&mut out, '\'');
                    push_char(&mut out, '\'');
                } else {
                    push_char(&mut out, cs[i]);
                }
                i += 1;
            }
            assert(cs@.subrange(0, cs@.len() as int) == cs@);
            push_str(&mut out, "'");
            out
        },
        None => command.to_owned(),
    }
}

/// Whether a screen of this version (major, minor, patch) accepts the
/// `-Logfile` option, which came with 4.5.1; unknown versions do not.
pub fn supports_logfile_option(version: Option<(u32, u32, u32)>) -> (r: bool)
    ensures
        r == match version {
            Some((a, b, c)) => a > 4 || (a == 4 && (b > 5 || (b == 5 && c >= 1))),
            None => false,
        },
{
    match version {
        Some((major, minor, patch)) => {
            if major > 4 {
                return true;
            }
            if major < 4 {
                return false;
            }
            if minor > 5 {
                return true;
            }
            if minor < 5 {
                return false;
            }
            patch >= 1
        },
        None => false,
    }
}

/// A line of fifty `=`.
pub open spec fn rule_line() -> Seq<char> {
    Seq::new(50, |i: int| '=')
}

pub(crate) fn push_rule_line(out: &mut String)
    ensures
        final(out)@ == old(out)@ + rule_line(),
{
    let mut i: usize = 0;
    while i < 50
        invariant
            i <= 50,
            out@ == old(out)@ + Seq::new(i as nat, |k: int| '='),
        decreases 50 - i,
    {
        push_char(out, '=');
        assert(Seq::new((i + 1) as nat, |k: int| '=') =~= Seq::new(i as nat, |k: int| '=').push(
            '=',
        ));
        i += 1;
    }
}

/// The closing lines of a log file.
pub fn create_log_footer(end_time: &str, exit_code: i32) -> (r: String)
    ensures
        r@ == seq!['\n'] + rule_line() + "\nFinished: "@ + end_time@ + "\nExit Code: "@ + int_text(
            exit_code as int,
        ) + seq!['\n'],
{
    let mut out = String::new();
    push_char(&mut out, '\n');
    push_rule_line(&mut out);
    push_str(&mut out, "\nFinished: ");
    push_str(&mut out, end_time);
    push_str(&mut out, "\nExit Code: ");
    push_int_text(&mut out, exit_code as i64);
    push_char(&mut out, '\n');
    out
}

/// Relies on `SystemTime::now` and `duration_since(UNIX_EPOCH)`: the time
/// now, in nanoseconds since the epoch (0 before it).
#[verifier::external_body]
pub(crate) fn now_nanos() -> (r: u64) {
    match std::time::SystemTime::now().duration_since(std::time::UNIX_EPOCH) {
        Ok(d) => d.as_nanos() as u64,
        Err(_) => 0,
    }
}

/// Whether `c` is a lower-case base-36 digit.
pub open spec fn is_base36_char(c: char) -> bool {
    ('0' <= c && c <= '9') || ('a' <= c && c <= 'z')
}

/// Whether every character of `s` is a lower-case base-36 digit.
pub open spec fn is_base36(s: Seq<char>) -> bool {
    forall|i: int| 0 <= i < s.len() ==> is_base36_char(#[trigger] s[i])
}

/// `count` base-36 characters drawn from the low digits of `seed`.
pub(crate) fn push_base36_chars(out: &mut String, seed: u64, count: usize)
    ensures
        final(out)@.len() == old(out)@.len() + count,
        final(out)@.subrange(0, old(out)@.len() as int) == old(out)@,
        is_base36(final(out)@.subrange(old(out)@.len() as int, final(out)@.len() as int)),
{
    let mut s = seed;
    let mut i: usize = 0;
    while i < count
        invariant
            i <= count,
            out@.len() == old(out)@.len() + i,
            out@.subrange(0, old(out)@.len() as int) == old(out)@,
            is_base36(out@.subrange(old(out)@.len() as int, out@.len() as int)),
        decreases count - i,
    {
        let d = (s % 36) as u8;
        let c = if d < 10 {
            (48u8 + d) as char
        } else {
            (97u8 + d - 10) as char
        };
        assert(is_base36_char(c));
        let ghost before = out@;
        push_char(out, c);
        assert(out@.subrange(0, old(out)@.len() as int) =~= before.subrange(
            0,
            old(out)@.len() as int,
        ));
        assert(out@.subrange(old(out)@.len() as int, out@.len() as int) =~= before.subrange(
            old(out)@.len() as int,
            before.len() as int,
        ).push(c));
        s = s / 36;
        i += 1;
    }
}

/// A log file name for a run in `environment`, made unique by the time and
/// six base-36 characters: `start-command-<environment>-<millis>-<xxxxxx>.log`.
pub fn generate_log_filename(environment: &str) -> (r: String)
    ensures
        exists|ms: nat, rnd: Seq<char>|
            rnd.len() == 6 && is_base36(rnd) && r@ == "start-command-"@ + environment@ + "-"@
                + nat_text(ms) + "-"@ + rnd + ".log"@,
{
    let nanos = now_nanos();
    let ms = nanos / 1000000;
    let mut out = "start-command-".to_owned();
    push_str(&mut out, environment);
    push_str(&mut out, "-");
    push_nat_text(&mut out, ms);
    push_str(&mut out, "-");
    let ghost head = out@;
    push_base36_chars(&mut out, nanos, 6);
    let ghost rnd = out@.subrange(head.len() as int, out@.len() as int);
    assert(out@ =~= head + rnd);
    push_str(&mut out, ".log");
    out
}

/// Where the log of a run in `environment` goes, inside `log_dir`.
pub fn create_log_path(log_dir: &str, environment: &str) -> (r: String)
    ensures
        exists|name: Seq<char>|
            r@ == crate::store::join_path(log_dir@, name) && exists|ms: nat, rnd: Seq<char>|
                rnd.len() == 6 && is_base36(rnd) && name == "start-command-"@ + environment@
                    + "-"@ + nat_text(ms) + "-"@ + rnd + ".log"@,
{
    let name = generate_log_filename(environment);
    crate::store::join(log_dir, name.as_str())
}


/// The opening lines of a log file: what ran, where and how, then a rule.
pub open spec fn log_header(p: LogHeaderParams, platform: Seq<char>, working_directory: Seq<char>) -> Seq<char> {
    "=== Start Command Log ===\nTimestamp: "@ + p.start_time@ + "\nCommand: "@ + p.command@
        + "\nEnvironment: "@ + p.environment@ + "\nMode: "@ + p.mode@ + "\nSession: "@
        + p.session_name@ + "\n"@ + (match p.image {
        Some(i) => "Image: "@ + i@ + "\n"@,
        None => Seq::empty(),
    }) + (match p.user {
        Some(u) => "User: "@ + u@ + "\n"@,
        None => Seq::empty(),
    }) + "Platform: "@ + platform + "\nWorking Directory: "@ + working_directory + "\n"@
        + rule_line() + "\n\n"@
}

/// The opening lines of a log file, for a run on `platform` in
/// `working_directory`.
pub fn create_log_header(params: &LogHeaderParams, platform: &str, working_directory: &str) -> (r:
    String)
    ensures
        r@ == log_header(*params, platform@, working_directory@),
{
    let mut out = "=== Start Command Log ===\nTimestamp: ".to_owned();
    push_str(&mut out, params.start_time.as_str());
    push_str(&mut out, "\nCommand: ");
    push_str(&mut out, params.command.as_str());
    push_str(&mut out, "\nEnvironment: ");
    push_str(&mut out, params.environment.as_str());
    push_str(&mut out, "\nMode: ");
    push_str(&mut out, params.mode.as_str());
    push_str(&mut out, "\nSession: ");
    push_str(&mut out, params.session_name.as_str());
    push_str(&mut out, "\n");
    match &params.image {
        Some(i) => {
            push_str(&mut out, "Image: ");
            push_str(&mut out, i.as_str());
            push_str(&mut out, "\n");
        },
        None => {},
    }
    match &params.user {
        Some(u) => {
            push_str(&mut out, "User: ");
            push_str(&mut out, u.as_str());
            push_str(&mut out, "\n");
        },
        None => {},
    }
    push_str(&mut out, "Platform: ");
    push_str(&mut out, platform);
    push_str(&mut out, "\nWorking Directory: ");
    push_str(&mut out, working_directory);
    push_str(&mut out, "\n");
    push_rule_line(&mut out);
    push_str(&mut out, "\n\n");
    out
}

} // verus!
