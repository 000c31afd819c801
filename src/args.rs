//! The wrapper's command line: options before the command, with the
//! command either after `--` or from the first non-option argument on.

use vstd::prelude::*;
use crate::text::{chars_of, push_char, push_str, starts_with, str_eq};

verus! {

/// Whether `text` matches the regular expression `pattern` (false when the
/// pattern does not compile).
pub uninterp spec fn regex_matches(pattern: Seq<char>, text: Seq<char>) -> bool;

/// Relies on regex's `Regex::new` and `Regex::is_match`: the answer depends
/// on the pattern and the text alone.
#[verifier::external_body]
pub(crate) fn is_match(pattern: &str, text: &str) -> (r: bool)
    ensures
        r == regex_matches(pattern@, text@),
{
    match regex::Regex::new(pattern) {
        Ok(re) => re.is_match(text),
        Err(_) => false,
    }
}

/// The lower-case form of a string.
pub uninterp spec fn lower_of(s: Seq<char>) -> Seq<char>;

/// Relies on `str::to_lowercase`: the result depends on the characters alone.
#[verifier::external_body]
pub(crate) fn to_lower(s: &str) -> (r: String)
    ensures
        r@ == lower_of(s@),
{
    s.to_lowercase()
}

pub open spec fn uuid_pattern() -> Seq<char> {
    "^[0-9a-f]{8}-[0-9a-f]{4}-4[0-9a-f]{3}-[89ab][0-9a-f]{3}-[0-9a-f]{12}$"@
}

pub open spec fn username_pattern() -> Seq<char> {
    "^[a-zA-Z0-9_-]+$"@
}

/// Whether `s` is a version-4 UUID, in either case.
pub open spec fn valid_uuid(s: Seq<char>) -> bool {
    regex_matches(uuid_pattern(), lower_of(s))
}

/// Whether `s` is a version-4 UUID, in either case.
pub fn is_valid_uuid(s: &str) -> (r: bool)
    ensures
        r == valid_uuid(s@),
{
    let l = to_lower(s);
    is_match("^[0-9a-f]{8}-[0-9a-f]{4}-4[0-9a-f]{3}-[89ab][0-9a-f]{3}-[0-9a-f]{12}$", l.as_str())
}

/// Options of the wrapper itself.
pub struct WrapperOptions {
    /// Isolation backend: screen, tmux, docker or ssh.
    pub isolated: Option<String>,
    pub attached: bool,
    pub detached: bool,
    pub session: Option<String>,
    /// Tracking identifier of the run.
    pub session_id: Option<String>,
    pub image: Option<String>,
    /// Remote host for ssh, such as `user@host`.
    pub endpoint: Option<String>,
    /// Run as a separate, newly created user.
    pub user: bool,
    pub user_name: Option<String>,
    pub keep_user: bool,
    pub keep_alive: bool,
    pub auto_remove_docker_container: bool,
    pub use_command_stream: bool,
    /// Identifier whose status is queried.
    pub status: Option<String>,
    /// Format of the status answer: links-notation, json or text.
    pub output_format: Option<String>,
    pub cleanup: bool,
    pub cleanup_dry_run: bool,
}

/// Whether no option is set.
pub open spec fn is_blank(o: WrapperOptions) -> bool {
    o.isolated is None && !o.attached && !o.detached && o.session is None && o.session_id is None
        && o.image is None && o.endpoint is None && !o.user && o.user_name is None && !o.keep_user
        && !o.keep_alive && !o.auto_remove_docker_container && !o.use_command_stream
        && o.status is None && o.output_format is None && !o.cleanup && !o.cleanup_dry_run
}

impl Default for WrapperOptions {
    fn default() -> (r: WrapperOptions)
        ensures
            is_blank(r),
    {
        WrapperOptions {
            isolated: None,
            attached: false,
            detached: false,
            session: None,
            session_id: None,
            image: None,
            endpoint: None,
            user: false,
            user_name: None,
            keep_user: false,
            keep_alive: false,
            auto_remove_docker_container: false,
            use_command_stream: false,
            status: None,
            output_format: None,
            cleanup: false,
            cleanup_dry_run: false,
        }
    }
}

/// The parsed command line.
pub struct ParsedArgs {
    pub wrapper_options: WrapperOptions,
    /// The command, its words joined by single spaces.
    pub command: String,
    /// The command's words.
    pub raw_command: Vec<String>,
}

pub open spec fn is_backend(b: Seq<char>) -> bool {
    b == "screen"@ || b == "tmux"@ || b == "docker"@ || b == "ssh"@
}

pub open spec fn is_output_format(f: Seq<char>) -> bool {
    f == "links-notation"@ || f == "json"@ || f == "text"@
}

pub open spec fn backend_is(o: WrapperOptions, b: Seq<char>) -> bool {
    o.isolated matches Some(x) && x@ == b
}

/// Whether a set of options is coherent.
pub open spec fn valid_options(o: WrapperOptions) -> bool {
    &&& !(o.attached && o.detached)
    &&& (o.isolated matches Some(b) ==> is_backend(b@))
    &&& (backend_is(o, "ssh"@) ==> o.endpoint is Some)
    &&& (o.session is Some ==> o.isolated is Some)
    &&& (o.image is Some ==> backend_is(o, "docker"@))
    &&& (o.endpoint is Some ==> backend_is(o, "ssh"@))
    &&& (o.keep_alive ==> o.isolated is Some)
    &&& (o.auto_remove_docker_container ==> backend_is(o, "docker"@))
    &&& (o.user ==> !backend_is(o, "docker"@))
    &&& (o.user ==> (o.user_name matches Some(n) ==> regex_matches(username_pattern(), n@)
        && n@.len() <= 32))
    &&& (o.keep_user ==> o.user)
    &&& (o.output_format matches Some(f) ==> is_output_format(f@))
    &&& (o.output_format is Some ==> o.status is Some)
    &&& (o.session_id matches Some(s) ==> valid_uuid(s@))
}

/// The image used for docker when none is given.
pub fn get_default_docker_image() -> (r: String)
    ensures
        r@ == "alpine:latest"@,
{
    "alpine:latest".to_owned()
}

fn error_of(prefix: &str, value: &str, suffix: &str) -> (r: String) {
    let mut m = prefix.to_owned();
    push_str(&mut m, value);
    push_str(&mut m, suffix);
    m
}

/// Checks that the options are coherent, first giving docker its default
/// image when none was chosen.
pub fn validate_options(options: &mut WrapperOptions) -> (r: Result<(), String>)
    ensures
        !(backend_is(*old(options), "docker"@) && old(options).image is None && !(old(
            options,
        ).attached && old(options).detached)) ==> final(options).image == old(options).image,
        backend_is(*old(options), "docker"@) && old(options).image is None && !(old(
            options,
        ).attached && old(options).detached)
            ==> (final(options).image matches Some(i) && i@ == "alpine:latest"@),
        final(options).isolated == old(options).isolated,
        final(options).attached == old(options).attached,
        final(options).detached == old(options).detached,
        final(options).session == old(options).session,
        final(options).session_id == old(options).session_id,
        final(options).endpoint == old(options).endpoint,
        final(options).user == old(options).user,
        final(options).user_name == old(options).user_name,
        final(options).keep_user == old(options).keep_user,
        final(options).keep_alive == old(options).keep_alive,
        final(options).auto_remove_docker_container == old(options).auto_remove_docker_container,
        final(options).use_command_stream == old(options).use_command_stream,
        final(options).status == old(options).status,
        final(options).output_format == old(options).output_format,
        final(options).cleanup == old(options).cleanup,
        final(options).cleanup_dry_run == old(options).cleanup_dry_run,
        r is Ok <==> valid_options(*final(options)),
{
    if options.attached && options.detached {
        return Err(
            "Cannot use both --attached and --detached at the same time. Please choose only one mode.".to_owned(),
        );
    }
    let mut is_docker = false;
    let mut is_ssh = false;
    match &options.isolated {
        Some(b) => {
            let s = b.as_str();
            is_docker = str_eq(s, "docker");
            is_ssh = str_eq(s, "ssh");
            if !(str_eq(s, "screen") || str_eq(s, "tmux") || is_docker || is_ssh) {
                return Err(
                    error_of(
                        "Invalid isolation backend: \"",
                        s,
                        "\". Valid options are: screen, tmux, docker, ssh",
                    ),
                );
            }
        },
        None => {},
    }
    assert(is_docker == backend_is(*options, "docker"@));
    assert(is_ssh == backend_is(*options, "ssh"@));
    if is_docker && options.image.is_none() {
        options.image = Some(get_default_docker_image());
    }
    if is_ssh && options.endpoint.is_none() {
        return Err(
            "SSH isolation requires --endpoint option to specify the remote server (e.g., user@host)".to_owned(),
        );
    }
    if options.session.is_some() && options.isolated.is_none() {
        return Err("--session option is only valid with --isolated".to_owned());
    }
    if options.image.is_some() && !is_docker {
        return Err("--image option is only valid with --isolated docker".to_owned());
    }
    if options.endpoint.is_some() && !is_ssh {
        return Err("--endpoint option is only valid with --isolated ssh".to_owned());
    }
    if options.keep_alive && options.isolated.is_none() {
        return Err("--keep-alive option is only valid with --isolated".to_owned());
    }
    if options.auto_remove_docker_container && !is_docker {
        return Err(
            "--auto-remove-docker-container option is only valid with --isolated docker".to_owned(),
        );
    }
    if options.user {
        if is_docker {
            return Err(
                "--isolated-user is not supported with Docker isolation. Docker uses its own user namespace for isolation.".to_owned(),
            );
        }
        match &options.user_name {
            Some(n) => {
                if !is_match("^[a-zA-Z0-9_-]+$", n.as_str()) {
                    return Err(
                        error_of(
                            "Invalid username format for --isolated-user: \"",
                            n.as_str(),
                            "\". Username should contain only letters, numbers, hyphens, and underscores.",
                        ),
                    );
                }
                let len = crate::text::chars_of(n.as_str()).len();
                if len > 32 {
                    return Err(
                        error_of(
                            "Username too long for --isolated-user: \"",
                            n.as_str(),
                            "\". Maximum length is 32 characters.",
                        ),
                    );
                }
            },
            None => {},
        }
    }
    if options.keep_user && !options.user {
        return Err("--keep-user option is only valid with --isolated-user".to_owned());
    }
    match &options.output_format {
        Some(f) => {
            let s = f.as_str();
            if !(str_eq(s, "links-notation") || str_eq(s, "json") || str_eq(s, "text")) {
                return Err(
                    error_of(
                        "Invalid output format: \"",
                        s,
                        "\". Valid options are: links-notation, json, text",
                    ),
                );
            }
        },
        None => {},
    }
    if options.output_format.is_some() && options.status.is_none() {
        return Err("--output-format option is only valid with --status".to_owned());
    }
    match &options.session_id {
        Some(s) => {
            if !is_valid_uuid(s.as_str()) {
                return Err(
                    error_of(
                        "Invalid session ID: \"",
                        s.as_str(),
                        "\". Session ID must be a valid UUID v4.",
                    ),
                );
            }
        },
        None => {},
    }
    Ok(())
}

/// Whether any isolation backend was chosen.
pub fn has_isolation(options: &WrapperOptions) -> (r: bool)
    ensures
        r == options.isolated is Some,
{
    options.isolated.is_some()
}

/// `detached` when detached mode was asked for, `attached` otherwise.
pub fn get_effective_mode(options: &WrapperOptions) -> (r: &'static str)
    ensures
        r@ == (if options.detached {
            "detached"@
        } else {
            "attached"@
        }),
{
    if options.detached {
        "detached"
    } else {
        "attached"
    }
}


/// The text after the first `=` of `arg`, up to the next `=` (empty when
/// there is none).
fn value_after_eq(arg: &str) -> (r: String) {
    let cs = chars_of(arg);
    let mut out = String::new();
    let mut i: usize = 0;
    while i < cs.len() && cs[i] != '='
        invariant
            i <= cs@.len(),
        decreases cs.len() - i,
    {
        i += 1;
    }
    if i < cs.len() {
        i += 1;
        while i < cs.len() && cs[i] != '='
            invariant
                i <= cs@.len(),
            decreases cs.len() - i,
        {
            push_char(&mut out, cs[i]);
            i += 1;
        }
    }
    out
}

fn is_option_like(s: &str) -> (r: bool)
    ensures
        r == (s@.len() > 0 && s@[0] == '-'),
{
    let cs = chars_of(s);
    cs.len() > 0 && cs[0] == '-'
}

/// The argument after `index`, within the first `limit` arguments, when it
/// does not start with `-`.
fn operand(args: &[String], index: usize, limit: usize) -> (r: Option<&String>)
    requires
        index < limit <= args@.len(),
    ensures
        match r {
            Some(a) => index + 1 < limit && *a == args@[index + 1] && !(a@.len() > 0 && a@[0]
                == '-'),
            None => !(index + 1 < limit && !(args@[index + 1]@.len() > 0 && args@[index + 1]@[0]
                == '-')),
        },
{
    if index + 1 < limit && !is_option_like(args[index + 1].as_str()) {
        Some(&args[index + 1])
    } else {
        None
    }
}

fn requires_error(arg: &str, what: &str) -> (r: String) {
    let mut m = "Option ".to_owned();
    push_str(&mut m, arg);
    push_str(&mut m, " requires ");
    push_str(&mut m, what);
    m
}

/// Whether `a` begins with `p`.
pub open spec fn has_prefix(a: Seq<char>, p: Seq<char>) -> bool {
    p.len() <= a.len() && a.subrange(0, p.len() as int) == p
}

/// Whether `a` is one of the wrapper's options, in its spaced or `=` form.
pub open spec fn recognized(a: Seq<char>) -> bool {
    a == "--isolated"@ || a == "-i"@ || has_prefix(a, "--isolated="@) || a == "--attached"@ || a
        == "-a"@ || a == "--detached"@ || a == "-d"@ || a == "--session"@ || a == "-s"@
        || has_prefix(a, "--session="@) || a == "--image"@ || has_prefix(a, "--image="@) || a
        == "--endpoint"@ || has_prefix(a, "--endpoint="@) || a == "--isolated-user"@ || a == "-u"@
        || has_prefix(a, "--isolated-user="@) || a == "--keep-user"@ || a == "--keep-alive"@ || a
        == "-k"@ || a == "--auto-remove-docker-container"@ || a == "--use-command-stream"@ || a
        == "--session-id"@ || a == "--session-name"@ || has_prefix(a, "--session-id="@)
        || has_prefix(a, "--session-name="@) || a == "--status"@ || has_prefix(a, "--status="@)
        || a == "--output-format"@ || has_prefix(a, "--output-format="@) || a == "--cleanup"@ || a
        == "--cleanup-dry-run"@
}

/// Whether `a` is an option that may take the next argument as its value.
pub open spec fn takes_value(a: Seq<char>) -> bool {
    needs_operand(a) || a == "--isolated-user"@ || a == "-u"@
}

/// Whether `a` starts with `-`.
pub open spec fn dashed(a: Seq<char>) -> bool {
    a.len() > 0 && a[0] == '-'
}

/// Whether every one of the first `k` arguments was read as a wrapper option
/// or as the value of the option just before it.
pub open spec fn consumed(args: Seq<String>, k: int) -> bool {
    forall|j: int|
        0 <= j < k ==> recognized(#[trigger] args[j]@) || (j > 0 && recognized(args[j - 1]@)
            && takes_value(args[j - 1]@) && !dashed(args[j]@))
}

/// Whether `a` is an option that takes the next argument as its value.
pub open spec fn needs_operand(a: Seq<char>) -> bool {
    a == "--isolated"@ || a == "-i"@ || a == "--session"@ || a == "-s"@ || a == "--image"@ || a
        == "--endpoint"@ || a == "--session-id"@ || a == "--session-name"@ || a == "--status"@
        || a == "--output-format"@
}

/// Reads the option at `index` (among the first `limit` arguments) into
/// `options`; returns how many arguments it took, 0 when it is not one of
/// the wrapper's options.
fn parse_option(args: &[String], index: usize, limit: usize, options: &mut WrapperOptions) -> (r:
    Result<usize, String>)
    requires
        index < limit <= args@.len(),
    ensures
        r matches Ok(c) ==> c <= 2 && index + c <= limit,
        r matches Ok(c) && c == 0 ==> *final(options) == *old(options),
        r matches Ok(c) ==> (c == 0 <==> !recognized(args@[index as int]@)),
        r is Err ==> needs_operand(args@[index as int]@) && !(index + 1 < limit && !(args@[index
            + 1]@.len() > 0 && args@[index + 1]@[0] == '-')),
        r matches Ok(c) && c == 2 ==> takes_value(args@[index as int]@) && !dashed(
            args@[index + 1]@,
        ),
{
    let arg = args[index].as_str();
    if str_eq(arg, "--isolated") || str_eq(arg, "-i") {
        return match operand(args, index, limit) {
            Some(v) => {
                options.isolated = Some(to_lower(v.as_str()));
                Ok(2)
            },
            None => Err(requires_error(arg, "a backend argument (screen, tmux, docker, ssh)")),
        };
    }
    if starts_with(arg, "--isolated=") {
        options.isolated = Some(to_lower(value_after_eq(arg).as_str()));
        return Ok(1);
    }
    if str_eq(arg, "--attached") || str_eq(arg, "-a") {
        options.attached = true;
        return Ok(1);
    }
    if str_eq(arg, "--detached") || str_eq(arg, "-d") {
        options.detached = true;
        return Ok(1);
    }
    if str_eq(arg, "--session") || str_eq(arg, "-s") {
        return match operand(args, index, limit) {
            Some(v) => {
                options.session = Some(v.clone());
                Ok(2)
            },
            None => Err(requires_error(arg, "a session name argument")),
        };
    }
    if starts_with(arg, "--session=") {
        options.session = Some(value_after_eq(arg));
        return Ok(1);
    }
    if str_eq(arg, "--image") {
        return match operand(args, index, limit) {
            Some(v) => {
                options.image = Some(v.clone());
                Ok(2)
            },
            None => Err(requires_error(arg, "an image name argument")),
        };
    }
    if starts_with(arg, "--image=") {
        options.image = Some(value_after_eq(arg));
        return Ok(1);
    }
    if str_eq(arg, "--endpoint") {
        return match operand(args, index, limit) {
            Some(v) => {
                options.endpoint = Some(v.clone());
                Ok(2)
            },
            None => Err(requires_error(arg, "an endpoint argument")),
        };
    }
    if starts_with(arg, "--endpoint=") {
        options.endpoint = Some(value_after_eq(arg));
        return Ok(1);
    }
    if str_eq(arg, "--isolated-user") || str_eq(arg, "-u") {
        options.user = true;
        match operand(args, index, limit) {
            Some(v) => {
                if is_match("^[a-zA-Z0-9_-]+$", v.as_str()) && chars_of(v.as_str()).len() <= 32 {
                    options.user_name = Some(v.clone());
                    return Ok(2);
                }
            },
            None => {},
        }
        return Ok(1);
    }
    if starts_with(arg, "--isolated-user=") {
        options.user = true;
        options.user_name = Some(value_after_eq(arg));
        return Ok(1);
    }
    if str_eq(arg, "--keep-user") {
        options.keep_user = true;
        return Ok(1);
    }
    if str_eq(arg, "--keep-alive") || str_eq(arg, "-k") {
        options.keep_alive = true;
        return Ok(1);
    }
    if str_eq(arg, "--auto-remove-docker-container") {
        options.auto_remove_docker_container = true;
        return Ok(1);
    }
    if str_eq(arg, "--use-command-stream") {
        options.use_command_stream = true;
        return Ok(1);
    }
    if str_eq(arg, "--session-id") || str_eq(arg, "--session-name") {
        return match operand(args, index, limit) {
            Some(v) => {
                options.session_id = Some(v.clone());
                Ok(2)
            },
            None => Err(requires_error(arg, "a UUID argument")),
        };
    }
    if starts_with(arg, "--session-id=") || starts_with(arg, "--session-name=") {
        options.session_id = Some(value_after_eq(arg));
        return Ok(1);
    }
    if str_eq(arg, "--status") {
        return match operand(args, index, limit) {
            Some(v) => {
                options.status = Some(v.clone());
                Ok(2)
            },
            None => Err(requires_error(arg, "a UUID argument")),
        };
    }
    if starts_with(arg, "--status=") {
        options.status = Some(value_after_eq(arg));
        return Ok(1);
    }
    if str_eq(arg, "--output-format") {
        return match operand(args, index, limit) {
            Some(v) => {
                options.output_format = Some(to_lower(v.as_str()));
                Ok(2)
            },
            None => Err(requires_error(arg, "a format argument")),
        };
    }
    if starts_with(arg, "--output-format=") {
        options.output_format = Some(to_lower(value_after_eq(arg).as_str()));
        return Ok(1);
    }
    if str_eq(arg, "--cleanup") {
        options.cleanup = true;
        return Ok(1);
    }
    if str_eq(arg, "--cleanup-dry-run") {
        options.cleanup = true;
        options.cleanup_dry_run = true;
        return Ok(1);
    }
    Ok(0)
}

/// The words joined by single spaces.
pub open spec fn joined(ws: Seq<String>) -> Seq<char>
    decreases ws.len(),
{
    if ws.len() == 0 {
        Seq::empty()
    } else if ws.len() == 1 {
        ws[0]@
    } else {
        joined(ws.subrange(0, ws.len() - 1)) + seq![' '] + ws[ws.len() - 1]@
    }
}

fn join_words(ws: &Vec<String>) -> (r: String)
    ensures
        r@ == joined(ws@),
{
    let mut out = String::new();
    let mut i: usize = 0;
    while i < ws.len()
        invariant
            i <= ws@.len(),
            out@ == joined(ws@.subrange(0, i as int)),
        decreases ws.len() - i,
    {
        if i > 0 {
            push_char(&mut out, ' ');
        }
        push_str(&mut out, ws[i].as_str());
        proof {
            let t = ws@.subrange(0, i + 1);
            assert(t.subrange(0, i as int) == ws@.subrange(0, i as int));
        }
        i += 1;
    }
    assert(ws@.subrange(0, ws@.len() as int) == ws@);
    out
}

fn copy_from(args: &[String], start: usize) -> (r: Vec<String>)
    requires
        start <= args@.len(),
    ensures
        r@ == args@.subrange(start as int, args@.len() as int),
{
    let mut out: Vec<String> = Vec::new();
    let mut i = start;
    while i < args.len()
        invariant
            start <= i <= args@.len(),
            out@ == args@.subrange(start as int, i as int),
        decreases args.len() - i,
    {
        out.push(args[i].clone());
        assert(args@.subrange(start as int, i + 1) == args@.subrange(start as int, i as int).push(
            args@[i as int],
        ));
        i += 1;
    }
    out
}

/// Splits the command line into the wrapper's options and the command. With
/// a `--` argument, the options are those before it and the command follows
/// it; otherwise options are read until the first argument that is not one,
/// and the command is the rest.
pub fn parse_args(args: &[String]) -> (r: Result<ParsedArgs, String>)
    ensures
        r matches Ok(p) ==> valid_options(p.wrapper_options) && p.command@ == joined(
            p.raw_command@,
        ) && exists|k: int|
            0 <= k <= args@.len() && p.raw_command@ == args@.subrange(k, args@.len() as int),
        (forall|j: int| 0 <= j < args@.len() ==> args@[j]@ != "--"@) ==> (r matches Ok(p)
            ==> (p.raw_command@.len() > 0 ==> !(p.raw_command@[0]@.len() > 0
            && p.raw_command@[0]@[0] == '-') || !recognized(p.raw_command@[0]@))),
        (forall|j: int| 0 <= j < args@.len() ==> args@[j]@ != "--"@) ==> (r matches Ok(p)
            ==> consumed(args@, args@.len() - p.raw_command@.len())),
        (forall|j: int| 0 <= j < args@.len() ==> !dashed(#[trigger] args@[j]@)) ==> (r matches Ok(p)
            && p.raw_command@ == args@ && p.command@ == joined(args@) && is_blank(
            p.wrapper_options,
        )),
        args@.len() > 0 && args@[0]@ == "--"@ ==> (r matches Ok(p) && p.raw_command@
            == args@.subrange(1, args@.len() as int) && is_blank(p.wrapper_options)),
        (exists|j: int| 0 <= j < args@.len() && args@[j]@ == "--"@) ==> (r matches Ok(p)
            ==> exists|k: int|
            0 < k <= args@.len() && args@[k - 1]@ == "--"@ && (forall|q: int|
                0 <= q < k - 1 ==> args@[q]@ != "--"@) && p.raw_command@ == args@.subrange(
                k,
                args@.len() as int,
            )),
{
    let n = args.len();
    let mut options = WrapperOptions::default();
    let mut command_args: Vec<String> = Vec::new();
    let ghost mut k: int = args@.len() as int;
    let mut sep: Option<usize> = None;
    let mut j: usize = 0;
    while j < args.len()
        invariant_except_break
            sep is None,
        invariant
            j <= args@.len(),
            forall|q: int| 0 <= q < j ==> args@[q]@ != "--"@,
        ensures
            sep is None ==> forall|q: int| 0 <= q < args@.len() ==> args@[q]@ != "--"@,
            sep matches Some(s) ==> s < args@.len() && args@[s as int]@ == "--"@ && forall|q: int|
                0 <= q < s ==> args@[q]@ != "--"@,
        decreases args.len() - j,
    {
        if str_eq(args[j].as_str(), "--") {
            sep = Some(j);
            break;
        }
        j += 1;
    }
    assert(command_args@ == args@.subrange(k, args@.len() as int));
    proof {
        reveal_strlit("--");
        assert("--"@.len() == 2 && "--"@[0] == '-');
        if let Some(s0) = sep {
            assert(dashed(args@[s0 as int]@));
            if args@.len() > 0 && args@[0]@ == "--"@ {
                assert(s0 == 0);
            }
        }
    }
    match sep {
        Some(s) => {
            let mut i: usize = 0;
            while i < s
                invariant
                    i <= s < args@.len(),
                    n == args@.len(),
                    forall|q: int| 0 <= q < s ==> args@[q]@ != "--"@,
                    s == 0 ==> is_blank(options),
                    dashed(args@[s as int]@),
                decreases s - i,
            {
                match parse_option(args, i, s, &mut options) {
                    Ok(c) => {
                        if c == 0 {
                            i += 1;
                        } else {
                            i += c;
                        }
                    },
                    Err(e) => return Err(e),
                }
            }
            command_args = copy_from(args, s + 1);
            proof {
                k = s + 1;
            }
        },
        None => {
            let mut i: usize = 0;
            while i < args.len()
                invariant
                    i <= args@.len(),
                    0 <= k <= args@.len(),
                    command_args@ == args@.subrange(k, args@.len() as int),
                    forall|q: int| 0 <= q < args@.len() ==> args@[q]@ != "--"@,
                    command_args@.len() > 0 ==> !(command_args@[0]@.len() > 0
                        && command_args@[0]@[0] == '-') || !recognized(command_args@[0]@),
                    k == args@.len() || k == i,
                    consumed(args@, i as int),
                    (forall|j: int| 0 <= j < args@.len() ==> !dashed(#[trigger] args@[j]@)) ==> i == 0
                        && is_blank(options),
                ensures
                    (forall|j: int| 0 <= j < args@.len() ==> !dashed(#[trigger] args@[j]@)) ==> k == 0
                        && is_blank(options),
                    0 <= k <= args@.len(),
                    command_args@ == args@.subrange(k, args@.len() as int),
                    command_args@.len() > 0 ==> !(command_args@[0]@.len() > 0
                        && command_args@[0]@[0] == '-') || !recognized(command_args@[0]@),
                    consumed(args@, k),
                decreases args.len() - i,
            {
                if is_option_like(args[i].as_str()) {
                    match parse_option(args, i, args.len(), &mut options) {
                        Ok(c) => {
                            if c == 0 {
                                command_args = copy_from(args, i);
                                proof {
                                    k = i as int;
                                }
                                break;
                            }
                            proof {
                                assert forall|j: int| 0 <= j < i + c implies recognized(
                                    #[trigger] args@[j]@,
                                ) || (j > 0 && recognized(args@[j - 1]@) && takes_value(
                                    args@[j - 1]@,
                                ) && !dashed(args@[j]@)) by {
                                    if j >= i && j == i + 1 {
                                        assert(c == 2);
                                    }
                                }
                            }
                            i += c;
                        },
                        Err(e) => return Err(e),
                    }
                } else {
                    command_args = copy_from(args, i);
                    proof {
                        k = i as int;
                    }
                    break;
                }
            }
        },
    }
    match validate_options(&mut options) {
        Ok(()) => {},
        Err(e) => return Err(e),
    }
    let command = join_words(&command_args);
    proof {
        assert(args@.subrange(0, args@.len() as int) == args@);
    }
    Ok(ParsedArgs { wrapper_options: options, command, raw_command: command_args })
}


/// A fresh session name: the prefix (`start` by default), the time in
/// milliseconds and six base-36 characters, joined by dashes.
pub fn generate_session_name(prefix: Option<&str>) -> (r: String)
    ensures
        exists|ms: nat, rnd: Seq<char>|
            rnd.len() == 6 && crate::isolation::is_base36(rnd) && r@ == match prefix {
                Some(p) => p@,
                None => "start"@,
            } + "-"@ + crate::numbers::nat_text(ms) + "-"@ + rnd,
{
    let nanos = crate::isolation::now_nanos();
    let mut out = match prefix {
        Some(p) => p.to_owned(),
        None => "start".to_owned(),
    };
    push_str(&mut out, "-");
    crate::numbers::push_nat_text(&mut out, nanos / 1000000);
    push_str(&mut out, "-");
    let ghost head = out@;
    crate::isolation::push_base36_chars(&mut out, nanos / 3, 6);
    let ghost rnd = out@.subrange(head.len() as int, out@.len() as int);
    assert(out@ =~= head + rnd);
    out
}

} // verus!
