//! The timeline output format: `│`-prefixed metadata lines, `$`-prefixed
//! commands, and a result marker after the program's output.

use vstd::prelude::*;
use crate::text::{chars_of, push_char, push_str, str_eq};

verus! {

pub const TIMELINE_MARKER: &'static str = "│";

pub const SPINE: &'static str = "│";

pub const SUCCESS_MARKER: &'static str = "✓";

pub const FAILURE_MARKER: &'static str = "✗";

/// `s` followed by spaces up to `width` characters.
pub open spec fn padded(s: Seq<char>, width: nat) -> Seq<char> {
    if s.len() >= width {
        s
    } else {
        s + Seq::new((width - s.len()) as nat, |i: int| ' ')
    }
}

/// A metadata line: the marker, a space, the label padded to ten
/// characters, then the value.
pub open spec fn timeline_line(label: Seq<char>, value: Seq<char>) -> Seq<char> {
    "│"@ + seq![' '] + padded(label, 10) + value
}

/// A metadata line: the marker, a space, the label padded to ten
/// characters, then the value.
pub fn create_timeline_line(label: &str, value: &str) -> (r: String)
    ensures
        r@ == timeline_line(label@, value@),
{
    let mut out = "│".to_owned();
    push_char(&mut out, ' ');
    push_str(&mut out, label);
    let n = chars_of(label).len();
    let mut k = n;
    let ghost base = out@;
    while k < 10
        invariant
            n == label@.len(),
            n <= k <= 10 || (k == n && n > 10),
            out@ == base + Seq::new((k - n) as nat, |i: int| ' '),
        decreases 10 - k,
    {
        push_char(&mut out, ' ');
        assert(Seq::new((k + 1 - n) as nat, |i: int| ' ') =~= Seq::new((k - n) as nat, |i: int| ' ').push(' '));
        k += 1;
    }
    assert(base + Seq::new((k - n) as nat, |i: int| ' ') =~= "│"@ + seq![' '] + padded(label@, 10));
    push_str(&mut out, value);
    out
}

/// The same line as `create_timeline_line`, under its former name.
pub fn create_spine_line(label: &str, value: &str) -> (r: String)
    ensures
        r@ == timeline_line(label@, value@),
{
    create_timeline_line(label, value)
}

/// A line holding only the marker.
pub fn create_empty_timeline_line() -> (r: String)
    ensures
        r@ == "│"@,
{
    "│".to_owned()
}

/// A line holding only the marker, under its former name.
pub fn create_empty_spine_line() -> (r: String)
    ensures
        r@ == "│"@,
{
    create_empty_timeline_line()
}

/// The line showing an executed command.
pub fn create_command_line(command: &str) -> (r: String)
    ensures
        r@ == "$ "@ + command@,
{
    let mut out = "$ ".to_owned();
    push_str(&mut out, command);
    out
}

/// The line showing a command run on the user's behalf.
pub fn create_virtual_command_block(command: &str) -> (r: String)
    ensures
        r@ == "$ "@ + command@,
{
    create_command_line(command)
}

/// The marker after a command run on the user's behalf.
pub fn create_virtual_command_result(success: bool) -> (r: String)
    ensures
        r@ == if success {
            "✓"@
        } else {
            "✗"@
        },
{
    if success {
        "✓".to_owned()
    } else {
        "✗".to_owned()
    }
}

/// The line between blocks.
pub fn create_timeline_separator() -> (r: String)
    ensures
        r@ == "│"@,
{
    create_empty_timeline_line()
}

/// `✓` for exit code 0, `✗` otherwise.
pub fn get_result_marker(exit_code: i32) -> (r: &'static str)
    ensures
        r@ == if exit_code == 0 {
            "✓"@
        } else {
            "✗"@
        },
{
    if exit_code == 0 {
        "✓"
    } else {
        "✗"
    }
}

/// The groups of the first match of `pattern` in `text` (group 0 being the
/// whole match), if there is one.
pub uninterp spec fn regex_groups(pattern: Seq<char>, text: Seq<char>) -> Option<Seq<Seq<char>>>;

/// Relies on regex's `Regex::new` and `Regex::captures`: the groups depend
/// on the pattern and the text alone; a group that took part in no match
/// is given as empty.
#[verifier::external_body]
fn captures(pattern: &str, text: &str) -> (r: Option<Vec<String>>)
    ensures
        match r {
            Some(v) => regex_groups(pattern@, text@) == Some(v@.map_values(|s: String| s@)),
            None => regex_groups(pattern@, text@) is None,
        },
{
    let re = match regex::Regex::new(pattern) {
        Ok(re) => re,
        Err(_) => return None,
    };
    let caps = re.captures(text)?;
    let mut groups = Vec::new();
    for m in caps.iter() {
        groups.push(match m {
            Some(m) => m.as_str().to_string(),
            None => String::new(),
        });
    }
    Some(groups)
}

/// Group `i` of a match, or empty when there is no such group.
pub open spec fn group(g: Seq<Seq<char>>, i: int) -> Seq<char> {
    if 0 <= i < g.len() {
        g[i]
    } else {
        Seq::empty()
    }
}

fn group_of(g: &Vec<String>, i: usize) -> (r: String)
    ensures
        r@ == group(g@.map_values(|s: String| s@), i as int),
{
    if i < g.len() {
        g[i].clone()
    } else {
        String::new()
    }
}

/// What the isolation banner lines of a run say.
pub struct IsolationMetadata {
    pub isolation: Option<String>,
    pub mode: Option<String>,
    pub image: Option<String>,
    pub session: Option<String>,
    pub endpoint: Option<String>,
    pub user: Option<String>,
}

impl Default for IsolationMetadata {
    fn default() -> (r: IsolationMetadata)
        ensures
            r.isolation is None && r.mode is None && r.image is None && r.session is None
                && r.endpoint is None && r.user is None,
    {
        IsolationMetadata {
            isolation: None,
            mode: None,
            image: None,
            session: None,
            endpoint: None,
            user: None,
        }
    }
}

pub open spec fn env_pattern() -> Seq<char> {
    "\\[Isolation\\] Environment: (\\w+), Mode: (\\w+)"@
}

pub open spec fn session_pattern() -> Seq<char> {
    "\\[Isolation\\] Session: (.+)"@
}

pub open spec fn image_pattern() -> Seq<char> {
    "\\[Isolation\\] Image: (.+)"@
}

pub open spec fn endpoint_pattern() -> Seq<char> {
    "\\[Isolation\\] Endpoint: (.+)"@
}

pub open spec fn user_pattern() -> Seq<char> {
    "\\[Isolation\\] User: (\\w+)"@
}

/// The metadata as plain values.
pub struct MetadataView {
    pub isolation: Option<Seq<char>>,
    pub mode: Option<Seq<char>>,
    pub image: Option<Seq<char>>,
    pub session: Option<Seq<char>>,
    pub endpoint: Option<Seq<char>>,
    pub user: Option<Seq<char>>,
}

pub open spec fn meta_view(m: IsolationMetadata) -> MetadataView {
    MetadataView {
        isolation: crate::record::opt_view(m.isolation),
        mode: crate::record::opt_view(m.mode),
        image: crate::record::opt_view(m.image),
        session: crate::record::opt_view(m.session),
        endpoint: crate::record::opt_view(m.endpoint),
        user: crate::record::opt_view(m.user),
    }
}

/// The metadata after reading one line: the first pattern that matches sets
/// its fields.
pub open spec fn read_line(m: MetadataView, line: Seq<char>) -> MetadataView {
    if let Some(g) = regex_groups(env_pattern(), line) {
        MetadataView { isolation: Some(group(g, 1)), mode: Some(group(g, 2)), ..m }
    } else if let Some(g) = regex_groups(session_pattern(), line) {
        MetadataView { session: Some(group(g, 1)), ..m }
    } else if let Some(g) = regex_groups(image_pattern(), line) {
        MetadataView { image: Some(group(g, 1)), ..m }
    } else if let Some(g) = regex_groups(endpoint_pattern(), line) {
        MetadataView { endpoint: Some(group(g, 1)), ..m }
    } else if let Some(g) = regex_groups(user_pattern(), line) {
        MetadataView { user: Some(group(g, 1)), ..m }
    } else {
        m
    }
}

/// The metadata that a list of lines gives, later lines overriding earlier.
pub open spec fn read_lines(lines: Seq<Seq<char>>) -> MetadataView
    decreases lines.len(),
{
    if lines.len() == 0 {
        MetadataView {
            isolation: None,
            mode: None,
            image: None,
            session: None,
            endpoint: None,
            user: None,
        }
    } else {
        read_line(read_lines(lines.subrange(0, lines.len() - 1)), lines[lines.len() - 1])
    }
}

pub open spec fn str_views(lines: Seq<&str>) -> Seq<Seq<char>> {
    lines.map_values(|l: &str| l@)
}

/// Reads the isolation banner lines of a run.
pub fn parse_isolation_metadata(extra_lines: &[&str]) -> (r: IsolationMetadata)
    ensures
        meta_view(r) == read_lines(str_views(extra_lines@)),
{
    let mut m = IsolationMetadata::default();
    let ghost ls = str_views(extra_lines@);
    let mut i: usize = 0;
    while i < extra_lines.len()
        invariant
            i <= extra_lines@.len(),
            ls == str_views(extra_lines@),
            meta_view(m) == read_lines(ls.subrange(0, i as int)),
        decreases extra_lines.len() - i,
    {
        let line = extra_lines[i];
        proof {
            let t = ls.subrange(0, i + 1);
            assert(t.subrange(0, i as int) == ls.subrange(0, i as int));
            assert(t[i as int] == line@);
        }
        if let Some(g) = captures("\\[Isolation\\] Environment: (\\w+), Mode: (\\w+)", line) {
            m.isolation = Some(group_of(&g, 1));
            m.mode = Some(group_of(&g, 2));
        } else if let Some(g) = captures("\\[Isolation\\] Session: (.+)", line) {
            m.session = Some(group_of(&g, 1));
        } else if let Some(g) = captures("\\[Isolation\\] Image: (.+)", line) {
            m.image = Some(group_of(&g, 1));
        } else if let Some(g) = captures("\\[Isolation\\] Endpoint: (.+)", line) {
            m.endpoint = Some(group_of(&g, 1));
        } else if let Some(g) = captures("\\[Isolation\\] User: (\\w+)", line) {
            m.user = Some(group_of(&g, 1));
        }
        i += 1;
    }
    assert(ls.subrange(0, extra_lines@.len() as int) == ls);
    m
}


/// The line naming where a run can be reconnected to, for backends that
/// have one.
pub open spec fn reconnect_lines(m: MetadataView, name: Option<Seq<char>>) -> Seq<Seq<char>> {
    match m.isolation {
        Some(iso) => {
            let n = match name {
                Some(x) => Some(x),
                None => m.session,
            };
            match n {
                Some(n) => if iso == "docker"@ {
                    seq![timeline_line("container"@, n)]
                } else if iso == "screen"@ {
                    seq![timeline_line("screen"@, n)]
                } else if iso == "tmux"@ {
                    seq![timeline_line("tmux"@, n)]
                } else if iso == "ssh"@ {
                    match m.endpoint {
                        Some(e) => seq![timeline_line("endpoint"@, e)],
                        None => Seq::empty(),
                    }
                } else {
                    Seq::empty()
                },
                None => Seq::empty(),
            }
        },
        None => Seq::empty(),
    }
}

pub open spec fn line_if(label: Seq<char>, v: Option<Seq<char>>) -> Seq<Seq<char>> {
    match v {
        Some(x) => seq![timeline_line(label, x)],
        None => Seq::empty(),
    }
}

/// The metadata lines of an isolated run: backend, mode, image, where to
/// reconnect (`name`, or else the session), and user.
pub open spec fn isolation_lines(m: MetadataView, name: Option<Seq<char>>) -> Seq<Seq<char>> {
    line_if("isolation"@, m.isolation) + line_if("mode"@, m.mode) + line_if("image"@, m.image)
        + reconnect_lines(m, name) + line_if("user"@, m.user)
}

pub open spec fn string_views(v: Seq<String>) -> Seq<Seq<char>> {
    v.map_values(|s: String| s@)
}

fn push_line_if(lines: &mut Vec<String>, label: &str, v: &Option<String>)
    ensures
        string_views(final(lines)@) == string_views(old(lines)@) + line_if(
            label@,
            crate::record::opt_view(*v),
        ),
{
    match v {
        Some(x) => {
            lines.push(create_timeline_line(label, x.as_str()));
            assert(string_views(lines@) =~= string_views(old(lines)@) + line_if(
                label@,
                crate::record::opt_view(*v),
            ));
        },
        None => {
            assert(string_views(lines@) =~= string_views(old(lines)@) + line_if(
                label@,
                crate::record::opt_view(*v),
            ));
        },
    }
}

/// The metadata lines of an isolated run.
pub fn generate_isolation_lines(metadata: &IsolationMetadata, container_or_screen_name: Option<
    &str,
>) -> (r: Vec<String>)
    ensures
        string_views(r@) == isolation_lines(
            meta_view(*metadata),
            match container_or_screen_name {
                Some(x) => Some(x@),
                None => None,
            },
        ),
{
    let mut lines: Vec<String> = Vec::new();
    assert(string_views(lines@) =~= Seq::empty());
    push_line_if(&mut lines, "isolation", &metadata.isolation);
    push_line_if(&mut lines, "mode", &metadata.mode);
    push_line_if(&mut lines, "image", &metadata.image);
    let ghost before = string_views(lines@);
    let ghost nm = match container_or_screen_name {
        Some(x) => Some(x@),
        None => None,
    };
    match &metadata.isolation {
        Some(iso) => {
            let name: Option<String> = match container_or_screen_name {
                Some(x) => Some(x.to_owned()),
                None => match &metadata.session {
                    Some(s) => Some(s.clone()),
                    None => None,
                },
            };
            match name {
                Some(n) => {
                    let i = iso.as_str();
                    if str_eq(i, "docker") {
                        lines.push(create_timeline_line("container", n.as_str()));
                    } else if str_eq(i, "screen") {
                        lines.push(create_timeline_line("screen", n.as_str()));
                    } else if str_eq(i, "tmux") {
                        lines.push(create_timeline_line("tmux", n.as_str()));
                    } else if str_eq(i, "ssh") {
                        match &metadata.endpoint {
                            Some(e) => {
                                lines.push(create_timeline_line("endpoint", e.as_str()));
                            },
                            None => {},
                        }
                    }
                },
                None => {},
            }
        },
        None => {},
    }
    assert(string_views(lines@) =~= before + reconnect_lines(meta_view(*metadata), nm));
    push_line_if(&mut lines, "user", &metadata.user);
    lines
}

/// The lines joined by newlines.
pub open spec fn joined_lines(ls: Seq<Seq<char>>) -> Seq<char>
    decreases ls.len(),
{
    if ls.len() == 0 {
        Seq::empty()
    } else if ls.len() == 1 {
        ls[0]
    } else {
        joined_lines(ls.subrange(0, ls.len() - 1)) + seq!['\n'] + ls[ls.len() - 1]
    }
}

fn join_lines(ls: &Vec<String>) -> (r: String)
    ensures
        r@ == joined_lines(string_views(ls@)),
{
    let ghost vs = string_views(ls@);
    let mut out = String::new();
    let mut i: usize = 0;
    while i < ls.len()
        invariant
            i <= ls@.len(),
            vs == string_views(ls@),
            out@ == joined_lines(vs.subrange(0, i as int)),
        decreases ls.len() - i,
    {
        if i > 0 {
            push_char(&mut out, '\n');
        }
        push_str(&mut out, ls[i].as_str());
        proof {
            let t = vs.subrange(0, i + 1);
            assert(t.subrange(0, i as int) == vs.subrange(0, i as int));
        }
        i += 1;
    }
    assert(vs.subrange(0, ls@.len() as int) == vs);
    out
}

/// What the header of a run shows.
pub struct StartBlockOptions<'a> {
    pub session_id: &'a str,
    pub timestamp: &'a str,
    pub command: &'a str,
    /// Banner lines of the isolation backend, if any.
    pub extra_lines: Option<Vec<&'a str>>,
    pub style: Option<&'a str>,
    pub width: Option<usize>,
    /// Leave the command line out (a caller shows it later).
    pub defer_command: bool,
}

/// The isolation section of a block: a separator and the isolation lines,
/// when the banner lines name a backend.
pub open spec fn isolation_section(extra: Option<Vec<&str>>) -> Seq<Seq<char>> {
    match extra {
        Some(ls) => {
            let m = read_lines(str_views(ls@));
            if m.isolation is Some {
                seq!["│"@] + isolation_lines(m, None)
            } else {
                Seq::empty()
            }
        },
        None => Seq::empty(),
    }
}

fn push_isolation_section(lines: &mut Vec<String>, extra: &Option<Vec<&str>>)
    ensures
        string_views(final(lines)@) == string_views(old(lines)@) + isolation_section(*extra),
{
    match extra {
        Some(ls) => {
            let m = parse_isolation_metadata(ls.as_slice());
            if m.isolation.is_some() {
                lines.push(create_empty_timeline_line());
                let iso = generate_isolation_lines(&m, None);
                let ghost mid = string_views(lines@);
                let mut j: usize = 0;
                while j < iso.len()
                    invariant
                        j <= iso@.len(),
                        string_views(lines@) == mid + string_views(iso@).subrange(0, j as int),
                    decreases iso.len() - j,
                {
                    let ghost prev = string_views(lines@);
                    lines.push(iso[j].clone());
                    assert(string_views(lines@) =~= prev.push(iso@[j as int]@));
                    assert(string_views(iso@).subrange(0, j + 1) =~= string_views(iso@).subrange(
                        0,
                        j as int,
                    ).push(iso@[j as int]@));
                    j += 1;
                }
                assert(string_views(iso@).subrange(0, iso@.len() as int) == string_views(iso@));
                assert(string_views(lines@) =~= string_views(old(lines)@) + isolation_section(
                    *extra,
                ));
            } else {
                assert(string_views(lines@) =~= string_views(old(lines)@) + isolation_section(
                    *extra,
                ));
            }
        },
        None => {
            assert(string_views(lines@) =~= string_views(old(lines)@) + isolation_section(
                *extra,
            ));
        },
    }
}

/// The header of a run: session and start time, the isolation section,
/// a separator, and the command line unless it is deferred.
pub fn create_start_block(options: &StartBlockOptions) -> (r: String)
    ensures
        r@ == joined_lines(
            seq![
                timeline_line("session"@, options.session_id@),
                timeline_line("start"@, options.timestamp@),
            ] + isolation_section(options.extra_lines) + seq!["│"@] + if options.defer_command {
                Seq::empty()
            } else {
                seq!["$ "@ + options.command@]
            },
        ),
{
    let mut lines: Vec<String> = Vec::new();
    lines.push(create_timeline_line("session", options.session_id));
    lines.push(create_timeline_line("start", options.timestamp));
    assert(string_views(lines@) =~= seq![
        timeline_line("session"@, options.session_id@),
        timeline_line("start"@, options.timestamp@),
    ]);
    push_isolation_section(&mut lines, &options.extra_lines);
    let ghost a = string_views(lines@);
    lines.push(create_empty_timeline_line());
    assert(string_views(lines@) =~= a + seq!["│"@]);
    let ghost b = string_views(lines@);
    if !options.defer_command {
        lines.push(create_command_line(options.command));
        assert(string_views(lines@) =~= b + seq!["$ "@ + options.command@]);
    } else {
        assert(string_views(lines@) =~= b + Seq::<Seq<char>>::empty());
    }
    let ghost want = seq![
        timeline_line("session"@, options.session_id@),
        timeline_line("start"@, options.timestamp@),
    ] + isolation_section(options.extra_lines) + seq!["│"@] + if options.defer_command {
        Seq::empty()
    } else {
        seq!["$ "@ + options.command@]
    };
    assert(string_views(lines@) =~= want);
    join_lines(&lines)
}

/// What the footer of a run shows. The duration comes already written out.
pub struct FinishBlockOptions<'a> {
    pub session_id: &'a str,
    pub timestamp: &'a str,
    pub exit_code: i32,
    pub log_path: &'a str,
    pub duration: Option<&'a str>,
    pub result_message: Option<&'a str>,
    pub extra_lines: Option<Vec<&'a str>>,
    pub style: Option<&'a str>,
    pub width: Option<usize>,
}

/// The footer of a run: the result marker, finish time, duration, exit
/// code, the isolation section, a separator, then the log and the session.
pub fn create_finish_block(options: &FinishBlockOptions) -> (r: String)
    ensures
        r@ == joined_lines(
            seq![
                if options.exit_code == 0 {
                    "✓"@
                } else {
                    "✗"@
                },
                timeline_line("finish"@, options.timestamp@),
            ] + match options.duration {
                Some(d) => seq![timeline_line("duration"@, d@)],
                None => Seq::empty(),
            } + seq![timeline_line("exit"@, crate::numbers::int_text(options.exit_code as int))]
                + isolation_section(options.extra_lines) + seq![
                "│"@,
                timeline_line("log"@, options.log_path@),
                timeline_line("session"@, options.session_id@),
            ],
        ),
{
    let mut lines: Vec<String> = Vec::new();
    lines.push(get_result_marker(options.exit_code).to_owned());
    lines.push(create_timeline_line("finish", options.timestamp));
    let ghost a = string_views(lines@);
    match options.duration {
        Some(d) => {
            lines.push(create_timeline_line("duration", d));
            assert(string_views(lines@) =~= a + seq![timeline_line("duration"@, d@)]);
        },
        None => {
            assert(string_views(lines@) =~= a + Seq::<Seq<char>>::empty());
        },
    }
    let mut code = String::new();
    crate::numbers::push_int_text(&mut code, options.exit_code as i64);
    let ghost b = string_views(lines@);
    lines.push(create_timeline_line("exit", code.as_str()));
    assert(string_views(lines@) =~= b + seq![
        timeline_line("exit"@, crate::numbers::int_text(options.exit_code as int)),
    ]);
    push_isolation_section(&mut lines, &options.extra_lines);
    let ghost c = string_views(lines@);
    lines.push(create_empty_timeline_line());
    lines.push(create_timeline_line("log", options.log_path));
    lines.push(create_timeline_line("session", options.session_id));
    assert(string_views(lines@) =~= c + seq![
        "│"@,
        timeline_line("log"@, options.log_path@),
        timeline_line("session"@, options.session_id@),
    ]);
    let ghost want = seq![
        if options.exit_code == 0 {
            "✓"@
        } else {
            "✗"@
        },
        timeline_line("finish"@, options.timestamp@),
    ] + match options.duration {
        Some(d) => seq![timeline_line("duration"@, d@)],
        None => Seq::empty(),
    } + seq![timeline_line("exit"@, crate::numbers::int_text(options.exit_code as int))]
        + isolation_section(options.extra_lines) + seq![
        "│"@,
        timeline_line("log"@, options.log_path@),
        timeline_line("session"@, options.session_id@),
    ];
    assert(string_views(lines@) =~= want);
    join_lines(&lines)
}

/// How many times `c` occurs in `s`.
pub open spec fn count_char(s: Seq<char>, c: char) -> nat
    decreases s.len(),
{
    if s.len() == 0 {
        0
    } else {
        count_char(s.subrange(0, s.len() - 1), c) + if s[s.len() - 1] == c {
            1nat
        } else {
            0nat
        }
    }
}

/// `s` with each `c` written twice.
pub open spec fn doubled(s: Seq<char>, c: char) -> Seq<char>
    decreases s.len(),
{
    if s.len() == 0 {
        Seq::empty()
    } else {
        doubled(s.subrange(0, s.len() - 1), c) + if s[s.len() - 1] == c {
            seq![c, c]
        } else {
            seq![s[s.len() - 1]]
        }
    }
}

/// A value as it stands in links notation: bare when it holds no colon,
/// quote, parenthesis, newline or space; otherwise quoted, preferring the
/// quote it does not contain, and when it holds both, the one that needs
/// fewer doublings.
pub open spec fn notation_escaped(v: Seq<char>) -> Seq<char> {
    let colon = crate::text::has_char(v, ':');
    let dq = crate::text::has_char(v, '"');
    let sq = crate::text::has_char(v, '\'');
    let parens = crate::text::has_char(v, '(') || crate::text::has_char(v, ')');
    let nl = crate::text::has_char(v, '\n');
    let sp = crate::text::has_char(v, ' ');
    if !(colon || dq || sq || parens || nl || sp) {
        v
    } else if dq && !sq {
        seq!['\''] + v + seq!['\'']
    } else if sq && !dq {
        seq!['"'] + v + seq!['"']
    } else if dq && sq {
        if count_char(v, '\'') <= count_char(v, '"') {
            seq!['\''] + doubled(v, '\'') + seq!['\'']
        } else {
            seq!['"'] + doubled(v, '"') + seq!['"']
        }
    } else {
        seq!['"'] + v + seq!['"']
    }
}

fn count_in(s: &Vec<char>, c: char) -> (r: usize)
    ensures
        r == count_char(s@, c),
{
    let mut n: usize = 0;
    let mut i: usize = 0;
    while i < s.len()
        invariant
            i <= s@.len(),
            n == count_char(s@.subrange(0, i as int), c),
            n <= i,
        decreases s.len() - i,
    {
        proof {
            let t = s@.subrange(0, i + 1);
            assert(t.subrange(0, i as int) == s@.subrange(0, i as int));
        }
        if s[i] == c {
            n += 1;
        }
        i += 1;
    }
    assert(s@.subrange(0, s@.len() as int) == s@);
    n
}

fn push_doubled(out: &mut String, s: &Vec<char>, c: char)
    ensures
        final(out)@ == old(out)@ + doubled(s@, c),
{
    let mut i: usize = 0;
    while i < s.len()
        invariant
            i <= s@.len(),
            out@ == old(out)@ + doubled(s@.subrange(0, i as int), c),
        decreases s.len() - i,
    {
        proof {
            let t = s@.subrange(0, i + 1);
            assert(t.subrange(0, i as int) == s@.subrange(0, i as int));
        }
        if s[i] == c {
            push_char(out, c);
        }
        push_char(out, s[i]);
        i += 1;
    }
    assert(s@.subrange(0, s@.len() as int) == s@);
}

/// A value as it stands in links notation.
pub fn escape_for_links_notation(value: &str) -> (r: String)
    ensures
        r@ == notation_escaped(value@),
{
    let v = chars_of(value);
    let colon = crate::text::contains_char(&v, ':');
    let dq = crate::text::contains_char(&v, '"');
    let sq = crate::text::contains_char(&v, '\'');
    let parens = crate::text::contains_char(&v, '(') || crate::text::contains_char(&v, ')');
    let nl = crate::text::contains_char(&v, '\n');
    let sp = crate::text::contains_char(&v, ' ');
    if !(colon || dq || sq || parens || nl || sp) {
        return value.to_owned();
    }
    let mut out = String::new();
    if dq && sq {
        if count_in(&v, '\'') <= count_in(&v, '"') {
            push_char(&mut out, '\'');
            push_doubled(&mut out, &v, '\'');
            push_char(&mut out, '\'');
        } else {
            push_char(&mut out, '"');
            push_doubled(&mut out, &v, '"');
            push_char(&mut out, '"');
        }
    } else {
        let q = if dq {
            '\''
        } else {
            '"'
        };
        push_char(&mut out, q);
        push_str(&mut out, value);
        push_char(&mut out, q);
    }
    out
}

} // verus!
