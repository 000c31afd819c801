//! Execution records and their structured-value form.

use vstd::prelude::*;
use crate::codec::Value;
use crate::text::str_eq;

verus! {

/// Where a tracked command stands.
#[derive(PartialEq, Eq, Structural, Clone, Copy, Debug)]
pub enum ExecutionStatus {
    Executing,
    Executed,
}

pub open spec fn executing_text() -> Seq<char> {
    seq!['e', 'x', 'e', 'c', 'u', 't', 'i', 'n', 'g']
}

pub open spec fn executed_text() -> Seq<char> {
    seq!['e', 'x', 'e', 'c', 'u', 't', 'e', 'd']
}

/// The lower-case name of a status.
pub open spec fn status_text(s: ExecutionStatus) -> Seq<char> {
    match s {
        ExecutionStatus::Executing => executing_text(),
        ExecutionStatus::Executed => executed_text(),
    }
}

proof fn lemma_status_literals()
    ensures
        "executing"@ == executing_text(),
        "executed"@ == executed_text(),
{
    reveal_strlit("executing");
    reveal_strlit("executed");
    assert("executing"@ =~= executing_text());
    assert("executed"@ =~= executed_text());
}

impl ExecutionStatus {
    /// The lower-case name of this status.
    pub fn as_str(&self) -> (r: &'static str)
        ensures
            r@ == status_text(*self),
    {
        proof {
            lemma_status_literals();
        }
        match self {
            ExecutionStatus::Executing => "executing",
            ExecutionStatus::Executed => "executed",
        }
    }
}

/// The persisted state of one tracked command.
#[derive(Clone, Debug)]
pub struct ExecutionRecord {
    pub uuid: String,
    pub pid: Option<u32>,
    pub status: ExecutionStatus,
    pub exit_code: Option<i32>,
    pub command: String,
    pub log_path: String,
    pub start_time: String,
    pub end_time: Option<String>,
    pub working_directory: String,
    pub shell: String,
    pub platform: String,
    /// Free-form metadata, in insertion order.
    pub options: Vec<(String, String)>,
}

/// A record as plain mathematical values.
pub struct RecordView {
    pub uuid: Seq<char>,
    pub pid: Option<u32>,
    pub status: ExecutionStatus,
    pub exit_code: Option<i32>,
    pub command: Seq<char>,
    pub log_path: Seq<char>,
    pub start_time: Seq<char>,
    pub end_time: Option<Seq<char>>,
    pub working_directory: Seq<char>,
    pub shell: Seq<char>,
    pub platform: Seq<char>,
    pub options: Seq<(Seq<char>, Seq<char>)>,
}

pub open spec fn opt_view(o: Option<String>) -> Option<Seq<char>> {
    match o {
        Some(s) => Some(s@),
        None => None,
    }
}

pub open spec fn pairs_view(ps: Seq<(String, String)>) -> Seq<(Seq<char>, Seq<char>)> {
    ps.map_values(|p: (String, String)| (p.0@, p.1@))
}

impl View for ExecutionRecord {
    type V = RecordView;

    open spec fn view(&self) -> RecordView {
        RecordView {
            uuid: self.uuid@,
            pid: self.pid,
            status: self.status,
            exit_code: self.exit_code,
            command: self.command@,
            log_path: self.log_path@,
            start_time: self.start_time@,
            end_time: opt_view(self.end_time),
            working_directory: self.working_directory@,
            shell: self.shell@,
            platform: self.platform@,
            options: pairs_view(self.options@),
        }
    }
}

/// Whether the status agrees with the completion fields: a finished record
/// has an exit code and an end time, a running one has neither.
pub open spec fn consistent(r: RecordView) -> bool {
    (r.status == ExecutionStatus::Executed) <==> (r.exit_code is Some && r.end_time is Some)
}

/// What a new record takes from its surroundings: its identifier, the start
/// time, and the process environment.
pub struct RecordContext {
    pub uuid: String,
    pub start_time: String,
    pub working_directory: String,
    pub shell: String,
    pub platform: String,
}

/// Fields to set on a new record; absent ones keep their defaults.
pub struct ExecutionRecordOptions {
    pub uuid: Option<String>,
    pub command: String,
    pub pid: Option<u32>,
    pub status: Option<ExecutionStatus>,
    pub exit_code: Option<i32>,
    pub log_path: Option<String>,
    pub start_time: Option<String>,
    pub end_time: Option<String>,
    pub working_directory: Option<String>,
    pub shell: Option<String>,
    pub platform: Option<String>,
    pub options: Option<Vec<(String, String)>>,
}

pub open spec fn or_else(o: Option<String>, d: String) -> Seq<char> {
    match o {
        Some(s) => s@,
        None => d@,
    }
}

impl ExecutionRecord {
    /// A running record of `command`, with everything else from `ctx`.
    pub fn new(command: &str, ctx: RecordContext) -> (r: ExecutionRecord)
        ensures
            r@.uuid == ctx.uuid@,
            r@.pid is None,
            r@.status == ExecutionStatus::Executing,
            r@.exit_code is None,
            r@.command == command@,
            r@.log_path.len() == 0,
            r@.start_time == ctx.start_time@,
            r@.end_time is None,
            r@.working_directory == ctx.working_directory@,
            r@.shell == ctx.shell@,
            r@.platform == ctx.platform@,
            r@.options.len() == 0,
            consistent(r@),
    {
        ExecutionRecord {
            uuid: ctx.uuid,
            pid: None,
            status: ExecutionStatus::Executing,
            exit_code: None,
            command: command.to_owned(),
            log_path: String::new(),
            start_time: ctx.start_time,
            end_time: None,
            working_directory: ctx.working_directory,
            shell: ctx.shell,
            platform: ctx.platform,
            options: Vec::new(),
        }
    }

    /// A record built from `options`, with `ctx` filling what they leave out.
    pub fn with_options(options: ExecutionRecordOptions, ctx: RecordContext) -> (r:
        ExecutionRecord)
        ensures
            r@.uuid == or_else(options.uuid, ctx.uuid),
            r@.pid == options.pid,
            r@.status == (match options.status {
                Some(s) => s,
                None => ExecutionStatus::Executing,
            }),
            r@.exit_code == options.exit_code,
            r@.command == options.command@,
            r@.log_path == (match options.log_path {
                Some(s) => s@,
                None => Seq::<char>::empty(),
            }),
            r@.start_time == or_else(options.start_time, ctx.start_time),
            r@.end_time == opt_view(options.end_time),
            r@.working_directory == or_else(options.working_directory, ctx.working_directory),
            r@.shell == or_else(options.shell, ctx.shell),
            r@.platform == or_else(options.platform, ctx.platform),
            r@.options == (match options.options {
                Some(o) => pairs_view(o@),
                None => Seq::empty(),
            }),
    {
        let mut record = ExecutionRecord::new(options.command.as_str(), ctx);
        match options.uuid {
            Some(u) => record.uuid = u,
            None => {},
        }
        record.pid = options.pid;
        match options.status {
            Some(s) => record.status = s,
            None => {},
        }
        record.exit_code = options.exit_code;
        match options.log_path {
            Some(p) => record.log_path = p,
            None => {},
        }
        match options.start_time {
            Some(t) => record.start_time = t,
            None => {},
        }
        record.end_time = options.end_time;
        match options.working_directory {
            Some(w) => record.working_directory = w,
            None => {},
        }
        match options.shell {
            Some(s) => record.shell = s,
            None => {},
        }
        match options.platform {
            Some(p) => record.platform = p,
            None => {},
        }
        match options.options {
            Some(o) => record.options = o,
            None => {},
        }
        record
    }

    /// Marks the command finished with `exit_code` at `end_time`.
    pub fn complete(&mut self, exit_code: i32, end_time: String)
        ensures
            final(self)@ == (RecordView {
                status: ExecutionStatus::Executed,
                exit_code: Some(exit_code),
                end_time: Some(end_time@),
                ..old(self)@
            }),
            consistent(final(self)@),
    {
        self.status = ExecutionStatus::Executed;
        self.exit_code = Some(exit_code);
        self.end_time = Some(end_time);
    }
}


/// The index of the last entry with key `key`, or -1.
pub open spec fn last_key_index(ps: Seq<(String, Value)>, key: Seq<char>) -> int
    decreases ps.len(),
{
    if ps.len() == 0 {
        -1
    } else if ps[ps.len() - 1].0@ == key {
        ps.len() - 1
    } else {
        last_key_index(ps.subrange(0, ps.len() - 1), key)
    }
}

/// The value under `key` (the last one, when the key repeats).
pub open spec fn field(ps: Seq<(String, Value)>, key: Seq<char>) -> Option<Value> {
    let i = last_key_index(ps, key);
    if 0 <= i < ps.len() {
        Some(ps[i].1)
    } else {
        None
    }
}

/// A required string field.
pub open spec fn str_field(ps: Seq<(String, Value)>, key: Seq<char>) -> Option<Seq<char>> {
    match field(ps, key) {
        Some(Value::Str(s)) => Some(s@),
        _ => None,
    }
}

/// An optional string field: `Some(None)` when absent or null, `None` when
/// it holds something else.
pub open spec fn opt_str_field(ps: Seq<(String, Value)>, key: Seq<char>) -> Option<
    Option<Seq<char>>,
> {
    match field(ps, key) {
        None => Some(None),
        Some(Value::Null) => Some(None),
        Some(Value::Str(s)) => Some(Some(s@)),
        _ => None,
    }
}

/// An optional integer field within `[lo, hi]`, read like `opt_str_field`.
pub open spec fn opt_int_field(ps: Seq<(String, Value)>, key: Seq<char>, lo: int, hi: int) -> Option<
    Option<int>,
> {
    match field(ps, key) {
        None => Some(None),
        Some(Value::Null) => Some(None),
        Some(Value::Int(n)) => if lo <= n <= hi {
            Some(Some(n as int))
        } else {
            None
        },
        _ => None,
    }
}

/// The status field.
pub open spec fn status_field(ps: Seq<(String, Value)>) -> Option<ExecutionStatus> {
    match str_field(ps, key_status()) {
        Some(t) => if t == executing_text() {
            Some(ExecutionStatus::Executing)
        } else if t == executed_text() {
            Some(ExecutionStatus::Executed)
        } else {
            None
        },
        None => None,
    }
}

/// What an option value is kept as: a string as itself, any other value
/// as its encoded text (so a record is never lost for its options).
pub open spec fn option_text(v: Value) -> Seq<char> {
    match v {
        Value::Str(x) => x@,
        _ => crate::codec::value_text(v),
    }
}

/// The entries of an options object, as pairs of views.
pub open spec fn option_pairs(ps: Seq<(String, Value)>) -> Seq<(Seq<char>, Seq<char>)> {
    ps.map_values(|p: (String, Value)| (p.0@, option_text(p.1)))
}

/// The options field: absent means none; otherwise an object, its values
/// kept as `option_text` gives them.
pub open spec fn options_field(ps: Seq<(String, Value)>) -> Option<Seq<(Seq<char>, Seq<char>)>> {
    match field(ps, key_options()) {
        None => Some(Seq::empty()),
        Some(Value::Object(os)) => Some(option_pairs(os@)),
        _ => None,
    }
}

pub open spec fn key_uuid() -> Seq<char> {
    seq!['u', 'u', 'i', 'd']
}

pub open spec fn key_pid() -> Seq<char> {
    seq!['p', 'i', 'd']
}

pub open spec fn key_status() -> Seq<char> {
    seq!['s', 't', 'a', 't', 'u', 's']
}

pub open spec fn key_exit_code() -> Seq<char> {
    seq!['e', 'x', 'i', 't', 'C', 'o', 'd', 'e']
}

pub open spec fn key_command() -> Seq<char> {
    seq!['c', 'o', 'm', 'm', 'a', 'n', 'd']
}

pub open spec fn key_log_path() -> Seq<char> {
    seq!['l', 'o', 'g', 'P', 'a', 't', 'h']
}

pub open spec fn key_start_time() -> Seq<char> {
    seq!['s', 't', 'a', 'r', 't', 'T', 'i', 'm', 'e']
}

pub open spec fn key_end_time() -> Seq<char> {
    seq!['e', 'n', 'd', 'T', 'i', 'm', 'e']
}

pub open spec fn key_working_directory() -> Seq<char> {
    seq![
        'w',
        'o',
        'r',
        'k',
        'i',
        'n',
        'g',
        'D',
        'i',
        'r',
        'e',
        'c',
        't',
        'o',
        'r',
        'y',
    ]
}

pub open spec fn key_shell() -> Seq<char> {
    seq!['s', 'h', 'e', 'l', 'l']
}

pub open spec fn key_platform() -> Seq<char> {
    seq!['p', 'l', 'a', 't', 'f', 'o', 'r', 'm']
}

pub open spec fn key_options() -> Seq<char> {
    seq!['o', 'p', 't', 'i', 'o', 'n', 's']
}

/// The record that a structured value describes, if it describes one: an
/// object with string fields `uuid`, `command`, `logPath`, `startTime`,
/// `workingDirectory`, `shell` and `platform`; `status` one of `executing`
/// and `executed`; `pid` and `exitCode` absent, null or an integer of their
/// range; `endTime` absent, null or a string; `options` absent or an object
/// of strings. Other entries are ignored.
pub open spec fn record_of_value(v: Value) -> Option<RecordView> {
    match v {
        Value::Object(ps) => {
            let ps = ps@;
            if str_field(ps, key_uuid()) is Some && opt_int_field(ps, key_pid(), 0, u32::MAX as int)
                is Some && status_field(ps) is Some && opt_int_field(
                ps,
                key_exit_code(),
                i32::MIN as int,
                i32::MAX as int,
            ) is Some && str_field(ps, key_command()) is Some && str_field(ps, key_log_path())
                is Some && str_field(ps, key_start_time()) is Some && opt_str_field(
                ps,
                key_end_time(),
            ) is Some && str_field(ps, key_working_directory()) is Some && str_field(
                ps,
                key_shell(),
            ) is Some && str_field(ps, key_platform()) is Some && options_field(ps) is Some {
                Some(
                    RecordView {
                        uuid: str_field(ps, key_uuid())->0,
                        pid: match opt_int_field(ps, key_pid(), 0, u32::MAX as int)->0 {
                            Some(n) => Some(n as u32),
                            None => None,
                        },
                        status: status_field(ps)->0,
                        exit_code: match opt_int_field(
                            ps,
                            key_exit_code(),
                            i32::MIN as int,
                            i32::MAX as int,
                        )->0 {
                            Some(n) => Some(n as i32),
                            None => None,
                        },
                        command: str_field(ps, key_command())->0,
                        log_path: str_field(ps, key_log_path())->0,
                        start_time: str_field(ps, key_start_time())->0,
                        end_time: opt_str_field(ps, key_end_time())->0,
                        working_directory: str_field(ps, key_working_directory())->0,
                        shell: str_field(ps, key_shell())->0,
                        platform: str_field(ps, key_platform())->0,
                        options: options_field(ps)->0,
                    },
                )
            } else {
                None
            }
        },
        _ => None,
    }
}

proof fn lemma_key_literals()
    ensures
        "uuid"@ == key_uuid(),
        "pid"@ == key_pid(),
        "status"@ == key_status(),
        "exitCode"@ == key_exit_code(),
        "command"@ == key_command(),
        "logPath"@ == key_log_path(),
        "startTime"@ == key_start_time(),
        "endTime"@ == key_end_time(),
        "workingDirectory"@ == key_working_directory(),
        "shell"@ == key_shell(),
        "platform"@ == key_platform(),
        "options"@ == key_options(),
{
    reveal_strlit("uuid");
    reveal_strlit("pid");
    reveal_strlit("status");
    reveal_strlit("exitCode");
    reveal_strlit("command");
    reveal_strlit("logPath");
    reveal_strlit("startTime");
    reveal_strlit("endTime");
    reveal_strlit("workingDirectory");
    reveal_strlit("shell");
    reveal_strlit("platform");
    reveal_strlit("options");
    assert("uuid"@ =~= key_uuid());
    assert("pid"@ =~= key_pid());
    assert("status"@ =~= key_status());
    assert("exitCode"@ =~= key_exit_code());
    assert("command"@ =~= key_command());
    assert("logPath"@ =~= key_log_path());
    assert("startTime"@ =~= key_start_time());
    assert("endTime"@ =~= key_end_time());
    assert("workingDirectory"@ =~= key_working_directory());
    assert("shell"@ =~= key_shell());
    assert("platform"@ =~= key_platform());
    assert("options"@ =~= key_options());
}

/// The index of the last entry with key `key`, if any.
fn find_key(ps: &Vec<(String, Value)>, key: &str) -> (r: Option<usize>)
    ensures
        r matches Some(i) ==> last_key_index(ps@, key@) == i as int && i < ps@.len(),
        r is None ==> last_key_index(ps@, key@) == -1,
{
    let mut i = ps.len();
    assert(ps@.subrange(0, i as int) == ps@);
    while i > 0
        invariant
            i <= ps@.len(),
            last_key_index(ps@, key@) == last_key_index(ps@.subrange(0, i as int), key@),
        decreases i,
    {
        let ghost sub = ps@.subrange(0, i as int);
        assert(sub.subrange(0, i - 1) == ps@.subrange(0, i - 1));
        if str_eq(ps[i - 1].0.as_str(), key) {
            return Some(i - 1);
        }
        i -= 1;
    }
    None
}


fn get_str(ps: &Vec<(String, Value)>, key: &str) -> (r: Option<String>)
    ensures
        opt_view(r) == str_field(ps@, key@),
{
    match find_key(ps, key) {
        Some(i) => match &ps[i].1 {
            Value::Str(s) => Some(s.clone()),
            _ => None,
        },
        None => None,
    }
}

fn get_opt_str(ps: &Vec<(String, Value)>, key: &str) -> (r: Option<Option<String>>)
    ensures
        (match r {
            Some(o) => Some(opt_view(o)),
            None => None,
        }) == opt_str_field(ps@, key@),
{
    match find_key(ps, key) {
        Some(i) => match &ps[i].1 {
            Value::Null => Some(None),
            Value::Str(s) => Some(Some(s.clone())),
            _ => None,
        },
        None => Some(None),
    }
}

fn get_opt_int(ps: &Vec<(String, Value)>, key: &str, lo: i64, hi: i64) -> (r: Option<
    Option<i64>,
>)
    ensures
        (match r {
            Some(Some(n)) => Some(Some(n as int)),
            Some(None) => Some(None),
            None => None,
        }) == opt_int_field(ps@, key@, lo as int, hi as int),
{
    match find_key(ps, key) {
        Some(i) => match &ps[i].1 {
            Value::Null => Some(None),
            Value::Int(n) => if lo <= *n && *n <= hi {
                Some(Some(*n))
            } else {
                None
            },
            _ => None,
        },
        None => Some(None),
    }
}

fn get_options(ps: &Vec<(String, Value)>) -> (r: Option<Vec<(String, String)>>)
    ensures
        (match r {
            Some(o) => Some(pairs_view(o@)),
            None => None,
        }) == options_field(ps@),
{
    proof {
        lemma_key_literals();
    }
    match find_key(ps, "options") {
        None => {
            let r: Vec<(String, String)> = Vec::new();
            assert(pairs_view(r@) =~= Seq::empty());
            Some(r)
        },
        Some(i) => match &ps[i].1 {
            Value::Object(os) => {
                let mut out: Vec<(String, String)> = Vec::new();
                let mut j: usize = 0;
                while j < os.len()
                    invariant
                        j <= os@.len(),
                        out@.len() == j,
                        i < ps@.len(),
                        last_key_index(ps@, key_options()) == i,
                        ps@[i as int].1 == Value::Object(*os),
                        forall|k: int|
                            0 <= k < j ==> (#[trigger] out@[k]).0@ == os@[k].0@ && out@[k].1@
                                == option_text(os@[k].1),
                    decreases os.len() - j,
                {
                    match &os[j].1 {
                        Value::Str(v) => {
                            out.push((os[j].0.clone(), v.clone()));
                        },
                        other => {
                            out.push((os[j].0.clone(), crate::codec::encode(other)));
                        },
                    }
                    j += 1;
                }
                assert(pairs_view(out@) =~= option_pairs(os@));
                Some(out)
            },
            _ => None,
        },
    }
}

fn str_value(s: &String) -> (r: Value)
    ensures
        r matches Value::Str(x) && x@ == s@,
{
    Value::Str(s.clone())
}

fn opt_str_value(s: &Option<String>) -> (r: Value)
    ensures
        match *s {
            Some(x) => r matches Value::Str(y) && y@ == x@,
            None => r is Null,
        },
{
    match s {
        Some(x) => Value::Str(x.clone()),
        None => Value::Null,
    }
}

impl ExecutionRecord {
    /// The structured value of this record: an object with the keys `uuid`,
    /// `pid`, `status`, `exitCode`, `command`, `logPath`, `startTime`,
    /// `endTime`, `workingDirectory`, `shell`, `platform` and `options`, in
    /// that order.
    #[verifier::rlimit(100)]
    pub fn to_value(&self) -> (r: Value)
        ensures
            record_of_value(r) == Some(self@),
            r matches Value::Object(ps) && ps@.len() == 12,
            crate::codec::well_formed(r),
    {
        proof {
            lemma_key_literals();
            lemma_status_literals();
        }
        let mut opts: Vec<(String, Value)> = Vec::new();
        let mut j: usize = 0;
        while j < self.options.len()
            invariant
                j <= self.options@.len(),
                opts@.len() == j,
                forall|k: int|
                    0 <= k < j ==> (#[trigger] opts@[k]).0@ == self.options@[k].0@ && (opts@[k].1
                        matches Value::Str(x) && x@ == self.options@[k].1@),
            decreases self.options.len() - j,
        {
            opts.push((self.options[j].0.clone(), Value::Str(self.options[j].1.clone())));
            j += 1;
        }
        assert(option_pairs(opts@) =~= pairs_view(self.options@));
        let mut ps: Vec<(String, Value)> = Vec::new();
        ps.push(("uuid".to_owned(), str_value(&self.uuid)));
        ps.push(
            (
                "pid".to_owned(),
                match self.pid {
                    Some(p) => Value::Int(p as i64),
                    None => Value::Null,
                },
            ),
        );
        ps.push(("status".to_owned(), Value::Str(self.status.as_str().to_owned())));
        ps.push(
            (
                "exitCode".to_owned(),
                match self.exit_code {
                    Some(c) => Value::Int(c as i64),
                    None => Value::Null,
                },
            ),
        );
        ps.push(("command".to_owned(), str_value(&self.command)));
        ps.push(("logPath".to_owned(), str_value(&self.log_path)));
        ps.push(("startTime".to_owned(), str_value(&self.start_time)));
        ps.push(("endTime".to_owned(), opt_str_value(&self.end_time)));
        ps.push(("workingDirectory".to_owned(), str_value(&self.working_directory)));
        ps.push(("shell".to_owned(), str_value(&self.shell)));
        ps.push(("platform".to_owned(), str_value(&self.platform)));
        ps.push(("options".to_owned(), Value::Object(opts)));
        proof {
            reveal_with_fuel(last_key_index, 13);
        }
        assert(crate::codec::well_formed(Value::Object(opts))) by {
            assert forall|j: int| 0 <= j < opts@.len() implies crate::codec::well_formed(
                #[trigger] opts@[j].1,
            ) by {
                assert(opts@[j].1 is Str);
            }
        }
        let r = Value::Object(ps);
        assert(record_of_value(r) =~= Some(self@));
        assert forall|j: int| 0 <= j < 12 implies crate::codec::well_formed(
            #[trigger] r->Object_0@[j].1,
        ) by {
            if j == 11 {
                assert(r->Object_0@[j].1 == Value::Object(opts));
            }
        }
        r
    }

    /// The record that `v` describes, if it describes one.
    pub fn from_value(v: &Value) -> (r: Option<ExecutionRecord>)
        ensures
            match r {
                Some(x) => record_of_value(*v) == Some(x@),
                None => record_of_value(*v) is None,
            },
    {
        proof {
            lemma_key_literals();
            lemma_status_literals();
        }
        let ps = match v {
            Value::Object(ps) => ps,
            _ => return None,
        };
        let uuid = match get_str(ps, "uuid") {
            Some(x) => x,
            None => return None,
        };
        let pid = match get_opt_int(ps, "pid", 0, 4294967295) {
            Some(Some(n)) => Some(n as u32),
            Some(None) => None,
            None => return None,
        };
        let status = match get_str(ps, "status") {
            Some(t) => if str_eq(t.as_str(), "executing") {
                ExecutionStatus::Executing
            } else if str_eq(t.as_str(), "executed") {
                ExecutionStatus::Executed
            } else {
                return None;
            },
            None => return None,
        };
        let exit_code = match get_opt_int(ps, "exitCode", -2147483648, 2147483647) {
            Some(Some(n)) => Some(n as i32),
            Some(None) => None,
            None => return None,
        };
        let command = match get_str(ps, "command") {
            Some(x) => x,
            None => return None,
        };
        let log_path = match get_str(ps, "logPath") {
            Some(x) => x,
            None => return None,
        };
        let start_time = match get_str(ps, "startTime") {
            Some(x) => x,
            None => return None,
        };
        let end_time = match get_opt_str(ps, "endTime") {
            Some(x) => x,
            None => return None,
        };
        let working_directory = match get_str(ps, "workingDirectory") {
            Some(x) => x,
            None => return None,
        };
        let shell = match get_str(ps, "shell") {
            Some(x) => x,
            None => return None,
        };
        let platform = match get_str(ps, "platform") {
            Some(x) => x,
            None => return None,
        };
        let options = match get_options(ps) {
            Some(x) => x,
            None => return None,
        };
        let r = ExecutionRecord {
            uuid,
            pid,
            status,
            exit_code,
            command,
            log_path,
            start_time,
            end_time,
            working_directory,
            shell,
            platform,
            options,
        };
        assert(record_of_value(*v) =~= Some(r@));
        Some(r)
    }
}


pub proof fn lemma_last_key_index_bounds(ps: Seq<(String, Value)>, key: Seq<char>)
    ensures
        -1 <= last_key_index(ps, key) < ps.len(),
    decreases ps.len(),
{
    if ps.len() > 0 {
        lemma_last_key_index_bounds(ps.subrange(0, ps.len() - 1), key);
    }
}

} // verus!
