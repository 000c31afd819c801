//! Answers to "what happened to execution X?": a record rendered as links
//! notation, as JSON, or as text.

use vstd::prelude::*;
use crate::numbers::{int_text, push_int_text};
use crate::record::ExecutionRecord;
use crate::store::{find_record, first_index, views};
use crate::text::{chars_of, push_char, push_str, str_eq};

verus! {

/// The outcome of a status query.
pub struct StatusQueryResult {
    pub success: bool,
    pub output: Option<String>,
    pub error: Option<String>,
}

/// The JSON string literal that stands for `s`.
pub uninterp spec fn json_string(s: Seq<char>) -> Seq<char>;

/// Relies on `serde_json::to_string` on a string slice: the literal depends
/// on the characters alone (serialising a string does not fail; the
/// fallback is never taken).
#[verifier::external_body]
fn json_quote(s: &str) -> (r: String)
    ensures
        r@ == json_string(s@),
{
    match serde_json::to_string(s) {
        Ok(t) => t,
        Err(_) => String::new(),
    }
}

fn push_json_string(out: &mut String, s: &str)
    ensures
        final(out)@ == old(out)@ + json_string(s@),
{
    let q = json_quote(s);
    push_str(out, q.as_str());
}

/// The options as a compact JSON object of strings.
pub open spec fn json_object(ps: Seq<(String, String)>) -> Seq<char> {
    seq!['{'] + json_entries(ps) + seq!['}']
}

pub open spec fn json_entries(ps: Seq<(String, String)>) -> Seq<char>
    decreases ps.len(),
{
    if ps.len() == 0 {
        Seq::empty()
    } else {
        let last = ps[ps.len() - 1];
        let head = json_entries(ps.subrange(0, ps.len() - 1));
        head + (if ps.len() > 1 {
            seq![',']
        } else {
            Seq::empty()
        }) + json_string(last.0@) + seq![':'] + json_string(last.1@)
    }
}

fn push_json_object(out: &mut String, ps: &Vec<(String, String)>)
    ensures
        final(out)@ == old(out)@ + json_object(ps@),
{
    push_char(out, '{');
    let mut i: usize = 0;
    while i < ps.len()
        invariant
            i <= ps@.len(),
            out@ == old(out)@ + seq!['{'] + json_entries(ps@.subrange(0, i as int)),
        decreases ps.len() - i,
    {
        proof {
            let t = ps@.subrange(0, i + 1);
            assert(t.subrange(0, i as int) == ps@.subrange(0, i as int));
        }
        if i > 0 {
            push_char(out, ',');
        }
        push_json_string(out, ps[i].0.as_str());
        push_char(out, ':');
        push_json_string(out, ps[i].1.as_str());
        i += 1;
    }
    assert(ps@.subrange(0, ps@.len() as int) == ps@);
    push_char(out, '}');
}

fn push_opt_text(out: &mut String, v: &Option<String>)
    ensures
        final(out)@ == old(out)@ + match *v {
            Some(s) => s@,
            None => "N/A"@,
        },
{
    match v {
        Some(s) => push_str(out, s.as_str()),
        None => push_str(out, "N/A"),
    }
}

fn push_opt_int(out: &mut String, v: Option<i64>)
    ensures
        final(out)@ == old(out)@ + match v {
            Some(n) => int_text(n as int),
            None => "N/A"@,
        },
{
    match v {
        Some(n) => push_int_text(out, n),
        None => push_str(out, "N/A"),
    }
}

/// A record as human-readable text: a title, a rule, then one labelled line
/// per field (`N/A` for absent ones), and the options as JSON when there are
/// any.
pub fn format_record_as_text(record: &ExecutionRecord) -> (r: String)
    ensures
        r@ == "Execution Status\n"@ + crate::isolation::rule_line() + "\nUUID:              "@
            + record.uuid@ + "\nStatus:            "@ + crate::record::status_text(record.status)
            + "\nCommand:           "@ + record.command@ + "\nExit Code:         "@ + (match record.exit_code {
            Some(c) => int_text(c as int),
            None => "N/A"@,
        }) + "\nPID:               "@ + (match record.pid {
            Some(p) => int_text(p as int),
            None => "N/A"@,
        }) + "\nWorking Directory: "@ + record.working_directory@ + "\nShell:             "@
            + record.shell@ + "\nPlatform:          "@ + record.platform@ + "\nStart Time:        "@
            + record.start_time@ + "\nEnd Time:          "@ + (match record.end_time {
            Some(e) => e@,
            None => "N/A"@,
        }) + "\nLog Path:          "@ + record.log_path@ + (if record.options@.len() > 0 {
            "\nOptions:           "@ + json_object(record.options@)
        } else {
            Seq::empty()
        }),
{
    let mut out = "Execution Status\n".to_owned();
    crate::isolation::push_rule_line(&mut out);
    push_str(&mut out, "\nUUID:              ");
    push_str(&mut out, record.uuid.as_str());
    push_str(&mut out, "\nStatus:            ");
    push_str(&mut out, record.status.as_str());
    push_str(&mut out, "\nCommand:           ");
    push_str(&mut out, record.command.as_str());
    push_str(&mut out, "\nExit Code:         ");
    push_opt_int(
        &mut out,
        match record.exit_code {
            Some(c) => Some(c as i64),
            None => None,
        },
    );
    push_str(&mut out, "\nPID:               ");
    push_opt_int(
        &mut out,
        match record.pid {
            Some(p) => Some(p as i64),
            None => None,
        },
    );
    push_str(&mut out, "\nWorking Directory: ");
    push_str(&mut out, record.working_directory.as_str());
    push_str(&mut out, "\nShell:             ");
    push_str(&mut out, record.shell.as_str());
    push_str(&mut out, "\nPlatform:          ");
    push_str(&mut out, record.platform.as_str());
    push_str(&mut out, "\nStart Time:        ");
    push_str(&mut out, record.start_time.as_str());
    push_str(&mut out, "\nEnd Time:          ");
    push_opt_text(&mut out, &record.end_time);
    push_str(&mut out, "\nLog Path:          ");
    push_str(&mut out, record.log_path.as_str());
    if record.options.len() > 0 {
        push_str(&mut out, "\nOptions:           ");
        push_json_object(&mut out, &record.options);
    }
    out
}


/// `s` with each double quote preceded by a backslash.
pub open spec fn quote_escaped(s: Seq<char>) -> Seq<char>
    decreases s.len(),
{
    if s.len() == 0 {
        Seq::empty()
    } else {
        quote_escaped(s.subrange(0, s.len() - 1)) + if s[s.len() - 1] == '"' {
            seq!['\\', '"']
        } else {
            seq![s[s.len() - 1]]
        }
    }
}

fn push_quote_escaped(out: &mut String, s: &Vec<char>)
    ensures
        final(out)@ == old(out)@ + quote_escaped(s@),
{
    let mut i: usize = 0;
    while i < s.len()
        invariant
            i <= s@.len(),
            out@ == old(out)@ + quote_escaped(s@.subrange(0, i as int)),
        decreases s.len() - i,
    {
        proof {
            let t = s@.subrange(0, i + 1);
            assert(t.subrange(0, i as int) == s@.subrange(0, i as int));
        }
        if s[i] == '"' {
            push_char(out, '\\');
        }
        push_char(out, s[i]);
        i += 1;
    }
    assert(s@.subrange(0, s@.len() as int) == s@);
}

/// One property of a record as a link doublet: `(uuid.key: key "value")`.
pub open spec fn doublet(uuid: Seq<char>, key: Seq<char>, value: Seq<char>) -> Seq<char> {
    "("@ + doublet_body(uuid, key, value) + ")"@
}

/// A doublet without its parentheses: `uuid.key: key "value"`.
pub open spec fn doublet_body(uuid: Seq<char>, key: Seq<char>, value: Seq<char>) -> Seq<char> {
    uuid + "."@ + key + ": "@ + key + " \""@ + quote_escaped(value) + "\""@
}

/// The properties of a record that have a value, with their texts, in the
/// order of its structured form.
pub open spec fn record_properties(r: ExecutionRecord) -> Seq<(Seq<char>, Seq<char>)> {
    seq![("uuid"@, r.uuid@)] + (match r.pid {
        Some(p) => seq![("pid"@, int_text(p as int))],
        None => Seq::empty(),
    }) + seq![("status"@, crate::record::status_text(r.status))] + (match r.exit_code {
        Some(c) => seq![("exitCode"@, int_text(c as int))],
        None => Seq::empty(),
    }) + seq![("command"@, r.command@), ("logPath"@, r.log_path@), ("startTime"@, r.start_time@)]
        + (match r.end_time {
        Some(e) => seq![("endTime"@, e@)],
        None => Seq::empty(),
    }) + seq![
        ("workingDirectory"@, r.working_directory@),
        ("shell"@, r.shell@),
        ("platform"@, r.platform@),
        ("options"@, json_object(r.options@)),
    ]
}

/// The doublets of the properties, one per line.
pub open spec fn doublet_lines(uuid: Seq<char>, ps: Seq<(Seq<char>, Seq<char>)>) -> Seq<Seq<char>> {
    ps.map_values(|p: (Seq<char>, Seq<char>)| doublet(uuid, p.0, p.1))
}

fn property_texts(record: &ExecutionRecord) -> (r: Vec<(String, String)>)
    ensures
        r@.map_values(|p: (String, String)| (p.0@, p.1@)) == record_properties(*record),
{
    let mut ps: Vec<(String, String)> = Vec::new();
    ps.push(("uuid".to_owned(), record.uuid.clone()));
    match record.pid {
        Some(p) => {
            let mut t = String::new();
            push_int_text(&mut t, p as i64);
            ps.push(("pid".to_owned(), t));
        },
        None => {},
    }
    ps.push(("status".to_owned(), record.status.as_str().to_owned()));
    match record.exit_code {
        Some(c) => {
            let mut t = String::new();
            push_int_text(&mut t, c as i64);
            ps.push(("exitCode".to_owned(), t));
        },
        None => {},
    }
    ps.push(("command".to_owned(), record.command.clone()));
    ps.push(("logPath".to_owned(), record.log_path.clone()));
    ps.push(("startTime".to_owned(), record.start_time.clone()));
    match &record.end_time {
        Some(e) => ps.push(("endTime".to_owned(), e.clone())),
        None => {},
    }
    ps.push(("workingDirectory".to_owned(), record.working_directory.clone()));
    ps.push(("shell".to_owned(), record.shell.clone()));
    ps.push(("platform".to_owned(), record.platform.clone()));
    let mut o = String::new();
    push_json_object(&mut o, &record.options);
    ps.push(("options".to_owned(), o));
    assert(ps@.map_values(|p: (String, String)| (p.0@, p.1@)) =~= record_properties(*record));
    ps
}

/// A record as link doublets, one property per line: `(uuid.key: key
/// "value")`, leaving out absent properties.
pub fn format_record_as_links_notation(record: &ExecutionRecord) -> (r: String)
    ensures
        r@ == crate::blocks::joined_lines(doublet_lines(record.uuid@, record_properties(*record))),
{
    let ps = property_texts(record);
    let ghost want = doublet_lines(record.uuid@, record_properties(*record));
    let mut out = String::new();
    let mut i: usize = 0;
    while i < ps.len()
        invariant
            i <= ps@.len(),
            want.len() == ps@.len(),
            forall|k: int|
                0 <= k < ps@.len() ==> want[k] == doublet(record.uuid@, ps@[k].0@, ps@[k].1@),
            out@ == crate::blocks::joined_lines(want.subrange(0, i as int)),
        decreases ps.len() - i,
    {
        proof {
            let t = want.subrange(0, i + 1);
            assert(t.subrange(0, i as int) == want.subrange(0, i as int));
        }
        if i > 0 {
            push_char(&mut out, '\n');
        }
        let ghost before = out@;
        push_str(&mut out, "(");
        push_str(&mut out, record.uuid.as_str());
        push_str(&mut out, ".");
        push_str(&mut out, ps[i].0.as_str());
        push_str(&mut out, ": ");
        push_str(&mut out, ps[i].0.as_str());
        push_str(&mut out, " \"");
        push_quote_escaped(&mut out, &chars_of(ps[i].1.as_str()));
        push_str(&mut out, "\"");
        push_str(&mut out, ")");
        assert(out@ =~= before + doublet(record.uuid@, ps@[i as int].0@, ps@[i as int].1@));
        i += 1;
    }
    assert(want.subrange(0, ps@.len() as int) == want);
    out
}

/// A JSON value's text for a property: a string literal, or `null`.
pub open spec fn json_opt_string(v: Option<String>) -> Seq<char> {
    match v {
        Some(s) => json_string(s@),
        None => "null"@,
    }
}

/// A record as indented JSON, one property per line in the order of its
/// structured form; absent values are `null`.
pub open spec fn record_json(r: ExecutionRecord) -> Seq<char> {
    "{\n  \"uuid\": "@ + json_string(r.uuid@) + ",\n  \"pid\": "@ + (match r.pid {
        Some(p) => int_text(p as int),
        None => "null"@,
    }) + ",\n  \"status\": "@ + json_string(crate::record::status_text(r.status))
        + ",\n  \"exitCode\": "@ + (match r.exit_code {
        Some(c) => int_text(c as int),
        None => "null"@,
    }) + ",\n  \"command\": "@ + json_string(r.command@) + ",\n  \"logPath\": "@ + json_string(
        r.log_path@,
    ) + ",\n  \"startTime\": "@ + json_string(r.start_time@) + ",\n  \"endTime\": "@
        + json_opt_string(r.end_time) + ",\n  \"workingDirectory\": "@ + json_string(
        r.working_directory@,
    ) + ",\n  \"shell\": "@ + json_string(r.shell@) + ",\n  \"platform\": "@ + json_string(
        r.platform@,
    ) + ",\n  \"options\": "@ + json_object(r.options@) + "\n}"@
}

/// A record as indented JSON.
pub fn format_record_as_json(record: &ExecutionRecord) -> (r: String)
    ensures
        r@ == record_json(*record),
{
    let mut out = "{\n  \"uuid\": ".to_owned();
    push_json_string(&mut out, record.uuid.as_str());
    push_str(&mut out, ",\n  \"pid\": ");
    match record.pid {
        Some(p) => push_int_text(&mut out, p as i64),
        None => push_str(&mut out, "null"),
    }
    push_str(&mut out, ",\n  \"status\": ");
    push_json_string(&mut out, record.status.as_str());
    push_str(&mut out, ",\n  \"exitCode\": ");
    match record.exit_code {
        Some(c) => push_int_text(&mut out, c as i64),
        None => push_str(&mut out, "null"),
    }
    push_str(&mut out, ",\n  \"command\": ");
    push_json_string(&mut out, record.command.as_str());
    push_str(&mut out, ",\n  \"logPath\": ");
    push_json_string(&mut out, record.log_path.as_str());
    push_str(&mut out, ",\n  \"startTime\": ");
    push_json_string(&mut out, record.start_time.as_str());
    push_str(&mut out, ",\n  \"endTime\": ");
    match &record.end_time {
        Some(e) => push_json_string(&mut out, e.as_str()),
        None => push_str(&mut out, "null"),
    }
    push_str(&mut out, ",\n  \"workingDirectory\": ");
    push_json_string(&mut out, record.working_directory.as_str());
    push_str(&mut out, ",\n  \"shell\": ");
    push_json_string(&mut out, record.shell.as_str());
    push_str(&mut out, ",\n  \"platform\": ");
    push_json_string(&mut out, record.platform.as_str());
    push_str(&mut out, ",\n  \"options\": ");
    push_json_object(&mut out, &record.options);
    push_str(&mut out, "\n}");
    out
}

/// A record in the named format: `links-notation`, `json` or `text`.
pub fn format_record(record: &ExecutionRecord, format: &str) -> (r: Result<String, String>)
    ensures
        format@ == "links-notation"@ ==> (r matches Ok(s) && s@ == crate::blocks::joined_lines(
            doublet_lines(record.uuid@, record_properties(*record)),
        )),
        format@ == "json"@ ==> (r matches Ok(s) && s@ == record_json(*record)),
        format@ == "text"@ ==> r is Ok,
        r is Err <==> !(format@ == "links-notation"@ || format@ == "json"@ || format@ == "text"@),
        r matches Err(e) ==> e@ == "Unknown output format: "@ + format@,
{
    proof {
        reveal_strlit("json");
        reveal_strlit("links-notation");
        assert("json"@.len() == 4);
        assert("links-notation"@.len() == 14);
        assert("json"@ != "links-notation"@);
    }
    if str_eq(format, "links-notation") {
        Ok(format_record_as_links_notation(record))
    } else if str_eq(format, "json") {
        Ok(format_record_as_json(record))
    } else if str_eq(format, "text") {
        Ok(format_record_as_text(record))
    } else {
        let mut e = "Unknown output format: ".to_owned();
        push_str(&mut e, format);
        Err(e)
    }
}

/// Looks up `uuid` among `records` (absent when tracking is disabled) and
/// renders it in `output_format`, links notation by default.
pub fn query_status(records: Option<&Vec<ExecutionRecord>>, uuid: &str, output_format: Option<
    &str,
>) -> (r: StatusQueryResult)
    ensures
        r.success <==> (r.output is Some && r.error is None),
        r.output is Some <==> r.error is None,
        r.success == (records matches Some(rs) && first_index(views(rs@), uuid@) >= 0 && (
        match output_format {
            Some(f) => f@ == "links-notation"@ || f@ == "json"@ || f@ == "text"@,
            None => true,
        })),
        records is None ==> (r.error matches Some(e) && e@ == "Execution tracking is disabled."@),
        (records matches Some(rs) && first_index(views(rs@), uuid@) < 0) ==> (r.error matches Some(
            e,
        ) && e@ == "No execution found with UUID: "@ + uuid@),
{
    let rs = match records {
        Some(rs) => rs,
        None => {
            return StatusQueryResult {
                success: false,
                output: None,
                error: Some("Execution tracking is disabled.".to_owned()),
            };
        },
    };
    let i = match find_record(rs, uuid) {
        Some(i) => i,
        None => {
            let mut e = "No execution found with UUID: ".to_owned();
            push_str(&mut e, uuid);
            return StatusQueryResult { success: false, output: None, error: Some(e) };
        },
    };
    proof {
        crate::store::lemma_first_index_bounds(views(rs@), uuid@);
    }
    let format = match output_format {
        Some(f) => f,
        None => "links-notation",
    };
    match format_record(&rs[i], format) {
        Ok(output) => StatusQueryResult { success: true, output: Some(output), error: None },
        Err(e) => StatusQueryResult { success: false, output: None, error: Some(e) },
    }
}


/// The pieces joined by `sep`.
pub open spec fn joined_with(ls: Seq<Seq<char>>, sep: Seq<char>) -> Seq<char>
    decreases ls.len(),
{
    if ls.len() == 0 {
        Seq::empty()
    } else if ls.len() == 1 {
        ls[0]
    } else {
        joined_with(ls.subrange(0, ls.len() - 1), sep) + sep + ls[ls.len() - 1]
    }
}

/// The secondary index's query that creates a record: the record's own
/// link followed by one doublet per property with a value.
pub open spec fn clink_query(r: ExecutionRecord) -> Seq<char> {
    "() ((("@ + joined_with(
        seq![r.uuid@ + ": ExecutionRecord "@ + r.uuid@] + record_properties(r).map_values(
            |p: (Seq<char>, Seq<char>)| doublet_body(r.uuid@, p.0, p.1),
        ),
        ") ("@,
    ) + ")))"@
}

/// The secondary index's query that creates `record`.
pub fn build_clink_create_query(record: &ExecutionRecord) -> (r: String)
    ensures
        r@ == clink_query(*record),
{
    let ps = property_texts(record);
    let ghost pieces = seq![record.uuid@ + ": ExecutionRecord "@ + record.uuid@]
        + record_properties(*record).map_values(
        |p: (Seq<char>, Seq<char>)| doublet_body(record.uuid@, p.0, p.1),
    );
    let mut out = "() (((".to_owned();
    let ghost head = out@;
    push_str(&mut out, record.uuid.as_str());
    push_str(&mut out, ": ExecutionRecord ");
    push_str(&mut out, record.uuid.as_str());
    assert(out@ == head + joined_with(pieces.subrange(0, 1), ") ("@));
    let mut i: usize = 0;
    while i < ps.len()
        invariant
            i <= ps@.len(),
            pieces.len() == ps@.len() + 1,
            forall|k: int|
                0 <= k < ps@.len() ==> pieces[k + 1] == doublet_body(
                    record.uuid@,
                    ps@[k].0@,
                    ps@[k].1@,
                ),
            out@ == head + joined_with(pieces.subrange(0, i + 1), ") ("@),
        decreases ps.len() - i,
    {
        proof {
            let t = pieces.subrange(0, i + 2);
            assert(t.subrange(0, i + 1) == pieces.subrange(0, i + 1));
        }
        let ghost before = out@;
        push_str(&mut out, ") (");
        push_str(&mut out, record.uuid.as_str());
        push_str(&mut out, ".");
        push_str(&mut out, ps[i].0.as_str());
        push_str(&mut out, ": ");
        push_str(&mut out, ps[i].0.as_str());
        push_str(&mut out, " \"");
        push_quote_escaped(&mut out, &chars_of(ps[i].1.as_str()));
        push_str(&mut out, "\"");
        assert(out@ =~= before + ") ("@ + pieces[i + 1]);
        i += 1;
    }
    assert(pieces.subrange(0, ps@.len() + 1 as int) == pieces);
    push_str(&mut out, ")))");
    out
}

} // verus!
