//! The record collection: lookup, upsert, removal, statistics, and the
//! stale-record sweep, over the full list held in the primary file.

use vstd::prelude::*;
use crate::link::Link;
use crate::codec::{decode, encode, same_value, value_ok, value_text, well_formed, DecodeError, Value};
use crate::record::{
    field, last_key_index, option_pairs, record_of_value, ExecutionRecord,
    ExecutionStatus, RecordView,
};
use crate::text::{chars_of, push_str, str_eq};

verus! {

/// The views of a list of records.
pub open spec fn views(rs: Seq<ExecutionRecord>) -> Seq<RecordView> {
    rs.map_values(|r: ExecutionRecord| r@)
}

/// The first index holding `uuid`, or -1.
pub open spec fn first_index(rs: Seq<RecordView>, uuid: Seq<char>) -> int
    decreases rs.len(),
{
    if rs.len() == 0 {
        -1
    } else if first_index(rs.subrange(0, rs.len() - 1), uuid) >= 0 {
        first_index(rs.subrange(0, rs.len() - 1), uuid)
    } else if rs[rs.len() - 1].uuid == uuid {
        rs.len() - 1
    } else {
        -1
    }
}

/// The collection after saving `r`: the first record with its uuid is
/// replaced, or `r` is appended when there is none.
pub open spec fn upserted(rs: Seq<RecordView>, r: RecordView) -> Seq<RecordView> {
    let i = first_index(rs, r.uuid);
    if i >= 0 {
        rs.update(i, r)
    } else {
        rs.push(r)
    }
}

/// Whether no two records share a uuid.
pub open spec fn unique_uuids(rs: Seq<RecordView>) -> bool {
    forall|i: int, j: int| 0 <= i < j < rs.len() ==> rs[i].uuid != rs[j].uuid
}

/// The number of records that satisfy `p`.
pub open spec fn count_where(rs: Seq<RecordView>, p: spec_fn(RecordView) -> bool) -> nat
    decreases rs.len(),
{
    if rs.len() == 0 {
        0
    } else {
        count_where(rs.subrange(0, rs.len() - 1), p) + if p(rs[rs.len() - 1]) {
            1nat
        } else {
            0nat
        }
    }
}

pub proof fn lemma_first_index_bounds(rs: Seq<RecordView>, uuid: Seq<char>)
    ensures
        -1 <= first_index(rs, uuid) < rs.len(),
        first_index(rs, uuid) >= 0 ==> rs[first_index(rs, uuid)].uuid == uuid,
        first_index(rs, uuid) >= 0 ==> forall|j: int|
            0 <= j < first_index(rs, uuid) ==> rs[j].uuid != uuid,
        first_index(rs, uuid) == -1 ==> forall|j: int| 0 <= j < rs.len() ==> rs[j].uuid != uuid,
    decreases rs.len(),
{
    if rs.len() > 0 {
        let p = rs.subrange(0, rs.len() - 1);
        lemma_first_index_bounds(p, uuid);
        assert(forall|j: int| 0 <= j < p.len() ==> p[j] == rs[j]);
    }
}

proof fn lemma_first_index_is(rs: Seq<RecordView>, uuid: Seq<char>, i: int)
    requires
        0 <= i < rs.len(),
        rs[i].uuid == uuid,
        forall|j: int| 0 <= j < i ==> rs[j].uuid != uuid,
    ensures
        first_index(rs, uuid) == i,
{
    lemma_first_index_bounds(rs, uuid);
    let f = first_index(rs, uuid);
    if f == -1 {
        assert(rs[i].uuid != uuid);
    } else if f < i {
        assert(rs[f].uuid != uuid);
    } else if f > i {
        assert(rs[i].uuid != uuid);
    }
}

proof fn lemma_first_index_absent(rs: Seq<RecordView>, uuid: Seq<char>)
    requires
        forall|j: int| 0 <= j < rs.len() ==> rs[j].uuid != uuid,
    ensures
        first_index(rs, uuid) == -1,
{
    lemma_first_index_bounds(rs, uuid);
    if first_index(rs, uuid) >= 0 {
        assert(rs[first_index(rs, uuid)].uuid != uuid);
    }
}

/// The index of the first record with this uuid, if any.
pub fn find_record(records: &Vec<ExecutionRecord>, uuid: &str) -> (r: Option<usize>)
    ensures
        match r {
            Some(i) => first_index(views(records@), uuid@) == i as int,
            None => first_index(views(records@), uuid@) == -1,
        },
{
    let mut i: usize = 0;
    while i < records.len()
        invariant
            i <= records@.len(),
            forall|j: int| 0 <= j < i ==> records@[j].uuid@ != uuid@,
        decreases records.len() - i,
    {
        if str_eq(records[i].uuid.as_str(), uuid) {
            proof {
                lemma_first_index_is(views(records@), uuid@, i as int);
            }
            return Some(i);
        }
        i += 1;
    }
    proof {
        lemma_first_index_absent(views(records@), uuid@);
    }
    None
}

/// Saves `record` into the collection: replaces the first record with the
/// same uuid, or appends it.
pub fn upsert(records: &mut Vec<ExecutionRecord>, record: ExecutionRecord)
    ensures
        views(final(records)@) == upserted(views(old(records)@), record@),
{
    let ghost rv = record@;
    proof {
        lemma_first_index_bounds(views(records@), record.uuid@);
    }
    match find_record(records, record.uuid.as_str()) {
        Some(i) => {
            records.set(i, record);
            assert(views(records@) =~= views(old(records)@).update(i as int, rv));
        },
        None => {
            records.push(record);
            assert(views(records@) =~= views(old(records)@).push(rv));
        },
    }
}

/// Saving the same record twice, the second time after changing anything
/// but its uuid, leaves exactly one record with that uuid, holding the
/// latest values, and keeps uuids unique.
pub proof fn lemma_upsert_twice(rs: Seq<RecordView>, first: RecordView, second: RecordView)
    requires
        unique_uuids(rs),
        first.uuid == second.uuid,
    ensures
        unique_uuids(upserted(upserted(rs, first), second)),
        ({
            let out = upserted(upserted(rs, first), second);
            let i = first_index(out, second.uuid);
            &&& 0 <= i < out.len()
            &&& out[i] == second
            &&& forall|j: int| 0 <= j < out.len() && j != i ==> out[j].uuid != second.uuid
        }),
{
    lemma_upsert_unique(rs, first);
    let mid = upserted(rs, first);
    lemma_upsert_unique(mid, second);
    lemma_first_index_bounds(mid, first.uuid);
    let out = upserted(mid, second);
    let k = first_index(mid, first.uuid);
    assert(out == mid.update(k, second));
    lemma_first_index_bounds(out, second.uuid);
    lemma_first_index_is(out, second.uuid, k);
}

proof fn lemma_upsert_unique(rs: Seq<RecordView>, r: RecordView)
    requires
        unique_uuids(rs),
    ensures
        unique_uuids(upserted(rs, r)),
        first_index(upserted(rs, r), r.uuid) >= 0,
{
    lemma_first_index_bounds(rs, r.uuid);
    let out = upserted(rs, r);
    let i = first_index(rs, r.uuid);
    if i >= 0 {
        assert forall|a: int, b: int| 0 <= a < b < out.len() implies out[a].uuid
            != out[b].uuid by {
            if a == i {
                assert(rs[b].uuid != rs[i].uuid);
            } else if b == i {
                assert(rs[a].uuid != rs[i].uuid);
            }
        }
        lemma_first_index_is(out, r.uuid, i);
    } else {
        lemma_first_index_is(out, r.uuid, rs.len() as int);
    }
}


/// Records whose uuid is not `u`.
pub open spec fn uuid_differs(u: Seq<char>) -> spec_fn(RecordView) -> bool {
    |x: RecordView| x.uuid != u
}

/// Records with status `s`.
pub open spec fn has_status(s: ExecutionStatus) -> spec_fn(RecordView) -> bool {
    |x: RecordView| x.status == s
}

proof fn lemma_filter_step(s: Seq<RecordView>, k: int, p: spec_fn(RecordView) -> bool)
    requires
        0 <= k < s.len(),
    ensures
        s.subrange(0, k + 1).filter(p) == if p(s[k]) {
            s.subrange(0, k).filter(p).push(s[k])
        } else {
            s.subrange(0, k).filter(p)
        },
{
    let t = s.subrange(0, k + 1);
    assert(t.drop_last() == s.subrange(0, k));
    assert(t.last() == s[k]);
    reveal(Seq::filter);
}

/// Removes every record with this uuid; says whether there was one.
pub fn remove_record(records: &mut Vec<ExecutionRecord>, uuid: &str) -> (r: bool)
    ensures
        views(final(records)@) == views(old(records)@).filter(uuid_differs(uuid@)),
        r == exists|j: int| 0 <= j < old(records)@.len() && old(records)@[j].uuid@ == uuid@,
{
    let ghost orig = views(records@);
    let ghost p = uuid_differs(uuid@);
    let mut i: usize = 0;
    let mut k: usize = 0;
    let mut found = false;
    let n = records.len();
    assert(orig.subrange(0, 0).filter(p) =~= Seq::<RecordView>::empty());
    assert(orig.subrange(0, n as int) == orig);
    while k < n
        invariant
            n == orig.len(),
            i <= k <= n,
            views(records@) == orig.subrange(0, k as int).filter(p) + orig.subrange(
                k as int,
                n as int,
            ),
            orig.subrange(0, k as int).filter(p).len() == i,
            found == exists|j: int| 0 <= j < k && orig[j].uuid == uuid@,
            p == uuid_differs(uuid@),
            orig == views(old(records)@),
        decreases n - k,
    {
        proof {
            lemma_filter_step(orig, k as int, p);
        }
        let ghost before = views(records@);
        assert(before.len() == records@.len());
        assert(records@.len() == i + (n - k));
        assert(before[i as int] == orig[k as int]);
        if str_eq(records[i].uuid.as_str(), uuid) {
            let _gone = records.remove(i);
            found = true;
            assert(!p(orig[k as int]));
            assert(views(records@) =~= before.remove(i as int));
            assert(before.remove(i as int) =~= orig.subrange(0, k as int).filter(p) + orig.subrange(
                k + 1,
                n as int,
            ));
            assert(views(records@) =~= orig.subrange(0, k + 1).filter(p) + orig.subrange(
                k + 1,
                n as int,
            ));
        } else {
            assert(p(orig[k as int]));
            assert(views(records@) =~= orig.subrange(0, k + 1).filter(p) + orig.subrange(
                k + 1,
                n as int,
            ));
            i += 1;
        }
        k += 1;
    }
    assert(views(records@) =~= orig.filter(p));
    assert(found ==> exists|j: int| 0 <= j < old(records)@.len() && old(records)@[j].uuid@
        == uuid@);
    assert((exists|j: int| 0 <= j < old(records)@.len() && old(records)@[j].uuid@ == uuid@)
        ==> found) by {
        if exists|j: int| 0 <= j < old(records)@.len() && old(records)@[j].uuid@ == uuid@ {
            let j = choose|j: int| 0 <= j < old(records)@.len() && old(records)@[j].uuid@ == uuid@;
            assert(orig[j].uuid == uuid@);
        }
    }
    found
}

/// Keeps the records with the given status, in order.
pub fn keep_status(records: &mut Vec<ExecutionRecord>, status: ExecutionStatus)
    ensures
        views(final(records)@) == views(old(records)@).filter(has_status(status)),
{
    let ghost orig = views(records@);
    let ghost p = has_status(status);
    let mut i: usize = 0;
    let mut k: usize = 0;
    let n = records.len();
    assert(orig.subrange(0, 0).filter(p) =~= Seq::<RecordView>::empty());
    assert(orig.subrange(0, n as int) == orig);
    while k < n
        invariant
            n == orig.len(),
            i <= k <= n,
            views(records@) == orig.subrange(0, k as int).filter(p) + orig.subrange(
                k as int,
                n as int,
            ),
            orig.subrange(0, k as int).filter(p).len() == i,
            p == has_status(status),
        decreases n - k,
    {
        proof {
            lemma_filter_step(orig, k as int, p);
        }
        let ghost before = views(records@);
        assert(before.len() == records@.len());
        assert(records@.len() == i + (n - k));
        assert(before[i as int] == orig[k as int]);
        if records[i].status != status {
            let _gone = records.remove(i);
            assert(!p(orig[k as int]));
            assert(views(records@) =~= before.remove(i as int));
            assert(before.remove(i as int) =~= orig.subrange(0, k as int).filter(p) + orig.subrange(
                k + 1,
                n as int,
            ));
            assert(views(records@) =~= orig.subrange(0, k + 1).filter(p) + orig.subrange(
                k + 1,
                n as int,
            ));
        } else {
            assert(p(orig[k as int]));
            assert(views(records@) =~= orig.subrange(0, k + 1).filter(p) + orig.subrange(
                k + 1,
                n as int,
            ));
            i += 1;
        }
        k += 1;
    }
    assert(views(records@) =~= orig.filter(p));
}


pub open spec fn is_successful() -> spec_fn(RecordView) -> bool {
    |x: RecordView| x.status == ExecutionStatus::Executed && x.exit_code == Some(0i32)
}

pub open spec fn is_failed() -> spec_fn(RecordView) -> bool {
    |x: RecordView|
        x.status == ExecutionStatus::Executed && (x.exit_code matches Some(c) && c != 0)
}

/// Aggregate counts over the collection.
pub struct ExecutionStats {
    pub total: usize,
    pub executing: usize,
    pub executed: usize,
    pub successful: usize,
    pub failed: usize,
    pub clink_available: bool,
    pub lino_db_path: String,
    pub links_db_path: String,
}

/// Options of the stale sweep.
pub struct CleanupOptions {
    /// Age beyond which a running record is stale; a day when absent.
    pub max_age_ms: Option<u64>,
    /// Report the candidates without changing anything.
    pub dry_run: bool,
}

/// What a stale sweep did.
pub struct CleanupResult {
    pub cleaned: usize,
    pub records: Vec<ExecutionRecord>,
    pub errors: Vec<String>,
}

/// How the primary store and the secondary index compare.
pub struct ConsistencyResult {
    pub consistent: bool,
    pub lino_count: usize,
    pub links_count: usize,
    pub errors: Vec<String>,
}

/// Where a store keeps its files, and whether it mirrors to the secondary
/// index.
#[derive(Clone)]
pub struct ExecutionStore {
    app_folder: String,
    lino_db_path: String,
    links_db_path: String,
    lock_file_path: String,
    use_links: bool,
    verbose: bool,
}

/// Settings of a store; absent ones take the caller's defaults.
pub struct ExecutionStoreOptions {
    pub app_folder: Option<String>,
    pub use_links: Option<bool>,
    pub verbose: bool,
}

/// `name` inside directory `dir`.
pub open spec fn join_path(dir: Seq<char>, name: Seq<char>) -> Seq<char> {
    if dir.len() == 0 {
        name
    } else if dir[dir.len() - 1] == '/' {
        dir + name
    } else {
        dir + seq!['/'] + name
    }
}

pub(crate) fn join(dir: &str, name: &str) -> (r: String)
    ensures
        r@ == join_path(dir@, name@),
{
    let d = crate::text::chars_of(dir);
    let mut out = dir.to_owned();
    if d.len() > 0 && d[d.len() - 1] != '/' {
        crate::text::push_char(&mut out, '/');
    }
    push_str(&mut out, name);
    out
}

pub open spec fn lino_file_name() -> Seq<char> {
    seq!['e', 'x', 'e', 'c', 'u', 't', 'i', 'o', 'n', 's', '.', 'l', 'i', 'n', 'o']
}

pub open spec fn links_file_name() -> Seq<char> {
    seq!['e', 'x', 'e', 'c', 'u', 't', 'i', 'o', 'n', 's', '.', 'l', 'i', 'n', 'k', 's']
}

pub open spec fn lock_file_name() -> Seq<char> {
    seq!['e', 'x', 'e', 'c', 'u', 't', 'i', 'o', 'n', 's', '.', 'l', 'o', 'c', 'k']
}

proof fn lemma_file_names()
    ensures
        "executions.lino"@ == lino_file_name(),
        "executions.links"@ == links_file_name(),
        "executions.lock"@ == lock_file_name(),
{
    reveal_strlit("executions.lino");
    reveal_strlit("executions.links");
    reveal_strlit("executions.lock");
    assert("executions.lino"@ =~= lino_file_name());
    assert("executions.links"@ =~= links_file_name());
    assert("executions.lock"@ =~= lock_file_name());
}

/// The default age, in milliseconds, beyond which a running record is stale.
pub const DEFAULT_MAX_AGE_MS: u64 = 86400000;

impl ExecutionStore {
    /// A store kept in `app_folder`.
    pub fn new(app_folder: &str, use_links: bool) -> (r: ExecutionStore)
        ensures
            r.folder() == app_folder@,
            r.lino_path() == join_path(app_folder@, lino_file_name()),
            r.links_path() == join_path(app_folder@, links_file_name()),
            r.lock_path() == join_path(app_folder@, lock_file_name()),
            r.links_enabled() == use_links,
            !r.is_verbose(),
    {
        proof {
            lemma_file_names();
        }
        ExecutionStore {
            app_folder: app_folder.to_owned(),
            lino_db_path: join(app_folder, "executions.lino"),
            links_db_path: join(app_folder, "executions.links"),
            lock_file_path: join(app_folder, "executions.lock"),
            use_links,
            verbose: false,
        }
    }

    /// A store from `options`, with `default_folder` and `links_installed`
    /// for what they leave out.
    pub fn with_options(options: ExecutionStoreOptions, default_folder: &str, links_installed: bool)
        -> (r: ExecutionStore)
        ensures
            r.folder() == (match options.app_folder {
                Some(f) => f@,
                None => default_folder@,
            }),
            r.lino_path() == join_path(r.folder(), lino_file_name()),
            r.links_path() == join_path(r.folder(), links_file_name()),
            r.lock_path() == join_path(r.folder(), lock_file_name()),
            r.links_enabled() == (match options.use_links {
                Some(u) => u,
                None => links_installed,
            }),
            r.is_verbose() == options.verbose,
    {
        let use_links = match options.use_links {
            Some(u) => u,
            None => links_installed,
        };
        let mut store = match &options.app_folder {
            Some(f) => ExecutionStore::new(f.as_str(), use_links),
            None => ExecutionStore::new(default_folder, use_links),
        };
        store.verbose = options.verbose;
        store
    }

    pub closed spec fn folder(&self) -> Seq<char> {
        self.app_folder@
    }

    pub closed spec fn lino_path(&self) -> Seq<char> {
        self.lino_db_path@
    }

    pub closed spec fn links_path(&self) -> Seq<char> {
        self.links_db_path@
    }

    pub closed spec fn lock_path(&self) -> Seq<char> {
        self.lock_file_path@
    }

    pub closed spec fn links_enabled(&self) -> bool {
        self.use_links
    }

    pub closed spec fn is_verbose(&self) -> bool {
        self.verbose
    }

    /// The folder holding the store's files.
    pub fn app_folder(&self) -> (r: &str)
        ensures
            r@ == self.folder(),
    {
        self.app_folder.as_str()
    }

    /// The primary file.
    pub fn lino_db_path(&self) -> (r: &str)
        ensures
            r@ == self.lino_path(),
    {
        self.lino_db_path.as_str()
    }

    /// The secondary index's file.
    pub fn links_db_path(&self) -> (r: &str)
        ensures
            r@ == self.links_path(),
    {
        self.links_db_path.as_str()
    }

    /// The lock file.
    pub fn lock_file_path(&self) -> (r: &str)
        ensures
            r@ == self.lock_path(),
    {
        self.lock_file_path.as_str()
    }

    /// Whether records are mirrored to the secondary index.
    pub fn use_links(&self) -> (r: bool)
        ensures
            r == self.links_enabled(),
    {
        self.use_links
    }

    /// Whether progress is reported.
    pub fn verbose(&self) -> (r: bool)
        ensures
            r == self.is_verbose(),
    {
        self.verbose
    }

    /// Counts of `records` by status and outcome.
    pub fn get_stats(&self, records: &Vec<ExecutionRecord>) -> (r: ExecutionStats)
        ensures
            r.total == records@.len(),
            r.executing == count_where(views(records@), has_status(ExecutionStatus::Executing)),
            r.executed == count_where(views(records@), has_status(ExecutionStatus::Executed)),
            r.successful == count_where(views(records@), is_successful()),
            r.failed == count_where(views(records@), is_failed()),
            r.clink_available == self.links_enabled(),
            r.lino_db_path@ == self.lino_path(),
            r.links_db_path@ == self.links_path(),
    {
        let ghost vs = views(records@);
        let mut executing: usize = 0;
        let mut executed: usize = 0;
        let mut successful: usize = 0;
        let mut failed: usize = 0;
        let mut i: usize = 0;
        while i < records.len()
            invariant
                i <= records@.len(),
                vs == views(records@),
                executing == count_where(
                    vs.subrange(0, i as int),
                    has_status(ExecutionStatus::Executing),
                ),
                executed == count_where(
                    vs.subrange(0, i as int),
                    has_status(ExecutionStatus::Executed),
                ),
                successful == count_where(vs.subrange(0, i as int), is_successful()),
                failed == count_where(vs.subrange(0, i as int), is_failed()),
                executing <= i,
                executed <= i,
                successful <= i,
                failed <= i,
            decreases records.len() - i,
        {
            let r = &records[i];
            proof {
                let t = vs.subrange(0, i + 1);
                assert(t.subrange(0, i as int) == vs.subrange(0, i as int));
                assert(t[i as int] == r@);
            }
            match r.status {
                ExecutionStatus::Executing => {
                    executing += 1;
                },
                ExecutionStatus::Executed => {
                    executed += 1;
                    match r.exit_code {
                        Some(c) => if c == 0 {
                            successful += 1;
                        } else {
                            failed += 1;
                        },
                        None => {},
                    }
                },
            }
            i += 1;
        }
        assert(vs.subrange(0, records@.len() as int) == vs);
        ExecutionStats {
            total: records.len(),
            executing,
            executed,
            successful,
            failed,
            clink_available: self.use_links,
            lino_db_path: self.lino_db_path.clone(),
            links_db_path: self.links_db_path.clone(),
        }
    }
}


/// The instant that an RFC 3339 timestamp names, in milliseconds since the
/// Unix epoch, when the text is one.
pub uninterp spec fn rfc3339_millis(s: Seq<char>) -> Option<int>;

/// Relies on chrono's `DateTime::parse_from_rfc3339` and `timestamp_millis`:
/// the result depends on the text alone.
#[verifier::external_body]
fn parse_rfc3339_millis(s: &str) -> (r: Option<i64>)
    ensures
        match r {
            Some(n) => rfc3339_millis(s@) == Some(n as int),
            None => rfc3339_millis(s@) is None,
        },
{
    match chrono::DateTime::parse_from_rfc3339(s) {
        Ok(t) => Some(t.timestamp_millis()),
        Err(_) => None,
    }
}

/// Whether a record is stale: it is still running and either its process,
/// on this platform, is known to be gone, or it started more than
/// `max_age_ms` before `now_ms`.
pub open spec fn is_stale(
    r: RecordView,
    platform: Seq<char>,
    pid_alive: bool,
    now_ms: int,
    max_age_ms: int,
) -> bool {
    r.status == ExecutionStatus::Executing && ((r.pid is Some && r.platform == platform
        && !pid_alive) || (rfc3339_millis(r.start_time) matches Some(t) && now_ms - t
        > max_age_ms))
}

/// Whether `record` is stale, given whether its process is alive.
pub fn is_stale_record(
    record: &ExecutionRecord,
    platform: &str,
    pid_alive: bool,
    now_ms: i64,
    max_age_ms: u64,
) -> (r: bool)
    ensures
        r == is_stale(record@, platform@, pid_alive, now_ms as int, max_age_ms as int),
{
    if record.status != ExecutionStatus::Executing {
        return false;
    }
    if record.pid.is_some() && !pid_alive && str_eq(record.platform.as_str(), platform) {
        return true;
    }
    match parse_rfc3339_millis(record.start_time.as_str()) {
        Some(t) => (now_ms as i128) - (t as i128) > max_age_ms as i128,
        None => false,
    }
}

/// The positions of the stale records, in order; `alive[j]` tells whether
/// the process of record `j` is running.
pub fn stale_candidates(
    records: &Vec<ExecutionRecord>,
    platform: &str,
    alive: &Vec<bool>,
    now_ms: i64,
    options: &CleanupOptions,
) -> (r: Vec<usize>)
    requires
        alive@.len() == records@.len(),
    ensures
        forall|a: int, b: int| 0 <= a < b < r@.len() ==> r@[a] < r@[b],
        forall|a: int| 0 <= a < r@.len() ==> r@[a] < records@.len(),
        forall|j: int|
            0 <= j < records@.len() ==> (r@.contains(j as usize) <==> is_stale(
                records@[j]@,
                platform@,
                alive@[j],
                now_ms as int,
                max_age(*options),
            )),
{
    let max_age_ms = match options.max_age_ms {
        Some(m) => m,
        None => DEFAULT_MAX_AGE_MS,
    };
    let mut out: Vec<usize> = Vec::new();
    let mut j: usize = 0;
    while j < records.len()
        invariant
            j <= records@.len(),
            alive@.len() == records@.len(),
            max_age_ms as int == max_age(*options),
            forall|a: int, b: int| 0 <= a < b < out@.len() ==> out@[a] < out@[b],
            forall|a: int| 0 <= a < out@.len() ==> out@[a] < j,
            forall|k: int|
                0 <= k < j ==> (out@.contains(k as usize) <==> is_stale(
                    records@[k]@,
                    platform@,
                    alive@[k],
                    now_ms as int,
                    max_age(*options),
                )),
        decreases records.len() - j,
    {
        let ghost before = out@;
        if is_stale_record(&records[j], platform, alive[j], now_ms, max_age_ms) {
            out.push(j);
            assert(out@[out@.len() - 1] == j);
        }
        assert forall|k: int| 0 <= k < j + 1 implies (out@.contains(k as usize) <==> is_stale(
            records@[k]@,
            platform@,
            alive@[k],
            now_ms as int,
            max_age(*options),
        )) by {
            if k < j {
                if before.contains(k as usize) {
                    let w = choose|w: int| 0 <= w < before.len() && before[w] == k as usize;
                    assert(out@[w] == k as usize);
                }
                if out@.contains(k as usize) {
                    let w = choose|w: int| 0 <= w < out@.len() && out@[w] == k as usize;
                    if w == before.len() {
                        assert(out@[w] == j);
                    } else {
                        assert(before[w] == k as usize);
                    }
                }
            } else {
                if out@.contains(j) {
                    let w = choose|w: int| 0 <= w < out@.len() && out@[w] == j;
                    if w < before.len() {
                        assert(before[w] < j);
                    }
                }
            }
        }
        j += 1;
    }
    out
}

/// The age limit that `options` gives.
pub open spec fn max_age(options: CleanupOptions) -> int {
    match options.max_age_ms {
        Some(m) => m as int,
        None => DEFAULT_MAX_AGE_MS as int,
    }
}

/// A running record whose process, on this platform, is gone is stale
/// whatever its age.
pub proof fn lemma_stale_dead_process(r: RecordView, platform: Seq<char>, now_ms: int, max_age_ms: int)
    requires
        r.status == ExecutionStatus::Executing,
        r.pid is Some,
        r.platform == platform,
    ensures
        is_stale(r, platform, false, now_ms, max_age_ms),
{
}

/// A running record is stale one millisecond past the age limit, and not
/// one millisecond before it, unless its process is known to be gone.
pub proof fn lemma_stale_age(
    r: RecordView,
    platform: Seq<char>,
    pid_alive: bool,
    start_ms: int,
    max_age_ms: int,
)
    requires
        r.status == ExecutionStatus::Executing,
        rfc3339_millis(r.start_time) == Some(start_ms),
    ensures
        is_stale(r, platform, pid_alive, start_ms + max_age_ms + 1, max_age_ms),
        !(r.pid is Some && r.platform == platform && !pid_alive) ==> !is_stale(
            r,
            platform,
            pid_alive,
            start_ms + max_age_ms - 1,
            max_age_ms,
        ),
        !(r.pid is Some && r.platform == platform && !pid_alive) ==> !is_stale(
            r,
            platform,
            pid_alive,
            start_ms + max_age_ms,
            max_age_ms,
        ),
{
}

/// The uuids of a list of records' views.
pub open spec fn uuid_views(us: Seq<String>) -> Seq<Seq<char>> {
    us.map_values(|u: String| u@)
}

/// A record after the sweep: finished abnormally at `end` when its uuid is
/// listed and it is still running, unchanged otherwise (a record that was
/// finished in the meantime keeps its outcome).
pub open spec fn swept(r: RecordView, uuids: Seq<Seq<char>>, end: Seq<char>) -> RecordView {
    if uuids.contains(r.uuid) && r.status == ExecutionStatus::Executing {
        RecordView {
            status: ExecutionStatus::Executed,
            exit_code: Some(-1i32),
            end_time: Some(end),
            ..r
        }
    } else {
        r
    }
}

/// Records that the sweep finishes: listed and still running.
pub open spec fn listed(uuids: Seq<Seq<char>>) -> spec_fn(RecordView) -> bool {
    |x: RecordView| uuids.contains(x.uuid) && x.status == ExecutionStatus::Executing
}

/// The collection and count after a sweep of the listed uuids.
pub open spec fn sweep_outcome(
    rs: Seq<RecordView>,
    uuids: Seq<Seq<char>>,
    end: Seq<char>,
    dry_run: bool,
) -> (Seq<RecordView>, nat) {
    if dry_run {
        (rs, uuids.len())
    } else {
        (rs.map_values(|r: RecordView| swept(r, uuids, end)), count_where(rs, listed(uuids)))
    }
}

fn listed_uuid(uuids: &Vec<String>, u: &String) -> (r: bool)
    ensures
        r == uuid_views(uuids@).contains(u@),
{
    let mut i: usize = 0;
    while i < uuids.len()
        invariant
            i <= uuids@.len(),
            forall|k: int| 0 <= k < i ==> uuids@[k]@ != u@,
        decreases uuids.len() - i,
    {
        if str_eq(uuids[i].as_str(), u.as_str()) {
            assert(uuid_views(uuids@)[i as int] == u@);
            return true;
        }
        i += 1;
    }
    assert(!uuid_views(uuids@).contains(u@)) by {
        if uuid_views(uuids@).contains(u@) {
            let w = choose|w: int| 0 <= w < uuids@.len() && uuid_views(uuids@)[w] == u@;
            assert(uuids@[w]@ == u@);
        }
    }
    false
}

/// Marks the listed records that are still running finished abnormally
/// (exit code -1, ending at `end_time`) and returns how many it marked; a dry run changes nothing and
/// reports how many are listed.
pub fn apply_cleanup(
    records: &mut Vec<ExecutionRecord>,
    stale_uuids: &Vec<String>,
    end_time: &String,
    dry_run: bool,
) -> (cleaned: usize)
    ensures
        (views(final(records)@), cleaned as nat) == sweep_outcome(
            views(old(records)@),
            uuid_views(stale_uuids@),
            end_time@,
            dry_run,
        ),
{
    if dry_run {
        return stale_uuids.len();
    }
    let ghost orig = views(records@);
    let ghost us = uuid_views(stale_uuids@);
    let mut count: usize = 0;
    let mut i: usize = 0;
    while i < records.len()
        invariant
            i <= records@.len(),
            records@.len() == orig.len(),
            orig == views(old(records)@),
            us == uuid_views(stale_uuids@),
            count == count_where(orig.subrange(0, i as int), listed(us)),
            count <= i,
            forall|k: int| 0 <= k < i ==> records@[k]@ == swept(orig[k], us, end_time@),
            forall|k: int| i <= k < records@.len() ==> records@[k]@ == orig[k],
        decreases records.len() - i,
    {
        proof {
            let t = orig.subrange(0, i + 1);
            assert(t.subrange(0, i as int) == orig.subrange(0, i as int));
            assert(t[i as int] == orig[i as int]);
        }
        if records[i].status == ExecutionStatus::Executing && listed_uuid(
            stale_uuids,
            &records[i].uuid,
        ) {
            let mut r = records.remove(i);
            r.complete(-1, end_time.clone());
            records.insert(i, r);
            count += 1;
        }
        i += 1;
    }
    proof {
        assert(orig.subrange(0, records@.len() as int) == orig);
        assert(views(records@) =~= orig.map_values(|r: RecordView| swept(r, us, end_time@)));
    }
    count
}

/// A dry run reports the same candidates as a live run and leaves the
/// collection as it was; a live run changes only listed records, and never
/// one that has already finished.
pub proof fn lemma_dry_run_changes_nothing(
    rs: Seq<RecordView>,
    uuids: Seq<Seq<char>>,
    end: Seq<char>,
)
    ensures
        sweep_outcome(rs, uuids, end, true).0 == rs,
        sweep_outcome(rs, uuids, end, true).1 == uuids.len(),
        sweep_outcome(rs, uuids, end, false).0.len() == rs.len(),
        forall|j: int|
            0 <= j < rs.len() ==> (sweep_outcome(rs, uuids, end, false).0[j] != rs[j]
                ==> uuids.contains(rs[j].uuid)),
        forall|j: int|
            0 <= j < rs.len() && rs[j].status == ExecutionStatus::Executed ==> sweep_outcome(
                rs,
                uuids,
                end,
                false,
            ).0[j] == rs[j],
{
}


proof fn lemma_last_key_same(ps: Seq<(String, Value)>, qs: Seq<(String, Value)>, key: Seq<char>)
    requires
        ps.len() == qs.len(),
        forall|i: int| 0 <= i < ps.len() ==> (#[trigger] ps[i]).0@ == qs[i].0@,
    ensures
        last_key_index(ps, key) == last_key_index(qs, key),
    decreases ps.len(),
{
    if ps.len() > 0 {
        let n = ps.len() - 1;
        lemma_last_key_same(ps.subrange(0, n), qs.subrange(0, n), key);
    }
}

proof fn lemma_field_same(ps: Seq<(String, Value)>, qs: Seq<(String, Value)>, key: Seq<char>)
    requires
        ps.len() == qs.len(),
        forall|i: int|
            0 <= i < ps.len() ==> (#[trigger] ps[i]).0@ == qs[i].0@ && same_value(ps[i].1, qs[i].1),
    ensures
        field(ps, key) is None <==> field(qs, key) is None,
        field(ps, key) matches Some(a) ==> same_value(a, field(qs, key)->0),
{
    lemma_last_key_same(ps, qs, key);
    crate::record::lemma_last_key_index_bounds(ps, key);
    crate::record::lemma_last_key_index_bounds(qs, key);
}

/// Values that are the same describe the same record.
proof fn lemma_record_same(a: Value, b: Value)
    requires
        same_value(a, b),
    ensures
        record_of_value(a) == record_of_value(b),
{
    if let Value::Object(xs) = a {
        let ys = b->Object_0;
        let ps = xs@;
        let qs = ys@;
        assert forall|i: int| 0 <= i < ps.len() implies (#[trigger] ps[i]).0@ == qs[i].0@
            && same_value(ps[i].1, qs[i].1) by {
            assert(same_value(xs@[i].1, ys@[i].1));
        }
        lemma_field_same(ps, qs, crate::record::key_uuid());
        lemma_field_same(ps, qs, crate::record::key_pid());
        lemma_field_same(ps, qs, crate::record::key_status());
        lemma_field_same(ps, qs, crate::record::key_exit_code());
        lemma_field_same(ps, qs, crate::record::key_command());
        lemma_field_same(ps, qs, crate::record::key_log_path());
        lemma_field_same(ps, qs, crate::record::key_start_time());
        lemma_field_same(ps, qs, crate::record::key_end_time());
        lemma_field_same(ps, qs, crate::record::key_working_directory());
        lemma_field_same(ps, qs, crate::record::key_shell());
        lemma_field_same(ps, qs, crate::record::key_platform());
        lemma_field_same(ps, qs, crate::record::key_options());
        if let Some(Value::Object(os)) = field(ps, crate::record::key_options()) {
            let os2 = field(qs, crate::record::key_options())->0->Object_0;
            assert(option_pairs(os@) =~= option_pairs(os2@)) by {
                assert forall|j: int| 0 <= j < os@.len() implies option_pairs(os@)[j] == option_pairs(
                    os2@,
                )[j] by {
                    assert(same_value(os@[j].1, os2@[j].1));
                    crate::codec::lemma_same_value_text(os@[j].1, os2@[j].1);
                }
            }
        }
        assert(record_of_value(a) =~= record_of_value(b));
    }
}

/// The records that a list of values describes, skipping the values that
/// describe none.
pub open spec fn records_in(vs: Seq<Value>) -> Seq<RecordView>
    decreases vs.len(),
{
    if vs.len() == 0 {
        Seq::empty()
    } else {
        let rest = records_in(vs.subrange(0, vs.len() - 1));
        match record_of_value(vs[vs.len() - 1]) {
            Some(r) => rest.push(r),
            None => rest,
        }
    }
}

/// The records that a value holds: those of its elements that describe
/// one, when it is a list; none otherwise.
pub open spec fn records_of(v: Value) -> Seq<RecordView> {
    match v {
        Value::Array(vs) => records_in(vs@),
        _ => Seq::empty(),
    }
}

/// The collection as one structured value: a list of record objects.
pub fn records_to_value(records: &Vec<ExecutionRecord>) -> (r: Value)
    ensures
        r matches Value::Array(vs) && vs@.len() == records@.len() && forall|i: int|
            0 <= i < vs@.len() ==> record_of_value(#[trigger] vs@[i]) == Some(records@[i]@),
        well_formed(r),
{
    let mut vs: Vec<Value> = Vec::new();
    let mut i: usize = 0;
    while i < records.len()
        invariant
            i <= records@.len(),
            vs@.len() == i,
            forall|k: int| 0 <= k < i ==> record_of_value(#[trigger] vs@[k]) == Some(records@[k]@),
            forall|k: int| 0 <= k < i ==> well_formed(#[trigger] vs@[k]),
        decreases records.len() - i,
    {
        vs.push(records[i].to_value());
        i += 1;
    }
    Value::Array(vs)
}

/// The records that `v` holds: those of its elements that describe one,
/// when it is a list; none otherwise.
pub fn records_from_value(v: &Value) -> (r: Vec<ExecutionRecord>)
    ensures
        views(r@) == records_of(*v),
{
    let mut out: Vec<ExecutionRecord> = Vec::new();
    match v {
        Value::Array(vs) => {
            let mut i: usize = 0;
            while i < vs.len()
                invariant
                    i <= vs@.len(),
                    views(out@) == records_in(vs@.subrange(0, i as int)),
                decreases vs.len() - i,
            {
                proof {
                    let t = vs@.subrange(0, i + 1);
                    assert(t.subrange(0, i as int) == vs@.subrange(0, i as int));
                    assert(t[i as int] == vs@[i as int]);
                }
                let ghost before = views(out@);
                match ExecutionRecord::from_value(&vs[i]) {
                    Some(rec) => {
                        out.push(rec);
                        assert(views(out@) =~= before.push(out@[out@.len() - 1]@));
                    },
                    None => {},
                }
                i += 1;
            }
            assert(vs@.subrange(0, vs@.len() as int) == vs@);
            out
        },
        _ => {
            assert(views(out@) =~= Seq::empty());
            out
        },
    }
}

/// Writing records into a list of values and reading them back gives the
/// same records, in the same order.
pub proof fn lemma_records_round_trip(vs: Seq<Value>, rs: Seq<RecordView>)
    requires
        vs.len() == rs.len(),
        forall|i: int| 0 <= i < vs.len() ==> record_of_value(#[trigger] vs[i]) == Some(rs[i]),
    ensures
        records_in(vs) == rs,
    decreases vs.len(),
{
    if vs.len() > 0 {
        let n = vs.len() - 1;
        lemma_records_round_trip(vs.subrange(0, n), rs.subrange(0, n));
        assert(rs.subrange(0, n).push(rs[n]) == rs);
    }
}

/// The text of the primary file for `records`: the text of a readable value
/// that holds exactly these records.
pub fn records_text(records: &Vec<ExecutionRecord>) -> (r: String)
    ensures
        exists|v: Value| value_ok(v) && #[trigger] value_text(v) == r@ && records_of(v) == views(records@),
{
    let v = records_to_value(records);
    let r = encode(&v);
    proof {
        let vs = v->Array_0;
        lemma_records_round_trip(vs@, views(records@));
        assert(value_ok(v));
    }
    r
}

/// The records that the primary file's text holds: none when it is blank or
/// holds no list, and the decoding error when it cannot be decoded (the
/// caller then treats the collection as empty). The text of a readable value
/// gives exactly the records of that value, so what `records_text` wrote
/// reads back as the same records.
pub fn load_records(text: &str) -> (r: Result<Vec<ExecutionRecord>, DecodeError>)
    ensures
        (forall|i: int| 0 <= i < text@.len() ==> crate::codec::is_space(#[trigger] text@[i]))
            ==> (r matches Ok(rs) && rs@.len() == 0),
        forall|w: Value|
            value_ok(w) && #[trigger] value_text(w) == text@ ==> (r matches Ok(rs) && views(rs@)
                == records_of(w)),
        r matches Ok(rs) ==> exists|l: Link, v: Value|
            #[trigger] crate::codec::decodes_as(l, v) && views(rs@) == records_of(v),
        text@.len() > 0 && text@[0] == '(' && (exists|j: int|
            #[trigger] crate::codec::unclosed_after(text@, 0, j)) ==> r == Err::<
            Vec<ExecutionRecord>,
            DecodeError,
        >(DecodeError::UnterminatedString),
        (exists|sh: crate::codec::Shape| #[trigger] crate::codec::open_node_at(text@, 0, sh)) ==> r
            == Err::<Vec<ExecutionRecord>, DecodeError>(DecodeError::UnexpectedEnd),
        text@.len() > 0 && text@[0] == '(' && crate::codec::open_text(text@, 0) ==> r
            == Err::<Vec<ExecutionRecord>, DecodeError>(DecodeError::UnexpectedEnd),
        forall|sh: crate::codec::Shape|
            crate::codec::shape_ok(sh) && #[trigger] crate::codec::shape_text(sh) == text@ && (
            sh.parts[0] matches crate::codec::Part::Token(t) && !crate::codec::known_tag(t)) ==> r
                == Err::<Vec<ExecutionRecord>, DecodeError>(DecodeError::UnknownTypeMarker),
{
    match decode(text) {
        Ok(v) => {
            let rs = records_from_value(&v);
            assert(exists|l: Link| #[trigger] crate::codec::decodes_as(l, v));
            assert(v is Null ==> views(rs@).len() == 0);
            assert forall|w: Value| value_ok(w) && #[trigger] value_text(w) == text@ implies views(
                rs@,
            ) == records_of(w) by {
                lemma_records_of_same(v, w);
            }
            Ok(rs)
        },
        Err(e) => Err(e),
    }
}

/// The lock file's contents, as far as staleness is judged from them.
pub struct LockInfo {
    pub pid: Option<u64>,
    pub timestamp: Option<u64>,
}

/// Age in milliseconds beyond which a lock is considered abandoned.
pub const LOCK_STALE_MS: u64 = 60000;

/// Bound on the wait for the lock, in milliseconds.
pub const LOCK_TIMEOUT_MS: u64 = 30000;

/// Whether a lock may be taken over: it records no time, it is older than
/// the threshold, or its holder is known to be gone.
pub open spec fn lock_is_stale(info: LockInfo, now_ms: int, holder_alive: Option<bool>) -> bool {
    match info.timestamp {
        None => true,
        Some(ts) => now_ms - ts > LOCK_STALE_MS || (info.pid is Some && holder_alive == Some(
            false,
        )),
    }
}

/// What the acquisition loop does next.
#[derive(PartialEq, Eq, Structural, Clone, Copy, Debug)]
pub enum LockStep {
    /// Delete the abandoned lock file, then try to create it.
    RemoveStaleThenCreate,
    /// Try to create the lock file exclusively.
    Create,
    /// The wait is over: report failure.
    GiveUp,
}

/// The exclusive lock on a store, held by creating its lock file.
pub struct LockManager {
    lock_file_path: String,
    lock_acquired: bool,
}

impl LockManager {
    /// A manager of the lock at `lock_file_path`, not holding it.
    pub fn new(lock_file_path: &str) -> (r: LockManager)
        ensures
            r.path() == lock_file_path@,
            !r.held(),
    {
        LockManager { lock_file_path: lock_file_path.to_owned(), lock_acquired: false }
    }

    pub closed spec fn path(&self) -> Seq<char> {
        self.lock_file_path@
    }

    pub closed spec fn held(&self) -> bool {
        self.lock_acquired
    }

    /// The lock file.
    pub fn lock_file_path(&self) -> (r: &str)
        ensures
            r@ == self.path(),
    {
        self.lock_file_path.as_str()
    }

    /// Whether this manager holds the lock.
    pub fn is_acquired(&self) -> (r: bool)
        ensures
            r == self.held(),
    {
        self.lock_acquired
    }

    /// Whether the existing lock described by `info` may be taken over.
    pub fn is_lock_stale(info: &LockInfo, now_ms: u64, holder_alive: Option<bool>) -> (r: bool)
        ensures
            r == lock_is_stale(*info, now_ms as int, holder_alive),
    {
        match info.timestamp {
            None => true,
            Some(ts) => {
                if now_ms > ts && now_ms - ts > LOCK_STALE_MS {
                    return true;
                }
                info.pid.is_some() && holder_alive == Some(false)
            },
        }
    }

    /// The next step of the acquisition loop, after `elapsed_ms` of waiting
    /// within `timeout_ms`, given the lock file found (if any).
    pub fn next_step(
        elapsed_ms: u64,
        timeout_ms: u64,
        existing: &Option<LockInfo>,
        now_ms: u64,
        holder_alive: Option<bool>,
    ) -> (r: LockStep)
        ensures
            elapsed_ms >= timeout_ms ==> r == LockStep::GiveUp,
            elapsed_ms < timeout_ms ==> r == match *existing {
                Some(info) => if lock_is_stale(info, now_ms as int, holder_alive) {
                    LockStep::RemoveStaleThenCreate
                } else {
                    LockStep::Create
                },
                None => LockStep::Create,
            },
    {
        if elapsed_ms >= timeout_ms {
            return LockStep::GiveUp;
        }
        match existing {
            Some(info) => if LockManager::is_lock_stale(info, now_ms, holder_alive) {
                LockStep::RemoveStaleThenCreate
            } else {
                LockStep::Create
            },
            None => LockStep::Create,
        }
    }

    /// Records that the lock file was created by this manager.
    pub fn mark_acquired(&mut self)
        ensures
            final(self).held(),
            final(self).path() == old(self).path(),
    {
        self.lock_acquired = true;
    }

    /// Gives the lock up; says whether the lock file must be deleted (only
    /// when this manager held it).
    pub fn release(&mut self) -> (r: bool)
        ensures
            r == old(self).held(),
            !final(self).held(),
            final(self).path() == old(self).path(),
    {
        let was = self.lock_acquired;
        self.lock_acquired = false;
        was
    }
}

/// A lock that records a time more than the threshold before now can be
/// taken over without being released.
pub proof fn lemma_old_lock_reclaimable(info: LockInfo, now_ms: int, holder_alive: Option<bool>)
    requires
        info.timestamp matches Some(ts) && now_ms > ts + LOCK_STALE_MS,
    ensures
        lock_is_stale(info, now_ms, holder_alive),
{
}


/// Whether `a` comes strictly before `b` in character order.
pub open spec fn text_lt(a: Seq<char>, b: Seq<char>) -> bool
    decreases a.len(),
{
    if b.len() == 0 {
        false
    } else if a.len() == 0 {
        true
    } else if a[0] != b[0] {
        a[0] < b[0]
    } else {
        text_lt(a.drop_first(), b.drop_first())
    }
}

fn text_less(a: &Vec<char>, b: &Vec<char>) -> (r: bool)
    ensures
        r == text_lt(a@, b@),
{
    let mut i: usize = 0;
    assert(a@.subrange(0, a@.len() as int) == a@);
    assert(b@.subrange(0, b@.len() as int) == b@);
    while i < a.len() && i < b.len() && a[i] == b[i]
        invariant
            i <= a@.len(),
            i <= b@.len(),
            text_lt(a@, b@) == text_lt(a@.subrange(i as int, a@.len() as int), b@.subrange(
                i as int,
                b@.len() as int,
            )),
        decreases a.len() - i,
    {
        proof {
            let x = a@.subrange(i as int, a@.len() as int);
            let y = b@.subrange(i as int, b@.len() as int);
            assert(x.drop_first() == a@.subrange(i + 1, a@.len() as int));
            assert(y.drop_first() == b@.subrange(i + 1, b@.len() as int));
        }
        i += 1;
    }
    let ghost x = a@.subrange(i as int, a@.len() as int);
    let ghost y = b@.subrange(i as int, b@.len() as int);
    if i == b.len() {
        assert(y.len() == 0);
        false
    } else if i == a.len() {
        assert(x.len() == 0);
        true
    } else {
        assert(x[0] == a@[i as int] && y[0] == b@[i as int]);
        a[i] < b[i]
    }
}

/// The position of the first record that started latest among the first `n`.
pub open spec fn latest_index(rs: Seq<RecordView>, n: int) -> int
    decreases n,
{
    if n <= 1 {
        0
    } else {
        let b = latest_index(rs, n - 1);
        if text_lt(rs[b].start_time, rs[n - 1].start_time) {
            n - 1
        } else {
            b
        }
    }
}

proof fn lemma_latest_index_bounds(rs: Seq<RecordView>, n: int)
    requires
        1 <= n,
    ensures
        0 <= latest_index(rs, n) < n,
    decreases n,
{
    if n > 1 {
        lemma_latest_index_bounds(rs, n - 1);
    }
}

/// The `k` latest records, latest first; records that started at the same
/// time keep their order.
pub open spec fn recent(rs: Seq<RecordView>, k: nat) -> Seq<RecordView>
    decreases k,
{
    if k == 0 || rs.len() == 0 {
        Seq::empty()
    } else {
        let m = latest_index(rs, rs.len() as int);
        seq![rs[m]] + recent(rs.remove(m), (k - 1) as nat)
    }
}

/// The `limit` most recently started records, latest first.
pub fn get_recent(records: Vec<ExecutionRecord>, limit: usize) -> (r: Vec<ExecutionRecord>)
    ensures
        views(r@) == recent(views(records@), limit as nat),
{
    let ghost orig = views(records@);
    let mut rest = records;
    let mut out: Vec<ExecutionRecord> = Vec::new();
    let mut k: usize = limit;
    assert(views(out@) + recent(views(rest@), k as nat) == recent(orig, limit as nat));
    while k > 0 && rest.len() > 0
        invariant
            views(out@) + recent(views(rest@), k as nat) == recent(orig, limit as nat),
        decreases k,
    {
        let ghost vs = views(rest@);
        let n = rest.len();
        let mut best: usize = 0;
        let mut best_start = chars_of(rest[0].start_time.as_str());
        let mut j: usize = 1;
        while j < n
            invariant
                1 <= j <= n,
                n == rest@.len(),
                vs == views(rest@),
                best as int == latest_index(vs, j as int),
                best < j,
                best_start@ == vs[best as int].start_time,
            decreases n - j,
        {
            let cand = chars_of(rest[j].start_time.as_str());
            if text_less(&best_start, &cand) {
                best = j;
                best_start = cand;
            }
            j += 1;
        }
        proof {
            lemma_latest_index_bounds(vs, n as int);
        }
        let ghost before = views(out@);
        let picked = rest.remove(best);
        let ghost pv = picked@;
        out.push(picked);
        proof {
            assert(views(rest@) =~= vs.remove(best as int));
            assert(views(out@) =~= before.push(pv));
            assert(pv == vs[best as int]);
            assert(recent(vs, k as nat) == seq![vs[best as int]] + recent(
                vs.remove(best as int),
                (k - 1) as nat,
            ));
            assert(before + recent(vs, k as nat) =~= before.push(pv) + recent(
                vs.remove(best as int),
                (k - 1) as nat,
            ));
        }
        k -= 1;
    }
    proof {
        if k == 0 {
            assert(recent(views(rest@), 0) =~= Seq::<RecordView>::empty());
        } else {
            assert(recent(views(rest@), k as nat) =~= Seq::<RecordView>::empty());
        }
        assert(views(out@) + Seq::<RecordView>::empty() =~= views(out@));
    }
    out
}


/// Group 1 of each successive non-overlapping match of `pattern` in `text`.
pub uninterp spec fn regex_first_groups(pattern: Seq<char>, text: Seq<char>) -> Seq<Seq<char>>;

/// Relies on regex's `Regex::new` and `Regex::captures_iter`: the matches
/// depend on the pattern and the text alone (a group that took part in no
/// match is given as empty; a pattern that does not compile matches nothing).
#[verifier::external_body]
fn first_groups(pattern: &str, text: &str) -> (r: Vec<String>)
    ensures
        r@.map_values(|s: String| s@) == regex_first_groups(pattern@, text@),
{
    let mut out = Vec::new();
    if let Ok(re) = regex::Regex::new(pattern) {
        for caps in re.captures_iter(text) {
            out.push(match caps.get(1) {
                Some(m) => m.as_str().to_string(),
                None => String::new(),
            });
        }
    }
    out
}

pub open spec fn record_link_pattern() -> Seq<char> {
    "ExecutionRecord\\s+([a-f0-9-]{36})"@
}

/// The record identifiers that the secondary index lists in `output`, in
/// lower case.
pub open spec fn indexed_uuids(output: Seq<char>) -> Set<Seq<char>> {
    regex_first_groups(record_link_pattern(), output).map_values(
        |u: Seq<char>| crate::args::lower_of(u),
    ).to_set()
}

/// Whether the primary records and the indexed identifiers agree: as many
/// of each, and every record's identifier indexed.
pub open spec fn agrees(rs: Seq<RecordView>, ids: Set<Seq<char>>) -> bool {
    rs.len() == ids.len() && forall|i: int|
        0 <= i < rs.len() ==> ids.contains(crate::args::lower_of(#[trigger] rs[i].uuid))
}

fn contains_str(v: &Vec<String>, s: &String) -> (r: bool)
    ensures
        r == v@.map_values(|x: String| x@).contains(s@),
{
    let mut i: usize = 0;
    while i < v.len()
        invariant
            i <= v@.len(),
            forall|k: int| 0 <= k < i ==> v@[k]@ != s@,
        decreases v.len() - i,
    {
        if str_eq(v[i].as_str(), s.as_str()) {
            assert(v@.map_values(|x: String| x@)[i as int] == s@);
            return true;
        }
        i += 1;
    }
    false
}

impl ExecutionStore {
    /// Compares the primary records with what the secondary index answered
    /// to a listing query: `Ok` with its output, or `Err` with its failure.
    pub fn verify_consistency(&self, lino_records: &Vec<ExecutionRecord>, links_output: Result<
        &str,
        &str,
    >) -> (r: ConsistencyResult)
        ensures
            r.lino_count == lino_records@.len(),
            !self.links_enabled() ==> r.consistent && r.links_count == 0 && r.errors@.len() == 1,
            self.links_enabled() ==> match links_output {
                Err(_) => !r.consistent && r.errors@.len() == 1,
                Ok(out) => r.links_count == indexed_uuids(out@).len() && r.consistent == agrees(
                    views(lino_records@),
                    indexed_uuids(out@),
                ) && (r.consistent <==> r.errors@.len() == 0),
            },
    {
        let lino_count = lino_records.len();
        let mut errors: Vec<String> = Vec::new();
        if !self.use_links {
            errors.push("clink not installed - links database not available".to_owned());
            return ConsistencyResult { consistent: true, lino_count, links_count: 0, errors };
        }
        let out = match links_output {
            Ok(out) => out,
            Err(e) => {
                let mut m = "Failed to query links database: ".to_owned();
                push_str(&mut m, e);
                errors.push(m);
                return ConsistencyResult { consistent: false, lino_count, links_count: 0, errors };
            },
        };
        let found = first_groups("ExecutionRecord\\s+([a-f0-9-]{36})", out);
        let ghost lowered = found@.map_values(|s: String| s@).map_values(
            |u: Seq<char>| crate::args::lower_of(u),
        );
        let mut ids: Vec<String> = Vec::new();
        let mut i: usize = 0;
        while i < found.len()
            invariant
                i <= found@.len(),
                lowered == found@.map_values(|s: String| s@).map_values(
                    |u: Seq<char>| crate::args::lower_of(u),
                ),
                ids@.map_values(|x: String| x@).no_duplicates(),
                ids@.map_values(|x: String| x@).to_set() == lowered.subrange(0, i as int).to_set(),
            decreases found.len() - i,
        {
            let l = crate::args::to_lower(found[i].as_str());
            let ghost before = ids@.map_values(|x: String| x@);
            proof {
                assert(lowered.subrange(0, i + 1) =~= lowered.subrange(0, i as int).push(l@));
                lowered.subrange(0, i as int).lemma_push_to_set_commute(l@);
            }
            if !contains_str(&ids, &l) {
                ids.push(l);
                proof {
                    assert(ids@.map_values(|x: String| x@) =~= before.push(l@));
                    before.lemma_push_to_set_commute(l@);
                }
            } else {
                proof {
                    assert(before.to_set().insert(l@) =~= before.to_set());
                }
            }
            i += 1;
        }
        proof {
            assert(lowered.subrange(0, found@.len() as int) == lowered);
            ids@.map_values(|x: String| x@).unique_seq_to_set();
        }
        let links_count = ids.len();
        let mut consistent = lino_count == links_count;
        if !consistent {
            errors.push("Record count mismatch between lino and links".to_owned());
        }
        let ghost idset = indexed_uuids(out@);
        let ghost vs = views(lino_records@);
        let mut j: usize = 0;
        let mut all_found = true;
        while j < lino_records.len()
            invariant
                j <= lino_records@.len(),
                vs == views(lino_records@),
                idset == ids@.map_values(|x: String| x@).to_set(),
                all_found == forall|k: int|
                    0 <= k < j ==> idset.contains(crate::args::lower_of(#[trigger] vs[k].uuid)),
                consistent == (lino_count == links_count && all_found),
                consistent <==> errors@.len() == 0,
            decreases lino_records.len() - j,
        {
            let l = crate::args::to_lower(lino_records[j].uuid.as_str());
            proof {
                assert(vs[j as int].uuid == lino_records@[j as int].uuid@);
                assert(idset.contains(l@) == ids@.map_values(|x: String| x@).contains(l@));
            }
            if !contains_str(&ids, &l) {
                let mut m = "Record ".to_owned();
                push_str(&mut m, lino_records[j].uuid.as_str());
                push_str(&mut m, " missing from links database");
                errors.push(m);
                all_found = false;
                consistent = false;
            }
            j += 1;
        }
        ConsistencyResult { consistent, lino_count, links_count, errors }
    }
}


proof fn lemma_records_in_same(xs: Seq<Value>, ys: Seq<Value>)
    requires
        xs.len() == ys.len(),
        forall|i: int| 0 <= i < xs.len() ==> same_value(#[trigger] xs[i], ys[i]),
    ensures
        records_in(xs) == records_in(ys),
    decreases xs.len(),
{
    if xs.len() > 0 {
        let n = xs.len() - 1;
        lemma_records_in_same(xs.subrange(0, n), ys.subrange(0, n));
        lemma_record_same(xs[n], ys[n]);
    }
}

/// Values that are the same hold the same records.
pub proof fn lemma_records_of_same(a: Value, b: Value)
    requires
        same_value(a, b),
    ensures
        records_of(a) == records_of(b),
{
    if let Value::Array(xs) = a {
        let ys = b->Array_0;
        lemma_records_in_same(xs@, ys@);
    }
}

} // verus!
