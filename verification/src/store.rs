//! The rows of the work database: how signals, organizations, pairs and runs are written down
//! and read back.

use crate::order::is_sorted_set_of_u32;
use crate::orgs::{
    copy_opt_text, empty_state, is_normal, is_plain, is_plain_of, normalizes, normalizes_all,
    opt_text, org_views, plain_domain, registered_all, OrgMap, OrgRecord, OrgState, OrgView,
};
use crate::signal::{
    keyed_by_pair, pair_key, pair_text, EntryView, PairStateEntry, PairStateStore, SignalEnvelope, SignalView,
};
use crate::sync::{
    after_changes, changes, changes_sync, keys_of, lists_live, synced, wanted_views, Row,
    StoredView,
};
use crate::text::{
    decimal, decimal_is_digits, decimals, format_u64, is_digit, is_space, join, joined, number_in, parse_u32,
    parse_undoes_format, same_text, split_char, split_on, split_undoes_join, texts, trim, trimmed,
    trimming_takes_blanks_off_the_ends,
};
use crate::textmap::TextMap;
use crate::time::{
    begins_with_day, date_text, four_digit_year_day, instant_day, iso_text, parse_utc_iso,
    parsed_iso, utc_date, utc_iso, whole_seconds, Instant,
};
use vstd::prelude::*;
use vstd::string::StringExecFns;

verus! {

// ---- names ----

/// The name under which the database is announced.
pub const DB_NAME: &'static str = "bgp-analyzer";

/// The database's file name in the state directory.
pub const SQLITE_FILENAME: &'static str = "bgp-analyzer.sqlite";

/// The version of the schema that a new database has.
pub const SCHEMA_BASELINE_VERSION: i64 = 1;

/// The tables whose changes are captured.
pub const CAPTURED_TABLES: [&'static str; 4] = [
    "network_contact",
    "orgs",
    "signal_runs",
    "org_map_runs",
];

/// A file name in a directory.
pub open spec fn path_in(dir: Seq<char>, name: Seq<char>) -> Seq<char> {
    if dir.len() == 0 || dir.last() == '/' {
        dir + name
    } else {
        dir.push('/') + name
    }
}

/// The path of the database in a state directory.
pub fn work_db_path(state_dir: &str) -> (r: String)
    ensures
        r@ == path_in(state_dir@, SQLITE_FILENAME@),
{
    let mut out = state_dir.to_owned();
    let chars = crate::text::chars_of(state_dir);
    let n: usize = chars.len();
    if n > 0 && chars[n - 1] != '/' {
        out.push('/');
    }
    out.append(SQLITE_FILENAME);
    out
}

/// Tells whether a path asks for a database in memory.
pub fn is_memory_path(path: &str) -> (r: bool)
    ensures
        r == (path@ == ":memory:"@),
{
    same_text(path, ":memory:")
}

// ---- lists in columns ----

/// Networks as numbers.
pub open spec fn asn_numbers(v: Seq<u32>) -> Seq<nat> {
    Seq::new(v.len(), |i: int| v[i] as nat)
}

/// Writes texts as one, with commas between them.
pub fn join_csv(parts: &[String]) -> (r: String)
    ensures
        r@ == joined(texts(parts@), ","@),
{
    join(parts, ",")
}

/// Writes numbers as one text, with commas between them.
pub fn join_asns(asns: &[u32]) -> (r: String)
    ensures
        r@ == joined(decimals(asn_numbers(asns@)), ","@),
{
    let mut parts: Vec<String> = Vec::new();
    let mut i: usize = 0;
    while i < asns.len()
        invariant
            i <= asns@.len(),
            parts@.len() == i,
            forall|j: int| 0 <= j < i ==> (#[trigger] parts@[j])@ == decimal(asns@[j] as nat),
        decreases asns@.len() - i,
    {
        parts.push(format_u64(asns[i] as u64));
        i += 1;
    }
    assert(texts(parts@) =~= decimals(asn_numbers(asns@)));
    join(&parts, ",")
}

/// The texts that a column lists.
pub open spec fn csv_parts(s: Seq<char>) -> Seq<Seq<char>> {
    if s.len() == 0 {
        Seq::empty()
    } else {
        split_on(s, ',')
    }
}

/// Reads the texts that a column lists.
pub fn split_csv(s: &str) -> (r: Vec<String>)
    ensures
        texts(r@) == csv_parts(s@),
{
    proof {
        reveal_strlit("");
        assert(s@.len() == 0 ==> s@ =~= ""@);
    }
    if same_text(s, "") {
        let v: Vec<String> = Vec::new();
        assert(texts(v@) =~= Seq::empty());
        v
    } else {
        split_char(s, ',')
    }
}

/// What keeps rows from being written or read.
#[derive(Debug)]
pub enum StoreError {
    /// A column of networks holds something else.
    BadAsns { raw: String },
    /// A column of times holds something else.
    BadTime { raw: String },
    /// There is no organization to write.
    EmptyOrgMap,
    /// Two signals are of one pair.
    DuplicatePair { key: String },
}

/// The numbers that texts spell, where all of them do.
pub open spec fn numbers_of(parts: Seq<Seq<char>>) -> Option<Seq<u32>> {
    if forall|i: int|
        0 <= i < parts.len() ==> number_in(#[trigger] parts[i], u32::MAX as nat) is Some {
        Some(Seq::new(parts.len(), |i: int| number_in(parts[i], u32::MAX as nat)->0 as u32))
    } else {
        None
    }
}

/// Reads the networks that a column lists.
pub fn split_asns(s: &str) -> (r: Result<Vec<u32>, StoreError>)
    ensures
        match r {
            Ok(v) => numbers_of(csv_parts(s@)) == Some(v@),
            Err(e) => numbers_of(csv_parts(s@)) is None && (e matches StoreError::BadAsns { raw }
                && raw@ == s@),
        },
{
    let parts = split_csv(s);
    let ghost all = csv_parts(s@);
    let mut out: Vec<u32> = Vec::new();
    let mut i: usize = 0;
    while i < parts.len()
        invariant
            i <= parts@.len(),
            texts(parts@) == all,
            all == csv_parts(s@),
            out@.len() == i,
            forall|j: int|
                0 <= j < i ==> number_in(#[trigger] all[j], u32::MAX as nat) == Some(
                    out@[j] as nat,
                ),
        decreases parts@.len() - i,
    {
        assert(all[i as int] == parts@[i as int]@);
        match parse_u32(parts[i].as_str()) {
            Some(n) => {
                out.push(n);
            },
            None => {
                assert(number_in(all[i as int], u32::MAX as nat) is None);
                return Err(StoreError::BadAsns { raw: s.to_owned() });
            },
        }
        i += 1;
    }
    proof {
        assert(all.len() == out@.len());
        assert(numbers_of(all)->0 =~= out@);
    }
    Ok(out)
}

/// A text without surrounding space, or nothing where that leaves nothing.
pub open spec fn null_if_blank(s: Option<Seq<char>>) -> Option<Seq<char>> {
    match s {
        Some(t) => if trimmed(t).len() > 0 {
            Some(trimmed(t))
        } else {
            None
        },
        None => None,
    }
}

/// A text without surrounding space, or nothing where that leaves nothing.
pub fn empty_to_null(s: &Option<String>) -> (r: Option<String>)
    ensures
        opt_text(r) == null_if_blank(opt_text(*s)),
{
    match s {
        Some(t) => {
            let u = trim(t.as_str());
            proof {
                reveal_strlit("");
                assert(u@.len() == 0 ==> u@ =~= ""@);
            }
            if same_text(u.as_str(), "") {
                None
            } else {
                Some(u)
            }
        },
        None => None,
    }
}

/// A list of networks reads back as it was written.
pub proof fn asns_read_back(v: Seq<u32>)
    ensures
        numbers_of(csv_parts(joined(decimals(asn_numbers(v)), ","@))) == Some(v),
{
    reveal_strlit(",");
    assert(","@ =~= seq![',']);
    let parts = decimals(asn_numbers(v));
    let s = joined(parts, ","@);
    if v.len() == 0 {
        assert(numbers_of(csv_parts(s))->0 =~= v);
    } else {
        assert forall|i: int| 0 <= i < parts.len() implies !(#[trigger] parts[i]).contains(',') by {
            decimal_is_digits(v[i] as nat);
            if parts[i].contains(',') {
                let j = choose|j: int| 0 <= j < parts[i].len() && parts[i][j] == ',';
                assert(is_digit(parts[i][j]));
            }
        }
        split_undoes_join(parts, ',');
        decimal_is_digits(v[0] as nat);
        lemma_joined_len(parts, ","@);
        assert forall|i: int| 0 <= i < parts.len() implies number_in(
            #[trigger] parts[i],
            u32::MAX as nat,
        ) == Some(v[i] as nat) by {
            parse_undoes_format(v[i] as nat, u32::MAX as nat);
        }
        assert(numbers_of(csv_parts(s))->0 =~= v);
    }
}

proof fn lemma_joined_len(parts: Seq<Seq<char>>, sep: Seq<char>)
    requires
        parts.len() > 0,
    ensures
        joined(parts, sep).len() >= parts[0].len(),
        parts.len() > 1 ==> joined(parts, sep).len() >= sep.len(),
    decreases parts.len(),
{
    if parts.len() > 1 {
        lemma_joined_len(parts.drop_last(), sep);
    }
}

/// A list of texts reads back as it was written, unless one holds a comma or the list is of one
/// empty text.
pub proof fn texts_read_back(parts: Seq<Seq<char>>)
    requires
        forall|i: int| 0 <= i < parts.len() ==> !(#[trigger] parts[i]).contains(','),
        parts.len() == 1 ==> parts[0].len() > 0,
    ensures
        csv_parts(joined(parts, ","@)) == parts,
{
    reveal_strlit(",");
    assert(","@ =~= seq![',']);
    if parts.len() > 0 {
        split_undoes_join(parts, ',');
        lemma_joined_len(parts, ","@);
    } else {
        assert(parts =~= Seq::empty());
    }
}

// ---- runs ----

/// How a run came out.
#[derive(Clone, Copy, Debug, PartialEq, Eq, Structural)]
pub enum SignalRunStatus {
    Complete,
    SnapshotOnly,
    Error,
}

/// The name of a status.
pub open spec fn status_text(s: SignalRunStatus) -> Seq<char> {
    match s {
        SignalRunStatus::Complete => "ok"@,
        SignalRunStatus::SnapshotOnly => "snapshot_only"@,
        SignalRunStatus::Error => "error"@,
    }
}

impl SignalRunStatus {
    /// The name of the status.
    pub fn as_str(self) -> (r: &'static str)
        ensures
            r@ == status_text(self),
    {
        match self {
            SignalRunStatus::Complete => "ok",
            SignalRunStatus::SnapshotOnly => "snapshot_only",
            SignalRunStatus::Error => "error",
        }
    }
}

/// One run of the daily job.
#[derive(Debug)]
pub struct SignalRun {
    pub as_of_date: String,
    pub as_of: Instant,
    pub prior_as_of: Option<Instant>,
    pub started_at: Instant,
    pub status: SignalRunStatus,
    pub signal_count: i64,
}

impl SignalRun {
    /// The run's times are ones that the calendar holds.
    pub open spec fn wf(&self) -> bool {
        &&& self.as_of.wf()
        &&& self.prior_as_of is Some ==> self.prior_as_of->0.wf()
        &&& self.started_at.wf()
    }
}

/// A run as it is written down.
#[derive(Debug)]
pub struct RunRow {
    pub as_of_date: String,
    pub as_of: String,
    pub prior_as_of: Option<String>,
    pub started_at: String,
    pub finished_at: String,
    pub status: String,
    pub signal_count: i64,
}

/// The stored form of an instant.
pub open spec fn iso_of(i: Instant) -> Seq<char> {
    iso_text(i.secs as int, i.nanos as int)
}

/// The stored form of an instant, where there is one.
pub open spec fn opt_iso(i: Option<Instant>) -> Option<Seq<char>> {
    match i {
        Some(i) => Some(iso_of(i)),
        None => None,
    }
}

/// Writes down a run that has finished.
pub fn run_row(run: &SignalRun, finished_at: Instant) -> (r: RunRow)
    requires
        run.wf(),
        finished_at.wf(),
    ensures
        r.as_of_date@ == run.as_of_date@,
        r.as_of@ == iso_of(run.as_of),
        opt_text(r.prior_as_of) == opt_iso(run.prior_as_of),
        r.started_at@ == iso_of(run.started_at),
        r.finished_at@ == iso_of(finished_at),
        r.status@ == status_text(run.status),
        r.signal_count == run.signal_count,
{
    RunRow {
        as_of_date: run.as_of_date.clone(),
        as_of: utc_iso(run.as_of),
        prior_as_of: match run.prior_as_of {
            Some(p) => Some(utc_iso(p)),
            None => None,
        },
        started_at: utc_iso(run.started_at),
        finished_at: utc_iso(finished_at),
        status: run.status.as_str().to_owned(),
        signal_count: run.signal_count,
    }
}

/// What a crawl of organizations committed.
#[derive(Debug)]
pub struct OrgMapCommit {
    pub as_of_date: String,
    pub built_at: String,
    pub org_count: i64,
}

/// What a crawl committed that started and finished at given times.
pub fn org_map_commit(started_at: Instant, finished_at: Instant, org_count: i64) -> (r: OrgMapCommit)
    requires
        started_at.wf(),
        finished_at.wf(),
    ensures
        r.as_of_date@ == date_text(instant_day(started_at)),
        r.built_at@ == iso_of(finished_at),
        r.org_count == org_count,
{
    OrgMapCommit { as_of_date: utc_date(started_at), built_at: utc_iso(finished_at), org_count }
}

// ---- organizations ----

/// An organization as it is written down.
#[derive(Debug)]
pub struct OrgRow {
    pub org_id: String,
    pub name: String,
    pub asns: String,
    pub domains: String,
    pub external_id: Option<String>,
}

/// What a row of an organization says.
#[verifier::ext_equal]
pub struct OrgRowView {
    pub org_id: Seq<char>,
    pub name: Seq<char>,
    pub asns: Seq<char>,
    pub domains: Seq<char>,
    pub external_id: Option<Seq<char>>,
}

impl View for OrgRow {
    type V = OrgRowView;

    open spec fn view(&self) -> OrgRowView {
        OrgRowView {
            org_id: self.org_id@,
            name: self.name@,
            asns: self.asns@,
            domains: self.domains@,
            external_id: opt_text(self.external_id),
        }
    }
}

fn same_opt(a: &Option<String>, b: &Option<String>) -> (r: bool)
    ensures
        r == (opt_text(*a) == opt_text(*b)),
{
    match (a, b) {
        (Some(x), Some(y)) => same_text(x.as_str(), y.as_str()),
        (None, None) => true,
        _ => false,
    }
}

impl Row for OrgRow {
    fn same(&self, other: &Self) -> (r: bool) {
        same_text(self.org_id.as_str(), other.org_id.as_str()) && same_text(
            self.name.as_str(),
            other.name.as_str(),
        ) && same_text(self.asns.as_str(), other.asns.as_str()) && same_text(
            self.domains.as_str(),
            other.domains.as_str(),
        ) && same_opt(&self.external_id, &other.external_id)
    }

    fn copy(&self) -> (r: Self) {
        OrgRow {
            org_id: self.org_id.clone(),
            name: self.name.clone(),
            asns: self.asns.clone(),
            domains: self.domains.clone(),
            external_id: copy_opt_text(&self.external_id),
        }
    }
}

/// The row of an organization.
pub open spec fn org_row_of(o: OrgView) -> OrgRowView {
    OrgRowView {
        org_id: o.org_id,
        name: o.name,
        asns: joined(decimals(asn_numbers(o.asns)), ","@),
        domains: joined(o.domains, ","@),
        external_id: null_if_blank(o.external_id),
    }
}

/// Writes down an organization.
pub fn org_row(o: &OrgRecord) -> (r: OrgRow)
    ensures
        r@ == org_row_of(o@),
{
    OrgRow {
        org_id: o.org_id.clone(),
        name: o.name.clone(),
        asns: join_asns(&o.asns),
        domains: join_csv(&o.domains),
        external_id: empty_to_null(&o.external_id),
    }
}

/// The rows of the organizations of a map, by identifier.
pub open spec fn org_rows_of(st: OrgState) -> Map<Seq<char>, OrgRowView> {
    st.records.map_values(|o: OrgView| org_row_of(o))
}

/// Writes down the organizations of a map; a map without any is refused.
pub fn org_rows(map: &OrgMap) -> (r: Result<TextMap<OrgRow>, StoreError>)
    requires
        map.wf(),
    ensures
        match r {
            Ok(m) => map.state().keys.len() > 0 && m.wf() && m.keys() == map.state().keys
                && wanted_views(m.map()) == org_rows_of(map.state()),
            Err(e) => map.state().keys.len() == 0 && e is EmptyOrgMap,
        },
{
    if map.is_empty() {
        return Err(StoreError::EmptyOrgMap);
    }
    let ghost st = map.state();
    let n: usize = map.len();
    let mut out: TextMap<OrgRow> = TextMap::new();
    let mut i: usize = 0;
    proof {
        map.lemma_wf();
        assert(out.keys() =~= st.keys.subrange(0, 0));
    }
    while i < n
        invariant
            i <= n,
            n == st.keys.len(),
            map.wf(),
            st == map.state(),
            st.sound(),
            out.wf(),
            out.keys() == st.keys.subrange(0, i as int),
            forall|j: int|
                0 <= j < i ==> out.map().contains_key(#[trigger] st.keys[j])
                    && out.map()[st.keys[j]]@ == org_row_of(st.records[st.keys[j]]),
        decreases n - i,
    {
        let o = map.org_at(i);
        let ghost before = out;
        let row = org_row(o);
        let ghost id = st.keys[i as int];
        proof {
            assert(o@.org_id == id);
            before.lemma_wf();
            assert(!before.map().contains_key(id)) by {
                if before.map().contains_key(id) {
                    let k = before.keys().index_of(id);
                    assert(st.keys[k] == id);
                }
            }
        }
        out.insert(o.org_id.clone(), row);
        proof {
            assert(out.keys() =~= st.keys.subrange(0, i as int + 1));
            assert forall|j: int| 0 <= j < i + 1 implies out.map().contains_key(
                #[trigger] st.keys[j],
            ) && out.map()[st.keys[j]]@ == org_row_of(st.records[st.keys[j]]) by {
                if j < i {
                    assert(before.map().contains_key(st.keys[j]));
                    assert(st.keys[j] != id);
                }
            }
        }
        i += 1;
    }
    proof {
        assert(out.keys() =~= st.keys);
        assert forall|k: Seq<char>|
            (wanted_views(out.map()).contains_key(k) <==> org_rows_of(st).contains_key(k)) && (
            org_rows_of(st).contains_key(k) ==> #[trigger] wanted_views(out.map())[k]
                == org_rows_of(st)[k]) by {
            assert(st.keys.contains(k) <==> st.records.contains_key(k));
            out.lemma_wf();
            if st.keys.contains(k) {
                let j = choose|j: int| 0 <= j < st.keys.len() && st.keys[j] == k;
                assert(out.map().contains_key(st.keys[j]));
            }
            if out.map().contains_key(k) {
                let j = out.keys().index_of(k);
                assert(st.keys[j] == k);
            }
        }
        assert(wanted_views(out.map()) =~= org_rows_of(st));
    }
    Ok(out)
}

/// The organization that a row writes down, where its networks can be read.
pub open spec fn record_of_row(r: OrgRowView) -> Option<OrgView> {
    match numbers_of(csv_parts(r.asns)) {
        Some(asns) => Some(
            OrgView {
                org_id: r.org_id,
                name: r.name,
                asns,
                domains: csv_parts(r.domains),
                prefix_count_hint: None,
                external_id: r.external_id,
            },
        ),
        None => None,
    }
}

/// Reads an organization.
pub fn record_from_row(row: &OrgRow) -> (r: Result<OrgRecord, StoreError>)
    ensures
        match r {
            Ok(o) => record_of_row(row@) == Some(o@),
            Err(e) => record_of_row(row@) is None && (e matches StoreError::BadAsns { raw }
                && raw@ == row@.asns),
        },
{
    match split_asns(row.asns.as_str()) {
        Ok(asns) => Ok(
            OrgRecord {
                org_id: row.org_id.clone(),
                name: row.name.clone(),
                asns,
                domains: split_csv(row.domains.as_str()),
                prefix_count_hint: None,
                external_id: copy_opt_text(&row.external_id),
            },
        ),
        Err(e) => Err(e),
    }
}

/// What rows of organizations say.
pub open spec fn org_row_views(v: Seq<OrgRow>) -> Seq<OrgRowView> {
    Seq::new(v.len(), |i: int| v[i]@)
}

/// The organizations that the first rows write down.
pub open spec fn reads_as(rows: Seq<OrgRowView>, rs: Seq<OrgView>) -> bool {
    rows.len() == rs.len() && forall|i: int|
        0 <= i < rows.len() ==> record_of_row(#[trigger] rows[i]) == Some(rs[i])
}

/// The first row whose networks cannot be read.
pub open spec fn first_unreadable(rows: Seq<OrgRowView>, i: int) -> bool {
    &&& 0 <= i < rows.len()
    &&& record_of_row(rows[i]) is None
    &&& forall|j: int| 0 <= j < i ==> record_of_row(#[trigger] rows[j]) is Some
}

/// Reads the organizations of rows into a map.
pub fn live_org_map(rows: &[OrgRow]) -> (r: Result<OrgMap, StoreError>)
    ensures
        match r {
            Ok(map) => map.wf() && exists|rs: Seq<OrgView>, ns: Seq<OrgView>| #[trigger]
                reads_as(org_row_views(rows@), rs) && #[trigger] normalizes_all(rs, ns)
                    && map.state() == registered_all(empty_state(), ns),
            Err(e) => exists|i: int| #[trigger]
                first_unreadable(org_row_views(rows@), i) && (e matches StoreError::BadAsns { raw }
                    && raw@ == org_row_views(rows@)[i].asns),
        },
{
    let ghost all = org_row_views(rows@);
    let mut records: Vec<OrgRecord> = Vec::new();
    let mut i: usize = 0;
    while i < rows.len()
        invariant
            i <= rows@.len(),
            all == org_row_views(rows@),
            records@.len() == i,
            forall|j: int|
                0 <= j < i ==> record_of_row(#[trigger] all[j]) == Some(records@[j]@),
        decreases rows@.len() - i,
    {
        assert(all[i as int] == rows@[i as int]@);
        match record_from_row(&rows[i]) {
            Ok(o) => {
                records.push(o);
            },
            Err(e) => {
                assert(first_unreadable(all, i as int));
                return Err(e);
            },
        }
        i += 1;
    }
    let ghost rs = org_views(records@);
    proof {
        assert forall|j: int| 0 <= j < all.len() implies record_of_row(#[trigger] all[j]) == Some(
            rs[j],
        ) by {}
        assert(reads_as(all, rs));
    }
    Ok(OrgMap::from_records(records))
}

/// An organization reads back as it was written, but for the hint, which is not written, and for
/// a blank reference, unless one of its domains holds a comma or its only domain is empty.
pub proof fn orgs_read_back(o: OrgView)
    requires
        forall|i: int| 0 <= i < o.domains.len() ==> !(#[trigger] o.domains[i]).contains(','),
        o.domains.len() == 1 ==> o.domains[0].len() > 0,
    ensures
        record_of_row(org_row_of(o)) == Some(
            OrgView {
                prefix_count_hint: None,
                external_id: null_if_blank(o.external_id),
                ..o
            },
        ),
{
    asns_read_back(o.asns);
    texts_read_back(o.domains);
}

/// An organization is read back: with the same identifier, name, networks and domains, the
/// reference trimmed and `None` where it is blank, and without a hint.
pub open spec fn reads_back_as(o: OrgView, n: OrgView) -> bool {
    &&& n.org_id == o.org_id
    &&& n.name == o.name
    &&& n.asns == o.asns
    &&& n.domains.to_set() == o.domains.to_set()
    &&& n.external_id == null_if_blank(o.external_id)
    &&& n.prefix_count_hint is None
}

/// `live` holds the organizations of `st` as they are read back, and no others.
pub open spec fn is_read_back(st: OrgState, live: OrgState) -> bool {
    &&& forall|id: Seq<char>| #[trigger]
        live.records.contains_key(id) <==> st.records.contains_key(id)
    &&& forall|id: Seq<char>| #[trigger]
        st.records.contains_key(id) ==> reads_back_as(st.records[id], live.records[id])
}

/// A domain reads back: it holds no comma, and is plain as it stands.
pub open spec fn domain_reads_back(d: Seq<char>) -> bool {
    !d.contains(',') && plain_domain(d) == d
}

proof fn lemma_ascending_unique(a: Seq<u32>, b: Seq<u32>)
    requires
        is_sorted_set_of_u32(a, b),
        forall|i: int, j: int| 0 <= i < j < b.len() ==> #[trigger] b[i] < #[trigger] b[j],
    ensures
        a == b,
    decreases a.len() + b.len(),
{
    if a.len() == 0 {
        if b.len() > 0 {
            assert(b.contains(b[0]));
            assert(a.contains(b[0]));
        }
        assert(a =~= b);
    } else {
        assert(a.contains(a.last()));
        let j = choose|j: int| 0 <= j < b.len() && b[j] == a.last();
        assert(b.contains(b.last()));
        assert(a.contains(b.last()));
        let i = choose|i: int| 0 <= i < a.len() && a[i] == b.last();
        assert(a.last() == b.last()) by {
            if i < a.len() - 1 {
                assert(a[i] < a[a.len() - 1]);
            }
            if j < b.len() - 1 {
                assert(b[j] < b[b.len() - 1]);
            }
        }
        let x = a.drop_last();
        let y = b.drop_last();
        assert forall|v: u32| #[trigger] x.contains(v) <==> y.contains(v) by {
            if x.contains(v) {
                let k = choose|k: int| 0 <= k < x.len() && x[k] == v;
                assert(a[k] == v && a[k] < a[a.len() - 1]);
                assert(a.contains(v));
                let q = choose|q: int| 0 <= q < b.len() && b[q] == v;
                assert(y[q] == v);
            }
            if y.contains(v) {
                let k = choose|k: int| 0 <= k < y.len() && y[k] == v;
                assert(b[k] == v && b[k] < b[b.len() - 1]);
                assert(b.contains(v));
                assert(a.contains(v));
                let q = choose|q: int| 0 <= q < a.len() && a[q] == v;
                assert(x[q] == v);
            }
        }
        lemma_ascending_unique(x, y);
        assert(a =~= x.push(a.last()));
        assert(b =~= y.push(b.last()));
    }
}

proof fn lemma_record_reads_back(o: OrgView, n: OrgView)
    requires
        is_normal(o),
        forall|i: int| 0 <= i < o.domains.len() ==> domain_reads_back(#[trigger] o.domains[i]),
        record_of_row(org_row_of(o)) matches Some(r) && normalizes(r, n),
    ensures
        reads_back_as(o, n),
{
    assert forall|i: int| 0 <= i < o.domains.len() implies !(#[trigger] o.domains[i]).contains(
        ',',
    ) by {
        assert(domain_reads_back(o.domains[i]));
    }
    if o.domains.len() == 1 {
        assert(is_plain(o.domains[0]));
    }
    orgs_read_back(o);
    lemma_ascending_unique(n.asns, o.asns);
    assert forall|d: Seq<char>| n.domains.contains(d) <==> o.domains.contains(d) by {
        if n.domains.contains(d) {
            let k = choose|k: int|
                0 <= k < o.domains.len() && plain_domain(#[trigger] o.domains[k]) == d;
            assert(domain_reads_back(o.domains[k]));
        }
        if o.domains.contains(d) {
            let k = choose|k: int| 0 <= k < o.domains.len() && o.domains[k] == d;
            assert(domain_reads_back(o.domains[k]) && is_plain(o.domains[k]));
            assert(is_plain_of(o.domains, d));
        }
    }
    assert(n.domains.to_set() =~= o.domains.to_set());
}

proof fn lemma_registered_records(ns: Seq<OrgView>)
    ensures
        ({
            let m = registered_all(empty_state(), ns).records;
            &&& forall|i: int| 0 <= i < ns.len() ==> m.contains_key((#[trigger] ns[i]).org_id)
            &&& forall|k: Seq<char>| #[trigger]
                m.contains_key(k) ==> exists|i: int|
                    0 <= i < ns.len() && (#[trigger] ns[i]).org_id == k && m[k] == ns[i]
        }),
    decreases ns.len(),
{
    if ns.len() > 0 {
        let head = ns.drop_last();
        lemma_registered_records(head);
        let was = registered_all(empty_state(), head).records;
        let m = registered_all(empty_state(), ns).records;
        assert forall|i: int| 0 <= i < ns.len() implies m.contains_key(
            (#[trigger] ns[i]).org_id,
        ) by {
            if i < head.len() {
                assert(was.contains_key(head[i].org_id));
            }
        }
        assert forall|k: Seq<char>| #[trigger] m.contains_key(k) implies exists|i: int|
            0 <= i < ns.len() && (#[trigger] ns[i]).org_id == k && m[k] == ns[i] by {
            if k == ns.last().org_id {
                assert(ns[ns.len() - 1].org_id == k);
            } else {
                assert(was.contains_key(k));
                let i = choose|i: int|
                    0 <= i < head.len() && (#[trigger] head[i]).org_id == k && was[k] == head[i];
                assert(ns[i] == head[i]);
            }
        }
    }
}

/// What a map commits is what is read back. Whatever was stored before, once the changes that
/// bring it in line with the map's organizations are made, the live rows can be read in any order,
/// and give these organizations and no others. It holds of maps whose domains read back.
pub proof fn org_maps_read_back(
    stored: Map<Seq<char>, StoredView<OrgRowView>>,
    stored_keys: Seq<Seq<char>>,
    st: OrgState,
    rows: Seq<OrgRowView>,
)
    requires
        keys_of(stored, stored_keys),
        st.sound(),
        forall|id: Seq<char>, i: int|
            #![trigger st.records[id].domains[i]]
            st.records.contains_key(id) && 0 <= i < st.records[id].domains.len()
                ==> domain_reads_back(st.records[id].domains[i]),
        lists_live(
            after_changes(stored, changes(stored, stored_keys, org_rows_of(st), st.keys)),
            rows,
        ),
    ensures
        forall|i: int| !#[trigger] first_unreadable(rows, i),
        forall|rs: Seq<OrgView>, ns: Seq<OrgView>|
            #![trigger reads_as(rows, rs), normalizes_all(rs, ns)]
            reads_as(rows, rs) && normalizes_all(rs, ns) ==> is_read_back(
                st,
                registered_all(empty_state(), ns),
            ),
{
    let wanted = org_rows_of(st);
    assert(keys_of(wanted, st.keys)) by {
        assert forall|k: Seq<char>| #[trigger] wanted.contains_key(k) <==> st.keys.contains(k) by {}
    }
    changes_sync(stored, stored_keys, wanted, st.keys);
    let now = synced(stored, wanted);
    assert forall|i: int| 0 <= i < rows.len() implies exists|k: Seq<char>| #[trigger]
        st.records.contains_key(k) && #[trigger] rows[i] == org_row_of(st.records[k])
            && record_of_row(rows[i]) is Some by {
        let k = choose|k: Seq<char>| #[trigger]
            now.contains_key(k) && !now[k].deleted && now[k].row == rows[i];
        assert(wanted.contains_key(k));
        assert(st.records.contains_key(k));
        asns_read_back(st.records[k].asns);
    }
    assert forall|i: int| !#[trigger] first_unreadable(rows, i) by {
        if 0 <= i < rows.len() {
            assert(record_of_row(rows[i]) is Some);
        }
    }
    assert forall|rs: Seq<OrgView>, ns: Seq<OrgView>|
        #![trigger reads_as(rows, rs), normalizes_all(rs, ns)]
        reads_as(rows, rs) && normalizes_all(rs, ns) implies is_read_back(
        st,
        registered_all(empty_state(), ns),
    ) by {
        lemma_registered_records(ns);
        let live = registered_all(empty_state(), ns);
        assert forall|id: Seq<char>| #[trigger] st.records.contains_key(id) implies exists|i: int|
            0 <= i < ns.len() && (#[trigger] ns[i]).org_id == id by {
            assert(now.contains_key(id) && !now[id].deleted);
            assert(rows.contains(now[id].row));
            let i = choose|i: int| 0 <= i < rows.len() && rows[i] == now[id].row;
            assert(record_of_row(rows[i]) == Some(rs[i]));
            assert(normalizes(rs[i], ns[i]));
            assert(ns[i].org_id == id);
        }
        assert forall|i: int| 0 <= i < ns.len() implies st.records.contains_key(
            (#[trigger] ns[i]).org_id,
        ) && reads_back_as(st.records[ns[i].org_id], ns[i]) by {
            assert(record_of_row(rows[i]) == Some(rs[i]));
            assert(normalizes(rs[i], ns[i]));
            let k = choose|k: Seq<char>| #[trigger]
                st.records.contains_key(k) && rows[i] == org_row_of(st.records[k])
                    && record_of_row(rows[i]) is Some;
            let o = st.records[k];
            assert forall|j: int| 0 <= j < o.domains.len() implies domain_reads_back(
                #[trigger] o.domains[j],
            ) by {
                assert(domain_reads_back(st.records[k].domains[j]));
            }
            lemma_record_reads_back(o, ns[i]);
        }
        assert forall|id: Seq<char>| #[trigger]
            live.records.contains_key(id) <==> st.records.contains_key(id) by {
            if live.records.contains_key(id) {
                let i = choose|i: int|
                    0 <= i < ns.len() && (#[trigger] ns[i]).org_id == id && live.records[id]
                        == ns[i];
                assert(st.records.contains_key(ns[i].org_id));
            }
            if st.records.contains_key(id) {
                let i = choose|i: int| 0 <= i < ns.len() && (#[trigger] ns[i]).org_id == id;
                assert(live.records.contains_key(ns[i].org_id));
            }
        }
        assert forall|id: Seq<char>| #[trigger] st.records.contains_key(id) implies reads_back_as(
            st.records[id],
            live.records[id],
        ) by {
            assert(live.records.contains_key(id));
            let i = choose|i: int|
                0 <= i < ns.len() && (#[trigger] ns[i]).org_id == id && live.records[id] == ns[i];
            assert(reads_back_as(st.records[ns[i].org_id], ns[i]));
        }
    }
}

/// What keeps the stored organizations from being used.
#[derive(Clone, Copy, Debug, PartialEq, Eq, Structural)]
pub enum OrgMapFault {
    /// No crawl has finished.
    NotBuilt,
    /// The last crawl lies too many seconds back.
    TooOld { age_secs: i128 },
    /// No organization is live.
    NoOrgs,
}

/// Checks that the last crawl lies at most a number of days back.
pub fn check_org_map_age(finished: Option<Instant>, now: Instant, max_age_days: i64) -> (r: Result<
    i128,
    OrgMapFault,
>)
    ensures
        match r {
            Ok(age) => finished is Some && age == whole_seconds(now, finished->0) && age
                <= max_age_days * 86_400,
            Err(OrgMapFault::NotBuilt) => finished is None,
            Err(OrgMapFault::TooOld { age_secs }) => finished is Some && age_secs == whole_seconds(
                now,
                finished->0,
            ) && age_secs > max_age_days * 86_400,
            Err(OrgMapFault::NoOrgs) => false,
        },
{
    match finished {
        None => Err(OrgMapFault::NotBuilt),
        Some(f) => {
            let age: i128 = now.seconds_since(&f);
            if age > max_age_days as i128 * 86_400 {
                Err(OrgMapFault::TooOld { age_secs: age })
            } else {
                Ok(age)
            }
        },
    }
}

/// Checks that some organization is live.
pub fn require_orgs(map: OrgMap) -> (r: Result<OrgMap, OrgMapFault>)
    requires
        map.wf(),
    ensures
        match r {
            Ok(m) => m == map && map.state().keys.len() > 0,
            Err(e) => e == OrgMapFault::NoOrgs && map.state().keys.len() == 0,
        },
{
    if map.is_empty() {
        Err(OrgMapFault::NoOrgs)
    } else {
        Ok(map)
    }
}

// ---- signals ----

/// A signal as it is written down.
#[derive(Debug)]
pub struct ContactRow {
    pub asn_a: u32,
    pub asn_b: u32,
    pub as_of: String,
    pub as_of_date: String,
    pub prior_as_of: String,
    pub schema_version: u32,
    pub source: String,
    pub kind: String,
    pub org_a: Option<String>,
    pub org_b: Option<String>,
    pub domains_a: String,
    pub domains_b: String,
    pub prefixes_moved: u32,
    pub prefix_move_days: u32,
    pub new_adj_days: u32,
    pub upstream_converge_days: u32,
    pub persistence_days: i64,
    pub score: i64,
    pub event_kinds: String,
    pub suppress_flags: String,
}

/// What a row of a signal says.
#[verifier::ext_equal]
pub struct ContactView {
    pub asn_a: u32,
    pub asn_b: u32,
    pub as_of: Seq<char>,
    pub as_of_date: Seq<char>,
    pub prior_as_of: Seq<char>,
    pub schema_version: u32,
    pub source: Seq<char>,
    pub kind: Seq<char>,
    pub org_a: Option<Seq<char>>,
    pub org_b: Option<Seq<char>>,
    pub domains_a: Seq<char>,
    pub domains_b: Seq<char>,
    pub prefixes_moved: u32,
    pub prefix_move_days: u32,
    pub new_adj_days: u32,
    pub upstream_converge_days: u32,
    pub persistence_days: i64,
    pub score: i64,
    pub event_kinds: Seq<char>,
    pub suppress_flags: Seq<char>,
}

impl View for ContactRow {
    type V = ContactView;

    open spec fn view(&self) -> ContactView {
        ContactView {
            asn_a: self.asn_a,
            asn_b: self.asn_b,
            as_of: self.as_of@,
            as_of_date: self.as_of_date@,
            prior_as_of: self.prior_as_of@,
            schema_version: self.schema_version,
            source: self.source@,
            kind: self.kind@,
            org_a: opt_text(self.org_a),
            org_b: opt_text(self.org_b),
            domains_a: self.domains_a@,
            domains_b: self.domains_b@,
            prefixes_moved: self.prefixes_moved,
            prefix_move_days: self.prefix_move_days,
            new_adj_days: self.new_adj_days,
            upstream_converge_days: self.upstream_converge_days,
            persistence_days: self.persistence_days,
            score: self.score,
            event_kinds: self.event_kinds@,
            suppress_flags: self.suppress_flags@,
        }
    }
}

impl Row for ContactRow {
    fn same(&self, other: &Self) -> (r: bool) {
        self.asn_a == other.asn_a && self.asn_b == other.asn_b && same_text(
            self.as_of.as_str(),
            other.as_of.as_str(),
        ) && same_text(self.as_of_date.as_str(), other.as_of_date.as_str()) && same_text(
            self.prior_as_of.as_str(),
            other.prior_as_of.as_str(),
        ) && self.schema_version == other.schema_version && same_text(
            self.source.as_str(),
            other.source.as_str(),
        ) && same_text(self.kind.as_str(), other.kind.as_str()) && same_opt(
            &self.org_a,
            &other.org_a,
        ) && same_opt(&self.org_b, &other.org_b) && same_text(
            self.domains_a.as_str(),
            other.domains_a.as_str(),
        ) && same_text(self.domains_b.as_str(), other.domains_b.as_str()) && self.prefixes_moved
            == other.prefixes_moved && self.prefix_move_days == other.prefix_move_days
            && self.new_adj_days == other.new_adj_days && self.upstream_converge_days
            == other.upstream_converge_days && self.persistence_days == other.persistence_days
            && self.score == other.score && same_text(
            self.event_kinds.as_str(),
            other.event_kinds.as_str(),
        ) && same_text(self.suppress_flags.as_str(), other.suppress_flags.as_str())
    }

    fn copy(&self) -> (r: Self) {
        ContactRow {
            asn_a: self.asn_a,
            asn_b: self.asn_b,
            as_of: self.as_of.clone(),
            as_of_date: self.as_of_date.clone(),
            prior_as_of: self.prior_as_of.clone(),
            schema_version: self.schema_version,
            source: self.source.clone(),
            kind: self.kind.clone(),
            org_a: copy_opt_text(&self.org_a),
            org_b: copy_opt_text(&self.org_b),
            domains_a: self.domains_a.clone(),
            domains_b: self.domains_b.clone(),
            prefixes_moved: self.prefixes_moved,
            prefix_move_days: self.prefix_move_days,
            new_adj_days: self.new_adj_days,
            upstream_converge_days: self.upstream_converge_days,
            persistence_days: self.persistence_days,
            score: self.score,
            event_kinds: self.event_kinds.clone(),
            suppress_flags: self.suppress_flags.clone(),
        }
    }
}

/// The row of a signal.
pub open spec fn contact_row_of(s: SignalView) -> ContactView {
    ContactView {
        asn_a: s.asn_a,
        asn_b: s.asn_b,
        as_of: iso_of(s.as_of),
        as_of_date: date_text(instant_day(s.as_of)),
        prior_as_of: iso_of(s.prior_as_of),
        schema_version: s.schema_version,
        source: s.source,
        kind: s.kind,
        org_a: null_if_blank(s.org_a),
        org_b: null_if_blank(s.org_b),
        domains_a: joined(s.domains_a, ","@),
        domains_b: joined(s.domains_b, ","@),
        prefixes_moved: s.prefixes_moved,
        prefix_move_days: s.prefix_move_days,
        new_adj_days: s.new_adj_days,
        upstream_converge_days: s.upstream_converge_days,
        persistence_days: s.persistence_days,
        score: s.score,
        event_kinds: joined(s.event_kinds, ","@),
        suppress_flags: joined(s.suppress_flags, ","@),
    }
}

/// Writes down a signal.
pub fn contact_row(s: &SignalEnvelope) -> (r: ContactRow)
    requires
        s.as_of.wf(),
        s.prior_as_of.wf(),
    ensures
        r@ == contact_row_of(s@),
        four_digit_year_day(instant_day(s.as_of)) ==> begins_with_day(r.as_of@, r.as_of_date@),
{
    ContactRow {
        asn_a: s.asn_a,
        asn_b: s.asn_b,
        as_of: utc_iso(s.as_of),
        as_of_date: utc_date(s.as_of),
        prior_as_of: utc_iso(s.prior_as_of),
        schema_version: s.schema_version,
        source: s.source.clone(),
        kind: s.kind.clone(),
        org_a: empty_to_null(&s.org_a),
        org_b: empty_to_null(&s.org_b),
        domains_a: join_csv(&s.domains_a),
        domains_b: join_csv(&s.domains_b),
        prefixes_moved: s.prefixes_moved,
        prefix_move_days: s.prefix_move_days,
        new_adj_days: s.new_adj_days,
        upstream_converge_days: s.upstream_converge_days,
        persistence_days: s.persistence_days,
        score: s.score,
        event_kinds: join_csv(&s.event_kinds),
        suppress_flags: join_csv(&s.suppress_flags),
    }
}

/// The keys of signals' pairs.
pub open spec fn signal_keys(v: Seq<SignalEnvelope>) -> Seq<Seq<char>> {
    Seq::new(v.len(), |i: int| pair_text((v[i].asn_a, v[i].asn_b)))
}

/// The times of signals are ones that the calendar holds.
pub open spec fn signal_times_wf(v: Seq<SignalEnvelope>) -> bool {
    forall|i: int| 0 <= i < v.len() ==> (#[trigger] v[i]).as_of.wf() && v[i].prior_as_of.wf()
}

/// Writes down signals by the keys of their pairs; two signals of one pair are refused, and the
/// first pair that comes again is named.
pub fn contact_rows(signals: &[SignalEnvelope]) -> (r: Result<TextMap<ContactRow>, StoreError>)
    requires
        signal_times_wf(signals@),
    ensures
        match r {
            Ok(m) => {
                &&& signal_keys(signals@).no_duplicates()
                &&& m.wf()
                &&& m.keys() == signal_keys(signals@)
                &&& forall|i: int|
                    0 <= i < signals@.len() ==> m.map().contains_key(
                        #[trigger] signal_keys(signals@)[i],
                    ) && m.map()[signal_keys(signals@)[i]]@ == contact_row_of(signals@[i]@)
            },
            Err(e) => exists|i: int, j: int|
                #![trigger signal_keys(signals@)[i], signal_keys(signals@)[j]]
                {
                    &&& 0 <= i < j < signals@.len()
                    &&& signal_keys(signals@)[i] == signal_keys(signals@)[j]
                    &&& signal_keys(signals@).subrange(0, j).no_duplicates()
                    &&& e matches StoreError::DuplicatePair { key } && key@ == signal_keys(
                        signals@,
                    )[j]
                },
        },
{
    let ghost keys = signal_keys(signals@);
    let mut out: TextMap<ContactRow> = TextMap::new();
    let mut i: usize = 0;
    assert(out.keys() =~= keys.subrange(0, 0));
    while i < signals.len()
        invariant
            i <= signals@.len(),
            signal_times_wf(signals@),
            keys == signal_keys(signals@),
            out.wf(),
            out.keys() == keys.subrange(0, i as int),
            keys.subrange(0, i as int).no_duplicates(),
            forall|j: int|
                0 <= j < i ==> out.map().contains_key(#[trigger] keys[j]) && out.map()[keys[j]]@
                    == contact_row_of(signals@[j]@),
        decreases signals@.len() - i,
    {
        let s = &signals[i];
        let key = pair_key(s.asn_a, s.asn_b);
        let ghost before = out;
        proof {
            before.lemma_wf();
            assert(key@ == keys[i as int]);
        }
        if out.get(key.as_str()).is_some() {
            proof {
                let k = before.keys().index_of(key@);
                assert(before.keys()[k] == keys[k]);
                assert(signal_keys(signals@)[k] == signal_keys(signals@)[i as int]);
            }
            return Err(StoreError::DuplicatePair { key });
        }
        out.insert(key, contact_row(s));
        proof {
            let next = keys.subrange(0, i as int + 1);
            assert(out.keys() =~= next);
            assert forall|a: int, b: int|
                0 <= a < next.len() && 0 <= b < next.len() && a != b implies next[a]
                != next[b] by {
                let done = keys.subrange(0, i as int);
                if a < i && b < i {
                    assert(done[a] == next[a] && done[b] == next[b]);
                } else if a < i {
                    assert(before.map().contains_key(keys[a]));
                } else if b < i {
                    assert(before.map().contains_key(keys[b]));
                }
            }
            assert forall|j: int| 0 <= j < i + 1 implies out.map().contains_key(
                #[trigger] keys[j],
            ) && out.map()[keys[j]]@ == contact_row_of(signals@[j]@) by {
                if j < i {
                    assert(before.map().contains_key(keys[j]));
                    assert(keys[j] != keys[i as int]);
                }
            }
        }
        i += 1;
    }
    assert(out.keys() =~= keys);
    assert(keys.subrange(0, keys.len() as int) =~= keys);
    Ok(out)
}

// ---- pair state ----

/// What is known of a pair, as it is written down.
#[derive(Debug)]
pub struct PairRow {
    pub asn_lo: u32,
    pub asn_hi: u32,
    pub org_lo: Option<String>,
    pub org_hi: Option<String>,
    pub first_seen: String,
    pub last_seen: String,
    pub prefix_move_days: u32,
    pub prefixes_moved: u32,
    pub new_adj_days: u32,
    pub upstream_converge_days: u32,
    pub score: i64,
}

/// What a row of a pair says.
#[verifier::ext_equal]
pub struct PairRowView {
    pub asn_lo: u32,
    pub asn_hi: u32,
    pub org_lo: Option<Seq<char>>,
    pub org_hi: Option<Seq<char>>,
    pub first_seen: Seq<char>,
    pub last_seen: Seq<char>,
    pub prefix_move_days: u32,
    pub prefixes_moved: u32,
    pub new_adj_days: u32,
    pub upstream_converge_days: u32,
    pub score: i64,
}

impl View for PairRow {
    type V = PairRowView;

    open spec fn view(&self) -> PairRowView {
        PairRowView {
            asn_lo: self.asn_lo,
            asn_hi: self.asn_hi,
            org_lo: opt_text(self.org_lo),
            org_hi: opt_text(self.org_hi),
            first_seen: self.first_seen@,
            last_seen: self.last_seen@,
            prefix_move_days: self.prefix_move_days,
            prefixes_moved: self.prefixes_moved,
            new_adj_days: self.new_adj_days,
            upstream_converge_days: self.upstream_converge_days,
            score: self.score,
        }
    }
}

/// The row of what is known of a pair.
pub open spec fn pair_row_of(e: EntryView) -> PairRowView {
    PairRowView {
        asn_lo: e.asn_lo,
        asn_hi: e.asn_hi,
        org_lo: null_if_blank(e.org_lo),
        org_hi: null_if_blank(e.org_hi),
        first_seen: iso_of(e.first_seen),
        last_seen: iso_of(e.last_seen),
        prefix_move_days: e.prefix_move_days,
        prefixes_moved: e.prefixes_moved,
        new_adj_days: e.new_adj_days,
        upstream_converge_days: e.upstream_converge_days,
        score: e.score,
    }
}

/// The stored form of an instant holds all of it: it lies at a whole second.
pub open spec fn is_storable(i: Instant) -> bool {
    i.wf() && i.nanos == 0
}

/// Writes down what is known of a pair.
pub fn pair_row(e: &PairStateEntry) -> (r: PairRow)
    requires
        e.first_seen.wf(),
        e.last_seen.wf(),
    ensures
        r@ == pair_row_of(e@),
        is_storable(e.first_seen) && is_storable(e.last_seen) ==> entry_of_row(r@) == Some(
            stored_entry(e@),
        ),
{
    PairRow {
        asn_lo: e.asn_lo,
        asn_hi: e.asn_hi,
        org_lo: empty_to_null(&e.org_lo),
        org_hi: empty_to_null(&e.org_hi),
        first_seen: utc_iso(e.first_seen),
        last_seen: utc_iso(e.last_seen),
        prefix_move_days: e.prefix_move_days,
        prefixes_moved: e.prefixes_moved,
        new_adj_days: e.new_adj_days,
        upstream_converge_days: e.upstream_converge_days,
        score: e.score,
    }
}

/// What a row says of a pair, where its times can be read.
pub open spec fn entry_of_row(r: PairRowView) -> Option<EntryView> {
    match (parsed_iso(r.first_seen), parsed_iso(r.last_seen)) {
        (Some(first), Some(last)) => Some(
            EntryView {
                asn_lo: r.asn_lo,
                asn_hi: r.asn_hi,
                org_lo: r.org_lo,
                org_hi: r.org_hi,
                first_seen: Instant { secs: first as i64, nanos: 0 },
                last_seen: Instant { secs: last as i64, nanos: 0 },
                prefix_move_days: r.prefix_move_days,
                prefixes_moved: r.prefixes_moved,
                new_adj_days: r.new_adj_days,
                upstream_converge_days: r.upstream_converge_days,
                score: r.score,
            },
        ),
        _ => None,
    }
}

/// The first time of a row that cannot be read.
pub open spec fn bad_time(r: PairRowView) -> Seq<char> {
    if parsed_iso(r.first_seen) is None {
        r.first_seen
    } else {
        r.last_seen
    }
}

fn read_time(raw: &str) -> (r: Result<Instant, StoreError>)
    ensures
        match r {
            Ok(i) => i.wf() && i.nanos == 0 && parsed_iso(raw@) == Some(i.secs as int),
            Err(e) => parsed_iso(raw@) is None && (e matches StoreError::BadTime { raw: t } && t@
                == raw@),
        },
{
    match parse_utc_iso(raw) {
        Ok(i) => Ok(i),
        Err(_e) => Err(StoreError::BadTime { raw: raw.to_owned() }),
    }
}

/// Reads what is known of a pair.
pub fn entry_from_row(row: &PairRow) -> (r: Result<PairStateEntry, StoreError>)
    ensures
        match r {
            Ok(e) => entry_of_row(row@) == Some(e@) && e.first_seen.wf() && e.last_seen.wf(),
            Err(e) => entry_of_row(row@) is None && (e matches StoreError::BadTime { raw } && raw@
                == bad_time(row@)),
        },
{
    let first_seen = match read_time(row.first_seen.as_str()) {
        Ok(i) => i,
        Err(e) => {
            return Err(e);
        },
    };
    let last_seen = match read_time(row.last_seen.as_str()) {
        Ok(i) => i,
        Err(e) => {
            return Err(e);
        },
    };
    Ok(
        PairStateEntry {
            asn_lo: row.asn_lo,
            asn_hi: row.asn_hi,
            org_lo: copy_opt_text(&row.org_lo),
            org_hi: copy_opt_text(&row.org_hi),
            first_seen,
            last_seen,
            prefix_move_days: row.prefix_move_days,
            prefixes_moved: row.prefixes_moved,
            new_adj_days: row.new_adj_days,
            upstream_converge_days: row.upstream_converge_days,
            score: row.score,
        },
    )
}

/// What rows of pairs say.
pub open spec fn pair_row_views(v: Seq<PairRow>) -> Seq<PairRowView> {
    Seq::new(v.len(), |i: int| v[i]@)
}

/// What is known of pairs by rows, a later row in place of an earlier one of its pair; nothing
/// where a row cannot be read.
pub open spec fn entries_of_rows(rows: Seq<PairRowView>) -> Option<Map<Seq<char>, EntryView>>
    decreases rows.len(),
{
    if rows.len() == 0 {
        Some(Map::empty())
    } else {
        match (entries_of_rows(rows.drop_last()), entry_of_row(rows.last())) {
            (Some(m), Some(e)) => Some(m.insert(pair_text((e.asn_lo, e.asn_hi)), e)),
            _ => None,
        }
    }
}

/// Reads what is known of pairs; an error names the first time that cannot be read.
pub fn pair_state_from_rows(rows: &[PairRow]) -> (r: Result<PairStateStore, StoreError>)
    ensures
        match r {
            Ok(s) => s.wf() && s.updated_at is None && entries_of_rows(pair_row_views(rows@))
                == Some(s.entries()),
            Err(e) => exists|i: int|
                #![trigger rows@[i]]
                {
                    &&& 0 <= i < rows@.len()
                    &&& entry_of_row(rows@[i]@) is None
                    &&& forall|j: int| 0 <= j < i ==> entry_of_row((#[trigger] rows@[j])@) is Some
                    &&& e matches StoreError::BadTime { raw } && raw@ == bad_time(rows@[i]@)
                },
        },
        r is Err <==> entries_of_rows(pair_row_views(rows@)) is None,
{
    let ghost all = pair_row_views(rows@);
    let mut store = PairStateStore::default();
    let mut i: usize = 0;
    assert(all.subrange(0, 0) =~= Seq::empty());
    while i < rows.len()
        invariant
            i <= rows@.len(),
            all == pair_row_views(rows@),
            store.wf(),
            store.updated_at is None,
            entries_of_rows(all.subrange(0, i as int)) == Some(store.entries()),
            forall|j: int| 0 <= j < i ==> entry_of_row((#[trigger] rows@[j])@) is Some,
        decreases rows@.len() - i,
    {
        let ghost before = store.entries();
        proof {
            let next = all.subrange(0, i as int + 1);
            assert(next.drop_last() =~= all.subrange(0, i as int));
            assert(next.last() == rows@[i as int]@);
        }
        match entry_from_row(&rows[i]) {
            Ok(e) => {
                let ghost ev = e@;
                let key = pair_key(e.asn_lo, e.asn_hi);
                store.pairs.insert(key, e);
                assert(store.entries() =~= before.insert(pair_text((ev.asn_lo, ev.asn_hi)), ev));
            },
            Err(e) => {
                proof {
                    lemma_unreadable_stays(all, i as int + 1);
                }
                return Err(e);
            },
        }
        i += 1;
    }
    assert(all.subrange(0, all.len() as int) =~= all);
    Ok(store)
}

/// What is known of a pair as it is read back: without blank organizations.
pub open spec fn stored_entry(e: EntryView) -> EntryView {
    EntryView { org_lo: null_if_blank(e.org_lo), org_hi: null_if_blank(e.org_hi), ..e }
}

/// The times of what is known of pairs lie in the calendar.
pub open spec fn entry_times_wf(m: Map<Seq<char>, EntryView>) -> bool {
    forall|k: Seq<char>| #[trigger]
        m.contains_key(k) ==> m[k].first_seen.wf() && m[k].last_seen.wf()
}

/// What is known of pairs reads back: each pair stands under its key, with times whose stored
/// forms hold all of them.
pub open spec fn entries_storable(m: Map<Seq<char>, EntryView>) -> bool {
    keyed_by_pair(m) && forall|k: Seq<char>| #[trigger]
        m.contains_key(k) ==> is_storable(m[k].first_seen) && is_storable(m[k].last_seen)
}

/// `rows` lists the rows of what is known of pairs, in any order.
pub open spec fn lists_entries(rows: Seq<PairRowView>, m: Map<Seq<char>, EntryView>) -> bool {
    &&& forall|k: Seq<char>| #[trigger]
        m.contains_key(k) ==> rows.contains(pair_row_of(m[k]))
    &&& forall|i: int|
        0 <= i < rows.len() ==> exists|k: Seq<char>| #[trigger]
            m.contains_key(k) && #[trigger] rows[i] == pair_row_of(m[k])
}

/// Each of what is known of pairs reads back from its row.
spec fn each_reads_back(m: Map<Seq<char>, EntryView>) -> bool {
    forall|k: Seq<char>| #[trigger]
        m.contains_key(k) ==> k == pair_text((m[k].asn_lo, m[k].asn_hi)) && entry_of_row(
            pair_row_of(m[k]),
        ) == Some(stored_entry(m[k]))
}

proof fn lemma_some_entries_read_back(rows: Seq<PairRowView>, m: Map<Seq<char>, EntryView>)
    requires
        each_reads_back(m),
        forall|i: int|
            0 <= i < rows.len() ==> exists|k: Seq<char>| #[trigger]
                m.contains_key(k) && #[trigger] rows[i] == pair_row_of(m[k]),
    ensures
        entries_of_rows(rows) is Some,
        forall|k: Seq<char>| #[trigger]
            entries_of_rows(rows)->0.contains_key(k) ==> m.contains_key(k)
                && entries_of_rows(rows)->0[k] == stored_entry(m[k]),
        forall|k: Seq<char>| #[trigger]
            m.contains_key(k) && rows.contains(pair_row_of(m[k])) ==> entries_of_rows(
                rows,
            )->0.contains_key(k),
    decreases rows.len(),
{
    if rows.len() > 0 {
        let head = rows.drop_last();
        assert forall|i: int| 0 <= i < head.len() implies exists|k: Seq<char>| #[trigger]
            m.contains_key(k) && #[trigger] head[i] == pair_row_of(m[k]) by {
            assert(head[i] == rows[i]);
        }
        lemma_some_entries_read_back(head, m);
        let at = rows.len() - 1;
        let k0 = choose|k: Seq<char>| #[trigger]
            m.contains_key(k) && rows[at] == pair_row_of(m[k]);
        assert(m.contains_key(k0) && rows.last() == pair_row_of(m[k0]));
        assert forall|k: Seq<char>| #[trigger]
            m.contains_key(k) && rows.contains(pair_row_of(m[k])) implies entries_of_rows(
            rows,
        )->0.contains_key(k) by {
            let i = choose|i: int| 0 <= i < rows.len() && rows[i] == pair_row_of(m[k]);
            if i < head.len() {
                assert(head[i] == pair_row_of(m[k]));
                assert(head.contains(pair_row_of(m[k])));
            } else {
                assert(pair_row_of(m[k]) == pair_row_of(m[k0]));
            }
        }
    }
}

proof fn lemma_entries_read_back(rows: Seq<PairRowView>, m: Map<Seq<char>, EntryView>)
    requires
        each_reads_back(m),
        lists_entries(rows, m),
    ensures
        entries_of_rows(rows) == Some(m.map_values(|e: EntryView| stored_entry(e))),
{
    lemma_some_entries_read_back(rows, m);
    let back = entries_of_rows(rows)->0;
    assert forall|k: Seq<char>| #[trigger] back.contains_key(k) <==> m.contains_key(k) by {
        if m.contains_key(k) {
            assert(rows.contains(pair_row_of(m[k])));
        }
    }
    assert(back =~= m.map_values(|e: EntryView| stored_entry(e)));
}

/// Writes down what is known of pairs: the rows that take the place of those stored before. Where
/// each pair stands under its key and the times can be stored whole, reading the rows in any order
/// gives back what was known, with blank organizations as `None`.
pub fn pair_rows(store: &PairStateStore) -> (r: Vec<PairRow>)
    requires
        store.wf(),
        entry_times_wf(store.entries()),
    ensures
        pair_row_views(r@) == store.pairs.keys().map_values(
            |k: Seq<char>| pair_row_of(store.entries()[k]),
        ),
        lists_entries(pair_row_views(r@), store.entries()),
        entries_storable(store.entries()) ==> forall|rows: Seq<PairRowView>|
            lists_entries(rows, store.entries()) ==> #[trigger] entries_of_rows(rows) == Some(
                store.entries().map_values(|e: EntryView| stored_entry(e)),
            ),
{
    let ghost m = store.entries();
    let ghost keys = store.pairs.keys();
    let ghost all = keys.map_values(|k: Seq<char>| pair_row_of(m[k]));
    let n: usize = store.pairs.len();
    let mut out: Vec<PairRow> = Vec::new();
    let mut i: usize = 0;
    proof {
        store.pairs.lemma_wf();
    }
    while i < n
        invariant
            i <= n,
            n == keys.len(),
            store.wf(),
            entry_times_wf(m),
            m == store.entries(),
            keys == store.pairs.keys(),
            out@.len() == i,
            forall|j: int| 0 <= j < i ==> (#[trigger] out@[j])@ == pair_row_of(m[keys[j]]),
            entries_storable(m) ==> forall|j: int|
                0 <= j < i ==> entry_of_row(pair_row_of(m[#[trigger] keys[j]])) == Some(
                    stored_entry(m[keys[j]]),
                ),
        decreases n - i,
    {
        let e = store.pairs.value_at(i);
        proof {
            store.pairs.lemma_wf();
            assert(store.pairs.map().contains_key(keys[i as int]));
            assert(m.contains_key(keys[i as int]));
            assert(m[keys[i as int]] == e@);
        }
        out.push(pair_row(e));
        i += 1;
    }
    proof {
        store.pairs.lemma_wf();
        let rows = pair_row_views(out@);
        assert(rows =~= all);
        assert forall|k: Seq<char>| #[trigger] m.contains_key(k) implies exists|j: int|
            0 <= j < keys.len() && #[trigger] keys[j] == k by {
            assert(store.pairs.map().contains_key(k));
            assert(keys.contains(k));
        }
        assert forall|k: Seq<char>| #[trigger] m.contains_key(k) implies rows.contains(
            pair_row_of(m[k]),
        ) by {
            let j = choose|j: int| 0 <= j < keys.len() && #[trigger] keys[j] == k;
            assert(rows[j] == pair_row_of(m[k]));
        }
        assert forall|j: int| 0 <= j < rows.len() implies exists|k: Seq<char>| #[trigger]
            m.contains_key(k) && #[trigger] rows[j] == pair_row_of(m[k]) by {
            assert(keys.contains(keys[j]));
            assert(m.contains_key(keys[j]) && rows[j] == pair_row_of(m[keys[j]]));
        }
        assert(lists_entries(rows, m));
        if entries_storable(m) {
            assert forall|k: Seq<char>| #[trigger] m.contains_key(k) implies k == pair_text(
                (m[k].asn_lo, m[k].asn_hi),
            ) && entry_of_row(pair_row_of(m[k])) == Some(stored_entry(m[k])) by {
                let j = choose|j: int| 0 <= j < keys.len() && #[trigger] keys[j] == k;
                assert(entry_of_row(pair_row_of(m[keys[j]])) == Some(stored_entry(m[keys[j]])));
            }
            assert forall|rows: Seq<PairRowView>|
                lists_entries(rows, m) implies #[trigger] entries_of_rows(rows) == Some(
                m.map_values(|e: EntryView| stored_entry(e)),
            ) by {
                lemma_entries_read_back(rows, m);
            }
        }
    }
    out
}

proof fn lemma_unreadable_stays(rows: Seq<PairRowView>, n: int)
    requires
        0 <= n <= rows.len(),
        entries_of_rows(rows.subrange(0, n)) is None,
    ensures
        entries_of_rows(rows) is None,
    decreases rows.len() - n,
{
    if n < rows.len() {
        let next = rows.subrange(0, n + 1);
        assert(next.drop_last() =~= rows.subrange(0, n));
        lemma_unreadable_stays(rows, n + 1);
    } else {
        assert(rows.subrange(0, n) =~= rows);
    }
}

// ---- migrations ----

/// What brings a schema up to date.
#[derive(Debug)]
pub struct MigrationPlan {
    /// The baseline is to be recorded.
    pub baseline: bool,
    /// The positions of the migrations to apply, in order.
    pub apply: Vec<usize>,
    /// The version reached and the next one known, where the one between them is missing.
    pub gap: Option<(i64, i64)>,
}

/// The version reached, the positions applied, and the gap, after the first versions.
pub open spec fn migrated(current: i64, versions: Seq<i64>) -> (int, Seq<int>, Option<(i64, i64)>)
    decreases versions.len(),
{
    if versions.len() == 0 {
        (
            if current < SCHEMA_BASELINE_VERSION {
                SCHEMA_BASELINE_VERSION as int
            } else {
                current as int
            },
            Seq::empty(),
            None,
        )
    } else {
        let (applied, done, gap) = migrated(current, versions.drop_last());
        let v = versions.last();
        if gap is Some || v <= applied {
            (applied, done, gap)
        } else if v == applied + 1 {
            (v as int, done.push(versions.len() - 1), None)
        } else {
            (applied, done, Some((applied as i64, v)))
        }
    }
}

/// Plans what brings a schema from a version up to date: the versions behind the one reached, one
/// by one, up to the first gap.
pub fn plan_migrations(current: i64, versions: &[i64]) -> (r: MigrationPlan)
    ensures
        r.baseline == (current == 0),
        r.apply@.map_values(|i: usize| i as int) == migrated(current, versions@).1,
        r.gap == migrated(current, versions@).2,
{
    let mut applied: i64 = if current < SCHEMA_BASELINE_VERSION {
        SCHEMA_BASELINE_VERSION
    } else {
        current
    };
    let mut apply: Vec<usize> = Vec::new();
    let mut gap: Option<(i64, i64)> = None;
    let mut i: usize = 0;
    proof {
        assert(versions@.subrange(0, 0) =~= Seq::empty());
        assert(apply@.map_values(|i: usize| i as int) =~= Seq::empty());
    }
    while i < versions.len()
        invariant
            i <= versions@.len(),
            migrated(current, versions@.subrange(0, i as int)) == (
                applied as int,
                apply@.map_values(|i: usize| i as int),
                gap,
            ),
        decreases versions@.len() - i,
    {
        let v: i64 = versions[i];
        let ghost before = apply@;
        proof {
            let next = versions@.subrange(0, i as int + 1);
            assert(next.drop_last() =~= versions@.subrange(0, i as int));
            assert(next.last() == v);
        }
        if gap.is_none() && v > applied {
            if v == applied + 1 {
                apply.push(i);
                applied = v;
                assert(apply@.map_values(|i: usize| i as int) =~= before.map_values(
                    |i: usize| i as int,
                ).push(i as int));
            } else {
                gap = Some((applied, v));
            }
        }
        i += 1;
    }
    assert(versions@.subrange(0, versions@.len() as int) =~= versions@);
    MigrationPlan { baseline: current == 0, apply, gap }
}

// ---- laws ----

/// Runs have these names for how they ended.
pub proof fn statuses_have_names()
    ensures
        status_text(SignalRunStatus::Complete) == "ok"@,
        status_text(SignalRunStatus::SnapshotOnly) == "snapshot_only"@,
        status_text(SignalRunStatus::Error) == "error"@,
{
}

/// A text is stored without the blanks around it, and a blank one as nothing.
pub proof fn blanks_are_stored_as_nothing(t: Seq<char>)
    ensures
        (forall|i: int| 0 <= i < t.len() ==> is_space(#[trigger] t[i])) ==> null_if_blank(Some(t))
            is None,
        (exists|i: int| 0 <= i < t.len() && !is_space(#[trigger] t[i])) ==> null_if_blank(Some(t))
            == Some(trimmed(t)),
        null_if_blank(None) is None,
{
    trimming_takes_blanks_off_the_ends(t);
    let r = trimmed(t);
    if r.len() > 0 {
        assert(!is_space(r[0]));
        let (a, b) = choose|a: int, b: int|
            0 <= a <= b <= t.len() && r == #[trigger] t.subrange(a, b) && (forall|k: int|
                0 <= k < a || b <= k < t.len() ==> is_space(#[trigger] t[k]));
        assert(r[0] == t[a]);
    }
    if exists|i: int| 0 <= i < t.len() && !is_space(#[trigger] t[i]) {
        let i = choose|i: int| 0 <= i < t.len() && !is_space(#[trigger] t[i]);
        assert(r.contains(t[i]));
    }
}

/// The row of a signal says what the signal says: its networks, counts, score, kind and source as
/// they are, its times and day in their stored forms, its organizations without blanks, and its
/// lists such that they read back.
pub proof fn rows_say_what_signals_say(s: SignalView)
    requires
        forall|i: int| 0 <= i < s.domains_a.len() ==> !(#[trigger] s.domains_a[i]).contains(','),
        forall|i: int| 0 <= i < s.domains_b.len() ==> !(#[trigger] s.domains_b[i]).contains(','),
        forall|i: int|
            0 <= i < s.event_kinds.len() ==> !(#[trigger] s.event_kinds[i]).contains(','),
        s.domains_a.len() == 1 ==> s.domains_a[0].len() > 0,
        s.domains_b.len() == 1 ==> s.domains_b[0].len() > 0,
        s.event_kinds.len() == 1 ==> s.event_kinds[0].len() > 0,
    ensures
        ({
            let r = contact_row_of(s);
            &&& r.asn_a == s.asn_a && r.asn_b == s.asn_b
            &&& r.prefixes_moved == s.prefixes_moved && r.prefix_move_days == s.prefix_move_days
            &&& r.new_adj_days == s.new_adj_days && r.upstream_converge_days
                == s.upstream_converge_days
            &&& r.persistence_days == s.persistence_days && r.score == s.score
            &&& r.schema_version == s.schema_version && r.source == s.source && r.kind == s.kind
            &&& r.as_of == iso_text(s.as_of.secs as int, s.as_of.nanos as int)
            &&& r.prior_as_of == iso_text(s.prior_as_of.secs as int, s.prior_as_of.nanos as int)
            &&& r.as_of_date == date_text(s.as_of.secs as int / 86_400)
            &&& r.org_a == null_if_blank(s.org_a) && r.org_b == null_if_blank(s.org_b)
            &&& csv_parts(r.domains_a) == s.domains_a && csv_parts(r.domains_b) == s.domains_b
            &&& csv_parts(r.event_kinds) == s.event_kinds
        }),
{
    texts_read_back(s.domains_a);
    texts_read_back(s.domains_b);
    texts_read_back(s.event_kinds);
}

/// The row of what is known of a pair says it: its networks, counts and score as they are, its
/// times in their stored forms, and its organizations without blanks.
pub proof fn rows_say_what_is_known_of_pairs(e: EntryView)
    ensures
        ({
            let r = pair_row_of(e);
            &&& r.asn_lo == e.asn_lo && r.asn_hi == e.asn_hi
            &&& r.prefix_move_days == e.prefix_move_days && r.prefixes_moved == e.prefixes_moved
            &&& r.new_adj_days == e.new_adj_days && r.upstream_converge_days
                == e.upstream_converge_days && r.score == e.score
            &&& r.first_seen == iso_text(e.first_seen.secs as int, e.first_seen.nanos as int)
            &&& r.last_seen == iso_text(e.last_seen.secs as int, e.last_seen.nanos as int)
            &&& r.org_lo == null_if_blank(e.org_lo) && r.org_hi == null_if_blank(e.org_hi)
        }),
{
}

/// A schema goes from the version it has, or from the first, up one by one: the versions applied
/// follow each other without a gap, in the order in which they are known, and none is applied
/// twice. Where there is no gap, none that is known is left behind; a gap is told by the version
/// reached and the one behind the gap.
pub proof fn schemas_go_up_one_by_one(current: i64, versions: Seq<i64>)
    ensures
        ({
            let (reached, done, gap) = migrated(current, versions);
            let from = if current < 1 {
                1int
            } else {
                current as int
            };
            &&& reached == from + done.len()
            &&& forall|k: int|
                0 <= k < done.len() ==> 0 <= #[trigger] done[k] < versions.len() && versions[done[k]]
                    == from + k + 1
            &&& forall|a: int, b: int|
                0 <= a < b < done.len() ==> #[trigger] done[a] < #[trigger] done[b]
            &&& gap is None ==> forall|i: int|
                0 <= i < versions.len() ==> #[trigger] versions[i] <= reached
            &&& gap matches Some((a, v)) ==> a == reached && v > reached + 1 && versions.contains(v)
        }),
    decreases versions.len(),
{
    if versions.len() > 0 {
        let head = versions.drop_last();
        schemas_go_up_one_by_one(current, head);
        let (applied, before, gap) = migrated(current, head);
        let v = versions.last();
        assert(versions[versions.len() - 1] == v);
        assert forall|i: int| 0 <= i < head.len() implies #[trigger] versions[i] == head[i] by {}
        let (reached, done, now) = migrated(current, versions);
        if now is None {
            assert forall|i: int| 0 <= i < versions.len() implies #[trigger] versions[i]
                <= reached by {
                if i < head.len() {
                    assert(head[i] <= applied);
                }
            }
        }
        if gap is Some {
            let (g, x) = gap->0;
            let j = choose|j: int| 0 <= j < head.len() && head[j] == x;
            assert(versions[j] == x);
        }
    }
}

/// The database's file stands in its directory, with a slash between where the directory's name
/// does not end in one.
pub proof fn files_stand_in_their_directory(dir: Seq<char>, name: Seq<char>)
    ensures
        dir.len() > 0 && dir.last() != '/' ==> path_in(dir, name) == dir + seq!['/'] + name,
        dir.len() > 0 && dir.last() == '/' ==> path_in(dir, name) == dir + name,
        dir.len() == 0 ==> path_in(dir, name) == name,
{
    assert(dir.push('/') + name =~= dir + seq!['/'] + name);
    assert(dir.len() == 0 ==> dir + name =~= name);
}

} // verus!
