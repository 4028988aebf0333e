//! Which archive files to read, and what their elements do to a routing table.

use crate::detect::{
    alert_reasons, alert_views, alerts_name_their_reasons, maybe_alert, verdict, Alert, AlertView, LeakDetector, PathVerdict,
};
use crate::order::{rank, ranked, ranked_is_ordered_permutation, Ranked};
use crate::orgs::{copy_opt_text, opt_text};
use crate::prefix::{prefix_text, Net, Prefix, PrefixKey};
use crate::rib::{
    announced, intern_index, intern_into, route_pairs, withdrawing_takes_one_route, withdrawn, Rib,
    RouteEntry,
};
use crate::rpki::{rov, RoaView, RoasTrie, RpkiState};
use crate::text::joined;
use crate::time::{earlier, Instant};
use bgpkit_parser::models::{AsPath, AsPathSegment, Asn};
use vstd::prelude::*;

verus! {

// ---- files ----

/// The kind of an archive file.
#[derive(Clone, Copy, Debug, PartialEq, Eq, Structural)]
pub enum DataType {
    Rib,
    Updates,
}

/// The name of a kind of files.
pub open spec fn data_type_text(d: DataType) -> Seq<char> {
    match d {
        DataType::Rib => "rib"@,
        DataType::Updates => "updates"@,
    }
}

impl DataType {
    /// The name by which the broker knows the kind.
    pub fn as_broker_str(self) -> (r: &'static str)
        ensures
            r@ == data_type_text(self),
    {
        match self {
            DataType::Rib => "rib",
            DataType::Updates => "updates",
        }
    }
}

/// What files to look for.
#[derive(Debug)]
pub struct IngestQuery {
    pub ts_start: String,
    pub ts_end: String,
    pub collector: Option<String>,
    pub data_type: DataType,
}

/// What keeps archive data from being read.
#[derive(Debug)]
pub enum IngestError {
    /// The broker did not answer.
    Broker(String),
    /// A file could not be opened.
    Parser { url: String, cause: String },
    /// There is no file in the window.
    NoFiles,
}

impl IngestQuery {
    /// The same query for files of another kind.
    pub fn with_type(&self, data_type: DataType) -> (r: IngestQuery)
        ensures
            r.ts_start@ == self.ts_start@,
            r.ts_end@ == self.ts_end@,
            crate::orgs::opt_text(r.collector) == crate::orgs::opt_text(self.collector),
            r.data_type == data_type,
    {
        IngestQuery {
            ts_start: self.ts_start.clone(),
            ts_end: self.ts_end.clone(),
            collector: copy_opt_text(&self.collector),
            data_type,
        }
    }
}

/// An archive file.
#[derive(Debug)]
pub struct MrtFile {
    pub url: String,
    pub ts_start: Instant,
}

/// Files rank by the time from which they tell.
impl Ranked for MrtFile {
    open spec fn before(&self, other: &Self) -> bool {
        earlier(self.ts_start, other.ts_start)
    }

    proof fn before_asymmetric(a: &Self, b: &Self) {
    }

    proof fn not_before_transitive(a: &Self, b: &Self, c: &Self) {
    }

    fn is_before(&self, other: &Self) -> (r: bool) {
        self.ts_start.is_earlier(&other.ts_start)
    }
}

/// The last of the files in order of time: the baseline of a window.
pub fn select_rib_baseline(files: Vec<MrtFile>) -> (r: Result<MrtFile, IngestError>)
    ensures
        match r {
            Ok(f) => files@.len() > 0 && f == ranked(files@).last(),
            Err(e) => files@.len() == 0 && e is NoFiles,
        },
{
    proof {
        ranked_is_ordered_permutation(files@);
    }
    let mut sorted = rank(files);
    match sorted.pop() {
        Some(f) => Ok(f),
        None => Err(IngestError::NoFiles),
    }
}

/// The files in order of time; none are refused.
pub fn list_updates(files: Vec<MrtFile>) -> (r: Result<Vec<MrtFile>, IngestError>)
    ensures
        match r {
            Ok(v) => files@.len() > 0 && v@ == ranked(files@),
            Err(e) => files@.len() == 0 && e is NoFiles,
        },
{
    if files.len() == 0 {
        Err(IngestError::NoFiles)
    } else {
        Ok(rank(files))
    }
}

/// What rebuilds a table: a baseline, then updates.
#[derive(Debug)]
pub struct ReconstructionPlan {
    pub rib: MrtFile,
    pub updates: Vec<MrtFile>,
}

/// Plans how to rebuild a table: from the latest dump, and from the updates in order of time
/// where they could be listed.
pub fn plan_reconstruction(ribs: Vec<MrtFile>, updates: Option<Vec<MrtFile>>) -> (r: Result<
    ReconstructionPlan,
    IngestError,
>)
    ensures
        match r {
            Ok(p) => ribs@.len() > 0 && p.rib == ranked(ribs@).last() && p.updates@ == (
            match updates {
                Some(u) => ranked(u@),
                None => Seq::empty(),
            }),
            Err(e) => ribs@.len() == 0 && e is NoFiles,
        },
{
    let rib = match select_rib_baseline(ribs) {
        Ok(f) => f,
        Err(e) => {
            return Err(e);
        },
    };
    let updates = match updates {
        Some(u) => rank(u),
        None => Vec::new(),
    };
    Ok(ReconstructionPlan { rib, updates })
}

/// No file of a window tells from a later time than its baseline.
pub proof fn baseline_is_latest(files: Seq<MrtFile>, i: int)
    requires
        0 <= i < files.len(),
    ensures
        !earlier(ranked(files).last().ts_start, files[i].ts_start),
        files.contains(ranked(files).last()),
{
    ranked_is_ordered_permutation(files);
    crate::order::ranked_contains(files, files[i]);
    crate::order::ranked_contains(files, ranked(files).last());
    let r = ranked(files);
    assert(files.contains(files[i]));
    assert(r.contains(r.last())) by {
        assert(r[r.len() - 1] == r.last());
    }
    let j = choose|j: int| 0 <= j < r.len() && r[j] == files[i];
    if j < r.len() - 1 {
        assert(!r[r.len() - 1].before(&r[j]));
    }
}

/// How many updates may be applied, and how many were.
#[derive(Clone, Copy, Debug)]
pub struct UpdateBudget {
    pub max: Option<usize>,
    pub seen: usize,
}

impl UpdateBudget {
    /// Another update may be applied.
    pub open spec fn open(&self) -> bool {
        match self.max {
            Some(m) => self.seen < m,
            None => true,
        }
    }

    /// Tells whether another update may be applied.
    pub fn allows(&self) -> (r: bool)
        ensures
            r == self.open(),
    {
        match self.max {
            Some(m) => self.seen < m,
            None => true,
        }
    }

    /// Counts an update.
    pub fn count(&mut self)
        requires
            old(self).open(),
            old(self).seen < usize::MAX,
        ensures
            final(self).max == old(self).max,
            final(self).seen == old(self).seen + 1,
            final(self).max is Some ==> final(self).seen <= final(self).max->0,
    {
        self.seen = self.seen + 1;
    }
}

/// What a reading of a window's files is about to read from.
#[derive(Clone, Copy, Debug, PartialEq, Eq, Structural)]
pub enum Phase {
    /// No file was opened.
    Start,
    Baseline,
    Updates,
}

/// The file to open next.
#[derive(Debug)]
pub enum NextFile {
    Baseline { url: String },
    Updates { url: String },
    Done,
}

/// A reading of a window's files: the baseline where there is one, then the updates in order, as
/// far as the budget goes.
#[derive(Debug)]
pub struct Reading {
    pub baseline: Option<MrtFile>,
    pub updates: Vec<MrtFile>,
    pub phase: Phase,
    /// How many files of updates were opened.
    pub opened: usize,
    pub budget: UpdateBudget,
}

impl Reading {
    /// No more files were opened, and no more updates counted, than there may be.
    pub open spec fn wf(&self) -> bool {
        &&& self.opened <= self.updates@.len()
        &&& self.budget.max matches Some(m) ==> self.budget.seen <= m
        &&& self.phase == Phase::Baseline ==> self.baseline is Some
        &&& self.phase != Phase::Updates ==> self.opened == 0 && self.budget.seen == 0
    }

    /// A reading by a plan.
    pub fn of_plan(plan: ReconstructionPlan, max: Option<usize>) -> (r: Reading)
        ensures
            r.wf(),
            r.baseline == Some(plan.rib),
            r.updates@ == plan.updates@,
            r.phase == Phase::Start,
            r.budget == (UpdateBudget { max, seen: 0 }),
    {
        Reading {
            baseline: Some(plan.rib),
            updates: plan.updates,
            phase: Phase::Start,
            opened: 0,
            budget: UpdateBudget { max, seen: 0 },
        }
    }

    /// A reading of updates alone.
    pub fn of_updates(updates: Vec<MrtFile>, max: Option<usize>) -> (r: Reading)
        ensures
            r.wf(),
            r.baseline is None,
            r.updates@ == updates@,
            r.phase == Phase::Start,
            r.budget == (UpdateBudget { max, seen: 0 }),
    {
        Reading {
            baseline: None,
            updates,
            phase: Phase::Start,
            opened: 0,
            budget: UpdateBudget { max, seen: 0 },
        }
    }

    /// The file to open next.
    pub fn next_file(&mut self) -> (r: NextFile)
        requires
            old(self).wf(),
        ensures
            final(self).wf(),
            final(self).baseline == old(self).baseline,
            final(self).updates@ == old(self).updates@,
            final(self).budget == old(self).budget,
            match r {
                NextFile::Baseline { url } => {
                    &&& old(self).phase == Phase::Start
                    &&& old(self).baseline matches Some(f) && url@ == f.url@
                    &&& final(self).phase == Phase::Baseline
                    &&& final(self).opened == old(self).opened
                },
                NextFile::Updates { url } => {
                    &&& old(self).phase == Phase::Start ==> old(self).baseline is None
                    &&& old(self).budget.open()
                    &&& old(self).opened < old(self).updates@.len()
                    &&& url@ == old(self).updates@[old(self).opened as int].url@
                    &&& final(self).phase == Phase::Updates
                    &&& final(self).opened == old(self).opened + 1
                },
                NextFile::Done => {
                    &&& old(self).phase == Phase::Start ==> old(self).baseline is None
                    &&& !old(self).budget.open() || old(self).opened == old(self).updates@.len()
                    &&& *final(self) == *old(self)
                },
            },
    {
        if self.phase == Phase::Start {
            if let Some(f) = &self.baseline {
                let url = f.url.clone();
                self.phase = Phase::Baseline;
                return NextFile::Baseline { url };
            }
        }
        if self.budget.allows() && self.opened < self.updates.len() {
            let url = self.updates[self.opened].url.clone();
            self.phase = Phase::Updates;
            self.opened = self.opened + 1;
            return NextFile::Updates { url };
        }
        NextFile::Done
    }

    /// Another element of the open file is taken.
    pub open spec fn takes(&self) -> bool {
        self.phase == Phase::Updates ==> self.budget.open()
    }

    /// Tells whether another element of the open file is taken.
    pub fn wants_more(&self) -> (r: bool)
        ensures
            r == self.takes(),
    {
        self.phase != Phase::Updates || self.budget.allows()
    }

    /// Tells whether the open file holds updates.
    pub fn reads_updates(&self) -> (r: bool)
        ensures
            r == (self.phase == Phase::Updates),
    {
        self.phase == Phase::Updates
    }

    /// An element of the open file was taken: updates count against the budget.
    pub fn took(&mut self)
        requires
            old(self).wf(),
            old(self).takes(),
            old(self).budget.seen < usize::MAX,
        ensures
            final(self).wf(),
            final(self).baseline == old(self).baseline,
            final(self).updates@ == old(self).updates@,
            final(self).phase == old(self).phase,
            final(self).opened == old(self).opened,
            final(self).budget.max == old(self).budget.max,
            final(self).budget.seen == old(self).budget.seen + (if old(self).phase
                == Phase::Updates {
                1int
            } else {
                0
            }),
    {
        if self.phase == Phase::Updates {
            self.budget.count();
        }
    }
}

// ---- elements ----

/// A segment of an AS path.
#[derive(Debug)]
pub enum PathSegment {
    Ordered(Vec<u32>),
    Unordered(Vec<u32>),
    ConfedOrdered(Vec<u32>),
    ConfedUnordered(Vec<u32>),
}

/// The networks of a segment, where it stands for one run of them: a sequence, or a set of one.
pub open spec fn segment_asns(s: PathSegment) -> Option<Seq<u32>> {
    match s {
        PathSegment::Ordered(v) => Some(v@),
        PathSegment::Unordered(v) => if v@.len() == 1 {
            Some(v@)
        } else {
            None
        },
        _ => None,
    }
}

/// The networks of segments, one behind the other, where each stands for one run of them.
pub open spec fn segments_asns(segments: Seq<PathSegment>) -> Option<Seq<u32>>
    decreases segments.len(),
{
    if segments.len() == 0 {
        Some(Seq::empty())
    } else {
        match (segments_asns(segments.drop_last()), segment_asns(segments.last())) {
            (Some(head), Some(tail)) => Some(head + tail),
            _ => None,
        }
    }
}

/// The networks of an AS path, where it stands for one run of at least one.
pub open spec fn path_asns(segments: Seq<PathSegment>) -> Option<Seq<u32>> {
    match segments_asns(segments) {
        Some(v) => if v.len() > 0 {
            Some(v)
        } else {
            None
        },
        None => None,
    }
}

/// `bgpkit_parser::models::AsPath::to_u32_vec_opt`, without removal of repeats: the networks of
/// the segments one behind the other, where each segment is a sequence or a set of one, and
/// there is at least one network; nothing otherwise.
#[verifier::external_body]
fn bgpkit_path_asns(segments: &[PathSegment]) -> (r: Option<Vec<u32>>)
    ensures
        match r {
            Some(v) => path_asns(segments@) == Some(v@),
            None => path_asns(segments@) is None,
        },
{
    let asns = |v: &Vec<u32>| v.iter().map(|a| Asn::from(*a)).collect();
    let parts = segments.iter().map(|s| match s {
        PathSegment::Ordered(v) => AsPathSegment::AsSequence(asns(v)),
        PathSegment::Unordered(v) => AsPathSegment::AsSet(asns(v)),
        PathSegment::ConfedOrdered(v) => AsPathSegment::ConfedSequence(asns(v)),
        PathSegment::ConfedUnordered(v) => AsPathSegment::ConfedSet(asns(v)),
    });
    AsPath { segments: parts.collect() }.to_u32_vec_opt(false)
}

/// An element of an archive file: what one peer said of one prefix.
#[derive(Debug)]
pub struct Elem {
    pub withdraw: bool,
    pub prefix: Prefix,
    pub peer_asn: u32,
    pub as_path: Option<Vec<PathSegment>>,
    pub origin_asns: Option<Vec<u32>>,
    pub timestamp: Instant,
}

/// The AS path of an element; empty where it has none that is one run of networks.
pub open spec fn elem_path(e: Elem) -> Seq<u32> {
    match e.as_path {
        Some(p) => match path_asns(p@) {
            Some(v) => v,
            None => Seq::empty(),
        },
        None => Seq::empty(),
    }
}

/// The origin of an element: the first that it gives, else the last network of its path.
pub open spec fn elem_origin(e: Elem) -> Option<u32> {
    if e.origin_asns is Some && e.origin_asns->0@.len() > 0 {
        Some(e.origin_asns->0@[0])
    } else if elem_path(e).len() > 0 {
        Some(elem_path(e).last())
    } else {
        None
    }
}

/// A change of one route.
#[derive(Debug)]
pub struct RibAnnouncement {
    pub prefix: Prefix,
    pub peer_asn: u32,
    pub withdraw: bool,
    pub as_path: Vec<u32>,
    pub origin_asn: Option<u32>,
    pub timestamp: Instant,
}

/// What a change of one route says.
#[verifier::ext_equal]
pub struct RouteChange {
    pub prefix: Prefix,
    pub peer_asn: u32,
    pub withdraw: bool,
    pub as_path: Seq<u32>,
    pub origin_asn: Option<u32>,
    pub timestamp: Instant,
}

impl View for RibAnnouncement {
    type V = RouteChange;

    open spec fn view(&self) -> RouteChange {
        RouteChange {
            prefix: self.prefix,
            peer_asn: self.peer_asn,
            withdraw: self.withdraw,
            as_path: self.as_path@,
            origin_asn: self.origin_asn,
            timestamp: self.timestamp,
        }
    }
}

/// The change that an element makes.
pub open spec fn elem_change(e: Elem) -> RouteChange {
    RouteChange {
        prefix: e.prefix,
        peer_asn: e.peer_asn,
        withdraw: e.withdraw,
        as_path: elem_path(e),
        origin_asn: elem_origin(e),
        timestamp: e.timestamp,
    }
}

/// The change that an element makes.
pub fn rib_announcement_from_elem(elem: &Elem) -> (r: RibAnnouncement)
    ensures
        r@ == elem_change(*elem),
{
    let as_path: Vec<u32> = match &elem.as_path {
        Some(p) => match bgpkit_path_asns(p) {
            Some(v) => v,
            None => Vec::new(),
        },
        None => Vec::new(),
    };
    let n: usize = as_path.len();
    let given: Option<u32> = match &elem.origin_asns {
        Some(o) => if o.len() > 0 {
            Some(o[0])
        } else {
            None
        },
        None => None,
    };
    let origin_asn: Option<u32> = match given {
        Some(a) => Some(a),
        None => if n > 0 {
            Some(as_path[n - 1])
        } else {
            None
        },
    };
    RibAnnouncement {
        prefix: elem.prefix,
        peer_asn: elem.peer_asn,
        withdraw: elem.withdraw,
        as_path,
        origin_asn,
        timestamp: elem.timestamp,
    }
}

/// The route that a change announces.
pub open spec fn announced_route(
    c: RouteChange,
    paths: Seq<Seq<u32>>,
    rpki: RpkiState,
) -> RouteEntry {
    RouteEntry {
        origin_asn: c.origin_asn,
        as_path_id: intern_index(paths, c.as_path) as u32,
        peer_asn: c.peer_asn,
        communities_id: None,
        rpki,
        timestamp: c.timestamp,
    }
}

/// What a table holds: the routes, each prefix as it was announced first, and the lists that
/// routes name by number.
#[verifier::ext_equal]
pub struct TableView {
    pub routes: Map<PrefixKey, Map<u32, RouteEntry>>,
    pub nets: Map<PrefixKey, Net>,
    pub paths: Seq<Seq<u32>>,
    pub community_lists: Seq<Seq<u32>>,
}

/// What a table holds.
pub open spec fn table_of(rib: Rib) -> TableView {
    TableView {
        routes: rib.routes(),
        nets: rib.nets(),
        paths: rib.interner.paths(),
        community_lists: rib.interner.community_lists(),
    }
}

/// A table after a change of a route, with the validation state of what it announces.
pub open spec fn table_after(t: TableView, c: RouteChange, rpki: RpkiState) -> TableView {
    let key = c.prefix.key();
    if c.withdraw {
        let routes = withdrawn(t.routes, key, c.peer_asn);
        TableView { routes, nets: t.nets.restrict(routes.dom()), ..t }
    } else {
        TableView {
            routes: announced(t.routes, key, announced_route(c, t.paths, rpki)),
            nets: if t.nets.contains_key(key) {
                t.nets
            } else {
                t.nets.insert(key, c.prefix.net())
            },
            paths: intern_into(t.paths, c.as_path),
            community_lists: t.community_lists,
        }
    }
}

/// A table has room for another route.
pub open spec fn has_room(rib: Rib) -> bool {
    route_pairs(rib.routes()).len() < usize::MAX && rib.routes().dom().len() < usize::MAX
}

/// Tells whether a table has room for another route.
pub fn can_announce(rib: &Rib) -> (r: bool)
    requires
        rib.wf(),
    ensures
        r == has_room(*rib),
{
    rib.route_count() < usize::MAX && rib.prefix_count() < usize::MAX
}

fn apply_route(rib: &mut Rib, update: &RibAnnouncement, rpki: RpkiState)
    requires
        old(rib).wf(),
        !update.withdraw ==> has_room(*old(rib)),
    ensures
        final(rib).wf(),
        table_of(*final(rib)) == table_after(table_of(*old(rib)), update@, rpki),
{
    if update.withdraw {
        let _ = rib.withdraw(update.prefix, update.peer_asn);
        return;
    }
    let path_id: u32 = rib.interner.intern_as_path(update.as_path.as_slice());
    rib.announce(
        update.prefix,
        RouteEntry {
            origin_asn: update.origin_asn,
            as_path_id: path_id,
            peer_asn: update.peer_asn,
            communities_id: None,
            rpki,
            timestamp: update.timestamp,
        },
    );
}

/// Makes a change of a route, without validation.
pub fn apply_rib_announcement(rib: &mut Rib, update: &RibAnnouncement)
    requires
        old(rib).wf(),
        !update.withdraw ==> has_room(*old(rib)),
    ensures
        final(rib).wf(),
        table_of(*final(rib)) == table_after(table_of(*old(rib)), update@, RpkiState::Unknown),
{
    apply_route(rib, update, RpkiState::Unknown);
}

/// Makes the change of an element, without validation.
pub fn apply_elem_rib_only(rib: &mut Rib, elem: &Elem)
    requires
        old(rib).wf(),
        !elem.withdraw ==> has_room(*old(rib)),
    ensures
        final(rib).wf(),
        table_of(*final(rib)) == table_after(
            table_of(*old(rib)),
            elem_change(*elem),
            RpkiState::Unknown,
        ),
{
    let update = rib_announcement_from_elem(elem);
    apply_rib_announcement(rib, &update);
}

// ---- the check of routes ----

/// The validation state of a change: unknown without an origin.
pub open spec fn change_state(roas: Seq<RoaView>, net: Net, origin: Option<u32>) -> RpkiState {
    match origin {
        Some(a) => rov(roas, net, a),
        None => RpkiState::Unknown,
    }
}

/// The verdict on an element's path: too short where it has none.
pub open spec fn path_verdict(path: Seq<u32>, d: LeakDetector) -> PathVerdict {
    if path.len() == 0 {
        PathVerdict::TooShort
    } else {
        verdict(path, d.rel())
    }
}

/// The alert on an element.
pub open spec fn alert_on(
    e: Elem,
    collector: Option<Seq<char>>,
    roas: Seq<RoaView>,
    d: LeakDetector,
) -> AlertView {
    let state = change_state(roas, e.prefix.net(), elem_origin(e));
    let path = path_verdict(elem_path(e), d);
    AlertView {
        timestamp: e.timestamp,
        prefix: prefix_text(e.prefix.net()),
        origin_asn: elem_origin(e),
        as_path: elem_path(e),
        peer_asn: e.peer_asn,
        collector,
        rpki_state: state,
        path_verdict: path,
        leak_suspected: path == PathVerdict::LeakSuspected,
        reason: joined(alert_reasons(state, path), ","@),
    }
}

/// An element gives reason for an alert: it announces a route that is invalid or seems leaked.
pub open spec fn gives_reason(e: Elem, roas: Seq<RoaView>, d: LeakDetector) -> bool {
    &&& !e.withdraw
    &&& change_state(roas, e.prefix.net(), elem_origin(e)) == RpkiState::Invalid || path_verdict(
        elem_path(e),
        d,
    ) == PathVerdict::LeakSuspected
}

/// Makes the change of an element, with validation; where asked to, adds the alert that it gives
/// reason for.
pub fn apply_elem_cyber(
    rib: &mut Rib,
    roas: &RoasTrie,
    detector: &LeakDetector,
    elem: &Elem,
    collector: &Option<String>,
    emit_alerts: bool,
    alerts: &mut Vec<Alert>,
)
    requires
        old(rib).wf(),
        !elem.withdraw ==> has_room(*old(rib)),
        roas.wf(),
    ensures
        final(rib).wf(),
        table_of(*final(rib)) == table_after(
            table_of(*old(rib)),
            elem_change(*elem),
            change_state(roas.roas(), elem.prefix.net(), elem_origin(*elem)),
        ),
        emit_alerts && gives_reason(*elem, roas.roas(), *detector) ==> final(alerts)@.len()
            == old(alerts)@.len() + 1 && final(alerts)@.drop_last() == old(alerts)@
            && final(alerts)@.last()@ == alert_on(
            *elem,
            opt_text(*collector),
            roas.roas(),
            *detector,
        ),
        !(emit_alerts && gives_reason(*elem, roas.roas(), *detector)) ==> final(alerts)@
            == old(alerts)@,
{
    let update = rib_announcement_from_elem(elem);
    let state = match update.origin_asn {
        Some(a) => roas.validate(update.prefix, a),
        None => RpkiState::Unknown,
    };
    apply_route(rib, &update, state);
    if update.withdraw || !emit_alerts {
        return;
    }
    let path = if update.as_path.len() == 0 {
        PathVerdict::TooShort
    } else {
        detector.check_as_path(update.as_path.as_slice())
    };
    let ghost before = alerts@;
    match maybe_alert(
        update.timestamp,
        update.prefix,
        update.origin_asn,
        update.as_path,
        update.peer_asn,
        copy_opt_text(collector),
        state,
        path,
    ) {
        Some(a) => {
            alerts.push(a);
            assert(alerts@.drop_last() =~= before);
        },
        None => {},
    }
}

// ---- whole readings ----

/// What routes are checked against, and the collector that alerts name.
pub struct Checks {
    pub roas: Seq<RoaView>,
    pub detector: LeakDetector,
    pub collector: Option<Seq<char>>,
}

/// The validation state of what an element announces: unknown where nothing is checked.
pub open spec fn elem_state(checks: Option<Checks>, e: Elem) -> RpkiState {
    match checks {
        Some(c) => change_state(c.roas, e.prefix.net(), elem_origin(e)),
        None => RpkiState::Unknown,
    }
}

/// The alert that an element of the updates leads to, where it gives reason for one.
pub open spec fn elem_alert(checks: Option<Checks>, e: Elem) -> Option<AlertView> {
    match checks {
        Some(c) => if gives_reason(e, c.roas, c.detector) {
            Some(alert_on(e, c.collector, c.roas, c.detector))
        } else {
            None
        },
        None => None,
    }
}

/// What a reading has come to: the table, the number of updates taken, and the alerts on them.
#[verifier::ext_equal]
pub struct ReadingView {
    pub table: TableView,
    pub seen: int,
    pub alerts: Seq<AlertView>,
}

/// What a reading has come to.
pub open spec fn reading_view(reading: Reading, rib: Rib, alerts: Seq<Alert>) -> ReadingView {
    ReadingView {
        table: table_of(rib),
        seen: reading.budget.seen as int,
        alerts: alert_views(alerts),
    }
}

/// Another element is taken: of the updates no more than the most that there may be.
pub open spec fn is_taken(seen: int, max: Option<usize>, phase: Phase) -> bool {
    phase == Phase::Updates ==> (max matches Some(m) ==> seen < m)
}

/// A reading after it was offered an element. One that is taken changes the table; one of the
/// updates counts, and may lead to an alert.
pub open spec fn after_elem(
    v: ReadingView,
    max: Option<usize>,
    checks: Option<Checks>,
    phase: Phase,
    e: Elem,
) -> ReadingView {
    if !is_taken(v.seen, max, phase) {
        v
    } else {
        ReadingView {
            table: table_after(v.table, elem_change(e), elem_state(checks, e)),
            seen: if phase == Phase::Updates {
                v.seen + 1
            } else {
                v.seen
            },
            alerts: match elem_alert(checks, e) {
                Some(a) => if phase == Phase::Updates {
                    v.alerts.push(a)
                } else {
                    v.alerts
                },
                None => v.alerts,
            },
        }
    }
}

/// A reading after it was offered elements, each with what it was read from.
pub open spec fn after_elems(
    v: ReadingView,
    max: Option<usize>,
    checks: Option<Checks>,
    elems: Seq<(Phase, Elem)>,
) -> ReadingView
    decreases elems.len(),
{
    if elems.len() == 0 {
        v
    } else {
        let (phase, e) = elems.last();
        after_elem(after_elems(v, max, checks, elems.drop_last()), max, checks, phase, e)
    }
}

/// Offers an element of the open file to a reading that checks routes: where it is taken, its
/// change is made, and where it is of the updates, the alert that it gives reason for is added.
/// Tells whether it was taken.
pub fn check_elem(
    reading: &mut Reading,
    rib: &mut Rib,
    roas: &RoasTrie,
    detector: &LeakDetector,
    elem: &Elem,
    collector: &Option<String>,
    alerts: &mut Vec<Alert>,
) -> (r: bool)
    requires
        old(reading).wf(),
        old(rib).wf(),
        old(reading).takes() && !elem.withdraw ==> has_room(*old(rib)),
        old(reading).takes() ==> old(reading).budget.seen < usize::MAX,
        roas.wf(),
    ensures
        final(reading).wf(),
        final(rib).wf(),
        r == old(reading).takes(),
        final(reading).baseline == old(reading).baseline,
        final(reading).updates@ == old(reading).updates@,
        final(reading).phase == old(reading).phase,
        final(reading).opened == old(reading).opened,
        final(reading).budget.max == old(reading).budget.max,
        reading_view(*final(reading), *final(rib), final(alerts)@) == after_elem(
            reading_view(*old(reading), *old(rib), old(alerts)@),
            old(reading).budget.max,
            Some(
                Checks {
                    roas: roas.roas(),
                    detector: *detector,
                    collector: opt_text(*collector),
                },
            ),
            old(reading).phase,
            *elem,
        ),
{
    if !reading.wants_more() {
        return false;
    }
    let ghost before = alerts@;
    apply_elem_cyber(rib, roas, detector, elem, collector, reading.reads_updates(), alerts);
    reading.took();
    proof {
        if alerts@.len() > before.len() {
            assert(alert_views(alerts@) =~= alert_views(before).push(alerts@.last()@));
        }
    }
    true
}

/// Offers an element of the open file to a reading that only builds a table: where it is taken,
/// its change is made. Tells whether it was taken.
pub fn take_elem(reading: &mut Reading, rib: &mut Rib, elem: &Elem) -> (r: bool)
    requires
        old(reading).wf(),
        old(rib).wf(),
        old(reading).takes() && !elem.withdraw ==> has_room(*old(rib)),
        old(reading).takes() ==> old(reading).budget.seen < usize::MAX,
    ensures
        final(reading).wf(),
        final(rib).wf(),
        r == old(reading).takes(),
        final(reading).baseline == old(reading).baseline,
        final(reading).updates@ == old(reading).updates@,
        final(reading).phase == old(reading).phase,
        final(reading).opened == old(reading).opened,
        final(reading).budget.max == old(reading).budget.max,
        reading_view(*final(reading), *final(rib), Seq::empty()) == after_elem(
            reading_view(*old(reading), *old(rib), Seq::empty()),
            old(reading).budget.max,
            None,
            old(reading).phase,
            *elem,
        ),
{
    if !reading.wants_more() {
        return false;
    }
    apply_elem_rib_only(rib, elem);
    reading.took();
    true
}

/// Elements that were all read from the same kind of file.
pub open spec fn read_from(phase: Phase, elems: Seq<Elem>) -> Seq<(Phase, Elem)> {
    Seq::new(elems.len(), |i: int| (phase, elems[i]))
}

/// How many of `n` updates are taken.
pub open spec fn updates_taken(max: Option<usize>, n: nat) -> nat {
    match max {
        Some(m) => if m < n {
            m as nat
        } else {
            n
        },
        None => n,
    }
}

/// A table after the changes of elements, in order.
pub open spec fn table_after_all(
    t: TableView,
    checks: Option<Checks>,
    elems: Seq<Elem>,
) -> TableView
    decreases elems.len(),
{
    if elems.len() == 0 {
        t
    } else {
        let e = elems.last();
        table_after(
            table_after_all(t, checks, elems.drop_last()),
            elem_change(e),
            elem_state(checks, e),
        )
    }
}

/// The alerts on elements of the updates, in order.
pub open spec fn alerts_on(checks: Option<Checks>, elems: Seq<Elem>) -> Seq<AlertView>
    decreases elems.len(),
{
    if elems.len() == 0 {
        Seq::empty()
    } else {
        let head = alerts_on(checks, elems.drop_last());
        match elem_alert(checks, elems.last()) {
            Some(a) => head.push(a),
            None => head,
        }
    }
}

proof fn lemma_baseline_read(
    v: ReadingView,
    max: Option<usize>,
    checks: Option<Checks>,
    elems: Seq<Elem>,
)
    ensures
        after_elems(v, max, checks, read_from(Phase::Baseline, elems)) == (ReadingView {
            table: table_after_all(v.table, checks, elems),
            ..v
        }),
    decreases elems.len(),
{
    if elems.len() > 0 {
        let all = read_from(Phase::Baseline, elems);
        assert(all.drop_last() =~= read_from(Phase::Baseline, elems.drop_last()));
        lemma_baseline_read(v, max, checks, elems.drop_last());
    }
}

proof fn lemma_updates_read(
    v: ReadingView,
    max: Option<usize>,
    checks: Option<Checks>,
    elems: Seq<Elem>,
)
    requires
        v.seen == 0,
    ensures
        ({
            let taken = elems.subrange(0, updates_taken(max, elems.len()) as int);
            after_elems(v, max, checks, read_from(Phase::Updates, elems)) == (ReadingView {
                table: table_after_all(v.table, checks, taken),
                seen: taken.len() as int,
                alerts: v.alerts + alerts_on(checks, taken),
            })
        }),
    decreases elems.len(),
{
    let n = updates_taken(max, elems.len()) as int;
    let taken = elems.subrange(0, n);
    if elems.len() == 0 {
        assert(v.alerts + alerts_on(checks, taken) =~= v.alerts);
    } else {
        let all = read_from(Phase::Updates, elems);
        let rest = elems.drop_last();
        let m = updates_taken(max, rest.len()) as int;
        assert(all.drop_last() =~= read_from(Phase::Updates, rest));
        lemma_updates_read(v, max, checks, rest);
        if n == elems.len() {
            assert(taken =~= elems);
            assert(rest.subrange(0, m) =~= rest);
            match elem_alert(checks, elems.last()) {
                Some(a) => {
                    assert((v.alerts + alerts_on(checks, rest)).push(a) =~= v.alerts + alerts_on(
                        checks,
                        elems,
                    ));
                },
                None => {},
            }
        } else {
            assert(rest.subrange(0, m) =~= taken);
        }
    }
}

proof fn lemma_after_both(
    v: ReadingView,
    max: Option<usize>,
    checks: Option<Checks>,
    a: Seq<(Phase, Elem)>,
    b: Seq<(Phase, Elem)>,
)
    ensures
        after_elems(v, max, checks, a + b) == after_elems(
            after_elems(v, max, checks, a),
            max,
            checks,
            b,
        ),
    decreases b.len(),
{
    if b.len() == 0 {
        assert(a + b =~= a);
    } else {
        assert((a + b).drop_last() =~= a + b.drop_last());
        lemma_after_both(v, max, checks, a, b.drop_last());
    }
}

proof fn lemma_table_after_both(
    t: TableView,
    checks: Option<Checks>,
    a: Seq<Elem>,
    b: Seq<Elem>,
)
    ensures
        table_after_all(t, checks, a + b) == table_after_all(
            table_after_all(t, checks, a),
            checks,
            b,
        ),
    decreases b.len(),
{
    if b.len() == 0 {
        assert(a + b =~= a);
    } else {
        assert((a + b).drop_last() =~= a + b.drop_last());
        lemma_table_after_both(t, checks, a, b.drop_last());
    }
}

/// A reading takes the whole baseline and then the first updates, as many as there may be. The
/// table is that of the elements taken, in order. The alerts are those on the updates taken, in
/// order: none comes of the baseline.
pub proof fn readings_take_the_first_updates(
    v: ReadingView,
    max: Option<usize>,
    checks: Option<Checks>,
    baseline: Seq<Elem>,
    updates: Seq<Elem>,
)
    requires
        v.seen == 0,
    ensures
        ({
            let taken = updates.subrange(0, updates_taken(max, updates.len()) as int);
            let end = after_elems(
                v,
                max,
                checks,
                read_from(Phase::Baseline, baseline) + read_from(Phase::Updates, updates),
            );
            &&& end.seen == taken.len()
            &&& end.table == table_after_all(v.table, checks, baseline + taken)
            &&& end.alerts == v.alerts + alerts_on(checks, taken)
        }),
{
    let taken = updates.subrange(0, updates_taken(max, updates.len()) as int);
    lemma_after_both(
        v,
        max,
        checks,
        read_from(Phase::Baseline, baseline),
        read_from(Phase::Updates, updates),
    );
    lemma_baseline_read(v, max, checks, baseline);
    let mid = after_elems(v, max, checks, read_from(Phase::Baseline, baseline));
    lemma_updates_read(mid, max, checks, updates);
    lemma_table_after_both(v.table, checks, baseline, taken);
}

/// Every alert is on an update that announces a route: none comes of a withdrawal.
pub proof fn alerts_come_of_announcements(checks: Option<Checks>, elems: Seq<Elem>)
    ensures
        alerts_on(checks, elems).len() <= elems.len(),
        forall|i: int|
            0 <= i < alerts_on(checks, elems).len() ==> exists|j: int|
                0 <= j < elems.len() && !(#[trigger] elems[j]).withdraw && elem_alert(
                    checks,
                    elems[j],
                ) == Some(#[trigger] alerts_on(checks, elems)[i]),
    decreases elems.len(),
{
    if elems.len() > 0 {
        let rest = elems.drop_last();
        let head = alerts_on(checks, rest);
        alerts_come_of_announcements(checks, rest);
        assert forall|i: int| 0 <= i < alerts_on(checks, elems).len() implies exists|j: int|
            0 <= j < elems.len() && !(#[trigger] elems[j]).withdraw && elem_alert(checks, elems[j])
                == Some(#[trigger] alerts_on(checks, elems)[i]) by {
            if i < head.len() {
                assert(alerts_on(checks, elems)[i] == head[i]);
                let j = choose|j: int|
                    0 <= j < rest.len() && !(#[trigger] rest[j]).withdraw && elem_alert(
                        checks,
                        rest[j],
                    ) == Some(head[i]);
                assert(elems[j] == rest[j]);
            } else {
                assert(elems[elems.len() - 1] == elems.last());
            }
        }
    }
}

/// The baseline is a file that no other of the window begins later than; updates come in the order
/// in which their files begin, each once.
pub proof fn files_are_in_order_of_time(files: Seq<MrtFile>, i: int, j: int)
    requires
        0 <= i < j < files.len(),
    ensures
        ranked(files).len() == files.len(),
        ranked(files).to_multiset() == files.to_multiset(),
        ranked(files)[i].ts_start.secs <= ranked(files)[j].ts_start.secs,
        ranked(files)[i].ts_start.secs == ranked(files)[j].ts_start.secs ==> ranked(
            files,
        )[i].ts_start.nanos <= ranked(files)[j].ts_start.nanos,
        ranked(files)[j].ts_start.secs <= ranked(files).last().ts_start.secs,
{
    ranked_is_ordered_permutation(files);
    let r = ranked(files);
    assert(!r[j].before(&r[i]));
    if j < r.len() - 1 {
        assert(!r[r.len() - 1].before(&r[j]));
    }
}

/// A path of sequences is their networks one behind the other.
pub proof fn sequences_are_one_path(segments: Seq<PathSegment>)
    requires
        forall|i: int| 0 <= i < segments.len() ==> (#[trigger] segments[i]) is Ordered,
    ensures
        segments_asns(segments) is Some,
        segments.len() > 0 ==> segments_asns(segments)->0 == segments_asns(
            segments.drop_last(),
        )->0 + segments.last()->Ordered_0@,
        segments.len() == 1 && segments[0]->Ordered_0@.len() > 0 ==> path_asns(segments) == Some(
            segments[0]->Ordered_0@,
        ),
    decreases segments.len(),
{
    if segments.len() > 0 {
        let rest = segments.drop_last();
        assert forall|i: int| 0 <= i < rest.len() implies (#[trigger] rest[i]) is Ordered by {
            assert(rest[i] == segments[i]);
        }
        sequences_are_one_path(rest);
        assert(segments[segments.len() - 1] is Ordered);
        if segments.len() == 1 {
            assert(segments_asns(segments)->0 =~= segments[0]->Ordered_0@);
        }
    }
}

/// A path with a set of several networks, or of none, or with a part inside a confederation stands
/// for no one run of networks; a set of one network stands for it.
pub proof fn sets_are_no_path(segments: Seq<PathSegment>, i: int)
    requires
        0 <= i < segments.len(),
    ensures
        (segments[i] matches PathSegment::Unordered(v) && v@.len() != 1) || segments[i]
            is ConfedOrdered || segments[i] is ConfedUnordered ==> segments_asns(segments) is None
            && path_asns(segments) is None,
        segments[i] matches PathSegment::Unordered(v) ==> (v@.len() == 1 ==> segment_asns(
            segments[i],
        ) == Some(v@)),
    decreases segments.len(),
{
    if i < segments.len() - 1 {
        assert(segments.drop_last()[i] == segments[i]);
        sets_are_no_path(segments.drop_last(), i);
    }
}

/// The origin of an element is the first that it gives; else the last network of its path; an
/// element with neither has none.
pub proof fn origins_are_given_or_last(e: Elem)
    ensures
        e.origin_asns matches Some(v) ==> (v@.len() > 0 ==> elem_change(e).origin_asn == Some(
            v@[0],
        )),
        (e.origin_asns matches Some(v) ==> v@.len() == 0) && elem_path(e).len() > 0 ==> elem_change(
            e,
        ).origin_asn == Some(elem_path(e)[elem_path(e).len() - 1]),
        (e.origin_asns matches Some(v) ==> v@.len() == 0) && elem_path(e).len() == 0 ==> elem_change(
            e,
        ).origin_asn is None,
        e.as_path is None ==> elem_path(e).len() == 0,
        e.as_path matches Some(p) ==> elem_path(e) == (match path_asns(p@) {
            Some(v) => v,
            None => Seq::empty(),
        }),
        elem_change(e).prefix == e.prefix && elem_change(e).peer_asn == e.peer_asn,
        elem_change(e).withdraw == e.withdraw && elem_change(e).timestamp == e.timestamp,
{
}

/// An element that announces gives its peer this route to its prefix: with its origin, its time and
/// its validation state, and under a number by which its path is found.
pub proof fn announcements_are_found_again(t: TableView, e: Elem, rpki: RpkiState)
    requires
        !e.withdraw,
        t.paths.no_duplicates(),
        t.paths.len() <= u32::MAX,
    ensures
        ({
            let after = table_after(t, elem_change(e), rpki);
            let key = e.prefix.key();
            &&& after.routes.contains_key(key) && after.routes[key].contains_key(e.peer_asn)
            &&& after.routes[key][e.peer_asn].origin_asn == elem_origin(e)
            &&& after.routes[key][e.peer_asn].peer_asn == e.peer_asn
            &&& after.routes[key][e.peer_asn].timestamp == e.timestamp
            &&& after.routes[key][e.peer_asn].rpki == rpki
            &&& after.routes[key][e.peer_asn].communities_id is None
            &&& (after.routes[key][e.peer_asn].as_path_id as int) < after.paths.len()
            &&& after.paths[after.routes[key][e.peer_asn].as_path_id as int] == elem_path(e)
            &&& t.paths.is_prefix_of(after.paths)
            &&& after.nets.contains_key(key)
            &&& t.nets.contains_key(key) ==> after.nets[key] == t.nets[key]
            &&& !t.nets.contains_key(key) ==> after.nets[key] == e.prefix.net()
        }),
{
    let path = elem_path(e);
    let after = table_after(t, elem_change(e), rpki);
    if t.paths.contains(path) {
        let i = t.paths.index_of(path);
        assert(t.paths[i] == path);
    } else {
        assert(t.paths =~= after.paths.subrange(0, t.paths.len() as int));
    }
    assert(t.paths =~= after.paths.subrange(0, t.paths.len() as int));
}

/// An update leads to an alert just where it announces a route whose origin the authorizations
/// refuse, or whose path is suspected of a leak. The alert says what the update says, and which of
/// the two it is.
pub proof fn updates_alert_on_invalid_and_leaked_routes(checks: Checks, e: Elem)
    ensures
        elem_alert(Some(checks), e) is Some <==> !e.withdraw && ((elem_origin(e) is Some && rov(
            checks.roas,
            e.prefix.net(),
            elem_origin(e)->0,
        ) == RpkiState::Invalid) || (elem_path(e).len() > 0 && verdict(
            elem_path(e),
            checks.detector.rel(),
        ) == PathVerdict::LeakSuspected)),
        elem_alert(Some(checks), e) matches Some(a) ==> {
            &&& a.timestamp == e.timestamp && a.peer_asn == e.peer_asn
            &&& a.prefix == prefix_text(e.prefix.net())
            &&& a.origin_asn == elem_origin(e) && a.as_path == elem_path(e)
            &&& a.collector == checks.collector
            &&& a.leak_suspected <==> elem_path(e).len() > 0 && verdict(
                elem_path(e),
                checks.detector.rel(),
            ) == PathVerdict::LeakSuspected
            &&& elem_origin(e) is Some ==> a.rpki_state == rov(
                checks.roas,
                e.prefix.net(),
                elem_origin(e)->0,
            )
            &&& elem_origin(e) is None ==> a.rpki_state == RpkiState::Unknown
            &&& elem_path(e).len() > 0 ==> a.path_verdict == verdict(
                elem_path(e),
                checks.detector.rel(),
            )
            &&& elem_path(e).len() == 0 ==> a.path_verdict == PathVerdict::TooShort
            &&& a.rpki_state == RpkiState::Invalid && !a.leak_suspected ==> a.reason
                == "rpki_invalid"@
            &&& a.rpki_state != RpkiState::Invalid && a.leak_suspected ==> a.reason
                == "valley_free_violation"@
            &&& a.rpki_state == RpkiState::Invalid && a.leak_suspected ==> a.reason
                == "rpki_invalid"@ + ","@ + "valley_free_violation"@
        },
        elem_alert(None, e) is None,
        elem_state(None, e) == RpkiState::Unknown,
        elem_state(Some(checks), e) == (match elem_origin(e) {
            Some(o) => rov(checks.roas, e.prefix.net(), o),
            None => RpkiState::Unknown,
        }),
{
    alerts_name_their_reasons(
        change_state(checks.roas, e.prefix.net(), elem_origin(e)),
        path_verdict(elem_path(e), checks.detector),
    );
}

/// The number of updates taken is the smaller of the number there are and the most there may be.
pub proof fn no_more_updates_than_the_most(max: Option<usize>, n: nat)
    ensures
        updates_taken(max, n) <= n,
        max matches Some(m) ==> updates_taken(max, n) <= m,
        (max matches Some(m) ==> n <= m) ==> updates_taken(max, n) == n,
        max matches Some(m) ==> (m <= n ==> updates_taken(max, n) == m),
{
}

/// An element that withdraws takes its peer's route to its prefix out, and a prefix without routes;
/// it leaves every other route, and what the routes name by number, as they are.
pub proof fn withdrawals_take_one_route(t: TableView, e: Elem, rpki: RpkiState, peer: u32)
    requires
        e.withdraw,
        t.routes.contains_key(e.prefix.key()) ==> t.routes[e.prefix.key()] != Map::<
            u32,
            RouteEntry,
        >::empty(),
    ensures
        ({
            let after = table_after(t, elem_change(e), rpki);
            let key = e.prefix.key();
            &&& !(after.routes.contains_key(key) && after.routes[key].contains_key(e.peer_asn))
            &&& peer != e.peer_asn && t.routes.contains_key(key) && t.routes[key].contains_key(peer)
                ==> after.routes.contains_key(key) && after.routes[key].contains_key(peer)
                && after.routes[key][peer] == t.routes[key][peer]
            &&& after.paths == t.paths && after.community_lists == t.community_lists
            &&& forall|k: PrefixKey|
                k != key ==> (#[trigger] after.routes.contains_key(k) <==> t.routes.contains_key(k))
                    && (t.routes.contains_key(k) ==> after.routes[k] == t.routes[k])
            &&& forall|k: PrefixKey| #[trigger]
                after.nets.contains_key(k) <==> t.nets.contains_key(k)
                    && after.routes.contains_key(k)
            &&& forall|k: PrefixKey| #[trigger]
                after.nets.contains_key(k) ==> after.nets[k] == t.nets[k]
        }),
{
    withdrawing_takes_one_route(t.routes, e.prefix.key(), e.peer_asn, e.prefix.key(), peer);
}

} // verus!
