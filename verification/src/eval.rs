//! Scoring of known cases against events and pair features.

use crate::events::{canon_pair, event_views, pair_of, EventView, MaEvent, MaEventKind};
use crate::features::{feature_views, AsnPairFeature, FeatureView};
use crate::orgs::{copy_opt_text, opt_text};
use crate::text::{
    decimal, format_i64, format_u64, lines, lines_of, same_text, signed_decimal, starts_with_char,
    texts, trim, trimmed,
};
use crate::time::{earlier, Instant};
use vstd::prelude::*;
use vstd::seq_lib::lemma_seq_contains_after_push;
use vstd::string::StringExecFns;

verus! {

/// A case that is known to be a contact, or known not to be one.
#[derive(Debug)]
pub struct EvalCase {
    pub id: String,
    pub expect_kind: MaEventKind,
    pub asn_a: u32,
    pub asn_b: Option<u32>,
    pub prefix: Option<String>,
    pub window_start: Instant,
    pub window_end: Instant,
    /// Where false, a hit is a false positive.
    pub expect_hit: bool,
    pub notes: String,
}

/// What a case asks for.
#[verifier::ext_equal]
pub struct CaseView {
    pub id: Seq<char>,
    pub expect_kind: MaEventKind,
    pub asn_a: u32,
    pub asn_b: Option<u32>,
    pub prefix: Option<Seq<char>>,
    pub window_start: Instant,
    pub window_end: Instant,
    pub expect_hit: bool,
    pub notes: Seq<char>,
}

impl View for EvalCase {
    type V = CaseView;

    open spec fn view(&self) -> CaseView {
        CaseView {
            id: self.id@,
            expect_kind: self.expect_kind,
            asn_a: self.asn_a,
            asn_b: self.asn_b,
            prefix: opt_text(self.prefix),
            window_start: self.window_start,
            window_end: self.window_end,
            expect_hit: self.expect_hit,
            notes: self.notes@,
        }
    }
}

impl EvalCase {
    /// A copy of the case.
    pub fn copy(&self) -> (r: EvalCase)
        ensures
            r@ == self@,
    {
        EvalCase {
            id: self.id.clone(),
            expect_kind: self.expect_kind,
            asn_a: self.asn_a,
            asn_b: self.asn_b,
            prefix: copy_opt_text(&self.prefix),
            window_start: self.window_start,
            window_end: self.window_end,
            expect_hit: self.expect_hit,
            notes: self.notes.clone(),
        }
    }
}

/// What cases ask for.
pub open spec fn case_views(v: Seq<EvalCase>) -> Seq<CaseView> {
    Seq::new(v.len(), |i: int| v[i]@)
}

/// How a case came out.
#[derive(Debug)]
pub struct EvalCaseResult {
    pub id: String,
    /// Something matched the case.
    pub hit: bool,
    /// The outcome is the expected one.
    pub passed: bool,
    pub matched_detail: Option<String>,
}

/// What a result says.
#[verifier::ext_equal]
pub struct ResultView {
    pub id: Seq<char>,
    pub hit: bool,
    pub passed: bool,
    pub matched_detail: Option<Seq<char>>,
}

impl View for EvalCaseResult {
    type V = ResultView;

    open spec fn view(&self) -> ResultView {
        ResultView {
            id: self.id@,
            hit: self.hit,
            passed: self.passed,
            matched_detail: opt_text(self.matched_detail),
        }
    }
}

/// What results say.
pub open spec fn result_views(v: Seq<EvalCaseResult>) -> Seq<ResultView> {
    Seq::new(v.len(), |i: int| v[i]@)
}

/// A case's result, from the detail of what matched it.
pub open spec fn outcome(c: CaseView, matched: Option<Seq<char>>) -> ResultView {
    ResultView {
        id: c.id,
        hit: matched is Some,
        passed: (matched is Some) == c.expect_hit,
        matched_detail: matched,
    }
}

fn outcome_of(case: &EvalCase, matched_detail: Option<String>) -> (r: EvalCaseResult)
    ensures
        r@ == outcome(case@, opt_text(matched_detail)),
{
    let hit = matched_detail.is_some();
    EvalCaseResult { id: case.id.clone(), hit, passed: hit == case.expect_hit, matched_detail }
}

// ---- events ----

/// A time lies in a window, its ends included.
pub open spec fn in_window(t: Instant, start: Instant, end: Instant) -> bool {
    !earlier(t, start) && !earlier(end, t)
}

/// An event names two networks, in either order.
pub open spec fn names_pair(e: EventView, a: u32, b: u32) -> bool {
    (e.asn_a == Some(a) && e.asn_b == Some(b)) || (e.asn_a == Some(b) && e.asn_b == Some(a))
}

/// An event is what a case asks for.
pub open spec fn event_matches(e: EventView, c: CaseView) -> bool {
    &&& e.kind == c.expect_kind
    &&& in_window(e.timestamp, c.window_start, c.window_end)
    &&& c.prefix is Some ==> e.prefix == c.prefix
    &&& match c.asn_b {
        Some(b) => names_pair(e, c.asn_a, b),
        None => e.asn_a == Some(c.asn_a),
    }
}

/// The detail of the first event that matches a case.
pub open spec fn first_event(events: Seq<EventView>, c: CaseView) -> Option<Seq<char>>
    decreases events.len(),
{
    if events.len() == 0 {
        None
    } else {
        match first_event(events.drop_last(), c) {
            Some(d) => Some(d),
            None => if event_matches(events.last(), c) {
                Some(events.last().detail)
            } else {
                None
            },
        }
    }
}

/// The results of cases against events.
pub open spec fn event_results(cases: Seq<CaseView>, events: Seq<EventView>) -> Seq<ResultView> {
    Seq::new(cases.len(), |i: int| outcome(cases[i], first_event(events, cases[i])))
}

fn same_prefix(have: &Option<String>, want: &str) -> (r: bool)
    ensures
        r == (opt_text(*have) == Some(want@)),
{
    match have {
        Some(p) => same_text(p.as_str(), want),
        None => false,
    }
}

fn event_matches_case(ev: &MaEvent, case: &EvalCase) -> (r: bool)
    ensures
        r == event_matches(ev@, case@),
{
    if ev.kind != case.expect_kind {
        return false;
    }
    if ev.timestamp.is_earlier(&case.window_start) || case.window_end.is_earlier(&ev.timestamp) {
        return false;
    }
    if let Some(want) = &case.prefix {
        if !same_prefix(&ev.prefix, want.as_str()) {
            return false;
        }
    }
    match case.asn_b {
        Some(b) => match (ev.asn_a, ev.asn_b) {
            (Some(x), Some(y)) => (x == case.asn_a && y == b) || (x == b && y == case.asn_a),
            _ => false,
        },
        None => match ev.asn_a {
            Some(x) => x == case.asn_a,
            None => false,
        },
    }
}

fn find_event(events: &[MaEvent], case: &EvalCase) -> (r: Option<String>)
    ensures
        opt_text(r) == first_event(event_views(events@), case@),
{
    let ghost evs = event_views(events@);
    let mut found: Option<String> = None;
    let mut i: usize = 0;
    assert(evs.subrange(0, 0) =~= Seq::empty());
    while i < events.len()
        invariant
            i <= events@.len(),
            evs == event_views(events@),
            opt_text(found) == first_event(evs.subrange(0, i as int), case@),
        decreases events@.len() - i,
    {
        proof {
            let next = evs.subrange(0, i as int + 1);
            assert(next.drop_last() =~= evs.subrange(0, i as int));
            assert(next.last() == events@[i as int]@);
        }
        if found.is_none() && event_matches_case(&events[i], case) {
            found = Some(events[i].detail.clone());
        }
        i += 1;
    }
    assert(evs.subrange(0, evs.len() as int) =~= evs);
    found
}

/// Scores each case against events.
pub fn eval_cases(cases: &[EvalCase], events: &[MaEvent]) -> (r: Vec<EvalCaseResult>)
    ensures
        result_views(r@) == event_results(case_views(cases@), event_views(events@)),
{
    let mut out: Vec<EvalCaseResult> = Vec::new();
    let mut i: usize = 0;
    while i < cases.len()
        invariant
            i <= cases@.len(),
            out@.len() == i,
            forall|j: int|
                0 <= j < i ==> (#[trigger] out@[j])@ == outcome(
                    cases@[j]@,
                    first_event(event_views(events@), cases@[j]@),
                ),
        decreases cases@.len() - i,
    {
        out.push(outcome_of(&cases[i], find_event(events, &cases[i])));
        i += 1;
    }
    assert(result_views(out@) =~= event_results(case_views(cases@), event_views(events@)));
    out
}

// ---- features ----

/// A feature is what a case asks for: it is of the case's pair, or of its one network where the
/// case names no other, its span meets the case's window, and it has activity of the case's kind.
pub open spec fn feature_matches(f: FeatureView, c: CaseView) -> bool {
    &&& match c.asn_b {
        Some(b) => (f.asn_lo, f.asn_hi) == pair_of(c.asn_a, b),
        None => f.asn_lo == c.asn_a || f.asn_hi == c.asn_a,
    }
    &&& !earlier(f.last_seen, c.window_start) && !earlier(c.window_end, f.first_seen)
    &&& match c.expect_kind {
        MaEventKind::PrefixMove => f.prefix_move_days > 0,
        MaEventKind::NewAdj => f.new_adj_days > 0,
        MaEventKind::UpstreamConverge => f.upstream_converge_days > 0,
        MaEventKind::FootprintStep => true,
    }
}

/// The text that describes a feature in a result.
pub open spec fn feature_detail(f: FeatureView) -> Seq<char> {
    "score="@ + signed_decimal(f.score as int) + " prefixes_moved="@ + decimal(
        f.prefixes_moved as nat,
    ) + " prefix_move_days="@ + decimal(f.prefix_move_days as nat) + " persistence_days="@
        + signed_decimal(f.persistence_days as int)
}

/// The description of the first feature that matches a case.
pub open spec fn first_feature(features: Seq<FeatureView>, c: CaseView) -> Option<Seq<char>>
    decreases features.len(),
{
    if features.len() == 0 {
        None
    } else {
        match first_feature(features.drop_last(), c) {
            Some(d) => Some(d),
            None => if feature_matches(features.last(), c) {
                Some(feature_detail(features.last()))
            } else {
                None
            },
        }
    }
}

/// The results of cases against features.
pub open spec fn feature_results(cases: Seq<CaseView>, features: Seq<FeatureView>) -> Seq<
    ResultView,
> {
    Seq::new(cases.len(), |i: int| outcome(cases[i], first_feature(features, cases[i])))
}

fn feature_matches_case(f: &AsnPairFeature, case: &EvalCase) -> (r: bool)
    ensures
        r == feature_matches(f@, case@),
{
    let pair_ok = match case.asn_b {
        Some(b) => {
            let p = canon_pair(case.asn_a, b);
            f.asn_lo == p.0 && f.asn_hi == p.1
        },
        None => f.asn_lo == case.asn_a || f.asn_hi == case.asn_a,
    };
    if !pair_ok {
        return false;
    }
    if f.last_seen.is_earlier(&case.window_start) || case.window_end.is_earlier(&f.first_seen) {
        return false;
    }
    match case.expect_kind {
        MaEventKind::PrefixMove => f.prefix_move_days > 0,
        MaEventKind::NewAdj => f.new_adj_days > 0,
        MaEventKind::UpstreamConverge => f.upstream_converge_days > 0,
        MaEventKind::FootprintStep => true,
    }
}

fn describe_feature(f: &AsnPairFeature) -> (r: String)
    ensures
        r@ == feature_detail(f@),
{
    let mut out = "score=".to_owned();
    out.append(format_i64(f.score).as_str());
    out.append(" prefixes_moved=");
    out.append(format_u64(f.prefixes_moved as u64).as_str());
    out.append(" prefix_move_days=");
    out.append(format_u64(f.prefix_move_days as u64).as_str());
    out.append(" persistence_days=");
    out.append(format_i64(f.persistence_days).as_str());
    assert(out@ =~= feature_detail(f@));
    out
}

fn find_feature(features: &[AsnPairFeature], case: &EvalCase) -> (r: Option<String>)
    ensures
        opt_text(r) == first_feature(feature_views(features@), case@),
{
    let ghost fs = feature_views(features@);
    let mut found: Option<String> = None;
    let mut i: usize = 0;
    assert(fs.subrange(0, 0) =~= Seq::empty());
    while i < features.len()
        invariant
            i <= features@.len(),
            fs == feature_views(features@),
            opt_text(found) == first_feature(fs.subrange(0, i as int), case@),
        decreases features@.len() - i,
    {
        proof {
            let next = fs.subrange(0, i as int + 1);
            assert(next.drop_last() =~= fs.subrange(0, i as int));
            assert(next.last() == features@[i as int]@);
        }
        if found.is_none() && feature_matches_case(&features[i], case) {
            found = Some(describe_feature(&features[i]));
        }
        i += 1;
    }
    assert(fs.subrange(0, fs.len() as int) =~= fs);
    found
}

/// Scores each case against pair features.
pub fn eval_cases_against_features(
    cases: &[EvalCase],
    features: &[AsnPairFeature],
) -> (r: Vec<EvalCaseResult>)
    ensures
        result_views(r@) == feature_results(case_views(cases@), feature_views(features@)),
{
    let mut out: Vec<EvalCaseResult> = Vec::new();
    let mut i: usize = 0;
    while i < cases.len()
        invariant
            i <= cases@.len(),
            out@.len() == i,
            forall|j: int|
                0 <= j < i ==> (#[trigger] out@[j])@ == outcome(
                    cases@[j]@,
                    first_feature(feature_views(features@), cases@[j]@),
                ),
        decreases cases@.len() - i,
    {
        out.push(outcome_of(&cases[i], find_feature(features, &cases[i])));
        i += 1;
    }
    assert(result_views(out@) =~= feature_results(case_views(cases@), feature_views(features@)));
    out
}

// ---- the report ----

/// The results against events and against features, with their counts.
#[derive(Debug)]
pub struct BacktestEvalReport {
    pub event_results: Vec<EvalCaseResult>,
    pub feature_results: Vec<EvalCaseResult>,
    pub event_hits: usize,
    pub event_misses: usize,
    pub feature_hits: usize,
    pub feature_misses: usize,
    pub event_passed: usize,
    pub event_failed: usize,
    pub feature_passed: usize,
    pub feature_failed: usize,
}

/// How many results are hits.
pub open spec fn hits_in(results: Seq<ResultView>) -> nat {
    results.filter(|r: ResultView| r.hit).len()
}

/// How many results are the expected ones.
pub open spec fn passed_in(results: Seq<ResultView>) -> nat {
    results.filter(|r: ResultView| r.passed).len()
}

/// Counts the hits among results.
pub fn count_hits(results: &[EvalCaseResult]) -> (r: usize)
    ensures
        r == hits_in(result_views(results@)),
        r <= results@.len(),
{
    let ghost rs = result_views(results@);
    let ghost pred = |r: ResultView| r.hit;
    let mut n: usize = 0;
    let mut i: usize = 0;
    proof {
        reveal(Seq::filter);
        assert(rs.subrange(0, 0) =~= Seq::empty());
    }
    while i < results.len()
        invariant
            n <= i <= results@.len(),
            rs == result_views(results@),
            pred == (|r: ResultView| r.hit),
            n == rs.subrange(0, i as int).filter(pred).len(),
        decreases results@.len() - i,
    {
        proof {
            reveal(Seq::filter);
            let next = rs.subrange(0, i as int + 1);
            assert(next.drop_last() =~= rs.subrange(0, i as int));
            assert(next.last() == results@[i as int]@);
        }
        if results[i].hit {
            n += 1;
        }
        i += 1;
    }
    assert(rs.subrange(0, rs.len() as int) =~= rs);
    n
}

/// Counts the expected outcomes among results.
pub fn count_passed(results: &[EvalCaseResult]) -> (r: usize)
    ensures
        r == passed_in(result_views(results@)),
        r <= results@.len(),
{
    let ghost rs = result_views(results@);
    let ghost pred = |r: ResultView| r.passed;
    let mut n: usize = 0;
    let mut i: usize = 0;
    proof {
        reveal(Seq::filter);
        assert(rs.subrange(0, 0) =~= Seq::empty());
    }
    while i < results.len()
        invariant
            n <= i <= results@.len(),
            rs == result_views(results@),
            pred == (|r: ResultView| r.passed),
            n == rs.subrange(0, i as int).filter(pred).len(),
        decreases results@.len() - i,
    {
        proof {
            reveal(Seq::filter);
            let next = rs.subrange(0, i as int + 1);
            assert(next.drop_last() =~= rs.subrange(0, i as int));
            assert(next.last() == results@[i as int]@);
        }
        if results[i].passed {
            n += 1;
        }
        i += 1;
    }
    assert(rs.subrange(0, rs.len() as int) =~= rs);
    n
}

/// Whether cases are scored.
#[derive(Clone, Copy, Debug, PartialEq, Eq, Structural)]
pub enum EvalStart {
    /// There is no case: nothing is scored, and nothing fails.
    NoCases,
    /// Neither events nor features are given: that is an error.
    NothingGiven,
    /// The cases are scored.
    Score,
}

/// Decides whether cases are scored, before what they are scored against is read.
pub fn eval_start(cases: &[EvalCase], events_given: bool, features_given: bool) -> (r: EvalStart)
    ensures
        r == EvalStart::NoCases <==> cases@.len() == 0,
        r == EvalStart::NothingGiven <==> cases@.len() > 0 && !events_given && !features_given,
{
    if cases.len() == 0 {
        EvalStart::NoCases
    } else if !events_given && !features_given {
        EvalStart::NothingGiven
    } else {
        EvalStart::Score
    }
}

/// All results are as expected.
pub open spec fn all_passed(results: Seq<ResultView>) -> bool {
    forall|i: int| 0 <= i < results.len() ==> (#[trigger] results[i]).passed
}

fn passes(results: &[EvalCaseResult]) -> (r: bool)
    ensures
        r == all_passed(result_views(results@)),
{
    let ghost rs = result_views(results@);
    let mut i: usize = 0;
    while i < results.len()
        invariant
            i <= results@.len(),
            rs == result_views(results@),
            forall|j: int| 0 <= j < i ==> (#[trigger] rs[j]).passed,
        decreases results@.len() - i,
    {
        assert(rs[i as int] == results@[i as int]@);
        if !results[i].passed {
            return false;
        }
        i += 1;
    }
    true
}

/// Tells whether an evaluation passes: it fails where one result against the events or the
/// features that were given is not as expected.
pub fn eval_passed(
    event_results: Option<&[EvalCaseResult]>,
    feature_results: Option<&[EvalCaseResult]>,
) -> (r: bool)
    ensures
        r == ((event_results matches Some(e) ==> all_passed(result_views(e@))) && (
        feature_results matches Some(f) ==> all_passed(result_views(f@)))),
{
    let by_events = match event_results {
        Some(e) => passes(e),
        None => true,
    };
    let by_features = match feature_results {
        Some(f) => passes(f),
        None => true,
    };
    by_events && by_features
}

/// Results are all as expected where as many passed as there are.
pub proof fn passing_is_counting(results: Seq<ResultView>)
    ensures
        passed_in(results) <= results.len(),
        all_passed(results) <==> passed_in(results) == results.len(),
    decreases results.len(),
{
    reveal(Seq::filter);
    if results.len() > 0 {
        let head = results.drop_last();
        passing_is_counting(head);
        if all_passed(results) {
            assert forall|i: int| 0 <= i < head.len() implies (#[trigger] head[i]).passed by {
                assert(head[i] == results[i]);
            }
            assert(results[results.len() - 1].passed);
        }
        if all_passed(head) && results.last().passed {
            assert forall|i: int| 0 <= i < results.len() implies (#[trigger] results[i]).passed by {
                if i < head.len() {
                    assert(results[i] == head[i]);
                }
            }
        }
    }
}

/// Scores cases against both events and features.
pub fn score_backtest(
    cases: &[EvalCase],
    events: &[MaEvent],
    features: &[AsnPairFeature],
) -> (r: BacktestEvalReport)
    ensures
        result_views(r.event_results@) == event_results(case_views(cases@), event_views(events@)),
        result_views(r.feature_results@) == feature_results(
            case_views(cases@),
            feature_views(features@),
        ),
        r.event_hits == hits_in(result_views(r.event_results@)),
        r.feature_hits == hits_in(result_views(r.feature_results@)),
        r.event_passed == passed_in(result_views(r.event_results@)),
        r.feature_passed == passed_in(result_views(r.feature_results@)),
        r.event_hits + r.event_misses == cases@.len(),
        r.feature_hits + r.feature_misses == cases@.len(),
        r.event_passed + r.event_failed == cases@.len(),
        r.feature_passed + r.feature_failed == cases@.len(),
{
    let event_results = eval_cases(cases, events);
    let feature_results = eval_cases_against_features(cases, features);
    proof {
        assert(result_views(event_results@).len() == cases@.len());
        assert(result_views(feature_results@).len() == cases@.len());
    }
    let event_hits: usize = count_hits(&event_results);
    let feature_hits: usize = count_hits(&feature_results);
    let event_passed: usize = count_passed(&event_results);
    let feature_passed: usize = count_passed(&feature_results);
    BacktestEvalReport {
        event_misses: event_results.len() - event_hits,
        feature_misses: feature_results.len() - feature_hits,
        event_failed: event_results.len() - event_passed,
        feature_failed: feature_results.len() - feature_passed,
        event_hits,
        feature_hits,
        event_passed,
        feature_passed,
        event_results,
        feature_results,
    }
}

// ---- the lines of a record file ----

/// A line of a record file carries a record: it is not blank and, where comments may stand in the
/// file, does not begin with `#`.
pub open spec fn is_record_line(line: Seq<char>, comments: bool) -> bool {
    let t = trimmed(line);
    t.len() > 0 && !(comments && t[0] == '#')
}

/// The records among the first lines of a file, each with its line number from one.
pub open spec fn records_among(ls: Seq<Seq<char>>, comments: bool) -> Seq<(int, Seq<char>)>
    decreases ls.len(),
{
    if ls.len() == 0 {
        Seq::empty()
    } else {
        let head = records_among(ls.drop_last(), comments);
        if is_record_line(ls.last(), comments) {
            head.push((ls.len() as int, trimmed(ls.last())))
        } else {
            head
        }
    }
}

/// What numbered lines say.
pub open spec fn numbered(v: Seq<(usize, String)>) -> Seq<(int, Seq<char>)> {
    Seq::new(v.len(), |i: int| (v[i].0 as int, v[i].1@))
}

/// The records of a file that holds one to a line, each with its line number from one.
pub fn record_lines(text: &str, comments: bool) -> (r: Vec<(usize, String)>)
    ensures
        numbered(r@) == records_among(lines_of(text@), comments),
{
    let ls = lines(text);
    let ghost all = texts(ls@);
    let mut out: Vec<(usize, String)> = Vec::new();
    let mut i: usize = 0;
    assert(all.subrange(0, 0) =~= Seq::empty());
    assert(numbered(out@) =~= Seq::empty());
    while i < ls.len()
        invariant
            i <= ls@.len(),
            all == texts(ls@),
            numbered(out@) == records_among(all.subrange(0, i as int), comments),
        decreases ls@.len() - i,
    {
        let ghost before = out@;
        proof {
            let next = all.subrange(0, i as int + 1);
            assert(next.drop_last() =~= all.subrange(0, i as int));
            assert(next.last() == all[i as int]);
        }
        let t = trim(ls[i].as_str());
        let blank = same_text(t.as_str(), "");
        proof {
            reveal_strlit("");
            assert(t@.len() == 0 ==> t@ =~= ""@);
        }
        if !blank && !(comments && starts_with_char(t.as_str(), '#')) {
            out.push((i + 1, t));
            assert(numbered(out@) =~= numbered(before).push((i + 1, t@)));
        }
        i += 1;
    }
    assert(all.subrange(0, all.len() as int) =~= all);
    out
}

// ---- laws ----

/// A case is hit exactly where some event matches it.
pub proof fn hit_iff_some_event_matches(events: Seq<EventView>, c: CaseView)
    ensures
        outcome(c, first_event(events, c)).hit <==> exists|i: int|
            0 <= i < events.len() && event_matches(#[trigger] events[i], c),
    decreases events.len(),
{
    if events.len() > 0 {
        let head = events.drop_last();
        hit_iff_some_event_matches(head, c);
        if exists|i: int| 0 <= i < events.len() && event_matches(#[trigger] events[i], c) {
            let i = choose|i: int| 0 <= i < events.len() && event_matches(#[trigger] events[i], c);
            if i < head.len() {
                assert(event_matches(head[i], c));
            }
        }
        if exists|i: int| 0 <= i < head.len() && event_matches(#[trigger] head[i], c) {
            let i = choose|i: int| 0 <= i < head.len() && event_matches(#[trigger] head[i], c);
            assert(event_matches(events[i], c));
        }
        if event_matches(events.last(), c) {
            assert(event_matches(events[events.len() - 1], c));
        }
    }
}

/// A case is hit exactly where some feature matches it.
pub proof fn hit_iff_some_feature_matches(features: Seq<FeatureView>, c: CaseView)
    ensures
        outcome(c, first_feature(features, c)).hit <==> exists|i: int|
            0 <= i < features.len() && feature_matches(#[trigger] features[i], c),
    decreases features.len(),
{
    if features.len() > 0 {
        let head = features.drop_last();
        hit_iff_some_feature_matches(head, c);
        if exists|i: int| 0 <= i < features.len() && feature_matches(#[trigger] features[i], c) {
            let i = choose|i: int|
                0 <= i < features.len() && feature_matches(#[trigger] features[i], c);
            if i < head.len() {
                assert(feature_matches(head[i], c));
            }
        }
        if exists|i: int| 0 <= i < head.len() && feature_matches(#[trigger] head[i], c) {
            let i = choose|i: int| 0 <= i < head.len() && feature_matches(#[trigger] head[i], c);
            assert(feature_matches(features[i], c));
        }
        if feature_matches(features.last(), c) {
            assert(feature_matches(features[features.len() - 1], c));
        }
    }
}

/// A case that names two networks asks for the same events whichever stands first.
pub proof fn cases_are_undirected(e: EventView, c: CaseView, d: CaseView)
    requires
        c.asn_b is Some,
        d == (CaseView { asn_a: c.asn_b->0, asn_b: Some(c.asn_a), ..c }),
    ensures
        event_matches(e, c) == event_matches(e, d),
{
}

/// A case is hit by events just where one of them is of the kind that it expects, lies in its
/// window, names its prefix where it gives one, and names both its networks in either order, or
/// begins at its one network where it gives no other. It passes just where being hit is what was
/// expected, and its detail is that of the first such event.
pub proof fn events_hit_what_cases_expect(
    cases: Seq<CaseView>,
    events: Seq<EventView>,
    i: int,
)
    requires
        0 <= i < cases.len(),
    ensures
        ({
            let c = cases[i];
            let r = event_results(cases, events)[i];
            let fits = |e: EventView|
                e.kind == c.expect_kind && !earlier(e.timestamp, c.window_start) && !earlier(
                    c.window_end,
                    e.timestamp,
                ) && (c.prefix is None || e.prefix == c.prefix) && (match c.asn_b {
                    Some(b) => (e.asn_a == Some(c.asn_a) && e.asn_b == Some(b)) || (e.asn_a == Some(
                        b,
                    ) && e.asn_b == Some(c.asn_a)),
                    None => e.asn_a == Some(c.asn_a),
                });
            &&& r.id == c.id
            &&& r.passed <==> r.hit == c.expect_hit
            &&& r.hit <==> exists|j: int| 0 <= j < events.len() && fits(#[trigger] events[j])
            &&& r.matched_detail is Some <==> r.hit
            &&& forall|j: int|
                #![trigger events[j]]
                0 <= j < events.len() && fits(events[j]) && (forall|k: int|
                    0 <= k < j ==> !fits(#[trigger] events[k])) ==> r.matched_detail == Some(
                    events[j].detail,
                )
        }),
        event_results(cases, events).len() == cases.len(),
{
    let c = cases[i];
    let fits = |e: EventView|
        e.kind == c.expect_kind && !earlier(e.timestamp, c.window_start) && !earlier(
            c.window_end,
            e.timestamp,
        ) && (c.prefix is None || e.prefix == c.prefix) && (match c.asn_b {
            Some(b) => (e.asn_a == Some(c.asn_a) && e.asn_b == Some(b)) || (e.asn_a == Some(b)
                && e.asn_b == Some(c.asn_a)),
            None => e.asn_a == Some(c.asn_a),
        });
    assert forall|e: EventView| #[trigger] fits(e) <==> event_matches(e, c) by {}
    hit_iff_some_event_matches(events, c);
    if exists|j: int| 0 <= j < events.len() && fits(#[trigger] events[j]) {
        let j = choose|j: int| 0 <= j < events.len() && fits(#[trigger] events[j]);
        assert(event_matches(events[j], c));
    }
    if exists|j: int| 0 <= j < events.len() && event_matches(#[trigger] events[j], c) {
        let j = choose|j: int| 0 <= j < events.len() && event_matches(#[trigger] events[j], c);
        assert(fits(events[j]));
    }
    assert forall|j: int|
        #![trigger events[j]]
        0 <= j < events.len() && fits(events[j]) && (forall|k: int|
            0 <= k < j ==> !fits(#[trigger] events[k])) implies first_event(events, c) == Some(
        events[j].detail,
    ) by {
        assert forall|k: int| 0 <= k < j implies !event_matches(#[trigger] events[k], c) by {
            assert(!fits(events[k]));
        }
        lemma_first_event(events, c, j);
    }
}

proof fn lemma_first_event(events: Seq<EventView>, c: CaseView, j: int)
    requires
        0 <= j < events.len(),
        event_matches(events[j], c),
        forall|k: int| 0 <= k < j ==> !event_matches(#[trigger] events[k], c),
    ensures
        first_event(events, c) == Some(events[j].detail),
    decreases events.len(),
{
    let head = events.drop_last();
    if j < head.len() {
        assert(head[j] == events[j]);
        assert forall|k: int| 0 <= k < j implies !event_matches(#[trigger] head[k], c) by {
            assert(head[k] == events[k]);
        }
        lemma_first_event(head, c, j);
    } else {
        hit_iff_some_event_matches(head, c);
        if exists|k: int| 0 <= k < head.len() && event_matches(#[trigger] head[k], c) {
            let k = choose|k: int| 0 <= k < head.len() && event_matches(#[trigger] head[k], c);
            assert(event_matches(events[k], c));
        }
    }
}

/// A case is hit by features just where one of them is of its two networks, or of its one network
/// where it gives no other, was seen neither only before nor only behind its window, and counts the
/// kind of contact that it expects; for a step of a footprint any does.
pub proof fn features_hit_what_cases_expect(
    cases: Seq<CaseView>,
    features: Seq<FeatureView>,
    i: int,
)
    requires
        0 <= i < cases.len(),
    ensures
        ({
            let c = cases[i];
            let r = feature_results(cases, features)[i];
            let fits = |f: FeatureView|
                (match c.asn_b {
                    Some(b) => (c.asn_a <= b && f.asn_lo == c.asn_a && f.asn_hi == b) || (b
                        <= c.asn_a && f.asn_lo == b && f.asn_hi == c.asn_a),
                    None => f.asn_lo == c.asn_a || f.asn_hi == c.asn_a,
                }) && !earlier(f.last_seen, c.window_start) && !earlier(c.window_end, f.first_seen)
                    && (c.expect_kind == MaEventKind::PrefixMove ==> f.prefix_move_days > 0) && (
                c.expect_kind == MaEventKind::NewAdj ==> f.new_adj_days > 0) && (c.expect_kind
                    == MaEventKind::UpstreamConverge ==> f.upstream_converge_days > 0);
            &&& r.id == c.id
            &&& r.passed <==> r.hit == c.expect_hit
            &&& r.matched_detail is Some <==> r.hit
            &&& r.hit <==> exists|j: int| 0 <= j < features.len() && fits(#[trigger] features[j])
            &&& forall|j: int|
                #![trigger features[j]]
                0 <= j < features.len() && fits(features[j]) && (forall|k: int|
                    0 <= k < j ==> !fits(#[trigger] features[k])) ==> r.matched_detail == Some(
                    "score="@ + signed_decimal(features[j].score as int) + " prefixes_moved="@
                        + decimal(features[j].prefixes_moved as nat) + " prefix_move_days="@
                        + decimal(features[j].prefix_move_days as nat) + " persistence_days="@
                        + signed_decimal(features[j].persistence_days as int),
                )
        }),
        feature_results(cases, features).len() == cases.len(),
{
    let c = cases[i];
    let fits = |f: FeatureView|
        (match c.asn_b {
            Some(b) => (c.asn_a <= b && f.asn_lo == c.asn_a && f.asn_hi == b) || (b <= c.asn_a
                && f.asn_lo == b && f.asn_hi == c.asn_a),
            None => f.asn_lo == c.asn_a || f.asn_hi == c.asn_a,
        }) && !earlier(f.last_seen, c.window_start) && !earlier(c.window_end, f.first_seen) && (
        c.expect_kind == MaEventKind::PrefixMove ==> f.prefix_move_days > 0) && (c.expect_kind
            == MaEventKind::NewAdj ==> f.new_adj_days > 0) && (c.expect_kind
            == MaEventKind::UpstreamConverge ==> f.upstream_converge_days > 0);
    assert forall|f: FeatureView| #[trigger] fits(f) <==> feature_matches(f, c) by {}
    hit_iff_some_feature_matches(features, c);
    if exists|j: int| 0 <= j < features.len() && fits(#[trigger] features[j]) {
        let j = choose|j: int| 0 <= j < features.len() && fits(#[trigger] features[j]);
        assert(feature_matches(features[j], c));
    }
    if exists|j: int| 0 <= j < features.len() && feature_matches(#[trigger] features[j], c) {
        let j = choose|j: int| 0 <= j < features.len() && feature_matches(#[trigger] features[j], c);
        assert(fits(features[j]));
    }
    assert forall|j: int|
        #![trigger features[j]]
        0 <= j < features.len() && fits(features[j]) && (forall|k: int|
            0 <= k < j ==> !fits(#[trigger] features[k])) implies first_feature(features, c)
        == Some(
        "score="@ + signed_decimal(features[j].score as int) + " prefixes_moved="@ + decimal(
            features[j].prefixes_moved as nat,
        ) + " prefix_move_days="@ + decimal(features[j].prefix_move_days as nat)
            + " persistence_days="@ + signed_decimal(features[j].persistence_days as int),
    ) by {
        assert forall|k: int| 0 <= k < j implies !feature_matches(#[trigger] features[k], c) by {
            assert(!fits(features[k]));
        }
        lemma_first_feature(features, c, j);
    }
}

proof fn lemma_first_feature(features: Seq<FeatureView>, c: CaseView, j: int)
    requires
        0 <= j < features.len(),
        feature_matches(features[j], c),
        forall|k: int| 0 <= k < j ==> !feature_matches(#[trigger] features[k], c),
    ensures
        first_feature(features, c) == Some(feature_detail(features[j])),
    decreases features.len(),
{
    let head = features.drop_last();
    if j < head.len() {
        assert(head[j] == features[j]);
        assert forall|k: int| 0 <= k < j implies !feature_matches(#[trigger] head[k], c) by {
            assert(head[k] == features[k]);
        }
        lemma_first_feature(head, c, j);
    } else {
        hit_iff_some_feature_matches(head, c);
        if exists|k: int| 0 <= k < head.len() && feature_matches(#[trigger] head[k], c) {
            let k = choose|k: int| 0 <= k < head.len() && feature_matches(#[trigger] head[k], c);
            assert(feature_matches(features[k], c));
        }
    }
}

/// The records of a file are its lines that are neither blank nor, where comments may stand in it,
/// begin with `#`; each comes without the blanks around and with the number of its line.
pub proof fn records_are_the_other_lines(
    ls: Seq<Seq<char>>,
    comments: bool,
    n: int,
    text: Seq<char>,
)
    ensures
        records_among(ls, comments).contains((n, text)) <==> 1 <= n <= ls.len() && text == trimmed(
            ls[n - 1],
        ) && text.len() > 0 && (comments ==> text[0] != '#'),
        forall|i: int, j: int|
            0 <= i < j < records_among(ls, comments).len() ==> (#[trigger] records_among(
                ls,
                comments,
            )[i]).0 < (#[trigger] records_among(ls, comments)[j]).0,
        forall|i: int|
            0 <= i < records_among(ls, comments).len() ==> (#[trigger] records_among(
                ls,
                comments,
            )[i]).0 <= ls.len(),
    decreases ls.len(),
{
    if ls.len() > 0 {
        let rest = ls.drop_last();
        records_are_the_other_lines(rest, comments, n, text);
        let head = records_among(rest, comments);
        if is_record_line(ls.last(), comments) {
            lemma_seq_contains_after_push(head, (ls.len() as int, trimmed(ls.last())), (n, text));
        }
        if 1 <= n < ls.len() {
            assert(rest[n - 1] == ls[n - 1]);
        }
    }
}

/// One more result counts as a hit just where it is one, and as passed just where it did.
pub proof fn results_are_counted_one_by_one(results: Seq<ResultView>, more: ResultView)
    ensures
        hits_in(results.push(more)) == hits_in(results) + (if more.hit {
            1nat
        } else {
            0
        }),
        passed_in(results.push(more)) == passed_in(results) + (if more.passed {
            1nat
        } else {
            0
        }),
        hits_in(Seq::empty()) == 0 && passed_in(Seq::empty()) == 0,
        hits_in(results) <= results.len(),
    decreases results.len(),
{
    reveal(Seq::filter);
    assert(results.push(more).drop_last() =~= results);
    if results.len() > 0 {
        results_are_counted_one_by_one(results.drop_last(), results.last());
        assert(results.drop_last().push(results.last()) =~= results);
    }
}

} // verus!
