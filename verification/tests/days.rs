use bgp_analyzer::backtest::{
    add_case_asns, add_day_diff, announce_day, build_lead_lag_rows, cases_in_scope,
    finish_backtest, horizon_bucket, nearby_days, pair_contact_in_window, parse_focus, sample_days,
    target_footprint_hit, PlanError, Series,
};
use bgp_analyzer::daily::{
    complete_run, daily_focus, daily_signals, failed_run, find_prior_snapshot, focus_snapshot,
    prune_snapshots, run_day, snapshot_day, snapshot_name, snapshot_only_run, DailyOptions,
    DayOutcome,
};
use bgp_analyzer::diff::DiffConfig;
use bgp_analyzer::eval::EvalCase;
use bgp_analyzer::events::{MaEvent, MaEventKind};
use bgp_analyzer::features::aggregate_pair_features;
use bgp_analyzer::glue::{GlueSet, SubjectHeuristics};
use bgp_analyzer::ingest::{
    list_updates, plan_reconstruction, select_rib_baseline, DataType, IngestError, IngestQuery,
    MrtFile, NextFile, Reading, UpdateBudget,
};
use bgp_analyzer::orgs::{OrgMap, OrgRecord};
use bgp_analyzer::signal::PairStateStore;
use bgp_analyzer::snapshot::{filter_snapshot_focus, PrefixObs, RibSnapshot};
use bgp_analyzer::store::{contact_rows, SignalRunStatus};
use bgp_analyzer::time::{
    archive_instant, normalize_ts, parse_utc_iso, parse_window_instant, parse_ymd, to_rfc3339,
    utc_date, utc_iso, Date, Instant, TimeError, MAX_SECS, MIN_SECS,
};
use std::collections::HashSet;

fn at(secs: i64) -> Instant {
    Instant { secs, nanos: 0 }
}

fn day(s: &str) -> Date {
    parse_ymd(s).unwrap()
}

fn obs(origin: u32, upstream: Option<u32>, path: &[u32]) -> PrefixObs {
    PrefixObs { origin_asn: origin, upstream_asn: upstream, as_path: path.to_vec() }
}

fn names(v: &[&str]) -> Vec<String> {
    v.iter().map(|s| s.to_string()).collect()
}

#[test]
fn parse_ymd_accepts_iso_dates() {
    let d = parse_ymd("2026-08-14").unwrap();
    assert_eq!(d.year(), 2026);
    assert_eq!(d.month(), 8);
    assert_eq!(d.day(), 14);
}

#[test]
fn parse_ymd_rejects_garbage() {
    assert!(parse_ymd("not-a-date").is_err());
    assert!(parse_ymd("2026/08/14").is_err());
    assert!(matches!(parse_ymd("x"), Err(TimeError::Date { raw }) if raw == "x"));
}

#[test]
fn prune_snapshots_retains_recent_only() {
    let as_of = parse_ymd("2026-08-14").unwrap();
    let files = names(&["rib-2026-08-10.json", "rib-2026-08-12.json", "rib-2026-08-14.json"]);
    let gone = prune_snapshots(&files, as_of, 2).unwrap();
    assert!(gone.contains(&"rib-2026-08-10.json".to_string()));
    assert!(!gone.contains(&"rib-2026-08-12.json".to_string()));
    assert!(!gone.contains(&"rib-2026-08-14.json".to_string()));
}

#[test]
fn pruning_before_the_calendar_is_refused() {
    let first = Date { day: -96_465_292 };
    assert!(prune_snapshots(&names(&[]), first, 1).is_none());
    assert!(prune_snapshots(&names(&["other.txt"]), day("2026-08-14"), 1).unwrap().is_empty());
}

#[test]
fn prior_snapshot_is_the_latest_before() {
    let files = names(&[
        "rib-2026-08-14.json",
        "rib-2026-08-10.json",
        "notes.txt",
        "rib-2026-08-12.json",
        "rib-x.json",
        "rib-2026-08-11.json",
    ]);
    assert_eq!(find_prior_snapshot(&files, day("2026-08-14")), Some(3));
    assert_eq!(find_prior_snapshot(&files, day("2026-08-12")), Some(5));
    assert_eq!(find_prior_snapshot(&files, day("2026-08-10")), None);
    assert_eq!(snapshot_name(day("2026-08-14")), "rib-2026-08-14.json");
    assert_eq!(snapshot_day("rib-2026-08-14.json"), Some(day("2026-08-14")));
    assert_eq!(snapshot_day("rib-2026-08-14"), None);
    assert_eq!(snapshot_day("x-2026-08-14.json"), None);
}

#[test]
fn filter_snapshot_focus_is_origin_only() {
    let mut snap = RibSnapshot::new(at(1));
    snap.prefixes.insert("192.0.2.0/24".into(), obs(65000, Some(15169), &[15169, 65000]));
    snap.prefixes.insert("198.51.100.0/24".into(), obs(15169, None, &[15169]));
    let mut focus = HashSet::new();
    focus.insert(65000);
    filter_snapshot_focus(&mut snap, &focus);
    assert!(snap.prefixes.get("192.0.2.0/24").is_some());
    assert!(
        snap.prefixes.get("198.51.100.0/24").is_none(),
        "path-contains must not retain a non-focus origin"
    );
    filter_snapshot_focus(&mut snap, &focus);
    assert_eq!(snap.prefixes.len(), 1);
}

fn org(id: &str, asn: u32, domain: &str) -> OrgRecord {
    OrgRecord {
        org_id: id.into(),
        name: id.into(),
        asns: vec![asn],
        domains: vec![domain.into()],
        prefix_count_hint: None,
        external_id: None,
    }
}

fn options() -> DailyOptions {
    DailyOptions {
        full: false,
        min_prefix_moves: 2,
        no_clean: false,
        pair_state_days: 30,
        diff: DiffConfig::default(),
    }
}

#[test]
fn run_daily_from_fixture_snapshots() {
    let glue = GlueSet::from_text("15169\n").unwrap();
    let mut map = OrgMap::new();
    map.insert(org("pdb:acme", 65000, "acme.example"));
    map.insert(org("pdb:beta", 65001, "beta.example"));

    let before_at = day("2026-09-12").at(0, 30, 0);
    let after_at = day("2026-09-13").at(0, 30, 0);
    let mut before = RibSnapshot::new(before_at);
    let mut after = RibSnapshot::new(after_at);
    for snap in [&mut before, &mut after] {
        snap.collector = Some("fixture".into());
        snap.source = Some("rib".into());
    }
    for i in 0..3u8 {
        let pfx = format!("203.0.113.{i}/32");
        before.prefixes.insert(pfx.clone(), obs(65000, None, &[65000]));
        after.prefixes.insert(pfx, obs(65001, None, &[65001]));
    }
    let focus = daily_focus(
        HashSet::new(),
        true,
        &map,
        &glue,
        &after,
        &SubjectHeuristics::default(),
    );
    assert_eq!(focus, HashSet::from([65000, 65001]));
    assert!(focus_snapshot(&mut after, &focus));
    assert_eq!(after.prefixes.len(), 3);
    assert_eq!(after.collector.as_deref(), Some("fixture"));

    let mut state = PairStateStore::default();
    let day_outcome =
        run_day(Some(&mut before), &mut after, &focus, &map, &glue, &options(), &mut state);
    assert_eq!((before.prefixes.len(), after.prefixes.len()), (3, 3));
    assert_eq!(before.source.as_deref(), Some("rib"));
    let DayOutcome::Compared { prior_as_of, outcome: out } = day_outcome else {
        panic!("the snapshots were not compared");
    };
    assert_eq!(prior_as_of, before_at);
    assert_eq!(out.signals.len(), 1, "one attributable multi-prefix move pair");
    assert_eq!((out.signals[0].asn_a, out.signals[0].asn_b), (65000, 65001));
    assert_eq!(out.signals[0].prefixes_moved, 3);
    assert_eq!(out.signals[0].event_kinds, vec!["prefix_move"]);
    assert_eq!(out.signals[0].as_of, after_at);
    assert_eq!(out.signals[0].prior_as_of, before_at);
    assert!(state.get(65000, 65001).is_some());
    assert_eq!(state.pairs.key_at(0), "65000-65001");
    let run = complete_run(day("2026-09-13"), after_at, before_at, at(5), &out.signals);
    assert_eq!(run.signal_count, 1);
    assert_eq!(run.status, SignalRunStatus::Complete);
    assert_eq!(run.as_of_date, "2026-09-13");
    let rows = contact_rows(&out.signals).unwrap();
    assert_eq!(rows.len(), 1);
    assert_eq!((rows.value_at(0).asn_a, rows.value_at(0).asn_b), (65000, 65001));
}

#[test]
fn a_day_without_a_snapshot_before_it_is_only_focused() {
    let mut after = RibSnapshot::new(at(86400));
    after.prefixes.insert("192.0.2.0/24".into(), obs(1, None, &[1]));
    after.prefixes.insert("198.51.100.0/24".into(), obs(2, None, &[2]));
    let mut state = PairStateStore::default();
    let out = run_day(
        None,
        &mut after,
        &HashSet::from([2]),
        &OrgMap::new(),
        &GlueSet::new(),
        &options(),
        &mut state,
    );
    assert!(matches!(out, DayOutcome::SnapshotOnly));
    assert_eq!(after.prefixes.len(), 1);
    assert!(state.updated_at.is_none());
}

#[test]
fn a_network_out_of_focus_moves_nothing() {
    let mut map = OrgMap::new();
    map.insert(org("a", 65000, "acme.example"));
    map.insert(org("b", 65001, "beta.example"));
    let mut before = RibSnapshot::new(at(86400));
    let mut after = RibSnapshot::new(at(2 * 86400));
    for i in 0..3u8 {
        let pfx = format!("203.0.113.{i}/32");
        before.prefixes.insert(pfx.clone(), obs(65000, None, &[65000]));
        after.prefixes.insert(pfx, obs(65001, None, &[65001]));
    }
    let mut state = PairStateStore::default();
    let out = run_day(
        Some(&mut before),
        &mut after,
        &HashSet::from([65001]),
        &map,
        &GlueSet::new(),
        &options(),
        &mut state,
    );
    let DayOutcome::Compared { outcome, .. } = out else {
        panic!("the snapshots were not compared");
    };
    assert_eq!(outcome.signals.len(), 0);
    assert_eq!((before.prefixes.len(), after.prefixes.len()), (0, 3));
}

#[test]
fn options_turn_filters_off() {
    let glue = GlueSet::new();
    let mut map = OrgMap::new();
    map.insert(org("same", 65000, "acme.example"));
    map.insert(org("beta", 65001, "www.acme.example"));
    let mut before = RibSnapshot::new(at(86400));
    let mut after = RibSnapshot::new(at(2 * 86400));
    before.prefixes.insert("203.0.113.0/24".into(), obs(65000, None, &[65000]));
    after.prefixes.insert("203.0.113.0/24".into(), obs(65001, None, &[65001]));
    let mut state = PairStateStore::default();
    let out = daily_signals(&before, &after, &map, &glue, &options(), &mut state);
    assert_eq!((out.events.len(), out.sparse.len()), (1, 0));
    let mut one = options();
    one.min_prefix_moves = 1;
    let out = daily_signals(&before, &after, &map, &glue, &one, &mut state);
    assert_eq!((out.features.len(), out.cleaned.len(), out.dropped.len()), (1, 0, 1));
    one.no_clean = true;
    one.full = true;
    let out = daily_signals(&before, &after, &map, &glue, &one, &mut state);
    assert_eq!((out.sparse.len(), out.signals.len(), out.dropped.len()), (1, 1, 0));
}

#[test]
fn focus_is_applied_where_there_is_one() {
    let mut snap = RibSnapshot::new(at(1));
    snap.prefixes.insert("192.0.2.0/24".into(), obs(1, None, &[1]));
    assert!(!focus_snapshot(&mut snap, &HashSet::new()));
    assert_eq!(snap.prefixes.len(), 1);
    assert!(focus_snapshot(&mut snap, &HashSet::from([2])));
    assert_eq!(snap.prefixes.len(), 0);
}

#[test]
fn runs_are_recorded() {
    let d = day("2026-08-14");
    let f = failed_run(d, at(7));
    assert_eq!(f.status, SignalRunStatus::Error);
    assert_eq!(utc_iso(f.as_of), "2026-08-14T00:30:00Z");
    let s = snapshot_only_run(d, at(9), at(7));
    assert_eq!((s.status, s.prior_as_of, s.signal_count), (SignalRunStatus::SnapshotOnly, None, 0));
    assert_eq!(s.as_of, at(9));
}

#[test]
fn times_are_read_and_written() {
    assert_eq!(parse_window_instant("1641774600").unwrap(), at(1_641_774_600));
    assert_eq!(parse_window_instant("2022-01-10T00:30:00Z").unwrap(), at(1_641_774_600));
    assert_eq!(parse_window_instant("2022-01-10T01:30:00+01:00").unwrap(), at(1_641_774_600));
    assert!(matches!(parse_window_instant("soon"), Err(TimeError::Instant { .. })));
    assert!(matches!(
        parse_window_instant("9223372036854775807"),
        Err(TimeError::OutOfRange { .. })
    ));
    assert!(matches!(
        parse_window_instant("99223372036854775807"),
        Err(TimeError::Instant { .. })
    ));
    assert_eq!(normalize_ts("0123").unwrap(), "0123");
    assert_eq!(normalize_ts("2022-01-10T00:30:00Z").unwrap(), "1641774600");
    assert!(normalize_ts("x").is_err());
    let t = Instant { secs: 1_641_774_600, nanos: 5 };
    assert_eq!(utc_iso(t), "2022-01-10T00:30:00Z");
    assert_eq!(utc_date(t), "2022-01-10");
    assert_eq!(to_rfc3339(at(1_641_774_600)), "2022-01-10T00:30:00+00:00");
    assert_eq!(parse_utc_iso("2022-01-10T00:30:00Z").unwrap(), at(1_641_774_600));
    assert!(matches!(parse_utc_iso("2022-01-10"), Err(TimeError::Instant { .. })));
    assert_eq!(archive_instant(5, 7), Instant { secs: 5, nanos: 7 });
    assert_eq!(archive_instant(5, 2_000_000_000), at(5));
    assert_eq!(archive_instant(MAX_SECS + 1, 7), at(0));
    assert_eq!(at(3 * 86400 - 1).days_since(&at(0)), 2);
    assert_eq!(at(0).days_since(&at(3 * 86400 - 1)), -2);
}

#[test]
fn samples_cover_the_window() {
    let start = day("2022-01-01");
    let text = |v: Vec<Date>| v.iter().map(|d| d.text()).collect::<Vec<String>>();
    assert_eq!(
        text(sample_days(start, 9, 4).unwrap()),
        vec!["2022-01-01", "2022-01-05", "2022-01-09"]
    );
    assert_eq!(
        text(sample_days(start, 10, 4).unwrap()),
        vec!["2022-01-01", "2022-01-05", "2022-01-09", "2022-01-10"]
    );
    assert_eq!(text(sample_days(start, 1, 7).unwrap()), vec!["2022-01-01"]);
    assert_eq!(sample_days(start, 0, 1).unwrap_err(), PlanError::NoDays);
    assert_eq!(sample_days(start, 3, 0).unwrap_err(), PlanError::NoStep);
    let end = Date { day: 95_026_236 };
    assert_eq!(sample_days(end, 2, 1).unwrap_err(), PlanError::DateOverflow);
    assert_eq!(sample_days(end, 1, 1).unwrap().len(), 1);
}

#[test]
fn neighbours_are_tried_in_order() {
    let d: Vec<i64> = nearby_days(Date { day: 100 }).iter().map(|d| d.day).collect();
    assert_eq!(d, vec![100, 99, 101, 98, 102, 97, 103]);
    let d: Vec<i64> = nearby_days(Date { day: 95_026_236 }).iter().map(|d| d.day).collect();
    assert_eq!(d, vec![95_026_236, 95_026_235, 95_026_234, 95_026_233]);
}

#[test]
fn focus_lists_are_read() {
    let s = parse_focus(" 1, 2,,+3 ,1").unwrap();
    assert_eq!(s, HashSet::from([1, 2, 3]));
    assert!(parse_focus("").unwrap().is_empty());
    assert_eq!(parse_focus("1, x ,y").unwrap_err(), "x");
    assert_eq!(parse_focus("4294967296").unwrap_err(), "4294967296");
    let mut f = HashSet::from([9]);
    add_case_asns(&mut f, &vec![case(1, Some(2), 0, 1), case(3, None, 0, 1)]);
    assert_eq!(f, HashSet::from([9, 1, 2, 3]));
}

fn case(a: u32, b: Option<u32>, from: i64, to: i64) -> EvalCase {
    EvalCase {
        id: "c".into(),
        expect_kind: MaEventKind::PrefixMove,
        asn_a: a,
        asn_b: b,
        prefix: None,
        window_start: at(from),
        window_end: at(to),
        expect_hit: true,
        notes: String::new(),
    }
}

fn ev(kind: MaEventKind, secs: i64, a: u32, b: Option<u32>) -> MaEvent {
    MaEvent {
        kind,
        timestamp: at(secs),
        org_a: None,
        org_b: None,
        asn_a: Some(a),
        asn_b: b,
        domains_a: vec![],
        domains_b: vec![],
        prefix: Some("10.0.0.0/8".into()),
        detail: "d".into(),
    }
}

#[test]
fn cases_in_scope_meet_the_days() {
    let first = Date { day: 10 };
    let last = Date { day: 11 };
    let d = 86400;
    let cases = vec![
        case(1, None, 0, 10 * d - 1),
        case(2, None, 0, 10 * d),
        case(3, None, 12 * d - 1, 99 * d),
        case(4, None, 12 * d, 99 * d),
    ];
    let ids: Vec<u32> = cases_in_scope(&cases, first, last).iter().map(|c| c.asn_a).collect();
    assert_eq!(ids, vec![2, 3]);
}

#[test]
fn announcements_come_from_notes_or_window() {
    let mut c = case(1, Some(2), 0, 5 * 86400 + 7);
    assert_eq!(announce_day(&c).day, 5);
    c.notes = "deal announce=soon\tannounce=2022-01-10 announce=2022-01-11".into();
    assert_eq!(announce_day(&c).text(), "2022-01-10");
}

#[test]
fn leads_are_counted_from_first_contact() {
    let d = 86400;
    let mut c = case(2, Some(1), 10 * d, 40 * d);
    let events = vec![
        ev(MaEventKind::NewAdj, 30 * d, 1, Some(2)),
        ev(MaEventKind::PrefixMove, 20 * d + 5, 2, Some(1)),
        ev(MaEventKind::FootprintStep, 12 * d, 1, None),
        ev(MaEventKind::PrefixMove, 9 * d, 2, Some(1)),
    ];
    let none = vec![];
    assert_eq!(
        pair_contact_in_window(&c, &none, &events),
        (true, Some(20), Some("1970-01-21T00:00:05+00:00".to_string()))
    );
    let features = aggregate_pair_features(&events);
    // the span of the feature begins before the window: it is clamped to the window
    assert_eq!(
        pair_contact_in_window(&c, &features, &events),
        (true, Some(30), Some("1970-01-11T00:00:00+00:00".to_string()))
    );
    assert!(target_footprint_hit(&c, &events));
    c.asn_b = Some(7);
    assert_eq!(pair_contact_in_window(&c, &features, &events), (false, None, None));
    assert!(!target_footprint_hit(&c, &events));
    c.asn_b = None;
    assert_eq!(pair_contact_in_window(&c, &features, &events), (false, None, None));

    let rows = build_lead_lag_rows(&vec![case(2, Some(1), 10 * d, 40 * d)], &none, &events);
    assert_eq!(rows[0].horizon_bucket, "8-30");
    assert_eq!(rows[0].expect_kind, "prefix_move");
    assert_eq!(rows[0].announce_end, "1970-02-10T00:00:00+00:00");
    assert_eq!((rows[0].event_hit, rows[0].feature_hit, rows[0].passed_feature), (true, false, false));
    assert!(rows[0].target_footprint_hit && rows[0].pair_contact_hit);
}

#[test]
fn buckets_have_bounds() {
    let b = |d: i64| horizon_bucket(Some(d), true);
    let got: Vec<String> =
        [366, 365, 181, 180, 91, 90, 31, 30, 8, 7, 1, 0, -1].into_iter().map(b).collect();
    assert_eq!(
        got,
        vec![
            ">365", "181-365", "181-365", "91-180", "91-180", "31-90", "31-90", "8-30", "8-30",
            "1-7", "1-7", "0", "post-announce"
        ]
    );
    assert_eq!(horizon_bucket(None, true), "miss");
    assert_eq!(horizon_bucket(Some(5), false), "miss");
}

#[test]
fn backtests_add_days_and_score() {
    let mut map = OrgMap::new();
    map.insert(org("a", 1, "a.example"));
    map.insert(org("b", 2, "b.example"));
    let glue = GlueSet::new();
    let cfg = DiffConfig::default();
    let snap = |d: i64, origin: u32| {
        let mut s = RibSnapshot::new(at(d * 86400));
        s.prefixes.insert("203.0.113.0/24".into(), obs(origin, None, &[origin]));
        s
    };
    let mut all = Vec::new();
    let one = add_day_diff(&mut all, &snap(10, 1), &snap(11, 2), &map, &glue, &cfg);
    let two = add_day_diff(&mut all, &snap(11, 2), &snap(12, 1), &map, &glue, &cfg);
    assert_eq!((one.len(), two.len(), all.len()), (1, 1, 2));
    let cases = vec![case(1, Some(2), 11 * 86400, 20 * 86400), case(1, None, 90 * 86400, 91 * 86400)];
    let out = finish_backtest(&all, &cases, Date { day: 10 }, Date { day: 12 });
    assert_eq!(out.features.len(), 1);
    assert_eq!(out.features[0].prefix_move_days, 2);
    let (report, rows) = out.scored.unwrap();
    assert_eq!((report.event_hits, report.feature_hits), (1, 1));
    assert_eq!(rows.len(), 1);
    assert_eq!(rows[0].lead_days, Some(9));
    let none = finish_backtest(&all, &vec![], Date { day: 10 }, Date { day: 12 });
    assert!(none.scored.is_none());
}

#[test]
fn data_type_strings() {
    assert_eq!(DataType::Rib.as_broker_str(), "rib");
    assert_eq!(DataType::Updates.as_broker_str(), "updates");
}

fn file(url: &str, secs: i64) -> MrtFile {
    MrtFile { url: url.into(), ts_start: at(secs) }
}

#[test]
fn reconstruction_starts_from_the_latest_dump() {
    let ribs = || vec![file("r1", 1), file("r3", 3), file("r2", 2)];
    assert_eq!(select_rib_baseline(ribs()).unwrap().url, "r3");
    assert!(matches!(select_rib_baseline(vec![]), Err(IngestError::NoFiles)));
    assert!(matches!(list_updates(vec![]), Err(IngestError::NoFiles)));
    let urls = |v: &Vec<MrtFile>| v.iter().map(|f| f.url.clone()).collect::<Vec<String>>();
    let u = list_updates(vec![file("b", 2), file("a", 1), file("c", 2)]).unwrap();
    assert_eq!(urls(&u), vec!["a", "b", "c"]);
    let p = plan_reconstruction(ribs(), Some(vec![file("b", 2), file("a", 1)])).unwrap();
    assert_eq!((p.rib.url.as_str(), urls(&p.updates)), ("r3", vec!["a".into(), "b".into()]));
    assert!(plan_reconstruction(ribs(), None).unwrap().updates.is_empty());
    assert!(plan_reconstruction(vec![], None).is_err());
    let q = IngestQuery {
        ts_start: "1".into(),
        ts_end: "2".into(),
        collector: Some("rv2".into()),
        data_type: DataType::Updates,
    };
    let r = q.with_type(DataType::Rib);
    assert_eq!((r.data_type, r.ts_end.as_str()), (DataType::Rib, "2"));
}

#[test]
fn readings_go_from_baseline_to_updates() {
    let plan = plan_reconstruction(
        vec![file("r", 1)],
        Some(vec![file("a", 1), file("b", 2), file("c", 3)]),
    )
    .unwrap();
    let mut r = Reading::of_plan(plan, Some(3));
    assert!(matches!(r.next_file(), NextFile::Baseline { url } if url == "r"));
    for _ in 0..10 {
        assert!(r.wants_more() && !r.reads_updates());
        r.took();
    }
    assert_eq!(r.budget.seen, 0);
    assert!(matches!(r.next_file(), NextFile::Updates { url } if url == "a"));
    assert!(r.reads_updates());
    r.took();
    assert!(matches!(r.next_file(), NextFile::Updates { url } if url == "b"));
    r.took();
    r.took();
    assert!(!r.wants_more());
    assert!(matches!(r.next_file(), NextFile::Done));
    assert_eq!(r.budget.seen, 3);

    let mut u = Reading::of_updates(vec![file("a", 1)], None);
    assert!(matches!(u.next_file(), NextFile::Updates { url } if url == "a"));
    assert!(matches!(u.next_file(), NextFile::Done));
}

#[test]
fn update_budgets_run_out() {
    let mut b = UpdateBudget { max: Some(2), seen: 0 };
    let mut n = 0;
    while b.allows() {
        b.count();
        n += 1;
    }
    assert_eq!(n, 2);
    assert!(UpdateBudget { max: None, seen: usize::MAX }.allows());
    assert!(!UpdateBudget { max: Some(0), seen: 0 }.allows());
}

#[test]
fn a_series_compares_neighbours() {
    let mut map = OrgMap::new();
    map.insert(org("a", 65000, "acme.example"));
    map.insert(org("b", 65001, "beta.example"));
    let glue = GlueSet::new();
    let cfg = DiffConfig::default();
    let days = sample_days(day("2026-09-01"), 3, 1).unwrap();
    let mut series = Series::new();
    let mut spans = Vec::new();
    for (i, d) in days.iter().enumerate() {
        let mut snap = RibSnapshot::new(d.at(0, 30, 0));
        let origin = if i < 2 { 65000 } else { 65001 };
        snap.prefixes.insert("203.0.113.0/24".into(), obs(origin, None, &[origin]));
        if let Some((from, events)) = series.add_sample(*d, snap, &map, &glue, &cfg) {
            spans.push((from.text(), d.text(), events.len()));
        }
    }
    assert_eq!(
        spans,
        vec![
            ("2026-09-01".to_string(), "2026-09-02".to_string(), 0),
            ("2026-09-02".to_string(), "2026-09-03".to_string(), 1),
        ]
    );
    assert_eq!(series.all.len(), 1);
    assert_eq!(series.all[0].kind, MaEventKind::PrefixMove);
    assert_eq!(series.prior.unwrap().0, days[2]);
}

#[test]
fn forms_read_back_in_all_years() {
    for secs in [MIN_SECS, -62_167_219_200, -62_167_219_201, -1, 0, 327_403_382_400, MAX_SECS] {
        assert_eq!(parse_utc_iso(&utc_iso(at(secs))).unwrap(), at(secs));
        let d = at(secs).date();
        assert_eq!(parse_ymd(&d.text()).unwrap(), d);
        assert_eq!(snapshot_day(&snapshot_name(d)), Some(d));
    }
    assert_eq!(utc_iso(at(-62_167_219_201)), "-0001-12-31T23:59:59Z");
    let leap = day("2024-02-29");
    assert_eq!((leap.year(), leap.month(), leap.day()), (2024, 2, 29));
    let zero = at(-62_167_219_200).date();
    assert_eq!((zero.year(), zero.month(), zero.day()), (0, 1, 1));
}
