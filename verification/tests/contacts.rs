use bgp_analyzer::clean::{
    clean_drop_reason, filter_clean_features, leasing_set, registrable_domain, same_family,
    CleanContext, CleanDropReason,
};
use bgp_analyzer::diff::{diff_snapshots, parse_ratio, DiffConfig, Ratio};
use bgp_analyzer::eval::{
    count_hits, count_passed, eval_cases, eval_cases_against_features, eval_passed, eval_start,
    record_lines, score_backtest, EvalCase, EvalCaseResult, EvalStart,
};
use bgp_analyzer::events::{canon_pair, MaEvent, MaEventKind};
use bgp_analyzer::features::{
    aggregate_pair_features, filter_sparse_events, AsnPairFeature, SparseConfig,
};
use bgp_analyzer::glue::{GlueSet, SubjectHeuristics};
use bgp_analyzer::orgs::{OrgMap, OrgRecord};
use bgp_analyzer::prefix::parse_prefix;
use bgp_analyzer::rib::{Rib, RouteEntry};
use bgp_analyzer::rpki::RpkiState;
use bgp_analyzer::signal::{build_signals, pair_key, PairStateStore};
use bgp_analyzer::snapshot::{upstream_of_origin, PrefixObs, RibSnapshot};
use bgp_analyzer::time::Instant;

fn at(secs: i64) -> Instant {
    Instant { secs, nanos: 0 }
}

fn record(id: &str, name: &str, asn: u32, domain: &str, hint: Option<u32>) -> OrgRecord {
    OrgRecord {
        org_id: id.into(),
        name: name.into(),
        asns: vec![asn],
        domains: vec![domain.into()],
        prefix_count_hint: hint,
        external_id: None,
    }
}

fn org_map() -> OrgMap {
    let mut m = OrgMap::new();
    m.insert(record("acme", "Acme", 65000, "acme.com", Some(10)));
    m.insert(record("beta", "Beta", 65001, "beta.io", Some(5)));
    m
}

fn entry(rib: &mut Rib, path: &[u32], peer: u32, origin: u32) -> RouteEntry {
    let id = rib.interner.intern_as_path(path);
    RouteEntry {
        origin_asn: Some(origin),
        as_path_id: id,
        peer_asn: peer,
        communities_id: None,
        rpki: RpkiState::Unknown,
        timestamp: at(1),
    }
}

fn obs(origin: u32, upstream: Option<u32>, path: &[u32]) -> PrefixObs {
    PrefixObs { origin_asn: origin, upstream_asn: upstream, as_path: path.to_vec() }
}

fn move_ev(day: i64, a: u32, b: u32, prefix: &str) -> MaEvent {
    MaEvent {
        kind: MaEventKind::PrefixMove,
        timestamp: at(day * 86400),
        org_a: Some("a".into()),
        org_b: Some("b".into()),
        asn_a: Some(a),
        asn_b: Some(b),
        domains_a: vec![],
        domains_b: vec![],
        prefix: Some(prefix.into()),
        detail: format!("origin {a} -> {b}"),
    }
}

fn other_ev(kind: MaEventKind, day: i64, a: u32, b: u32) -> MaEvent {
    MaEvent { kind, prefix: None, ..move_ev(day, a, b, "") }
}

#[test]
fn detects_prefix_move_between_subjects() {
    let mut rib_b = Rib::new();
    let p = parse_prefix("203.0.113.0/24").unwrap();
    let e = entry(&mut rib_b, &[1, 65000], 1, 65000);
    rib_b.announce(p, e);
    let before = RibSnapshot::from_rib(&rib_b, at(1));

    let mut rib_a = Rib::new();
    let e = entry(&mut rib_a, &[1, 65001], 1, 65001);
    rib_a.announce(p, e);
    let after = RibSnapshot::from_rib(&rib_a, at(2));

    let glue = GlueSet::builtin();
    let events = diff_snapshots(&before, &after, &org_map(), &glue, &DiffConfig::default());
    assert!(
        events.iter().any(|e| e.kind == MaEventKind::PrefixMove
            && e.asn_a == Some(65000)
            && e.asn_b == Some(65001)),
        "events={events:?}"
    );
    let m = events.iter().find(|e| e.kind == MaEventKind::PrefixMove).unwrap();
    assert_eq!(m.org_a.as_deref(), Some("acme"));
    assert_eq!(m.domains_b, vec!["beta.io"]);
    assert_eq!(m.prefix.as_deref(), Some("203.0.113.0/24"));
    assert_eq!(m.detail, "origin 65000 -> 65001");
    assert_eq!(m.timestamp, at(2));
}

#[test]
fn detects_new_adj_and_footprint() {
    let glue = GlueSet::from_text("3356\n").unwrap();
    let map = org_map();
    let mut before = RibSnapshot::new(at(1));
    before.prefixes.insert("198.51.100.0/24".into(), obs(65000, Some(3356), &[3356, 65000]));

    let mut after = RibSnapshot::new(at(2));
    after.prefixes.insert("198.51.100.0/24".into(), obs(65000, Some(65001), &[1, 65001, 65000]));
    for i in 0..10 {
        after
            .prefixes
            .insert(format!("198.51.100.{i}/32"), obs(65000, Some(65001), &[65001, 65000]));
    }

    let cfg = DiffConfig {
        heuristics: SubjectHeuristics::default(),
        footprint_rel_threshold: parse_ratio("0.2").unwrap(),
        footprint_abs_threshold: 5,
    };
    let events = diff_snapshots(&before, &after, &map, &glue, &cfg);
    assert!(events.iter().any(|e| e.kind == MaEventKind::NewAdj));
    assert!(events.iter().any(|e| e.kind == MaEventKind::FootprintStep));
    assert!(events.iter().any(|e| e.kind == MaEventKind::UpstreamConverge));
    let step = events.iter().find(|e| e.kind == MaEventKind::FootprintStep).unwrap();
    assert_eq!(step.detail, "prefix_count 1 -> 11 (delta 10)");
    assert_eq!(step.asn_b, None);
}

#[test]
fn nothing_happens_between_a_snapshot_and_itself() {
    let mut snap = RibSnapshot::new(at(1));
    snap.prefixes.insert("198.51.100.0/24".into(), obs(65000, Some(65001), &[1, 65001, 65000]));
    let events =
        diff_snapshots(&snap, &snap, &org_map(), &GlueSet::new(), &DiffConfig::default());
    assert!(events.is_empty());
}

#[test]
fn glue_takes_no_part_in_moves() {
    let mut before = RibSnapshot::new(at(1));
    before.prefixes.insert("198.51.100.0/24".into(), obs(65000, None, &[65000]));
    let mut after = RibSnapshot::new(at(2));
    after.prefixes.insert("198.51.100.0/24".into(), obs(65001, None, &[65001]));
    let glue = GlueSet::from_text("65001").unwrap();
    let events = diff_snapshots(&before, &after, &org_map(), &glue, &DiffConfig::default());
    assert!(!events.iter().any(|e| e.kind == MaEventKind::PrefixMove));
}

#[test]
fn ratios_are_read_exactly() {
    assert_eq!(parse_ratio("0.25"), Some(Ratio { num: 25, den: 100 }));
    assert_eq!(parse_ratio("3"), Some(Ratio { num: 3, den: 1 }));
    assert_eq!(parse_ratio("1.5"), Some(Ratio { num: 15, den: 10 }));
    for bad in ["", ".", ".5", "5.", "-1", "1.2.3", "1e3", "inf"] {
        assert_eq!(parse_ratio(bad), None);
    }
    assert_eq!(parse_ratio("0.00000000000000000001"), None);
}

#[test]
fn longest_path_represents_a_prefix() {
    let mut rib = Rib::new();
    let p = parse_prefix("203.0.113.0/24").unwrap();
    let e = entry(&mut rib, &[1, 65000], 1, 65000);
    rib.announce(p, e);
    let e = entry(&mut rib, &[2, 3, 65000], 2, 65000);
    rib.announce(p, e);
    let snap = RibSnapshot::from_rib(&rib, at(9));
    let o = snap.prefixes.get("203.0.113.0/24").unwrap();
    assert_eq!(o.as_path, vec![2, 3, 65000]);
    assert_eq!(o.upstream_asn, Some(3));
    assert_eq!(snap.as_of, at(9));
    assert_eq!(upstream_of_origin(&[7, 65000, 65000], 65000), Some(7));
    assert_eq!(upstream_of_origin(&[65000], 65000), None);
}

#[test]
fn aggregates_persistence_and_prefixes() {
    let events = vec![
        move_ev(1, 65000, 65001, "203.0.113.0/24"),
        move_ev(1, 65000, 65001, "203.0.113.1/32"),
        move_ev(3, 65001, 65000, "198.51.100.0/24"),
    ];
    let feats = aggregate_pair_features(&events);
    assert_eq!(feats.len(), 1);
    assert_eq!(feats[0].prefixes_moved, 3);
    assert_eq!(feats[0].prefix_move_days, 2);
    assert_eq!(feats[0].persistence_days, 2);
    assert!(feats[0].score > 0);
    assert_eq!(feats[0].score, 3 * 10 + 2 * 5 + 2);
    assert_eq!(feats[0].org_lo.as_deref(), Some("a"));
    assert_eq!(feats[0].org_hi.as_deref(), Some("b"));
}

#[test]
fn features_rank_by_score_then_network() {
    let events = vec![
        other_ev(MaEventKind::NewAdj, 1, 9, 8),
        other_ev(MaEventKind::NewAdj, 1, 7, 6),
        other_ev(MaEventKind::UpstreamConverge, 1, 7, 6),
        other_ev(MaEventKind::NewAdj, 1, 5, 4),
        other_ev(MaEventKind::NewAdj, 1, 3, 3),
        other_ev(MaEventKind::FootprintStep, 2, 20, 21),
    ];
    let feats = aggregate_pair_features(&events);
    let pairs: Vec<(u32, u32, i64)> =
        feats.iter().map(|f| (f.asn_lo, f.asn_hi, f.score)).collect();
    assert_eq!(pairs, vec![(6, 7, 2), (4, 5, 1), (8, 9, 1), (20, 21, 0)]);
}

#[test]
fn sparse_keeps_multi_prefix_moves_only() {
    let events = vec![
        move_ev(1, 65000, 65001, "203.0.113.0/24"),
        move_ev(1, 65000, 65001, "203.0.113.1/32"),
        move_ev(1, 65002, 65003, "198.51.100.0/24"),
    ];
    let sparse = filter_sparse_events(&events, &SparseConfig::default());
    assert_eq!(sparse.len(), 2);
    assert!(sparse.iter().all(|e| {
        matches!(
            (e.asn_a, e.asn_b),
            (Some(65000), Some(65001)) | (Some(65001), Some(65000))
        )
    }));
}

#[test]
fn sparse_counts_prefixes_of_one_day() {
    let events = vec![
        move_ev(1, 1, 2, "10.0.0.0/8"),
        move_ev(2, 1, 2, "10.0.0.0/9"),
        move_ev(3, 1, 2, "10.0.0.0/8"),
        move_ev(3, 2, 1, "10.0.0.0/8"),
        move_ev(4, 1, 2, "10.0.0.0/8"),
        move_ev(4, 2, 1, "10.0.0.0/9"),
        other_ev(MaEventKind::NewAdj, 4, 1, 2),
    ];
    let cfg = SparseConfig::default();
    let sparse = filter_sparse_events(&events, &cfg);
    assert_eq!(sparse.len(), 2);
    assert!(sparse.iter().all(|e| e.timestamp == at(4 * 86400)));
    let again = filter_sparse_events(&sparse, &cfg);
    assert_eq!(again.len(), 2);
    let all = SparseConfig {
        min_prefix_moves_per_pair_day: 0,
        keep_new_adj: true,
        keep_upstream_converge: true,
        keep_footprint_step: true,
    };
    assert_eq!(filter_sparse_events(&events, &all).len(), 7);
    let f = aggregate_pair_features(&sparse);
    assert_eq!(f[0].prefixes_moved, 2);
    assert_eq!(f[0].new_adj_days, 0);
}

#[test]
fn pairs_are_unordered() {
    assert_eq!(canon_pair(2, 1), (1, 2));
    assert_eq!(canon_pair(1, 2), (1, 2));
    assert_eq!(pair_key(1, 23), "1-23");
    assert_ne!(pair_key(1, 23), pair_key(12, 3));
}

fn case(kind: MaEventKind, a: u32, b: Option<u32>, from: i64, to: i64) -> EvalCase {
    EvalCase {
        id: "t1".into(),
        expect_kind: kind,
        asn_a: a,
        asn_b: b,
        prefix: None,
        window_start: at(from),
        window_end: at(to),
        expect_hit: true,
        notes: String::new(),
    }
}

#[test]
fn eval_case_hits_prefix_move() {
    let events = vec![MaEvent {
        kind: MaEventKind::PrefixMove,
        timestamp: at(100),
        org_a: Some("a".into()),
        org_b: Some("b".into()),
        asn_a: Some(65000),
        asn_b: Some(65001),
        domains_a: vec![],
        domains_b: vec![],
        prefix: Some("203.0.113.0/24".into()),
        detail: "origin 65000 -> 65001".into(),
    }];
    let cases = vec![EvalCase {
        id: "t1".into(),
        expect_kind: MaEventKind::PrefixMove,
        asn_a: 65001,
        asn_b: Some(65000),
        prefix: Some("203.0.113.0/24".into()),
        window_start: at(50),
        window_end: at(150),
        expect_hit: true,
        notes: String::new(),
    }];
    let results = eval_cases(&cases, &events);
    assert_eq!(results.len(), 1);
    assert!(results[0].hit);
    assert!(results[0].passed);
    assert_eq!(results[0].matched_detail.as_deref(), Some("origin 65000 -> 65001"));
}

#[test]
fn cases_miss_what_they_do_not_ask_for() {
    let events = vec![move_ev(1, 1, 2, "10.0.0.0/8")];
    let t = 86400;
    let hit = |c: EvalCase| eval_cases(&vec![c], &events)[0].hit;
    assert!(hit(case(MaEventKind::PrefixMove, 1, None, t, t)));
    assert!(!hit(case(MaEventKind::PrefixMove, 2, None, t, t)));
    assert!(hit(case(MaEventKind::PrefixMove, 2, Some(1), t, t)));
    assert!(!hit(case(MaEventKind::PrefixMove, 2, Some(3), t, t)));
    assert!(!hit(case(MaEventKind::NewAdj, 1, Some(2), t, t)));
    assert!(!hit(case(MaEventKind::PrefixMove, 1, Some(2), t + 1, t + 2)));
    assert!(!hit(case(MaEventKind::PrefixMove, 1, Some(2), t - 2, t - 1)));
    let mut c = case(MaEventKind::PrefixMove, 1, Some(2), t, t);
    c.prefix = Some("10.0.0.0/9".into());
    assert!(!hit(c));
}

#[test]
fn features_are_scored_and_counted() {
    let events = vec![move_ev(1, 1, 2, "10.0.0.0/8"), other_ev(MaEventKind::NewAdj, 3, 1, 2)];
    let features = aggregate_pair_features(&events);
    let d = 86400;
    let mut control = case(MaEventKind::UpstreamConverge, 1, Some(2), 0, 9 * d);
    control.expect_hit = false;
    let cases = vec![
        case(MaEventKind::PrefixMove, 2, Some(1), 2 * d, 9 * d),
        control,
        case(MaEventKind::NewAdj, 2, None, 4 * d, 9 * d),
        case(MaEventKind::FootprintStep, 2, None, 0, 9 * d),
    ];
    let r = eval_cases_against_features(&cases, &features);
    let hits: Vec<bool> = r.iter().map(|x| x.hit).collect();
    assert_eq!(hits, vec![true, false, false, true]);
    assert_eq!(
        r[0].matched_detail.as_deref(),
        Some("score=18 prefixes_moved=1 prefix_move_days=1 persistence_days=2")
    );
    assert_eq!(count_hits(&r), 2);
    assert_eq!(count_passed(&r), 3);
    let report = score_backtest(&cases, &events, &features);
    assert_eq!((report.feature_hits, report.feature_misses), (2, 2));
    assert_eq!((report.feature_passed, report.feature_failed), (3, 1));
    assert_eq!((report.event_hits, report.event_misses), (0, 4));
    assert_eq!((report.event_passed, report.event_failed), (1, 3));
}

#[test]
fn an_evaluation_fails_where_a_result_is_not_as_expected() {
    let result = |passed: bool| EvalCaseResult {
        id: "x".into(),
        hit: passed,
        passed,
        matched_detail: None,
    };
    let good = [result(true), result(true)];
    let bad = [result(true), result(false)];
    assert!(eval_passed(Some(&good), Some(&good)));
    assert_eq!((count_passed(&good), count_passed(&bad)), (2, 1));
    assert!(eval_passed(Some(&good), None) && eval_passed(None, None));
    assert!(!eval_passed(Some(&bad), Some(&good)));
    assert!(!eval_passed(None, Some(&bad)));
    assert_eq!(eval_start(&[], false, false), EvalStart::NoCases);
    assert_eq!(eval_start(&[], true, true), EvalStart::NoCases);
    let cases = [case(MaEventKind::PrefixMove, 1, None, 0, 9)];
    assert_eq!(eval_start(&cases, false, false), EvalStart::NothingGiven);
    assert_eq!(eval_start(&cases, false, true), EvalStart::Score);
    assert_eq!(eval_start(&cases, true, false), EvalStart::Score);
}

#[test]
fn record_lines_skip_blanks_and_comments() {
    let text = "  {\"a\":1}\r\n\n # note\n{}\n";
    assert_eq!(
        record_lines(text, true),
        vec![(1, "{\"a\":1}".to_string()), (4, "{}".to_string())]
    );
    assert_eq!(record_lines(text, false).len(), 3);
}

#[test]
fn drops_same_org_and_leasing() {
    let leasing = leasing_set(&[]);
    assert_eq!(
        clean_drop_reason(1, 2, Some("org:a"), Some("org:a"), &leasing),
        Some(CleanDropReason::SameOrg)
    );
    assert_eq!(
        clean_drop_reason(834, 100, Some("x"), Some("y"), &leasing),
        Some(CleanDropReason::Leasing)
    );
    assert_eq!(
        clean_drop_reason(1, 2, Some("org:a"), Some("org:b"), &leasing),
        None
    );
}

#[test]
fn drops_pairs_without_organizations() {
    let leasing = leasing_set(&[77]);
    assert!(leasing.contains(&77) && leasing.contains(&43260));
    for (a, b) in [(None, Some("x")), (Some("x"), None), (None, None), (Some(""), Some("x"))] {
        assert_eq!(clean_drop_reason(1, 2, a, b, &leasing), Some(CleanDropReason::Unattributed));
    }
    assert_eq!(clean_drop_reason(1, 77, None, None, &leasing), Some(CleanDropReason::Leasing));
}

#[test]
fn registrable_domains() {
    let r = |s: &str| registrable_domain(s);
    assert_eq!(r("www.example.com").as_deref(), Some("example.com"));
    assert_eq!(r("example.com").as_deref(), Some("example.com"));
    assert_eq!(r("a.b.example.co.uk").as_deref(), Some("example.co.uk"));
    assert_eq!(r("example.co.uk").as_deref(), Some("example.co.uk"));
    assert_eq!(r("www.example.de").as_deref(), Some("example.de"));
    for (name, registered) in [
        ("www.a.gob.mx", "a.gob.mx"),
        ("b.gouv.fr", "b.gouv.fr"),
        ("www.x.nom.co", "x.nom.co"),
        ("rtr.x.ad.jp", "x.ad.jp"),
        ("www.a.me.uk", "a.me.uk"),
        ("b.me.uk", "b.me.uk"),
        ("www.a.web.za", "a.web.za"),
        ("www.a.co.za", "a.co.za"),
        ("www.a.co.de", "co.de"),
        ("www.web.de", "web.de"),
        ("www.a.gov.fr", "gov.fr"),
        ("www.a.b.sch.uk", "a.b.sch.uk"),
        ("x.sch.uk", "x.sch.uk"),
        ("www.a.k12.ca.us", "a.k12.ca.us"),
        ("www.a.ca.us", "a.ca.us"),
        ("www.a.sp.gov.br", "a.sp.gov.br"),
        ("www.a.xx.gov.br", "xx.gov.br"),
        ("www.a.vic.edu.au", "a.vic.edu.au"),
        ("www.a.vic.gov.au", "a.vic.gov.au"),
        ("www.a.vic.au", "a.vic.au"),
        ("www.city.kobe.jp", "city.kobe.jp"),
        ("www.a.nada.kobe.jp", "a.nada.kobe.jp"),
        ("www.city.chiyoda.tokyo.jp", "city.chiyoda.tokyo.jp"),
        ("www.metro.tokyo.jp", "metro.tokyo.jp"),
        ("www.a.oslo.no", "a.oslo.no"),
        ("www.telenor.no", "telenor.no"),
        ("www.a.os.hedmark.no", "a.os.hedmark.no"),
        ("www.a.gs.oslo.no", "a.gs.oslo.no"),
        ("www.a.hanoi.vn", "a.hanoi.vn"),
        ("www.a.milano.it", "a.milano.it"),
        ("www.a.com.np", "a.com.np"),
        ("ns.www.ck", "www.ck"),
        ("ns.a.co.ck", "a.co.ck"),
        ("www.a.x.bg", "a.x.bg"),
        ("www.ab.bg", "ab.bg"),
        ("www.a.com.br", "a.com.br"),
        ("www.a.co.com", "co.com"),
    ] {
        assert_eq!(r(name).as_deref(), Some(registered), "{name}");
    }
    assert_eq!(r("192.0.2.1").as_deref(), Some("192.0.2.1"));
    assert_eq!(r("localhost").as_deref(), Some("localhost"));
    assert_eq!(r("www.example.com.").as_deref(), Some("example.com"));
    assert_eq!(r(""), None);
}

#[test]
fn families_share_a_domain_either_way() {
    let a = vec!["x.org".to_string(), "www.acme.com".to_string()];
    let b = vec!["shop.acme.com".to_string()];
    let c = vec!["acme.net".to_string()];
    assert!(same_family(&a, &b) && same_family(&b, &a));
    assert!(!same_family(&a, &c) && !same_family(&c, &a));
    assert!(!same_family(&a, &[]));
    let d = vec!["a.gob.mx".to_string()];
    let e = vec!["b.gob.mx".to_string()];
    assert!(!same_family(&d, &e));
    assert!(!same_family(&vec!["a.me.uk".to_string()], &vec!["b.me.uk".to_string()]));
}

fn feature(lo: u32, hi: u32, org_lo: &str, org_hi: &str) -> AsnPairFeature {
    AsnPairFeature {
        asn_lo: lo,
        asn_hi: hi,
        org_lo: Some(org_lo.into()),
        org_hi: Some(org_hi.into()),
        prefix_move_days: 1,
        prefixes_moved: 3,
        new_adj_days: 0,
        upstream_converge_days: 0,
        first_seen: at(0),
        last_seen: at(0),
        persistence_days: 0,
        score: 10,
    }
}

#[test]
fn cleaning_names_each_reason() {
    let mut map = org_map();
    map.insert(record("acme-eu", "Acme EU", 65002, "www.acme.com", None));
    let glue = GlueSet::from_text("15169").unwrap();
    let leasing = leasing_set(&[]);
    let ctx = CleanContext { leasing: &leasing, glue: &glue, org_map: &map };
    let features = vec![
        feature(65000, 65001, "acme", "beta"),
        feature(15169, 65001, "g", "beta"),
        feature(834, 65001, "x", "beta"),
        feature(65000, 65001, "", "beta"),
        feature(65000, 65001, "acme", "acme"),
        feature(65000, 65002, "acme", "acme-eu"),
    ];
    let (kept, dropped) = filter_clean_features(&features, &ctx);
    assert_eq!(kept.len(), 1);
    assert_eq!((kept[0].asn_lo, kept[0].asn_hi), (65000, 65001));
    let reasons: Vec<CleanDropReason> = dropped.iter().map(|d| d.1).collect();
    assert_eq!(
        reasons,
        vec![
            CleanDropReason::Glue,
            CleanDropReason::Leasing,
            CleanDropReason::Unattributed,
            CleanDropReason::SameOrg,
            CleanDropReason::SameFamily,
        ]
    );
}

const JAN_10_2022: i64 = 1_641_774_600;

#[test]
fn pair_state_merges_and_prunes() {
    let ts = at(JAN_10_2022);
    let mut f = feature(1, 2, "a", "b");
    f.first_seen = ts;
    f.last_seen = ts;
    let mut st = PairStateStore::default();
    st.merge_day(&vec![f], ts, 30);
    assert!(st.get(1, 2).is_some());
    let old = ts.minus_days(60);
    let i = st.pairs.find(&pair_key(1, 2)).unwrap();
    let mut e = st.pairs.value_at(i).copy();
    e.last_seen = old;
    st.pairs.set_at(i, e);
    st.merge_day(&vec![], ts, 30);
    assert!(st.get(1, 2).is_none());
}

#[test]
fn pair_state_adds_up_over_days() {
    let d1 = at(JAN_10_2022);
    let d2 = at(JAN_10_2022 + 3 * 86400);
    let mut st = PairStateStore::default();
    let mut f = feature(1, 2, "a", "b");
    f.org_hi = None;
    f.first_seen = d1;
    f.last_seen = d1;
    st.merge_day(&vec![f.copy()], d1, 30);
    let mut g = feature(1, 2, "z", "b");
    g.first_seen = d2;
    g.last_seen = d2;
    g.score = 4;
    g.prefixes_moved = u32::MAX;
    st.merge_day(&vec![g.copy()], d2, 30);
    let e = st.get(1, 2).unwrap();
    assert_eq!(e.prefix_move_days, 2);
    assert_eq!(e.prefixes_moved, u32::MAX);
    assert_eq!(e.score, 10);
    assert_eq!((e.first_seen, e.last_seen), (d1, d2));
    assert_eq!(e.org_lo.as_deref(), Some("a"));
    assert_eq!(e.org_hi.as_deref(), Some("b"));
    assert_eq!(st.updated_at, Some(d2));

    let signals = build_signals(&vec![g], &org_map(), d2, d1, Some(&st));
    assert_eq!(signals[0].persistence_days, 3);
    assert_eq!(signals[0].score, 10);
    assert_eq!(signals[0].prefix_move_days, 2);
}

#[test]
fn signals_carry_organizations_and_rank() {
    let d = at(JAN_10_2022);
    let mut low = feature(65000, 65001, "acme", "beta");
    low.score = 3;
    low.new_adj_days = 1;
    low.upstream_converge_days = 1;
    let mut high = feature(7, 65001, "x", "beta");
    high.score = 8;
    high.persistence_days = 5;
    let s = build_signals(&vec![low, high], &org_map(), d, at(0), None);
    assert_eq!((s[0].asn_a, s[1].asn_a), (7, 65000));
    assert_eq!(s[0].persistence_days, 5);
    assert_eq!(s[0].event_kinds, vec!["prefix_move"]);
    assert_eq!(s[1].event_kinds, vec!["prefix_move", "new_adj", "upstream_converge"]);
    assert_eq!(s[1].domains_a, vec!["acme.com"]);
    assert_eq!(s[1].domains_b, vec!["beta.io"]);
    assert_eq!(s[0].domains_a, Vec::<String>::new());
    assert_eq!((s[1].schema_version, s[1].source.as_str()), (1, "bgp_analyzer"));
    assert_eq!(s[1].kind, "network_contact");
    assert!(s[1].suppress_flags.is_empty());
}
