use bgp_analyzer::detect::{
    alert_columns, collapse, maybe_alert, relationship_table_complete, DetectError, LeakDetector,
    PathVerdict, RelType,
};
use bgp_analyzer::ingest::{
    apply_elem_cyber, check_elem, plan_reconstruction, take_elem, Elem, MrtFile, NextFile,
    PathSegment, Reading,
};
use bgp_analyzer::prefix::parse_prefix;
use bgp_analyzer::rib::Rib;
use bgp_analyzer::rpki::{Roa, RoasTrie, RpkiState};
use bgp_analyzer::time::Instant;

fn diamond() -> LeakDetector {
    LeakDetector::from_edges(vec![
        (1, 2, RelType::ProviderToCustomer),
        (1, 3, RelType::ProviderToCustomer),
        (2, 3, RelType::PeerToPeer),
        (2, 4, RelType::ProviderToCustomer),
        (3, 4, RelType::ProviderToCustomer),
    ])
}

fn at(secs: i64) -> Instant {
    Instant { secs, nanos: 0 }
}

#[test]
fn valley_free_customer_path_ok() {
    let det = diamond();
    assert_eq!(det.check_as_path(&[2, 4]), PathVerdict::ValleyFree);
    assert_eq!(det.check_as_path(&[1, 2, 4]), PathVerdict::ValleyFree);
}

#[test]
fn detects_provider_to_provider_leak() {
    let det = LeakDetector::from_edges(vec![
        (100, 200, RelType::ProviderToCustomer),
        (300, 200, RelType::ProviderToCustomer),
        (100, 400, RelType::ProviderToCustomer),
        (300, 500, RelType::ProviderToCustomer),
    ]);
    let verdict = det.check_as_path(&[300, 200, 100, 400]);
    assert_eq!(verdict, PathVerdict::LeakSuspected);
}

#[test]
fn alert_only_on_invalid_or_leak() {
    let a = maybe_alert(
        at(1),
        parse_prefix("1.2.3.0/24").unwrap(),
        Some(1),
        vec![1, 2],
        9,
        None,
        RpkiState::Valid,
        PathVerdict::ValleyFree,
    );
    assert!(a.is_none());

    let b = maybe_alert(
        at(1),
        parse_prefix("1.2.3.0/24").unwrap(),
        Some(1),
        vec![1, 2],
        9,
        None,
        RpkiState::Invalid,
        PathVerdict::ValleyFree,
    )
    .unwrap();
    assert!(b.should_emit());
    assert_eq!(b.reason, "rpki_invalid");
    assert_eq!(b.prefix, "1.2.3.0/24");
}

#[test]
fn both_reasons_are_named() {
    let b = maybe_alert(
        at(1),
        parse_prefix("1.2.3.0/24").unwrap(),
        None,
        vec![],
        9,
        Some("rv2".into()),
        RpkiState::Invalid,
        PathVerdict::LeakSuspected,
    )
    .unwrap();
    assert_eq!(b.reason, "rpki_invalid,valley_free_violation");
    assert!(b.leak_suspected);
}

#[test]
fn paths_get_each_verdict() {
    let det = diamond();
    assert_eq!(det.check_as_path(&[]), PathVerdict::TooShort);
    assert_eq!(det.check_as_path(&[4, 4, 4]), PathVerdict::TooShort);
    assert_eq!(det.check_as_path(&[2, 99]), PathVerdict::Incomplete);
    // down from 2 to 4, then up to 3
    assert_eq!(det.check_as_path(&[3, 4, 2]), PathVerdict::LeakSuspected);
    // across to a peer, then up
    assert_eq!(det.check_as_path(&[1, 3, 2, 4]), PathVerdict::LeakSuspected);
    // up, across, down
    assert_eq!(det.check_as_path(&[4, 3, 2, 4]), PathVerdict::ValleyFree);
}

#[test]
fn prepending_changes_no_verdict() {
    let det = diamond();
    assert_eq!(collapse(&[1, 1, 2, 2, 2, 1]), vec![1, 2, 1]);
    assert_eq!(det.check_as_path(&[1, 1, 2, 4, 4]), det.check_as_path(&[1, 2, 4]));
    assert_eq!(det.check_as_path(&[3, 4, 4, 4, 2]), det.check_as_path(&[3, 4, 2]));
}

#[test]
fn relationship_tables_load() {
    let text = b"# comment\n1|2|-1|bgp\n1|3|-1|bgp\n2|3|0|bgp\n2|4|-1|bgp\n3|4|-1|bgp\n";
    assert!(relationship_table_complete(text));
    let det = LeakDetector::from_caida(text).unwrap();
    assert_eq!(det.check_as_path(&[1, 2, 4]), PathVerdict::ValleyFree);
    assert_eq!(det.check_as_path(&[3, 4, 2]), PathVerdict::LeakSuspected);
    assert!(matches!(LeakDetector::from_caida(b"1|x|-1\n"), Err(DetectError::Parse(_))));
}

fn elem(path: Vec<u32>, withdraw: bool) -> Elem {
    Elem {
        withdraw,
        prefix: parse_prefix("1.0.1.0/24").unwrap(),
        peer_asn: 1,
        as_path: Some(vec![PathSegment::Ordered(path)]),
        origin_asns: None,
        timestamp: at(7),
    }
}

#[test]
fn checked_elements_raise_alerts() {
    let det = diamond();
    let mut roas = RoasTrie::new();
    roas.insert(Roa {
        prefix: parse_prefix("1.0.0.0/16").unwrap(),
        max_length: 24,
        origin_asn: 4,
    });
    let mut rib = Rib::new();
    let mut alerts = Vec::new();
    let collector = Some("rv2".to_string());
    apply_elem_cyber(&mut rib, &roas, &det, &elem(vec![1, 2, 4], false), &collector, true, &mut alerts);
    assert!(alerts.is_empty());
    let peers = rib.exact_match(parse_prefix("1.0.1.0/24").unwrap()).unwrap();
    assert_eq!(peers.get(&1).unwrap().rpki, RpkiState::Valid);

    apply_elem_cyber(&mut rib, &roas, &det, &elem(vec![3, 4, 2], false), &collector, true, &mut alerts);
    assert_eq!(alerts.len(), 1);
    assert_eq!(alerts[0].reason, "rpki_invalid,valley_free_violation");
    assert_eq!(alerts[0].origin_asn, Some(2));
    assert_eq!(alerts[0].as_path, vec![3, 4, 2]);
    assert_eq!(alerts[0].timestamp, at(7));

    apply_elem_cyber(&mut rib, &roas, &det, &elem(vec![3, 4, 2], false), &collector, false, &mut alerts);
    apply_elem_cyber(&mut rib, &roas, &det, &elem(vec![3, 4, 2], true), &collector, true, &mut alerts);
    assert_eq!(alerts.len(), 1);
    assert_eq!(rib.prefix_count(), 0);

    let mut pathless = elem(vec![], false);
    pathless.origin_asns = Some(vec![77]);
    apply_elem_cyber(&mut rib, &roas, &det, &pathless, &None, true, &mut alerts);
    assert_eq!(alerts.len(), 2);
    assert_eq!(alerts[1].path_verdict, PathVerdict::TooShort);
    assert_eq!(alerts[1].collector, None);

    let cols = alert_columns(&alerts);
    assert_eq!(cols.timestamps[0], "1970-01-01T00:00:07+00:00");
    assert_eq!(cols.path_verdicts, vec!["leak_suspected", "too_short"]);
    assert_eq!(cols.rpki_states, vec!["invalid", "invalid"]);
    assert_eq!(cols.as_paths, vec![vec![3, 4, 2], vec![]]);
    assert_eq!(cols.leaks, vec![true, false]);
    assert_eq!(cols.origin_asns, vec![Some(2), Some(77)]);
    assert_eq!(cols.collectors, vec![Some("rv2".to_string()), None]);
}

#[test]
fn alerts_come_of_the_first_updates() {
    let det = diamond();
    let roas = RoasTrie::new();
    let file = |url: &str| MrtFile { url: url.into(), ts_start: at(1) };
    let plan = plan_reconstruction(vec![file("r")], Some(vec![file("a"), file("b")])).unwrap();
    let mut reading = Reading::of_plan(plan, Some(3));
    let mut rib = Rib::new();
    let mut alerts = Vec::new();
    let collector = Some("rv2".to_string());
    let leak = |peer: u32, withdraw: bool| Elem {
        peer_asn: peer,
        ..elem(vec![3, 4, 2], withdraw)
    };

    assert!(matches!(reading.next_file(), NextFile::Baseline { .. }));
    for peer in 1..=5 {
        let e = leak(peer, false);
        assert!(check_elem(&mut reading, &mut rib, &roas, &det, &e, &collector, &mut alerts));
    }
    assert!(alerts.is_empty());
    assert_eq!((rib.route_count(), reading.budget.seen), (5, 0));

    assert!(matches!(reading.next_file(), NextFile::Updates { .. }));
    for e in [leak(6, false), leak(1, true)] {
        assert!(check_elem(&mut reading, &mut rib, &roas, &det, &e, &collector, &mut alerts));
    }
    assert!(matches!(reading.next_file(), NextFile::Updates { .. }));
    let mut taken = Vec::new();
    for peer in [7, 8, 9] {
        let e = leak(peer, false);
        taken.push(check_elem(&mut reading, &mut rib, &roas, &det, &e, &collector, &mut alerts));
    }
    assert_eq!(taken, vec![true, false, false]);
    assert!(matches!(reading.next_file(), NextFile::Done));
    assert_eq!(reading.budget.seen, 3);
    let peers: Vec<u32> = alerts.iter().map(|a| a.peer_asn).collect();
    assert_eq!(peers, vec![6, 7]);
    assert_eq!(rib.route_count(), 6);

    let mut table = Rib::new();
    let mut only = Reading::of_updates(vec![file("a")], Some(1));
    assert!(matches!(only.next_file(), NextFile::Updates { .. }));
    assert!(take_elem(&mut only, &mut table, &leak(1, false)));
    assert!(!take_elem(&mut only, &mut table, &leak(2, false)));
    assert_eq!((table.route_count(), only.budget.seen), (1, 1));
}
