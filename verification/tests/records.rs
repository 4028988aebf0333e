use bgp_analyzer::orgs::{OrgMap, OrgRecord};
use bgp_analyzer::signal::{PairStateEntry, PairStateStore, SignalEnvelope};
use bgp_analyzer::store::{
    check_org_map_age, contact_row, contact_rows, empty_to_null, entry_from_row, is_memory_path,
    join_asns, join_csv, live_org_map, org_map_commit, org_row, org_rows, pair_row,
    pair_rows, pair_state_from_rows, plan_migrations, record_from_row, require_orgs, run_row, split_asns,
    split_csv, work_db_path, ContactRow, OrgMapFault, OrgRow, SignalRun, SignalRunStatus,
    StoreError, CAPTURED_TABLES, DB_NAME, SCHEMA_BASELINE_VERSION, SQLITE_FILENAME,
};
use bgp_analyzer::sync::{plan_changes, Change, Row, Stored};
use bgp_analyzer::textmap::TextMap;
use bgp_analyzer::time::{parse_ymd, Instant};

fn at(secs: i64) -> Instant {
    Instant { secs, nanos: 0 }
}

#[test]
fn captured_tables_listed() {
    assert_eq!(
        CAPTURED_TABLES,
        ["network_contact", "orgs", "signal_runs", "org_map_runs"]
    );
}

#[test]
fn the_database_has_a_place() {
    assert_eq!(work_db_path("/var/lib/x"), "/var/lib/x/bgp-analyzer.sqlite");
    assert_eq!(work_db_path("data/"), "data/bgp-analyzer.sqlite");
    assert_eq!(work_db_path(""), SQLITE_FILENAME);
    assert!(SQLITE_FILENAME.starts_with(DB_NAME));
    assert!(is_memory_path(":memory:"));
    assert!(!is_memory_path("memory"));
}

#[test]
fn lists_read_back() {
    let texts = |v: &[&str]| v.iter().map(|s| s.to_string()).collect::<Vec<String>>();
    assert_eq!(join_csv(&texts(&["a", "b"])), "a,b");
    assert_eq!(split_csv("a,b"), texts(&["a", "b"]));
    assert!(split_csv("").is_empty());
    assert_eq!(join_csv(&vec![]), "");
    let asns = vec![1, 4294967295, 0];
    assert_eq!(join_asns(&asns), "1,4294967295,0");
    assert_eq!(split_asns(&join_asns(&asns)).unwrap(), asns);
    assert!(split_asns("").unwrap().is_empty());
    assert!(matches!(split_asns("1,x"), Err(StoreError::BadAsns { raw }) if raw == "1,x"));
    assert!(split_asns("1,").is_err());
}

#[test]
fn blanks_are_null() {
    assert_eq!(empty_to_null(&Some("  a ".into())).as_deref(), Some("a"));
    assert_eq!(empty_to_null(&Some("  ".into())), None);
    assert_eq!(empty_to_null(&None), None);
}

#[test]
fn statuses_have_names() {
    assert_eq!(SignalRunStatus::Complete.as_str(), "ok");
    assert_eq!(SignalRunStatus::SnapshotOnly.as_str(), "snapshot_only");
    assert_eq!(SignalRunStatus::Error.as_str(), "error");
}

fn sample_org(id: &str, asn: u32) -> OrgRecord {
    OrgRecord {
        org_id: id.into(),
        name: format!("org-{id}"),
        asns: vec![asn],
        domains: vec![format!("{id}.example")],
        prefix_count_hint: None,
        external_id: Some(format!("ext-{id}")),
    }
}

fn stored_of<R: Row>(m: &TextMap<R>) -> TextMap<Stored<R>> {
    let mut out = TextMap::new();
    for i in 0..m.len() {
        out.insert(m.key_at(i).clone(), Stored { row: m.value_at(i).copy(), deleted: false });
    }
    out
}

fn make<R: Row>(stored: &mut TextMap<Stored<R>>, changes: Vec<Change<R>>) {
    for c in changes {
        match c {
            Change::Upsert { key, row } => stored.insert(key, Stored { row, deleted: false }),
            Change::Retract { key } => {
                let i = stored.find(&key).unwrap();
                let row = stored.value_at(i).row.copy();
                stored.set_at(i, Stored { row, deleted: true });
            }
        }
    }
}

#[test]
fn unchanged_organizations_need_no_change() {
    let mut map = OrgMap::new();
    map.insert(sample_org("pdb:1", 1));
    let rows = org_rows(&map).unwrap();
    let mut stored: TextMap<Stored<OrgRow>> = TextMap::new();
    let plan = plan_changes(&stored, &rows);
    assert_eq!(plan.len(), 1);
    make(&mut stored, plan);
    assert!(plan_changes(&stored, &rows).is_empty());

    map.insert(OrgRecord { name: "Acme Inc".into(), ..sample_org("pdb:1", 1) });
    let plan = plan_changes(&stored, &org_rows(&map).unwrap());
    assert!(matches!(&plan[..], [Change::Upsert { key, row }]
        if key == "pdb:1" && row.name == "Acme Inc"));
}

#[test]
fn organizations_that_vanish_are_retracted() {
    let mut map = OrgMap::new();
    map.insert(sample_org("pdb:1", 1));
    map.insert(sample_org("pdb:2", 2));
    let mut stored = stored_of(&org_rows(&map).unwrap());
    let mut next = OrgMap::new();
    next.insert(sample_org("pdb:1", 1));
    let rows = org_rows(&next).unwrap();
    let plan = plan_changes(&stored, &rows);
    assert!(matches!(&plan[..], [Change::Retract { key }] if key == "pdb:2"));
    make(&mut stored, plan);
    let mut live = Vec::new();
    for i in 0..stored.len() {
        if !stored.value_at(i).deleted {
            live.push(stored.value_at(i).row.copy());
        }
    }
    let back = live_org_map(&live).unwrap();
    assert_eq!(back.len(), 1);
    assert!(back.get("pdb:2").is_none());
    // one that comes back is live again
    let plan = plan_changes(&stored, &org_rows(&map).unwrap());
    assert!(matches!(&plan[..], [Change::Upsert { key, .. }] if key == "pdb:2"));
}

#[test]
fn organizations_read_back() {
    let o = OrgRecord { external_id: Some(" ".into()), ..sample_org("pdb:1", 7) };
    let row = org_row(&o);
    assert_eq!((row.asns.as_str(), row.domains.as_str()), ("7", "pdb:1.example"));
    assert_eq!(row.external_id, None);
    let back = record_from_row(&row).unwrap();
    assert_eq!((back.org_id, back.name, back.asns), (o.org_id, o.name, o.asns));
    let bad = OrgRow { asns: "x".into(), ..org_row(&sample_org("p", 1)) };
    assert!(matches!(live_org_map(&vec![row, bad]), Err(StoreError::BadAsns { raw }) if raw == "x"));
    assert!(matches!(org_rows(&OrgMap::new()), Err(StoreError::EmptyOrgMap)));
}

#[test]
fn stale_organizations_are_refused() {
    let now = at(20 * 86400);
    assert_eq!(check_org_map_age(None, now, 14), Err(OrgMapFault::NotBuilt));
    assert_eq!(check_org_map_age(Some(at(6 * 86400)), now, 14), Ok(14 * 86400));
    assert_eq!(
        check_org_map_age(Some(at(6 * 86400 - 1)), now, 14),
        Err(OrgMapFault::TooOld { age_secs: 14 * 86400 + 1 })
    );
    assert!(matches!(require_orgs(OrgMap::new()), Err(OrgMapFault::NoOrgs)));
    let mut map = OrgMap::new();
    map.insert(sample_org("pdb:1", 1));
    assert_eq!(require_orgs(map).ok().unwrap().len(), 1);
}

fn aug_14(h: u32, m: u32) -> Instant {
    parse_ymd("2026-08-14").unwrap().at(h, m, 0)
}

fn sample_signal(score: i64) -> SignalEnvelope {
    SignalEnvelope {
        schema_version: 1,
        source: "bgp_analyzer".into(),
        kind: "network_contact".into(),
        as_of: aug_14(0, 30),
        prior_as_of: parse_ymd("2026-08-13").unwrap().at(0, 30, 0),
        asn_a: 1,
        asn_b: 2,
        org_a: Some("pdb:1".into()),
        org_b: Some("pdb:2".into()),
        domains_a: vec!["a.example".into()],
        domains_b: vec!["b.example".into()],
        prefixes_moved: 3,
        prefix_move_days: 1,
        new_adj_days: 0,
        upstream_converge_days: 0,
        persistence_days: 0,
        score,
        event_kinds: vec!["prefix_move".into()],
        suppress_flags: vec![],
    }
}

#[test]
fn signals_are_written_down() {
    let mut signal = sample_signal(5);
    signal.domains_b.push("c.example".into());
    let r = contact_row(&signal);
    assert_eq!(r.as_of, "2026-08-14T00:30:00Z");
    assert_eq!(r.as_of_date, "2026-08-14");
    assert_eq!(r.prior_as_of, "2026-08-13T00:30:00Z");
    assert_eq!(r.domains_b, "b.example,c.example");
    assert_eq!((r.event_kinds.as_str(), r.suppress_flags.as_str()), ("prefix_move", ""));
    assert_eq!(r.score, 5);
    assert!(r.same(&r.copy()));
    assert!(!r.same(&contact_row(&sample_signal(6))));
}

#[test]
fn reruns_change_only_what_differs() {
    let first = contact_rows(&vec![sample_signal(1)]).unwrap();
    let mut stored: TextMap<Stored<ContactRow>> = TextMap::new();
    let plan = plan_changes(&stored, &first);
    make(&mut stored, plan);
    assert!(plan_changes(&stored, &first).is_empty());
    let second = contact_rows(&vec![sample_signal(2)]).unwrap();
    let plan = plan_changes(&stored, &second);
    assert!(matches!(&plan[..], [Change::Upsert { key, row }] if key == "1-2" && row.score == 2));
    make(&mut stored, plan);
    let none: TextMap<ContactRow> = contact_rows(&vec![]).unwrap();
    let plan = plan_changes(&stored, &none);
    assert!(matches!(&plan[..], [Change::Retract { key }] if key == "1-2"));
    make(&mut stored, plan);
    assert!(plan_changes(&stored, &none).is_empty());
}

#[test]
fn one_signal_per_pair() {
    let mut other = sample_signal(3);
    other.asn_b = 7;
    assert!(matches!(
        contact_rows(&vec![other, sample_signal(1), sample_signal(2)]),
        Err(StoreError::DuplicatePair { key }) if key == "1-2"
    ));
}

fn entry() -> PairStateEntry {
    PairStateEntry {
        asn_lo: 1,
        asn_hi: 2,
        org_lo: Some("pdb:1".into()),
        org_hi: Some("".into()),
        first_seen: aug_14(0, 30),
        last_seen: aug_14(2, 30),
        prefix_move_days: 1,
        prefixes_moved: 3,
        new_adj_days: 4,
        upstream_converge_days: 5,
        score: -6,
    }
}

#[test]
fn pair_state_reads_back() {
    let row = pair_row(&entry());
    assert_eq!(row.first_seen, "2026-08-14T00:30:00Z");
    let e = entry_from_row(&row).unwrap();
    assert_eq!((e.first_seen, e.last_seen), (aug_14(0, 30), aug_14(2, 30)));
    assert_eq!((e.org_lo.as_deref(), e.org_hi.as_deref()), (Some("pdb:1"), None));
    assert_eq!((e.new_adj_days, e.upstream_converge_days, e.score), (4, 5, -6));
    let store = pair_state_from_rows(&vec![row]).unwrap();
    assert_eq!(store.get(1, 2).unwrap().prefixes_moved, 3);
    let mut bad = pair_row(&entry());
    bad.last_seen = "yesterday".into();
    let mut worse = pair_row(&entry());
    worse.first_seen = "today".into();
    assert!(matches!(
        pair_state_from_rows(&vec![pair_row(&entry()), bad, worse]),
        Err(StoreError::BadTime { raw }) if raw == "yesterday"
    ));
}

#[test]
fn a_pair_state_reads_back_in_any_order() {
    let mut st = PairStateStore::default();
    for (lo, hi) in [(1, 2), (1, 3), (2, 3)] {
        st.pairs.insert(format!("{lo}-{hi}"), PairStateEntry { asn_lo: lo, asn_hi: hi, ..entry() });
    }
    let mut rows = pair_rows(&st);
    assert_eq!(rows.len(), 3);
    rows.reverse();
    let back = pair_state_from_rows(&rows).unwrap();
    assert_eq!(back.pairs.len(), 3);
    for (lo, hi) in [(1, 2), (1, 3), (2, 3)] {
        let e = back.get(lo, hi).unwrap();
        assert_eq!((e.org_lo.as_deref(), e.org_hi.as_deref()), (Some("pdb:1"), None));
        assert_eq!((e.first_seen, e.last_seen, e.score), (aug_14(0, 30), aug_14(2, 30), -6));
    }
}

#[test]
fn runs_are_written_down() {
    let run = SignalRun {
        as_of_date: "2026-08-14".into(),
        as_of: aug_14(0, 30),
        prior_as_of: None,
        started_at: aug_14(2, 30),
        status: SignalRunStatus::Error,
        signal_count: 0,
    };
    let r = run_row(&run, aug_14(2, 31));
    assert_eq!(r.status, "error");
    assert_eq!((r.prior_as_of, r.finished_at.as_str()), (None, "2026-08-14T02:31:00Z"));
    let c = org_map_commit(aug_14(23, 59), parse_ymd("2026-08-15").unwrap().at(0, 1, 0), 4);
    assert_eq!((c.as_of_date.as_str(), c.built_at.as_str()), ("2026-08-14", "2026-08-15T00:01:00Z"));
    assert_eq!(c.org_count, 4);
}

#[test]
fn migrations_run_in_order_up_to_a_gap() {
    let p = plan_migrations(0, &vec![2, 3]);
    assert_eq!((p.baseline, p.apply, p.gap), (true, vec![0, 1], None));
    let p = plan_migrations(2, &vec![2, 3, 5, 6]);
    assert_eq!((p.baseline, p.apply, p.gap), (false, vec![1], Some((3, 5))));
    let p = plan_migrations(9, &vec![2, 3]);
    assert_eq!((p.apply, p.gap), (vec![], None));
}

/// Makes the planned changes; notes each in the outbox, an insertion as `I`, an update as `U`.
fn commit<R: Row>(stored: &mut TextMap<Stored<R>>, wanted: &TextMap<R>, outbox: &mut Vec<&str>) {
    let plan = plan_changes(stored, wanted);
    for c in &plan {
        outbox.push(match c {
            Change::Upsert { key, .. } if stored.find(key).is_none() => "I",
            _ => "U",
        });
    }
    make(stored, plan);
}

fn live_rows(stored: &TextMap<Stored<OrgRow>>) -> Vec<OrgRow> {
    let mut rows = Vec::new();
    for i in 0..stored.len() {
        let s = stored.value_at(i);
        if !s.deleted {
            rows.push(s.row.copy());
        }
    }
    rows
}

#[test]
fn unchanged_org_upsert_no_extra_outbox() {
    let mut map = OrgMap::new();
    map.insert(sample_org("pdb:1", 1));
    let mut stored: TextMap<Stored<OrgRow>> = TextMap::new();
    let mut outbox = Vec::new();
    commit(&mut stored, &org_rows(&map).unwrap(), &mut outbox);
    assert_eq!(outbox.len(), 1);
    commit(&mut stored, &org_rows(&map).unwrap(), &mut outbox);
    assert_eq!(outbox.len(), 1, "unchanged crawl must not emit extra org events");
}

#[test]
fn org_retract_soft_deletes() {
    let mut map = OrgMap::new();
    map.insert(sample_org("pdb:1", 1));
    map.insert(sample_org("pdb:2", 2));
    let mut stored: TextMap<Stored<OrgRow>> = TextMap::new();
    let mut outbox = Vec::new();
    commit(&mut stored, &org_rows(&map).unwrap(), &mut outbox);
    let mut next = OrgMap::new();
    next.insert(sample_org("pdb:1", 1));
    commit(&mut stored, &org_rows(&next).unwrap(), &mut outbox);
    assert!(stored.get("pdb:2").unwrap().deleted);
    let live = live_org_map(&live_rows(&stored)).unwrap();
    assert_eq!(live.len(), 1);
    assert!(live.get("pdb:2").is_none());
    let (one, was) = (live.get("pdb:1").unwrap(), next.get("pdb:1").unwrap());
    assert_eq!((&one.name, &one.asns, &one.domains), (&was.name, &was.asns, &was.domains));
    assert_eq!(one.external_id.as_deref(), Some("ext-pdb:1"));
}

#[test]
fn same_day_signal_rerun_is_update() {
    let mut stored: TextMap<Stored<ContactRow>> = TextMap::new();
    let mut outbox = Vec::new();
    commit(&mut stored, &contact_rows(&[sample_signal(5)]).unwrap(), &mut outbox);
    assert_eq!(outbox, vec!["I"]);
    commit(&mut stored, &contact_rows(&[sample_signal(9)]).unwrap(), &mut outbox);
    assert_eq!(outbox, vec!["I", "U"]);
    assert_eq!(stored.len(), 1);
    assert_eq!(stored.value_at(0).row.score, 9);
}

#[test]
fn identical_same_day_rerun_no_extra_outbox() {
    let mut stored: TextMap<Stored<ContactRow>> = TextMap::new();
    let mut outbox = Vec::new();
    commit(&mut stored, &contact_rows(&[sample_signal(5)]).unwrap(), &mut outbox);
    assert_eq!(outbox, vec!["I"]);
    commit(&mut stored, &contact_rows(&[sample_signal(5)]).unwrap(), &mut outbox);
    assert_eq!(outbox, vec!["I"], "identical rerun must not emit a spurious U");
}

#[test]
fn signal_retract_sets_deleted_at() {
    let mut stored: TextMap<Stored<ContactRow>> = TextMap::new();
    let mut outbox = Vec::new();
    commit(&mut stored, &contact_rows(&[sample_signal(5)]).unwrap(), &mut outbox);
    commit(&mut stored, &contact_rows(&[]).unwrap(), &mut outbox);
    assert!(stored.value_at(0).deleted);
    assert_eq!(outbox, vec!["I", "U"]);
}

#[test]
fn signal_run_error_status_round_trips() {
    let row = run_row(
        &SignalRun {
            as_of_date: "2026-08-14".into(),
            as_of: aug_14(0, 30),
            prior_as_of: None,
            started_at: aug_14(2, 30),
            status: SignalRunStatus::Error,
            signal_count: 0,
        },
        aug_14(2, 31),
    );
    assert_eq!(row.as_of_date, "2026-08-14");
    assert_eq!(row.status, "error");
}

#[test]
fn pair_state_does_not_emit_outbox() {
    let mut st = PairStateStore::default();
    let ts = aug_14(0, 30);
    st.pairs.insert(
        "1-2".into(),
        PairStateEntry {
            asn_lo: 1,
            asn_hi: 2,
            org_lo: Some("a".into()),
            org_hi: Some("b".into()),
            first_seen: ts,
            last_seen: ts,
            prefix_move_days: 1,
            prefixes_moved: 2,
            new_adj_days: 0,
            upstream_converge_days: 0,
            score: 3,
        },
    );
    assert_eq!(CAPTURED_TABLES.iter().filter(|t| **t == "pair_state").count(), 0);
    let loaded = pair_state_from_rows(&pair_rows(&st)).unwrap();
    assert!(loaded.get(1, 2).is_some());
}

#[test]
fn open_records_baseline_migration() {
    let plan = plan_migrations(0, &[]);
    assert!(plan.baseline && plan.gap.is_none());
    let mut versions = Vec::new();
    if plan.baseline {
        versions.push(SCHEMA_BASELINE_VERSION);
    }
    assert!(plan.apply.is_empty());
    assert_eq!(versions.iter().max(), Some(&SCHEMA_BASELINE_VERSION));
}
