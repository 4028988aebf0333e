use bgp_analyzer::glue::{load_glue, GlueSet, MapError, SubjectHeuristics};
use bgp_analyzer::order::{rank, sort_texts, sort_u32};
use bgp_analyzer::orgs::{apply_org_overlay, load_org_map, normalize_domain, OrgMap, OrgRecord};
use bgp_analyzer::peeringdb::{
    after_reply, build_org_map_from_peeringdb, domain_of_host, org_ids_of, org_urls,
    rate_limit_wait, website_to_domain, NetPages, PdbNet, PdbOrg, PeeringDbBuildOptions,
    ReplyAction, MIN_INTERVAL_MILLIS,
};
use bgp_analyzer::text::{
    contains, format_i64, format_u64, join, less_text, lines, parse_u32, parse_u8, split_char,
    strip_prefix, strip_suffix, trim, words,
};
use bgp_analyzer::textmap::TextMap;
use std::collections::HashMap;
use std::time::Duration;

#[test]
fn glue_from_text_and_subject_heuristics() {
    let glue = GlueSet::from_text("16509\n# comment\n3356\n").unwrap();
    assert!(glue.contains(16509));
    assert!(glue.contains(3356));
    let h = SubjectHeuristics::default();
    assert!(!h.is_subject(16509, &glue, Some(10)));
    assert!(h.is_subject(65000, &glue, Some(10)));
    assert!(!h.is_subject(65000, &glue, Some(50_000)));
}

#[test]
fn org_map_many_to_many() {
    let mut map = OrgMap::new();
    map.insert(OrgRecord {
        org_id: "acme".into(),
        name: "Acme Corp".into(),
        asns: vec![65000, 65001],
        domains: vec!["acme.com".into(), "acme.co.uk".into()],
        prefix_count_hint: Some(12),
        external_id: None,
    });
    map.insert(OrgRecord {
        org_id: "beta".into(),
        name: "Beta Inc".into(),
        asns: vec![65002],
        domains: vec!["beta.io".into()],
        prefix_count_hint: Some(3),
        external_id: Some("TICKER:BETA".into()),
    });

    assert_eq!(map.org_for_asn(65000).unwrap().org_id, "acme");
    assert_eq!(map.orgs_for_domain("acme.com").len(), 1);
    let glue = GlueSet::builtin();
    let subjects = map.subject_asns(&glue, &SubjectHeuristics::default());
    assert!(subjects.contains(&65000));
    assert!(subjects.contains(&65002));
}

#[test]
fn anonymous_interval_respects_20_per_minute() {
    let min_interval = Duration::from_millis(MIN_INTERVAL_MILLIS);
    assert!(min_interval >= Duration::from_millis(3000));
    assert!(min_interval >= Duration::from_secs(2));
}

#[test]
fn website_parsing() {
    assert_eq!(
        website_to_domain("https://www.Example.com/path").as_deref(),
        Some("www.example.com")
    );
    assert_eq!(
        website_to_domain("cloudflare.com").as_deref(),
        Some("cloudflare.com")
    );
}

#[test]
fn websites_without_a_host_have_no_domain() {
    assert_eq!(website_to_domain("   "), None);
    assert_eq!(website_to_domain("http://"), None);
    assert_eq!(website_to_domain(" *.example.org ").as_deref(), Some("example.org"));
    assert_eq!(website_to_domain("http://Example.org:8080/x").as_deref(), Some("example.org"));
    assert_eq!(domain_of_host(&Some(".A.example".into())).as_deref(), Some("a.example"));
    assert_eq!(domain_of_host(&Some("".into())), None);
    assert_eq!(domain_of_host(&None), None);
}

#[test]
fn glue_lists_name_their_bad_line() {
    assert!(matches!(
        GlueSet::from_text("1\n\n two \n"),
        Err(MapError::InvalidAsn(t)) if t == "line 3: `two`"
    ));
    assert_eq!(load_glue(Some("7\n7")).unwrap().len(), 1);
    let b = load_glue(None).unwrap();
    assert!(b.contains(16509) && !b.is_empty());
    assert!(load_glue(Some("x")).is_err());
    let mut g = GlueSet::new();
    g.insert(5);
    g.insert(5);
    assert_eq!(g.iter(), vec![5]);
}

#[test]
fn heuristics_have_bounds() {
    let g = GlueSet::new();
    let h = SubjectHeuristics::default();
    assert!(!h.is_subject(1, &g, Some(0)));
    assert!(h.is_subject(1, &g, Some(1)));
    assert!(h.is_subject(1, &g, Some(5_000)));
    assert!(!h.is_subject(1, &g, Some(5_001)));
    assert!(h.is_subject(1, &g, None));
}

fn rec(id: &str, name: &str, asns: &[u32], domains: &[&str]) -> OrgRecord {
    OrgRecord {
        org_id: id.into(),
        name: name.into(),
        asns: asns.to_vec(),
        domains: domains.iter().map(|d| d.to_string()).collect(),
        prefix_count_hint: None,
        external_id: None,
    }
}

#[test]
fn records_are_normalized_and_first_registration_wins() {
    let mut map = OrgMap::new();
    map.insert(rec("a", "A", &[3, 1, 3], &[" *.B.com ", "b.com", "a.com"]));
    map.insert(rec("b", "B", &[1, 2], &[]));
    let a = map.get("a").unwrap();
    assert_eq!(a.asns, vec![1, 3]);
    assert_eq!(a.domains, vec!["a.com", "b.com"]);
    assert_eq!(map.org_for_asn(1).unwrap().org_id, "a");
    assert_eq!(map.orgs_for_asn(1).len(), 2);
    assert_eq!(map.org_for_asn(2).unwrap().org_id, "b");
    assert!(map.org_for_asn(9).is_none());
    assert_eq!(map.orgs_for_domain("B.COM").len(), 1);
    assert_eq!(normalize_domain(" .*.x.Example "), "*.x.example");
    let ids: Vec<&str> = map.orgs().iter().map(|o| o.org_id.as_str()).collect();
    assert_eq!(ids, vec!["a", "b"]);
}

#[test]
fn subjects_go_by_counts() {
    let mut map = OrgMap::new();
    map.insert(rec("a", "A", &[1, 2, 3], &[]));
    let counts = HashMap::from([(1, 10), (2, 6_000)]);
    let glue = GlueSet::new();
    let h = SubjectHeuristics::default();
    let s = map.subject_asns_by_counts(&glue, &h, &counts);
    assert!(s.contains(&1) && !s.contains(&2) && s.contains(&3));
    assert_eq!(map.subject_asns(&glue, &h).len(), 3);
}

#[test]
fn watchlist_domains_share_a_label() {
    let mut map = OrgMap::from_records(vec![
        rec("pdb:1", "Acme", &[65000], &["acme.com"]),
        rec("pdb:2", "Big Beta, Inc.", &[65001], &["cdn.gamma.net"]),
    ]);
    assert_eq!(map.enrich_domains_from_watchlist("me.org\n"), 0);
    assert_eq!(map.get("pdb:1").unwrap().domains, vec!["acme.com"]);
    assert_eq!(map.enrich_domains_from_watchlist("pdb.org\nbetas.org\n"), 0);
    assert_eq!(map.enrich_domains_from_watchlist("BETA.org\ngamma.io\nacme.com\n"), 2);
    assert_eq!(map.get("pdb:2").unwrap().domains, vec!["cdn.gamma.net", "beta.org", "gamma.io"]);
    assert_eq!(map.get("pdb:1").unwrap().domains, vec!["acme.com"]);
    assert_eq!(map.orgs_for_domain("beta.org").len(), 1);
}

#[test]
fn maps_load_with_overlay_and_watchlist() {
    let mut over = OrgMap::new();
    over.insert(rec("b", "Beta New", &[2], &[]));
    let map = load_org_map(
        vec![rec("acme", "Acme", &[1], &["acme.com"]), rec("b", "Beta", &[2], &[])],
        Some("# list\nacme.net\nunknown.org\n"),
        Some(&over),
    );
    assert_eq!(map.get("b").unwrap().name, "Beta New");
    assert_eq!(map.get("acme").unwrap().domains, vec!["acme.com", "acme.net"]);
    let mut m = OrgMap::from_records(vec![rec("x", "X", &[7], &[])]);
    apply_org_overlay(&mut m, &over);
    assert_eq!(m.len(), 2);
    assert_eq!(m.enrich_domains_from_watchlist("beta.example"), 1);
}

#[test]
fn requests_are_paced_and_retried() {
    let full = MIN_INTERVAL_MILLIS as u128 * 1_000_000;
    assert_eq!(rate_limit_wait(None), 0);
    assert_eq!(rate_limit_wait(Some(0)), full);
    assert_eq!(rate_limit_wait(Some(full - 1)), 1);
    assert_eq!(rate_limit_wait(Some(full + 1)), 0);
    assert_eq!(after_reply(200, 1, &None), ReplyAction::Accept);
    assert_eq!(after_reply(404, 1, &None), ReplyAction::Refused);
    assert_eq!(after_reply(429, 1, &Some("7".into())), ReplyAction::Retry { seconds: 7 });
    assert_eq!(after_reply(429, 3, &Some("soon".into())), ReplyAction::Retry { seconds: 8 });
    assert_eq!(after_reply(503, 12, &None), ReplyAction::Retry { seconds: 64 });
    assert_eq!(after_reply(503, 13, &None), ReplyAction::GiveUp);
}

#[test]
fn pages_end_with_a_short_one() {
    let mut p = NetPages::start();
    assert_eq!(
        p.next_url(None).as_deref(),
        Some("https://www.peeringdb.com/api/net?limit=250&skip=0")
    );
    p.received(250);
    assert_eq!(
        p.next_url(Some(2)).as_deref(),
        Some("https://www.peeringdb.com/api/net?limit=250&skip=250")
    );
    assert_eq!(p.next_url(Some(1)), None);
    p.received(249);
    assert_eq!(p.next_url(None), None);
    let ids: Vec<u64> = (0..201).collect();
    let urls = org_urls(&ids);
    assert_eq!(urls.len(), 3);
    assert_eq!(urls[2], "https://www.peeringdb.com/api/org?id__in=200&limit=100");
    assert!(org_urls(&vec![]).is_empty());
}

#[test]
fn listings_become_a_map() {
    let net = |org_id, asn, site: Option<&str>| PdbNet {
        org_id,
        asn,
        website: site.map(|s| s.to_string()),
    };
    let nets = vec![
        net(2, 20, Some("https://b.example")),
        net(1, 11, None),
        net(1, 10, Some("https://www.a.example/x")),
        net(3, 99, None),
    ];
    let orgs = vec![PdbOrg { id: 1, name: "One".into(), website: Some("a.example".into()) }];
    let glue = GlueSet::from_text("99").unwrap();
    assert_eq!(org_ids_of(&nets), vec![1, 2, 3]);
    let map = build_org_map_from_peeringdb(&glue, &PeeringDbBuildOptions::default(), &nets, &orgs);
    assert_eq!(map.len(), 2);
    let one = map.get("pdb:1").unwrap();
    assert_eq!((one.name.as_str(), &one.asns), ("One", &vec![10, 11]));
    assert_eq!(one.domains, vec!["a.example", "www.a.example"]);
    assert_eq!(one.external_id.as_deref(), Some("peeringdb_org:1"));
    assert_eq!(map.get("pdb:2").unwrap().name, "peeringdb-org-2");
    assert!(map.get("pdb:3").is_none());
}

#[test]
fn texts_split_join_and_convert() {
    assert_eq!(trim(" \u{a0}a b\t"), "a b");
    assert_eq!(lines("a\r\nb\n\nc"), vec!["a", "b", "", "c"]);
    assert_eq!(words("  a\tb \n"), vec!["a", "b"]);
    let parts = split_char("a,,b", ',');
    assert_eq!(parts, vec!["a", "", "b"]);
    assert_eq!(join(&parts, ","), "a,,b");
    assert_eq!(parse_u32("+12"), Some(12));
    assert_eq!(parse_u32("4294967296"), None);
    assert_eq!(parse_u32("-1"), None);
    assert_eq!(parse_u8("255"), Some(255));
    assert_eq!(parse_u8("256"), None);
    assert_eq!(format_u64(0), "0");
    assert_eq!(format_u64(u64::MAX), "18446744073709551615");
    assert_eq!(format_i64(i64::MIN), "-9223372036854775808");
    assert!(contains("abcabd", "abd") && !contains("abc", "abd") && contains("x", ""));
    assert_eq!(strip_prefix("rib-x", "rib-").as_deref(), Some("x"));
    assert_eq!(strip_prefix("ri", "rib-"), None);
    assert_eq!(strip_suffix("x.json", ".json").as_deref(), Some("x"));
    assert_eq!(strip_suffix("x.jso", ".json"), None);
    assert!(less_text("a", "ab") && less_text("Z", "a") && !less_text("b", "ab"));
}

#[test]
fn lists_rank_stably() {
    assert_eq!(rank(vec![3u32, 1, 2, 1]), vec![1, 1, 2, 3]);
    assert_eq!(sort_u32(vec![3, 1, 3]), vec![1, 3]);
    assert_eq!(
        sort_texts(vec!["b".to_string(), "a".to_string(), "b".to_string()]),
        vec!["a", "b"]
    );
}

#[test]
fn text_maps_keep_order_and_last_value() {
    let mut m: TextMap<u32> = TextMap::new();
    m.insert("b".into(), 1);
    m.insert("a".into(), 2);
    m.insert("b".into(), 3);
    assert_eq!(m.len(), 2);
    assert_eq!((m.key_at(0).as_str(), *m.value_at(0)), ("b", 3));
    assert_eq!(m.find("a"), Some(1));
    assert_eq!(m.get("c"), None);
    assert_eq!(m.set_at(1, 9), 2);
    assert_eq!(m.get("a"), Some(&9));
}
