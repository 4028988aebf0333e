use bgp_analyzer::ingest::{
    apply_elem_rib_only, apply_rib_announcement, can_announce, rib_announcement_from_elem, Elem,
    PathSegment, RibAnnouncement,
};
use bgp_analyzer::prefix::{covers, parse_prefix, Address, Net, Prefix};
use bgp_analyzer::rib::{AttributeInterner, Rib, RouteEntry};
use bgp_analyzer::rpki::RpkiState;
use bgp_analyzer::time::Instant;

fn at(secs: i64) -> Instant {
    Instant { secs, nanos: 0 }
}

fn prefix(s: &str) -> Prefix {
    parse_prefix(s).unwrap()
}

fn route(path_id: u32, peer: u32, origin: u32, rpki: RpkiState, secs: i64) -> RouteEntry {
    RouteEntry {
        origin_asn: Some(origin),
        as_path_id: path_id,
        peer_asn: peer,
        communities_id: None,
        rpki,
        timestamp: at(secs),
    }
}

#[test]
fn interner_dedupes_paths() {
    let mut interner = AttributeInterner::new();
    let a = interner.intern_as_path(&[1, 2, 3]);
    let b = interner.intern_as_path(&[1, 2, 3]);
    let c = interner.intern_as_path(&[1, 2, 4]);
    assert_eq!(a, b);
    assert_ne!(a, c);
    assert_eq!(interner.as_path_count(), 2);
    assert_eq!(interner.as_path(a).unwrap(), &[1, 2, 3]);
}

#[test]
fn interner_numbers_in_order_and_keeps_communities_apart() {
    let mut interner = AttributeInterner::new();
    assert_eq!(interner.intern_as_path(&[7]), 0);
    assert_eq!(interner.intern_as_path(&[8, 9]), 1);
    assert_eq!(interner.intern_communities(&[8, 9]), 0);
    assert_eq!(interner.community_count(), 1);
    assert_eq!(interner.communities(0).unwrap(), &[8, 9]);
    assert_eq!(interner.as_path(1).unwrap(), &[8, 9]);
    assert!(interner.as_path(2).is_none());
    assert!(interner.communities(1).is_none());
}

#[test]
fn announce_withdraw_and_lpm() {
    let mut rib = Rib::new();
    let p24 = prefix("10.0.1.0/24");
    let p16 = prefix("10.0.0.0/16");

    let path_id = rib.interner.intern_as_path(&[65000, 65001]);
    rib.announce(p16, route(path_id, 1, 65001, RpkiState::Unknown, 1));
    rib.announce(p24, route(path_id, 1, 65001, RpkiState::Valid, 2));

    assert_eq!(rib.prefix_count(), 2);
    assert_eq!(rib.route_count(), 2);

    let addr = Address::V4(0x0a00_0105);
    let (matched, peers) = rib.longest_match(addr).unwrap();
    assert_eq!(matched, p24);
    assert_eq!(peers.get(&1).unwrap().rpki, RpkiState::Valid);

    assert!(rib.withdraw(p24, 1));
    assert_eq!(rib.prefix_count(), 1);
    let (matched, _) = rib.longest_match(addr).unwrap();
    assert_eq!(matched, p16);
}

#[test]
fn peers_do_not_overwrite_each_other() {
    let mut rib = Rib::new();
    let p = prefix("192.0.2.0/24");
    rib.announce(p, route(0, 1, 65001, RpkiState::Unknown, 1));
    rib.announce(p, route(0, 2, 65002, RpkiState::Unknown, 1));
    rib.announce(p, route(0, 2, 65003, RpkiState::Unknown, 2));
    assert_eq!(rib.prefix_count(), 1);
    assert_eq!(rib.route_count(), 2);
    let peers = rib.exact_match(p).unwrap();
    assert_eq!(peers.get(&1).unwrap().origin_asn, Some(65001));
    assert_eq!(peers.get(&2).unwrap().origin_asn, Some(65003));
    assert!(!rib.withdraw(p, 3));
    assert!(rib.withdraw(p, 1));
    assert_eq!(rib.prefix_count(), 1);
    assert!(rib.withdraw(p, 2));
    assert_eq!(rib.prefix_count(), 0);
    assert_eq!(rib.route_count(), 0);
    assert!(rib.exact_match(p).is_none());
}

#[test]
fn withdrawal_in_the_middle_leaves_the_rest() {
    let mut rib = Rib::new();
    let names = ["10.0.0.0/8", "10.1.0.0/16", "2001:db8::/32", "10.2.0.0/16"];
    for (i, n) in names.iter().enumerate() {
        rib.announce(prefix(n), route(0, i as u32, 65000, RpkiState::Unknown, 1));
    }
    assert!(rib.withdraw(prefix("10.1.0.0/16"), 1));
    let mut left: Vec<String> = rib.iter().iter().map(|(p, _)| p.text()).collect();
    left.sort();
    assert_eq!(left, vec!["10.0.0.0/8", "10.2.0.0/16", "2001:db8::/32"]);
    let (m, _) = rib.longest_match(Address::V4(0x0a01_0001)).unwrap();
    assert_eq!(m, prefix("10.0.0.0/8"));
    let (m, _) = rib.longest_match(Address::V6(0x2001_0db8 << 96 | 1)).unwrap();
    assert_eq!(m, prefix("2001:db8::/32"));
    assert!(rib.longest_match(Address::V4(0x0b00_0001)).is_none());
}

#[test]
fn prefixes_parse_print_and_cover() {
    assert!(parse_prefix("10.0.0.0/33").is_none());
    assert!(parse_prefix("nonsense").is_none());
    let p = prefix("10.1.2.3/16");
    assert_eq!(p.parts(), Net::V4 { addr: 0x0a01_0203, len: 16 });
    assert_eq!(p.prefix_len(), 16);
    assert_eq!(p.text(), "10.1.2.3/16");
    assert!(covers(p, prefix("10.1.200.0/24")));
    assert!(!covers(p, prefix("10.2.0.0/24")));
    assert!(!covers(prefix("10.1.200.0/24"), p));
    assert!(!covers(prefix("::/0"), p));
    assert_eq!(Prefix::host(Address::V4(1)).text(), "0.0.0.1/32");
    assert!(Prefix::new(Net::V6 { addr: 0, len: 129 }).is_none());
}

#[test]
fn prefix_texts_read_back() {
    let nets = [
        Net::V4 { addr: 0, len: 0 },
        Net::V4 { addr: u32::MAX, len: 32 },
        Net::V6 { addr: 0, len: 0 },
        Net::V6 { addr: 1, len: 128 },
        Net::V6 { addr: 0xffff_0102_0304, len: 96 },
        Net::V6 { addr: 0x0102_0304, len: 100 },
        Net::V6 { addr: 0x2001_0db8 << 96, len: 32 },
        Net::V6 { addr: u128::MAX, len: 64 },
    ];
    for net in nets {
        let p = Prefix::new(net).unwrap();
        assert_eq!(parse_prefix(&p.text()), Some(p));
    }
}

#[test]
fn bits_past_the_length_do_not_tell_prefixes_apart() {
    let mut rib = Rib::new();
    rib.announce(prefix("10.1.2.3/16"), route(0, 1, 65001, RpkiState::Unknown, 1));
    assert!(rib.exact_match(prefix("10.1.0.0/16")).is_some());
    assert!(rib.exact_match(prefix("10.1.0.0/17")).is_none());
    rib.announce(prefix("10.1.0.0/16"), route(0, 1, 65002, RpkiState::Unknown, 1));
    assert_eq!((rib.prefix_count(), rib.route_count()), (1, 1));
}

#[test]
fn apply_rib_announcement_announce_and_withdraw() {
    let mut rib = Rib::new();
    let prefix = prefix("203.0.113.0/24");
    apply_rib_announcement(
        &mut rib,
        &RibAnnouncement {
            prefix,
            peer_asn: 1,
            withdraw: false,
            as_path: vec![65000],
            origin_asn: Some(65000),
            timestamp: at(1),
        },
    );
    assert_eq!(rib.prefix_count(), 1);
    apply_rib_announcement(
        &mut rib,
        &RibAnnouncement {
            prefix,
            peer_asn: 1,
            withdraw: true,
            as_path: vec![],
            origin_asn: None,
            timestamp: at(2),
        },
    );
    assert_eq!(rib.prefix_count(), 0);
}

fn elem(as_path: Option<Vec<PathSegment>>, origin_asns: Option<Vec<u32>>) -> Elem {
    Elem {
        withdraw: false,
        prefix: prefix("203.0.113.0/24"),
        peer_asn: 9,
        as_path,
        origin_asns,
        timestamp: at(5),
    }
}

#[test]
fn element_paths_are_one_run_of_networks() {
    let u = rib_announcement_from_elem(&elem(
        Some(vec![
            PathSegment::Ordered(vec![1, 2, 2]),
            PathSegment::Unordered(vec![3]),
            PathSegment::Ordered(vec![4]),
        ]),
        None,
    ));
    assert_eq!(u.as_path, vec![1, 2, 2, 3, 4]);
    assert_eq!(u.origin_asn, Some(4));
    assert_eq!(u.peer_asn, 9);

    let u = rib_announcement_from_elem(&elem(
        Some(vec![PathSegment::Ordered(vec![1]), PathSegment::Unordered(vec![3, 4])]),
        Some(vec![4, 3]),
    ));
    assert!(u.as_path.is_empty());
    assert_eq!(u.origin_asn, Some(4));

    for seg in [PathSegment::ConfedOrdered(vec![1]), PathSegment::ConfedUnordered(vec![1])] {
        let u = rib_announcement_from_elem(&elem(Some(vec![seg]), Some(vec![])));
        assert!(u.as_path.is_empty());
        assert_eq!(u.origin_asn, None);
    }
    let u = rib_announcement_from_elem(&elem(Some(vec![PathSegment::Ordered(vec![])]), None));
    assert!(u.as_path.is_empty());
}

#[test]
fn elements_announce_and_withdraw() {
    let mut rib = Rib::new();
    assert!(can_announce(&rib));
    let mut e = elem(Some(vec![PathSegment::Ordered(vec![9, 65001])]), None);
    apply_elem_rib_only(&mut rib, &e);
    let peers = rib.exact_match(prefix("203.0.113.0/24")).unwrap();
    let r = peers.get(&9).unwrap();
    assert_eq!(r.origin_asn, Some(65001));
    assert_eq!(r.rpki, RpkiState::Unknown);
    assert_eq!(rib.interner.as_path(r.as_path_id).unwrap(), &[9, 65001]);
    e.withdraw = true;
    apply_elem_rib_only(&mut rib, &e);
    assert_eq!(rib.prefix_count(), 0);
}
