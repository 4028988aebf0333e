use bgp_analyzer::prefix::{parse_prefix, Prefix};
use bgp_analyzer::rpki::{
    load_roas, parse_asn, resolve_columns, Roa, RoasTrie, RowFault, RpkiError, RpkiState,
};

fn v4(prefix: &str) -> Prefix {
    parse_prefix(prefix).unwrap()
}

#[test]
fn rov_valid_invalid_unknown() {
    let mut trie = RoasTrie::new();
    trie.insert(Roa {
        prefix: v4("1.0.0.0/16"),
        max_length: 24,
        origin_asn: 13335,
    });

    assert_eq!(trie.validate(v4("1.0.1.0/24"), 13335), RpkiState::Valid);
    assert_eq!(trie.validate(v4("1.0.1.0/24"), 64500), RpkiState::Invalid);
    assert_eq!(trie.validate(v4("1.0.1.0/25"), 13335), RpkiState::Invalid);
    assert_eq!(trie.validate(v4("8.8.8.0/24"), 15169), RpkiState::Unknown);
}

#[test]
fn load_csv_with_headers() {
    let text = "URI,ASN,IP Prefix,Max Length,Not Before,Not After\n\
                rsync://a,AS13335,1.1.1.0/24,24,x,y\n\
                rsync://b,AS15169,8.8.8.0/24,24,x,y\n";
    let trie = load_roas(text.as_bytes()).unwrap();
    assert_eq!(trie.len(), 2);
    assert_eq!(trie.validate(v4("1.1.1.0/24"), 13335), RpkiState::Valid);
    assert_eq!(trie.validate(v4("1.1.1.0/24"), 64500), RpkiState::Invalid);
    assert_eq!(trie.validate(v4("8.8.8.0/24"), 15169), RpkiState::Valid);
}

#[test]
fn more_authorizations_never_take_validity_away() {
    let mut trie = RoasTrie::new();
    assert!(trie.is_empty());
    let p = v4("1.0.1.0/24");
    assert_eq!(trie.validate(p, 13335), RpkiState::Unknown);
    trie.insert(Roa { prefix: v4("1.0.0.0/16"), max_length: 16, origin_asn: 13335 });
    assert_eq!(trie.validate(p, 13335), RpkiState::Invalid);
    trie.insert(Roa { prefix: v4("1.0.0.0/16"), max_length: 24, origin_asn: 13335 });
    assert_eq!(trie.validate(p, 13335), RpkiState::Valid);
    trie.insert(Roa { prefix: v4("1.0.1.0/24"), max_length: 24, origin_asn: 1 });
    assert_eq!(trie.validate(p, 13335), RpkiState::Valid);
    assert_eq!(trie.len(), 3);
}

#[test]
fn tables_that_cannot_be_read_are_refused() {
    assert!(matches!(
        load_roas(b"a,b,c\n1,2,3\n"),
        Err(RpkiError::Columns { headers }) if headers == vec!["a", "b", "c"]
    ));
    let head = "asn,prefix,maxlength\n";
    let bad = |row: &str| load_roas(format!("{head}AS1,10.0.0.0/8,8\n{row}\n").as_bytes());
    assert!(matches!(
        bad("x,10.0.0.0/8,8"),
        Err(RpkiError::InvalidRow { record: 3, fault: RowFault::Asn })
    ));
    assert!(matches!(
        bad("1,ten,8"),
        Err(RpkiError::InvalidRow { record: 3, fault: RowFault::Prefix })
    ));
    assert!(matches!(
        bad("1,10.0.0.0/8,x"),
        Err(RpkiError::InvalidRow { record: 3, fault: RowFault::MaxLength })
    ));
    assert!(matches!(
        load_roas(b"asn,prefix,maxlength\nAS1,\xff,8\n"),
        Err(RpkiError::Record { record: 2 })
    ));
    assert!(matches!(load_roas(b"\xff,b\n"), Err(RpkiError::Headers)));
}

#[test]
fn columns_and_numbers_are_found() {
    let h = |v: &[&str]| v.iter().map(|s| s.to_string()).collect::<Vec<String>>();
    assert!(resolve_columns(&h(&["asn", "ip_prefix", "max length"])).is_some());
    assert!(resolve_columns(&h(&["asn", "max length"])).is_none());
    assert_eq!(parse_asn("AS13335"), Some(13335));
    assert_eq!(parse_asn("13335"), Some(13335));
    assert_eq!(parse_asn("ASX"), None);
    assert_eq!(RpkiState::default(), RpkiState::Unknown);
    assert_eq!(RpkiState::Invalid.name(), "invalid");
}
