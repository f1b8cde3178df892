use pqcutils::endpoint::{parse_port, split_endpoint_text};
use pqcutils::report_files::{candidate_file_name, MAX_UNIQUE_ATTEMPTS};
use pqcutils::summary::{
    cipher_suites_by_id, groups_by_id, AlgorithmDetails, SessionResult, TlsCipherSuite, TlsGroup,
};
use pqcutils::table::DistinctSet;

fn group(id: u16, pqc: bool) -> TlsGroup {
    TlsGroup {
        name: String::new(),
        group_id: id,
        pqc,
        hybrid: false,
        obsolete: false,
        insecure: false,
        desc: "d".to_string(),
        href: "h".to_string(),
    }
}

#[test]
fn endpoints_split_into_address_and_port() {
    assert_eq!(split_endpoint_text("10.0.0.1:80"), Some(("10.0.0.1".to_string(), 80)));
    assert_eq!(split_endpoint_text("[2001:db8::1]:443"), Some(("2001:db8::1".to_string(), 443)));
    assert_eq!(split_endpoint_text("::1:443"), None);
    assert_eq!(split_endpoint_text("host"), None);
    assert_eq!(split_endpoint_text("host:65536"), None);
    assert_eq!(split_endpoint_text("host:"), None);
    assert_eq!(split_endpoint_text("host:8a"), None);
    assert_eq!(split_endpoint_text("a:b:1"), None);
}

#[test]
fn ports_are_decimal_numbers_up_to_65535() {
    assert_eq!(parse_port("0"), Some(0));
    assert_eq!(parse_port("65535"), Some(65535));
    assert_eq!(parse_port("0080"), Some(80));
    assert_eq!(parse_port("65536"), None);
    assert_eq!(parse_port("9999999999"), None);
    assert_eq!(parse_port(""), None);
    assert_eq!(parse_port("-1"), None);
}

#[test]
fn groups_are_filed_by_identifier_under_their_listed_names() {
    let named = vec![
        ("first".to_string(), group(1, false)),
        ("second".to_string(), group(2, true)),
        ("again".to_string(), group(1, true)),
    ];
    let t = groups_by_id(&named);
    assert_eq!(t.len(), 2);
    let g1 = t.get(&1).expect("group 1");
    assert_eq!(g1.name, "again");
    assert!(g1.pqc);
    assert_eq!(t.get(&2).expect("group 2").name, "second");
    assert!(t.get(&3).is_none());
}

#[test]
fn cipher_suites_are_filed_by_identifier_under_their_listed_names() {
    let suite = |id: u16| TlsCipherSuite {
        name: String::new(),
        cipher_suite_id: id,
        obsolete: false,
        insecure: id == 5,
        desc: String::new(),
        href: String::new(),
    };
    let named = vec![
        ("TLS_AES_128_GCM_SHA256".to_string(), suite(0x1301)),
        ("TLS_RSA_WITH_RC4_128_MD5".to_string(), suite(5)),
    ];
    let t = cipher_suites_by_id(&named);
    assert_eq!(t.get(&0x1301).expect("suite").name, "TLS_AES_128_GCM_SHA256");
    assert!(t.get(&5).expect("suite").insecure);
}

#[test]
fn report_file_alternatives_are_numbered_with_two_digits() {
    assert_eq!(candidate_file_name("results", Some("html"), 1), "results-01.html");
    assert_eq!(candidate_file_name("results", Some("html"), 42), "results-42.html");
    assert_eq!(candidate_file_name("report", None, 9), "report-09");
    assert_eq!(MAX_UNIQUE_ATTEMPTS, 99);
    let mut names = std::collections::HashSet::new();
    for n in 1..=MAX_UNIQUE_ATTEMPTS {
        assert!(names.insert(candidate_file_name("r", Some("x"), n)));
    }
}

#[test]
fn distinct_sets_keep_one_of_each_value() {
    let mut s = DistinctSet::new();
    s.insert(AlgorithmDetails::new("a".into(), "b".into(), "c".into(), "d".into()));
    s.insert(AlgorithmDetails::new("a".into(), "b".into(), "c".into(), "d".into()));
    s.insert(AlgorithmDetails::new("a".into(), "b".into(), "c".into(), "e".into()));
    assert_eq!(s.len(), 2);
    assert_eq!(s.get(1).link, "e");
    let mut r = DistinctSet::new();
    r.insert(SessionResult::new("1".into(), 1, "2".into(), 2, "k".into(), "s".into()));
    r.insert(SessionResult::new("1".into(), 1, "2".into(), 3, "k".into(), "s".into()));
    r.insert(SessionResult::new("1".into(), 1, "2".into(), 2, "k".into(), "s".into()));
    assert_eq!(r.len(), 2);
    assert_eq!(r.get(1).destination_port, 3);
}
