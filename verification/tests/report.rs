use pqcutils::names::SortedNames;
use pqcutils::scan_input::{target_lines, ReportFormat};
use pqcutils::scan_report::{
    create_report, join_algorithms, scan_type_name, status, write_csv_field, write_csv_record,
    write_csv_report_to_writer, write_xml_report_to_writer, xml_escape, ReportError, ReportResults,
    ScanFile, ScanResult, ScanType, ScanWindow, Target,
};
use pqcutils::table::Table;

fn strings(v: &[&str]) -> Vec<String> {
    v.iter().map(|s| s.to_string()).collect()
}

fn names(v: &[&str]) -> SortedNames {
    let mut s = SortedNames::new();
    for n in v {
        s.insert(n.to_string());
    }
    s
}

fn ssh_result(host: &str, addr: Option<&str>, error: Option<&str>, pqc: bool) -> ScanResult {
    ScanResult::Ssh {
        targetspec: Target { host: host.to_string(), port: 22 },
        addr: addr.map(|a| a.to_string()),
        error: error.map(|e| e.to_string()),
        pqc_supported: pqc,
        pqc_algos: Some(strings(&["sntrup761x25519-sha512"])),
        nonpqc_algos: Some(strings(&["curve25519-sha256"])),
    }
}

fn tls_result(host: &str, error: Option<&str>, pqc: bool) -> ScanResult {
    ScanResult::Tls {
        targetspec: Target { host: host.to_string(), port: 443 },
        addr: None,
        error: error.map(|e| e.to_string()),
        pqc_supported: pqc,
        pqc_algos: Some(vec![]),
        hybrid_algos: Some(strings(&["X25519MLKEM768"])),
        nonpqc_algos: Some(strings(&["x25519"])),
    }
}

#[test]
fn write_csv_record_escapes_special_characters() {
    let mut output = String::new();
    write_csv_record(
        &mut output,
        &strings(&["plain", "with,comma", "with \"quote\"", "with\nnewline", ""]),
    );
    assert_eq!(
        output,
        "plain,\"with,comma\",\"with \"\"quote\"\"\",\"with\nnewline\",\n"
    );
}

#[test]
fn write_csv_report_includes_ssh_and_tls_rows() {
    let mut ssh_results = Table::new();
    ssh_results.put(
        "ssh.example.com".to_string(),
        vec![ssh_result("ssh.example.com", Some("203.0.113.10:22"), None, true)],
    );
    let mut tls_results = Table::new();
    tls_results.put(
        "tls.example.com".to_string(),
        vec![tls_result("tls.example.com", Some("timeout, retry later"), false)],
    );
    let results = ReportResults {
        tls_results,
        tls_sorted_hosts: names(&["tls.example.com"]),
        tls_success_count: 0,
        tls_fail_count: 1,
        tls_pqc_supported_count: 0,
        tls_total_count: 1,
        ssh_results,
        ssh_sorted_hosts: names(&["ssh.example.com"]),
        ssh_success_count: 1,
        ssh_fail_count: 0,
        ssh_pqc_supported_count: 1,
        ssh_total_count: 1,
        scan_windows: vec![],
    };
    let mut output = String::new();
    write_csv_report_to_writer(&mut output, &results);
    assert_eq!(
        output,
        "scan_type,host,port,address,status,pqc_supported,pqc_algorithms,hybrid_algorithms,non_pqc_algorithms,error\n\
ssh,ssh.example.com,22,203.0.113.10:22,success,true,sntrup761x25519-sha512,,curve25519-sha256,\n\
tls,tls.example.com,443,,error,false,,X25519MLKEM768,x25519,\"timeout, retry later\"\n"
    );
}

#[test]
fn write_xml_report_escapes_values() {
    let mut ssh_results = Table::new();
    ssh_results.put(
        "ssh.example.com".to_string(),
        vec![ssh_result(
            "ssh.example.com",
            Some("203.0.113.10:22"),
            Some("bad \"quote\" & <tag>"),
            false,
        )],
    );
    let results = ReportResults {
        tls_results: Table::new(),
        tls_sorted_hosts: SortedNames::new(),
        tls_success_count: 0,
        tls_fail_count: 0,
        tls_pqc_supported_count: 0,
        tls_total_count: 0,
        ssh_results,
        ssh_sorted_hosts: names(&["ssh.example.com"]),
        ssh_success_count: 0,
        ssh_fail_count: 1,
        ssh_pqc_supported_count: 0,
        ssh_total_count: 1,
        scan_windows: vec![ScanWindow {
            start_time: "2024-01-01T00:00:00Z".to_string(),
            end_time: "2024-01-01T00:01:00Z".to_string(),
            scan_type: ScanType::Ssh,
        }],
    };
    let mut output = String::new();
    write_xml_report_to_writer(&mut output, &results);
    assert!(output.contains(r#"<ssh total="1" success="0" failed="1" pqc_supported="0" />"#));
    assert!(output.contains(r#"<result scan_type="ssh">"#));
    assert!(output.contains("<algorithm>sntrup761x25519-sha512</algorithm>"));
    assert!(output.contains("<error>bad &quot;quote&quot; &amp; &lt;tag&gt;</error>"));
}

#[test]
fn xml_escape_replaces_each_special_character() {
    assert_eq!(xml_escape("a<b>&\"c'"), "a&lt;b&gt;&amp;&quot;c&apos;");
    assert_eq!(xml_escape("plain"), "plain");
    assert_eq!(xml_escape(""), "");
}

#[test]
fn xml_escaped_text_has_no_markup_characters() {
    let escaped = xml_escape("<<>>\"'&&");
    assert!(!escaped.contains('<'));
    assert!(!escaped.contains('>'));
    assert!(!escaped.contains('"'));
    assert!(!escaped.contains('\''));
}

#[test]
fn csv_field_is_quoted_only_when_needed() {
    let mut out = String::new();
    write_csv_field(&mut out, "simple");
    assert_eq!(out, "simple");
    let mut out = String::new();
    write_csv_field(&mut out, "a\rb");
    assert_eq!(out, "\"a\rb\"");
    let mut out = String::new();
    write_csv_field(&mut out, "\"");
    assert_eq!(out, "\"\"\"\"");
}

#[test]
fn status_and_algorithm_lists() {
    assert_eq!(status(&None), "success");
    assert_eq!(status(&Some("x".to_string())), "error");
    assert_eq!(join_algorithms(&None), "");
    assert_eq!(join_algorithms(&Some(vec![])), "");
    assert_eq!(join_algorithms(&Some(strings(&["a", "b", "c"]))), "a;b;c");
    assert_eq!(scan_type_name(&ScanType::Ssh), "ssh");
    assert_eq!(scan_type_name(&ScanType::Tls), "tls");
}

fn window() -> ScanWindow {
    ScanWindow {
        start_time: "2024-01-01T00:00:00Z".to_string(),
        end_time: "2024-01-01T00:05:00Z".to_string(),
        scan_type: ScanType::Ssh,
    }
}

#[test]
fn create_report_groups_results_by_host_and_counts_them() {
    let scans = vec![
        ScanFile {
            version: "0.4.0".to_string(),
            window: window(),
            results: vec![
                ssh_result("b.example", None, None, true),
                ssh_result("a.example", None, Some("refused"), false),
                tls_result("t.example", None, true),
            ],
        },
        ScanFile {
            version: "0.4.0".to_string(),
            window: window(),
            results: vec![ssh_result("b.example", None, None, false)],
        },
    ];
    let report = match create_report(scans, "0.4.0") {
        Ok(r) => r,
        Err(_) => panic!("versions match"),
    };
    assert_eq!(report.ssh_total_count, 3);
    assert_eq!(report.ssh_success_count, 2);
    assert_eq!(report.ssh_fail_count, 1);
    assert_eq!(report.ssh_pqc_supported_count, 1);
    assert_eq!(report.tls_total_count, 1);
    assert_eq!(report.tls_success_count, 1);
    assert_eq!(report.tls_fail_count, 0);
    assert_eq!(report.tls_pqc_supported_count, 1);
    assert_eq!(report.scan_windows.len(), 2);
    assert_eq!(report.ssh_sorted_hosts.len(), 2);
    assert_eq!(report.ssh_sorted_hosts.get(0), "a.example");
    assert_eq!(report.ssh_sorted_hosts.get(1), "b.example");
    assert_eq!(report.ssh_results.get(&"b.example".to_string()).map(|v| v.len()), Some(2));
    assert_eq!(report.ssh_results.get(&"a.example".to_string()).map(|v| v.len()), Some(1));
    assert_eq!(report.tls_results.get(&"t.example".to_string()).map(|v| v.len()), Some(1));
}

#[test]
fn create_report_refuses_a_file_of_another_version() {
    let scans = vec![
        ScanFile { version: "0.4.0".to_string(), window: window(), results: vec![] },
        ScanFile { version: "0.3.9".to_string(), window: window(), results: vec![] },
    ];
    match create_report(scans, "0.4.0") {
        Err(ReportError::VersionMismatch { index, found, expected }) => {
            assert_eq!(index, 1);
            assert_eq!(found, "0.3.9");
            assert_eq!(expected, "0.4.0");
        }
        Ok(_) => panic!("a version mismatch must be refused"),
    }
}

#[test]
fn report_format_is_chosen_by_name() {
    assert_eq!(ReportFormat::from("csv"), ReportFormat::Csv);
    assert_eq!(ReportFormat::from("json"), ReportFormat::Json);
    assert_eq!(ReportFormat::from("xml"), ReportFormat::Xml);
    assert_eq!(ReportFormat::from("html"), ReportFormat::Html);
    assert_eq!(ReportFormat::from("pdf"), ReportFormat::Html);
}

#[test]
fn target_lines_skip_blank_and_comment_lines() {
    let lines = strings(&["# targets", "a.example:443", "", "b.example", "#x"]);
    let got = target_lines(&lines);
    assert_eq!(
        got,
        vec![(2, "a.example:443".to_string()), (4, "b.example".to_string())]
    );
}
