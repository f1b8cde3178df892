//! Reports of active scan results: grouping the results of scan files by
//! host and writing them as CSV or XML.

use vstd::prelude::*;
use crate::names::SortedNames;
use crate::table::Table;
use crate::text::{push_char, push_numeral, decimal};

verus! {

/// A scanned endpoint.
pub struct Target {
    pub host: String,
    pub port: u16,
}

/// The protocol a scan probed.
#[derive(Clone, Copy, Debug, PartialEq, Eq, Structural)]
pub enum ScanType {
    Ssh,
    Tls,
}

/// The outcome of scanning one target.
pub enum ScanResult {
    Ssh {
        targetspec: Target,
        addr: Option<String>,
        error: Option<String>,
        pqc_supported: bool,
        pqc_algos: Option<Vec<String>>,
        nonpqc_algos: Option<Vec<String>>,
    },
    Tls {
        targetspec: Target,
        addr: Option<String>,
        error: Option<String>,
        pqc_supported: bool,
        pqc_algos: Option<Vec<String>>,
        hybrid_algos: Option<Vec<String>>,
        nonpqc_algos: Option<Vec<String>>,
    },
}

/// When a scan ran: its start and end as RFC 3339 text, and its protocol.
pub struct ScanWindow {
    pub start_time: String,
    pub end_time: String,
    pub scan_type: ScanType,
}

/// The results of all scans, grouped by protocol and host.
pub struct ReportResults {
    pub tls_results: Table<String, Vec<ScanResult>>,
    pub tls_sorted_hosts: SortedNames,
    pub tls_success_count: usize,
    pub tls_fail_count: usize,
    pub tls_pqc_supported_count: usize,
    pub tls_total_count: usize,
    pub ssh_results: Table<String, Vec<ScanResult>>,
    pub ssh_sorted_hosts: SortedNames,
    pub ssh_success_count: usize,
    pub ssh_fail_count: usize,
    pub ssh_pqc_supported_count: usize,
    pub ssh_total_count: usize,
    pub scan_windows: Vec<ScanWindow>,
}

/// The entity replacing a character in XML text, or the character itself.
pub open spec fn xml_escape_char(c: char) -> Seq<char> {
    if c == '&' {
        "&amp;"@
    } else if c == '<' {
        "&lt;"@
    } else if c == '>' {
        "&gt;"@
    } else if c == '"' {
        "&quot;"@
    } else if c == '\'' {
        "&apos;"@
    } else {
        seq![c]
    }
}

/// `s` with `&`, `<`, `>`, `"` and `'` replaced by their XML entities.
pub open spec fn xml_escaped(s: Seq<char>) -> Seq<char>
    decreases s.len(),
{
    if s.len() == 0 {
        Seq::empty()
    } else {
        xml_escaped(s.drop_last()) + xml_escape_char(s.last())
    }
}

fn push_escaped_char(out: &mut String, c: char)
    ensures
        final(out)@ == old(out)@ + xml_escape_char(c),
{
    if c == '&' {
        out.append("&amp;");
    } else if c == '<' {
        out.append("&lt;");
    } else if c == '>' {
        out.append("&gt;");
    } else if c == '"' {
        out.append("&quot;");
    } else if c == '\'' {
        out.append("&apos;");
    } else {
        push_char(out, c);
    }
}

fn push_xml_escaped(out: &mut String, value: &str)
    ensures
        final(out)@ == old(out)@ + xml_escaped(value@),
{
    let ghost start = out@;
    for c in it: value.chars()
        invariant
            it.seq() == value@,
            out@ == start + xml_escaped(value@.take(it.index() as int)),
    {
        proof {
            assert(value@.skip(it.index() as int)[0] == c);
            assert(value@[it.index() as int] == c);
            let t = value@.take(it.index() + 1);
            assert(t.drop_last() =~= value@.take(it.index() as int));
            assert(t.last() == c);
        }
        push_escaped_char(out, c);
        assert(out@ =~= start + xml_escaped(value@.take(it.index() + 1)));
    }
    assert(value@.take(value@.len() as int) =~= value@);
}

/// Escapes text for use in XML content or attribute values.
pub fn xml_escape(value: &str) -> (s: String)
    ensures
        s@ == xml_escaped(value@),
{
    let mut s = String::new();
    push_xml_escaped(&mut s, value);
    assert(s@ =~= xml_escaped(value@));
    s
}

/// A CSV field needs quoting when it holds a comma, a double quote, a line
/// feed or a carriage return.
pub open spec fn csv_needs_quotes(s: Seq<char>) -> bool {
    exists|i: int| 0 <= i < s.len() && (s[i] == ',' || s[i] == '"' || s[i] == '\n' || s[i] == '\r')
}

/// `s` with every double quote doubled.
pub open spec fn csv_doubled(s: Seq<char>) -> Seq<char>
    decreases s.len(),
{
    if s.len() == 0 {
        Seq::empty()
    } else {
        csv_doubled(s.drop_last()) + if s.last() == '"' {
            seq!['"', '"']
        } else {
            seq![s.last()]
        }
    }
}

/// A field as written to CSV (RFC 4180): quoted, with quotes doubled, when
/// it needs quotes, otherwise as it is.
pub open spec fn csv_field(s: Seq<char>) -> Seq<char> {
    if csv_needs_quotes(s) {
        seq!['"'] + csv_doubled(s) + seq!['"']
    } else {
        s
    }
}

/// Fields written as CSV and separated by commas.
pub open spec fn csv_fields(fields: Seq<Seq<char>>) -> Seq<char>
    decreases fields.len(),
{
    if fields.len() == 0 {
        Seq::empty()
    } else if fields.len() == 1 {
        csv_field(fields[0])
    } else {
        csv_fields(fields.drop_last()) + seq![','] + csv_field(fields.last())
    }
}

/// One CSV record: the fields, then a line feed.
pub open spec fn csv_record(fields: Seq<Seq<char>>) -> Seq<char> {
    csv_fields(fields) + seq!['\n']
}

/// Appends a field to CSV output.
pub fn write_csv_field(out: &mut String, field: &str)
    ensures
        final(out)@ == old(out)@ + csv_field(field@),
{
    let mut special = false;
    for c in it: field.chars()
        invariant
            it.seq() == field@,
            special == csv_needs_quotes(field@.take(it.index() as int)),
    {
        proof {
            assert(field@.skip(it.index() as int)[0] == c);
            assert(field@[it.index() as int] == c);
            let pre = field@.take(it.index() as int);
            let post = field@.take(it.index() + 1);
            assert(post =~= pre.push(c));
            if csv_needs_quotes(pre) {
                let w = choose|w: int|
                    0 <= w < pre.len() && (pre[w] == ',' || pre[w] == '"' || pre[w] == '\n'
                        || pre[w] == '\r');
                assert(post[w] == pre[w]);
            }
            if c == ',' || c == '"' || c == '\n' || c == '\r' {
                assert(post[pre.len() as int] == c);
            }
            if csv_needs_quotes(post) && !(c == ',' || c == '"' || c == '\n' || c == '\r') {
                let w = choose|w: int|
                    0 <= w < post.len() && (post[w] == ',' || post[w] == '"' || post[w] == '\n'
                        || post[w] == '\r');
                assert(w < pre.len());
                assert(pre[w] == post[w]);
            }
        }
        if c == ',' || c == '"' || c == '\n' || c == '\r' {
            special = true;
        }
    }
    assert(field@.take(field@.len() as int) =~= field@);
    if !special {
        out.append(field);
        return;
    }
    push_char(out, '"');
    let ghost start = out@;
    for c in it: field.chars()
        invariant
            it.seq() == field@,
            out@ == start + csv_doubled(field@.take(it.index() as int)),
    {
        proof {
            assert(field@.skip(it.index() as int)[0] == c);
            assert(field@[it.index() as int] == c);
            let t = field@.take(it.index() + 1);
            assert(t.drop_last() =~= field@.take(it.index() as int));
            assert(t.last() == c);
        }
        if c == '"' {
            push_char(out, '"');
            push_char(out, '"');
        } else {
            push_char(out, c);
        }
        assert(out@ =~= start + csv_doubled(field@.take(it.index() + 1)));
    }
    push_char(out, '"');
    assert(final(out)@ =~= old(out)@ + csv_field(field@));
}

/// The views of a list of strings.
pub open spec fn str_views(v: Seq<String>) -> Seq<Seq<char>> {
    v.map_values(|x: String| x@)
}

/// Appends one CSV record of the given fields.
pub fn write_csv_record(out: &mut String, fields: &[String])
    ensures
        final(out)@ == old(out)@ + csv_record(str_views(fields@)),
{
    let ghost start = out@;
    let ghost f = str_views(fields@);
    let mut i: usize = 0;
    while i < fields.len()
        invariant
            i <= fields@.len(),
            f == str_views(fields@),
            out@ == start + csv_fields(f.take(i as int)),
        decreases fields@.len() - i,
    {
        proof {
            assert(f.take(i + 1).drop_last() =~= f.take(i as int));
            assert(f.take(i + 1).last() == fields@[i as int]@);
        }
        if i > 0 {
            push_char(out, ',');
        }
        write_csv_field(out, fields[i].as_str());
        proof {
            if i == 0 {
                assert(f.take(1)[0] == fields@[0]@);
            }
        }
        assert(out@ =~= start + csv_fields(f.take(i + 1)));
        i = i + 1;
    }
    assert(f.take(fields@.len() as int) =~= f);
    push_char(out, '\n');
}


/// `error` for a failed scan, `success` otherwise.
pub open spec fn status_text(error: Option<String>) -> Seq<char> {
    if error is Some {
        "error"@
    } else {
        "success"@
    }
}

/// The status of a scan result.
pub fn status(error: &Option<String>) -> (s: &'static str)
    ensures
        s@ == status_text(*error),
{
    if error.is_some() {
        "error"
    } else {
        "success"
    }
}

/// `true` or `false`.
pub open spec fn bool_text(b: bool) -> Seq<char> {
    if b {
        "true"@
    } else {
        "false"@
    }
}

fn bool_string(b: bool) -> (s: String)
    ensures
        s@ == bool_text(b),
{
    if b {
        String::from_str("true")
    } else {
        String::from_str("false")
    }
}

/// The text of an optional string, empty when absent.
pub open spec fn opt_text(o: Option<String>) -> Seq<char> {
    match o {
        Some(s) => s@,
        None => Seq::empty(),
    }
}

fn opt_string(o: &Option<String>) -> (s: String)
    ensures
        s@ == opt_text(*o),
{
    match o {
        Some(x) => x.clone(),
        None => String::new(),
    }
}

/// Names joined by `sep`.
pub open spec fn join_with(names: Seq<Seq<char>>, sep: char) -> Seq<char>
    decreases names.len(),
{
    if names.len() == 0 {
        Seq::empty()
    } else if names.len() == 1 {
        names[0]
    } else {
        join_with(names.drop_last(), sep) + seq![sep] + names.last()
    }
}

/// An optional list of algorithm names joined by semicolons, empty when
/// absent.
pub open spec fn joined_algorithms(algorithms: Option<Vec<String>>) -> Seq<char> {
    match algorithms {
        Some(v) => join_with(str_views(v@), ';'),
        None => Seq::empty(),
    }
}

/// Joins an optional list of algorithm names with semicolons.
pub fn join_algorithms(algorithms: &Option<Vec<String>>) -> (s: String)
    ensures
        s@ == joined_algorithms(*algorithms),
{
    let mut s = String::new();
    if let Some(items) = algorithms {
        let ghost names = str_views(items@);
        let mut i: usize = 0;
        while i < items.len()
            invariant
                i <= items@.len(),
                names == str_views(items@),
                s@ == join_with(names.take(i as int), ';'),
            decreases items@.len() - i,
        {
            proof {
                assert(names.take(i + 1).drop_last() =~= names.take(i as int));
                assert(names.take(i + 1).last() == items@[i as int]@);
                if i == 0 {
                    assert(names.take(1)[0] == items@[0]@);
                }
            }
            if i > 0 {
                push_char(&mut s, ';');
            }
            s.append(items[i].as_str());
            assert(s@ =~= join_with(names.take(i + 1), ';'));
            i = i + 1;
        }
        assert(names.take(items@.len() as int) =~= names);
    } else {
        assert(s@ =~= joined_algorithms(*algorithms));
    }
    s
}

/// The fields of the CSV row of a result: scan type, host, port, address,
/// status, whether PQC is supported, PQC, hybrid and other algorithms, and
/// the error.
pub open spec fn csv_row_fields(r: ScanResult) -> Seq<Seq<char>> {
    match r {
        ScanResult::Ssh { targetspec, addr, error, pqc_supported, pqc_algos, nonpqc_algos } => seq![
            "ssh"@,
            targetspec.host@,
            decimal(targetspec.port as nat),
            opt_text(addr),
            status_text(error),
            bool_text(pqc_supported),
            joined_algorithms(pqc_algos),
            Seq::empty(),
            joined_algorithms(nonpqc_algos),
            opt_text(error),
        ],
        ScanResult::Tls {
            targetspec,
            addr,
            error,
            pqc_supported,
            pqc_algos,
            hybrid_algos,
            nonpqc_algos,
        } => seq![
            "tls"@,
            targetspec.host@,
            decimal(targetspec.port as nat),
            opt_text(addr),
            status_text(error),
            bool_text(pqc_supported),
            joined_algorithms(pqc_algos),
            joined_algorithms(hybrid_algos),
            joined_algorithms(nonpqc_algos),
            opt_text(error),
        ],
    }
}

/// The result belongs to the TLS section (`tls`) or the SSH section.
pub open spec fn in_section(r: ScanResult, tls: bool) -> bool {
    if tls {
        r is Tls
    } else {
        r is Ssh
    }
}

/// The CSV rows of those results that belong to the section.
pub open spec fn csv_rows(results: Seq<ScanResult>, tls: bool) -> Seq<char>
    decreases results.len(),
{
    if results.len() == 0 {
        Seq::empty()
    } else {
        csv_rows(results.drop_last(), tls) + if in_section(results.last(), tls) {
            csv_record(csv_row_fields(results.last()))
        } else {
            Seq::empty()
        }
    }
}

/// The CSV rows of a section, host by host in the given order.
pub open spec fn csv_host_rows(hosts: Seq<Seq<char>>, m: Map<Seq<char>, Seq<ScanResult>>, tls: bool) -> Seq<char>
    decreases hosts.len(),
{
    if hosts.len() == 0 {
        Seq::empty()
    } else {
        csv_host_rows(hosts.drop_last(), m, tls) + if m.contains_key(hosts.last()) {
            csv_rows(m[hosts.last()], tls)
        } else {
            Seq::empty()
        }
    }
}

/// The CSV header.
pub open spec fn csv_header() -> Seq<Seq<char>> {
    seq![
        "scan_type"@,
        "host"@,
        "port"@,
        "address"@,
        "status"@,
        "pqc_supported"@,
        "pqc_algorithms"@,
        "hybrid_algorithms"@,
        "non_pqc_algorithms"@,
        "error"@,
    ]
}

/// The whole CSV report: the header, the SSH rows of each host in ascending
/// host order, then the TLS rows likewise.
pub open spec fn csv_report(r: &ReportResults) -> Seq<char> {
    csv_record(csv_header()) + csv_host_rows(r.ssh_sorted_hosts.order(), r.ssh_results@, false)
        + csv_host_rows(r.tls_sorted_hosts.order(), r.tls_results@, true)
}

fn csv_row(r: &ScanResult) -> (v: Vec<String>)
    ensures
        str_views(v@) == csv_row_fields(*r),
{
    let mut v: Vec<String> = Vec::new();
    match r {
        ScanResult::Ssh { targetspec, addr, error, pqc_supported, pqc_algos, nonpqc_algos } => {
            v.push(String::from_str("ssh"));
            v.push(targetspec.host.clone());
            v.push(crate::text::decimal_string(targetspec.port as u64));
            v.push(opt_string(addr));
            v.push(String::from_str(status(error)));
            v.push(bool_string(*pqc_supported));
            v.push(join_algorithms(pqc_algos));
            v.push(String::new());
            v.push(join_algorithms(nonpqc_algos));
            v.push(opt_string(error));
        },
        ScanResult::Tls {
            targetspec,
            addr,
            error,
            pqc_supported,
            pqc_algos,
            hybrid_algos,
            nonpqc_algos,
        } => {
            v.push(String::from_str("tls"));
            v.push(targetspec.host.clone());
            v.push(crate::text::decimal_string(targetspec.port as u64));
            v.push(opt_string(addr));
            v.push(String::from_str(status(error)));
            v.push(bool_string(*pqc_supported));
            v.push(join_algorithms(pqc_algos));
            v.push(join_algorithms(hybrid_algos));
            v.push(join_algorithms(nonpqc_algos));
            v.push(opt_string(error));
        },
    }
    assert(str_views(v@) =~= csv_row_fields(*r));
    v
}

fn write_csv_rows(out: &mut String, results: &Vec<ScanResult>, tls: bool)
    ensures
        final(out)@ == old(out)@ + csv_rows(results@, tls),
{
    let ghost start = out@;
    let mut i: usize = 0;
    while i < results.len()
        invariant
            i <= results@.len(),
            out@ == start + csv_rows(results@.take(i as int), tls),
        decreases results@.len() - i,
    {
        proof {
            assert(results@.take(i + 1).drop_last() =~= results@.take(i as int));
            assert(results@.take(i + 1).last() == results@[i as int]);
        }
        let r = &results[i];
        let belongs = match r {
            ScanResult::Ssh { .. } => !tls,
            ScanResult::Tls { .. } => tls,
        };
        if belongs {
            let fields = csv_row(r);
            write_csv_record(out, fields.as_slice());
        }
        assert(out@ =~= start + csv_rows(results@.take(i + 1), tls));
        i = i + 1;
    }
    assert(results@.take(results@.len() as int) =~= results@);
}

fn write_csv_section(out: &mut String, hosts: &SortedNames, m: &Table<String, Vec<ScanResult>>, tls: bool)
    ensures
        final(out)@ == old(out)@ + csv_host_rows(hosts.order(), m@, tls),
{
    let ghost start = out@;
    let ghost order = hosts.order();
    let n = hosts.len();
    let mut i: usize = 0;
    while i < n
        invariant
            i <= n == order.len(),
            order == hosts.order(),
            out@ == start + csv_host_rows(order.take(i as int), m@, tls),
        decreases n - i,
    {
        proof {
            assert(order.take(i + 1).drop_last() =~= order.take(i as int));
            assert(order.take(i + 1).last() == order[i as int]);
        }
        let host = hosts.get(i);
        if let Some(rs) = m.get(host) {
            write_csv_rows(out, rs, tls);
        }
        assert(out@ =~= start + csv_host_rows(order.take(i + 1), m@, tls));
        i = i + 1;
    }
    assert(order.take(n as int) =~= order);
}

/// Writes the CSV report.
pub fn write_csv_report_to_writer(out: &mut String, results: &ReportResults)
    ensures
        final(out)@ == old(out)@ + csv_report(results),
{
    let mut header: Vec<String> = Vec::new();
    header.push(String::from_str("scan_type"));
    header.push(String::from_str("host"));
    header.push(String::from_str("port"));
    header.push(String::from_str("address"));
    header.push(String::from_str("status"));
    header.push(String::from_str("pqc_supported"));
    header.push(String::from_str("pqc_algorithms"));
    header.push(String::from_str("hybrid_algorithms"));
    header.push(String::from_str("non_pqc_algorithms"));
    header.push(String::from_str("error"));
    assert(str_views(header@) =~= csv_header());
    write_csv_record(out, header.as_slice());
    write_csv_section(out, &results.ssh_sorted_hosts, &results.ssh_results, false);
    write_csv_section(out, &results.tls_sorted_hosts, &results.tls_results, true);
    assert(final(out)@ =~= old(out)@ + csv_report(results));
}


/// `n` spaces.
pub open spec fn spaces(n: nat) -> Seq<char> {
    Seq::new(n, |i: int| ' ')
}

fn push_spaces(out: &mut String, n: usize)
    ensures
        final(out)@ == old(out)@ + spaces(n as nat),
{
    let ghost start = out@;
    let mut i: usize = 0;
    while i < n
        invariant
            i <= n,
            out@ == start + spaces(i as nat),
        decreases n - i,
    {
        push_char(out, ' ');
        assert(out@ =~= start + spaces((i + 1) as nat));
        i = i + 1;
    }
}

/// An indented element holding escaped text, on a line of its own.
pub open spec fn xml_text_element(indent: nat, name: Seq<char>, value: Seq<char>) -> Seq<char> {
    spaces(indent) + seq!['<'] + name + seq!['>'] + xml_escaped(value) + seq!['<', '/'] + name
        + seq!['>', '\n']
}

fn write_xml_text_element(out: &mut String, indent: usize, name: &str, value: &str)
    ensures
        final(out)@ == old(out)@ + xml_text_element(indent as nat, name@, value@),
{
    push_spaces(out, indent);
    push_char(out, '<');
    out.append(name);
    push_char(out, '>');
    push_xml_escaped(out, value);
    push_char(out, '<');
    push_char(out, '/');
    out.append(name);
    push_char(out, '>');
    push_char(out, '\n');
    assert(final(out)@ =~= old(out)@ + xml_text_element(indent as nat, name@, value@));
}

/// One `algorithm` element per name, indented by `indent`.
pub open spec fn xml_algorithm_items(indent: nat, names: Seq<Seq<char>>) -> Seq<char>
    decreases names.len(),
{
    if names.len() == 0 {
        Seq::empty()
    } else {
        xml_algorithm_items(indent, names.drop_last()) + xml_text_element(
            indent,
            "algorithm"@,
            names.last(),
        )
    }
}

/// An indented list element holding one `algorithm` element per name (none
/// when the list is absent).
pub open spec fn xml_algorithm_list(indent: nat, name: Seq<char>, algorithms: Option<Vec<String>>) -> Seq<char> {
    spaces(indent) + seq!['<'] + name + seq!['>', '\n'] + match algorithms {
        Some(v) => xml_algorithm_items(indent + 2, str_views(v@)),
        None => Seq::empty(),
    } + spaces(indent) + seq!['<', '/'] + name + seq!['>', '\n']
}

fn write_xml_algorithm_list(out: &mut String, indent: usize, name: &str, algorithms: &Option<Vec<String>>)
    requires
        indent < 100,
    ensures
        final(out)@ == old(out)@ + xml_algorithm_list(indent as nat, name@, *algorithms),
{
    push_spaces(out, indent);
    push_char(out, '<');
    out.append(name);
    push_char(out, '>');
    push_char(out, '\n');
    let ghost mid = out@;
    if let Some(items) = algorithms {
        let ghost names = str_views(items@);
        let mut i: usize = 0;
        while i < items.len()
            invariant
                i <= items@.len(),
                indent < 100,
                names == str_views(items@),
                out@ == mid + xml_algorithm_items((indent + 2) as nat, names.take(i as int)),
            decreases items@.len() - i,
        {
            proof {
                assert(names.take(i + 1).drop_last() =~= names.take(i as int));
                assert(names.take(i + 1).last() == items@[i as int]@);
            }
            write_xml_text_element(out, indent + 2, "algorithm", items[i].as_str());
            assert(out@ =~= mid + xml_algorithm_items((indent + 2) as nat, names.take(i + 1)));
            i = i + 1;
        }
        assert(names.take(items@.len() as int) =~= names);
    }
    let ghost mid2 = out@;
    push_spaces(out, indent);
    push_char(out, '<');
    push_char(out, '/');
    out.append(name);
    push_char(out, '>');
    push_char(out, '\n');
    assert(final(out)@ =~= old(out)@ + xml_algorithm_list(indent as nat, name@, *algorithms));
}

/// The `result` element of a scan result of the given kind.
pub open spec fn xml_result_element(
    kind: Seq<char>,
    t: Target,
    addr: Option<String>,
    error: Option<String>,
    pqc: bool,
    pqc_algos: Option<Vec<String>>,
    hybrid: Option<Vec<String>>,
    nonpqc: Option<Vec<String>>,
) -> Seq<char> {
    "    <result scan_type=\""@ + kind + "\">\n"@ + xml_text_element(6, "host"@, t.host@)
        + xml_text_element(6, "port"@, decimal(t.port as nat)) + xml_text_element(
        6,
        "address"@,
        opt_text(addr),
    ) + xml_text_element(6, "status"@, status_text(error)) + xml_text_element(
        6,
        "pqc_supported"@,
        bool_text(pqc),
    ) + xml_algorithm_list(6, "pqc_algorithms"@, pqc_algos) + xml_algorithm_list(
        6,
        "hybrid_algorithms"@,
        hybrid,
    ) + xml_algorithm_list(6, "non_pqc_algorithms"@, nonpqc) + xml_text_element(
        6,
        "error"@,
        opt_text(error),
    ) + "    </result>\n"@
}

/// The `result` element of one scan result; SSH results list no hybrid
/// algorithms.
pub open spec fn xml_result(r: ScanResult) -> Seq<char> {
    match r {
        ScanResult::Ssh { targetspec, addr, error, pqc_supported, pqc_algos, nonpqc_algos } =>
            xml_result_element(
            "ssh"@,
            targetspec,
            addr,
            error,
            pqc_supported,
            pqc_algos,
            None,
            nonpqc_algos,
        ),
        ScanResult::Tls {
            targetspec,
            addr,
            error,
            pqc_supported,
            pqc_algos,
            hybrid_algos,
            nonpqc_algos,
        } => xml_result_element(
            "tls"@,
            targetspec,
            addr,
            error,
            pqc_supported,
            pqc_algos,
            hybrid_algos,
            nonpqc_algos,
        ),
    }
}

fn write_xml_result(
    out: &mut String,
    scan_type: &str,
    targetspec: &Target,
    addr: &Option<String>,
    error: &Option<String>,
    pqc_supported: bool,
    pqc_algos: &Option<Vec<String>>,
    hybrid_algos: &Option<Vec<String>>,
    nonpqc_algos: &Option<Vec<String>>,
)
    ensures
        final(out)@ == old(out)@ + xml_result_element(
            scan_type@,
            *targetspec,
            *addr,
            *error,
            pqc_supported,
            *pqc_algos,
            *hybrid_algos,
            *nonpqc_algos,
        ),
{
    out.append("    <result scan_type=\"");
    out.append(scan_type);
    out.append("\">\n");
    write_xml_text_element(out, 6, "host", targetspec.host.as_str());
    let port = crate::text::decimal_string(targetspec.port as u64);
    write_xml_text_element(out, 6, "port", port.as_str());
    let address = opt_string(addr);
    write_xml_text_element(out, 6, "address", address.as_str());
    write_xml_text_element(out, 6, "status", status(error));
    let pqc = bool_string(pqc_supported);
    write_xml_text_element(out, 6, "pqc_supported", pqc.as_str());
    write_xml_algorithm_list(out, 6, "pqc_algorithms", pqc_algos);
    write_xml_algorithm_list(out, 6, "hybrid_algorithms", hybrid_algos);
    write_xml_algorithm_list(out, 6, "non_pqc_algorithms", nonpqc_algos);
    let err = opt_string(error);
    write_xml_text_element(out, 6, "error", err.as_str());
    out.append("    </result>\n");
    assert(final(out)@ =~= old(out)@ + xml_result_element(
        scan_type@,
        *targetspec,
        *addr,
        *error,
        pqc_supported,
        *pqc_algos,
        *hybrid_algos,
        *nonpqc_algos,
    ));
}

/// The `result` elements of those results that belong to the section.
pub open spec fn xml_results(results: Seq<ScanResult>, tls: bool) -> Seq<char>
    decreases results.len(),
{
    if results.len() == 0 {
        Seq::empty()
    } else {
        xml_results(results.drop_last(), tls) + if in_section(results.last(), tls) {
            xml_result(results.last())
        } else {
            Seq::empty()
        }
    }
}

/// The `result` elements of a section, host by host in the given order.
pub open spec fn xml_host_results(hosts: Seq<Seq<char>>, m: Map<Seq<char>, Seq<ScanResult>>, tls: bool) -> Seq<char>
    decreases hosts.len(),
{
    if hosts.len() == 0 {
        Seq::empty()
    } else {
        xml_host_results(hosts.drop_last(), m, tls) + if m.contains_key(hosts.last()) {
            xml_results(m[hosts.last()], tls)
        } else {
            Seq::empty()
        }
    }
}

fn write_xml_results(out: &mut String, results: &Vec<ScanResult>, tls: bool)
    ensures
        final(out)@ == old(out)@ + xml_results(results@, tls),
{
    let ghost start = out@;
    let mut i: usize = 0;
    while i < results.len()
        invariant
            i <= results@.len(),
            out@ == start + xml_results(results@.take(i as int), tls),
        decreases results@.len() - i,
    {
        proof {
            assert(results@.take(i + 1).drop_last() =~= results@.take(i as int));
            assert(results@.take(i + 1).last() == results@[i as int]);
        }
        match &results[i] {
            ScanResult::Ssh { targetspec, addr, error, pqc_supported, pqc_algos, nonpqc_algos } => {
                if !tls {
                    write_xml_result(
                        out,
                        "ssh",
                        targetspec,
                        addr,
                        error,
                        *pqc_supported,
                        pqc_algos,
                        &None,
                        nonpqc_algos,
                    );
                }
            },
            ScanResult::Tls {
                targetspec,
                addr,
                error,
                pqc_supported,
                pqc_algos,
                hybrid_algos,
                nonpqc_algos,
            } => {
                if tls {
                    write_xml_result(
                        out,
                        "tls",
                        targetspec,
                        addr,
                        error,
                        *pqc_supported,
                        pqc_algos,
                        hybrid_algos,
                        nonpqc_algos,
                    );
                }
            },
        }
        assert(out@ =~= start + xml_results(results@.take(i + 1), tls));
        i = i + 1;
    }
    assert(results@.take(results@.len() as int) =~= results@);
}

fn write_xml_section(out: &mut String, hosts: &SortedNames, m: &Table<String, Vec<ScanResult>>, tls: bool)
    ensures
        final(out)@ == old(out)@ + xml_host_results(hosts.order(), m@, tls),
{
    let ghost start = out@;
    let ghost order = hosts.order();
    let n = hosts.len();
    let mut i: usize = 0;
    while i < n
        invariant
            i <= n == order.len(),
            order == hosts.order(),
            out@ == start + xml_host_results(order.take(i as int), m@, tls),
        decreases n - i,
    {
        proof {
            assert(order.take(i + 1).drop_last() =~= order.take(i as int));
            assert(order.take(i + 1).last() == order[i as int]);
        }
        let host = hosts.get(i);
        if let Some(rs) = m.get(host) {
            write_xml_results(out, rs, tls);
        }
        assert(out@ =~= start + xml_host_results(order.take(i + 1), m@, tls));
        i = i + 1;
    }
    assert(order.take(n as int) =~= order);
}

/// `ssh` or `tls`.
pub open spec fn scan_type_text(t: ScanType) -> Seq<char> {
    match t {
        ScanType::Ssh => "ssh"@,
        ScanType::Tls => "tls"@,
    }
}

/// The name of a scan type.
pub fn scan_type_name(scan_type: &ScanType) -> (s: &'static str)
    ensures
        s@ == scan_type_text(*scan_type),
{
    match scan_type {
        ScanType::Ssh => "ssh",
        ScanType::Tls => "tls",
    }
}

/// The `scan_window` element of a scan window.
pub open spec fn xml_window(w: ScanWindow) -> Seq<char> {
    "    <scan_window type=\""@ + scan_type_text(w.scan_type) + "\" start_time=\""@ + xml_escaped(
        w.start_time@,
    ) + "\" end_time=\""@ + xml_escaped(w.end_time@) + "\" />\n"@
}

/// The `scan_window` elements of a list of windows.
pub open spec fn xml_windows(ws: Seq<ScanWindow>) -> Seq<char>
    decreases ws.len(),
{
    if ws.len() == 0 {
        Seq::empty()
    } else {
        xml_windows(ws.drop_last()) + xml_window(ws.last())
    }
}

/// A summary line: `<kind total="…" success="…" failed="…" pqc_supported="…" />`.
pub open spec fn xml_summary_line(kind: Seq<char>, total: usize, success: usize, failed: usize, pqc: usize) -> Seq<char> {
    "    <"@ + kind + " total=\""@ + decimal(total as nat) + "\" success=\""@ + decimal(
        success as nat,
    ) + "\" failed=\""@ + decimal(failed as nat) + "\" pqc_supported=\""@ + decimal(pqc as nat)
        + "\" />\n"@
}

/// The whole XML report: declaration, root element, summary counts, scan
/// windows, then the results of each SSH host and each TLS host in ascending
/// host order.
pub open spec fn xml_report(r: &ReportResults) -> Seq<char> {
    "<?xml version=\"1.0\" encoding=\"UTF-8\"?>"@ + "\n<pqcscan_report>\n"@ + "  <summary>\n"@
        + xml_summary_line(
        "ssh"@,
        r.ssh_total_count,
        r.ssh_success_count,
        r.ssh_fail_count,
        r.ssh_pqc_supported_count,
    ) + xml_summary_line(
        "tls"@,
        r.tls_total_count,
        r.tls_success_count,
        r.tls_fail_count,
        r.tls_pqc_supported_count,
    ) + "  </summary>\n"@ + "  <scan_windows>\n"@ + xml_windows(r.scan_windows@)
        + "  </scan_windows>\n"@ + "  <results>\n"@ + xml_host_results(
        r.ssh_sorted_hosts.order(),
        r.ssh_results@,
        false,
    ) + xml_host_results(r.tls_sorted_hosts.order(), r.tls_results@, true) + "  </results>\n"@
        + "</pqcscan_report>\n"@
}

fn write_xml_summary_line(out: &mut String, kind: &str, total: usize, success: usize, failed: usize, pqc: usize)
    ensures
        final(out)@ == old(out)@ + xml_summary_line(kind@, total, success, failed, pqc),
{
    out.append("    <");
    out.append(kind);
    out.append(" total=\"");
    push_numeral(out, total as u64, 10);
    out.append("\" success=\"");
    push_numeral(out, success as u64, 10);
    out.append("\" failed=\"");
    push_numeral(out, failed as u64, 10);
    out.append("\" pqc_supported=\"");
    push_numeral(out, pqc as u64, 10);
    out.append("\" />\n");
    assert(final(out)@ =~= old(out)@ + xml_summary_line(kind@, total, success, failed, pqc));
}

/// Writes the XML report.
pub fn write_xml_report_to_writer(out: &mut String, results: &ReportResults)
    ensures
        final(out)@ == old(out)@ + xml_report(results),
{
    let ghost start = out@;
    out.append("<?xml version=\"1.0\" encoding=\"UTF-8\"?>");
    out.append("\n<pqcscan_report>\n");
    out.append("  <summary>\n");
    write_xml_summary_line(
        out,
        "ssh",
        results.ssh_total_count,
        results.ssh_success_count,
        results.ssh_fail_count,
        results.ssh_pqc_supported_count,
    );
    write_xml_summary_line(
        out,
        "tls",
        results.tls_total_count,
        results.tls_success_count,
        results.tls_fail_count,
        results.tls_pqc_supported_count,
    );
    out.append("  </summary>\n");
    out.append("  <scan_windows>\n");
    let ghost mid = out@;
    let ws = &results.scan_windows;
    let mut i: usize = 0;
    while i < ws.len()
        invariant
            i <= ws@.len(),
            out@ == mid + xml_windows(ws@.take(i as int)),
        decreases ws@.len() - i,
    {
        proof {
            assert(ws@.take(i + 1).drop_last() =~= ws@.take(i as int));
            assert(ws@.take(i + 1).last() == ws@[i as int]);
        }
        let w = &ws[i];
        out.append("    <scan_window type=\"");
        out.append(scan_type_name(&w.scan_type));
        out.append("\" start_time=\"");
        push_xml_escaped(out, w.start_time.as_str());
        out.append("\" end_time=\"");
        push_xml_escaped(out, w.end_time.as_str());
        out.append("\" />\n");
        assert(out@ =~= mid + xml_windows(ws@.take(i + 1)));
        i = i + 1;
    }
    assert(ws@.take(ws@.len() as int) =~= ws@);
    out.append("  </scan_windows>\n");
    out.append("  <results>\n");
    write_xml_section(out, &results.ssh_sorted_hosts, &results.ssh_results, false);
    write_xml_section(out, &results.tls_sorted_hosts, &results.tls_results, true);
    out.append("  </results>\n");
    out.append("</pqcscan_report>\n");
    assert(out@ =~= start + xml_report(results));
}


/// The results and window of one scan file, with the version of the tool
/// that wrote it.
pub struct ScanFile {
    pub version: String,
    pub window: ScanWindow,
    pub results: Vec<ScanResult>,
}

/// Why scan files could not be combined into a report.
pub enum ReportError {
    /// Scan file `index` was written by version `found`, not `expected`.
    VersionMismatch { index: usize, found: String, expected: String },
}

/// The host a result is about.
pub open spec fn result_host(r: ScanResult) -> Seq<char> {
    match r {
        ScanResult::Ssh { targetspec, .. } => targetspec.host@,
        ScanResult::Tls { targetspec, .. } => targetspec.host@,
    }
}

/// The results of the section that are about host `h`, in order.
pub open spec fn host_results(rs: Seq<ScanResult>, tls: bool, h: Seq<char>) -> Seq<ScanResult> {
    rs.filter(|r: ScanResult| in_section(r, tls) && result_host(r) == h)
}

/// The results of the section grouped by host.
pub open spec fn results_by_host(rs: Seq<ScanResult>, tls: bool) -> Map<Seq<char>, Seq<ScanResult>> {
    Map::new(
        |h: Seq<char>| exists|i: int| 0 <= i < rs.len() && in_section(rs[i], tls) && result_host(rs[i]) == h,
        |h: Seq<char>| host_results(rs, tls, h),
    )
}

/// The hosts with results in the section.
pub open spec fn section_hosts(rs: Seq<ScanResult>, tls: bool) -> Set<Seq<char>> {
    results_by_host(rs, tls).dom()
}

/// The number of results in the section, of those without error, and of
/// those that found PQC support.
pub open spec fn section_counts(rs: Seq<ScanResult>, tls: bool) -> (nat, nat, nat)
    decreases rs.len(),
{
    if rs.len() == 0 {
        (0, 0, 0)
    } else {
        let (t, s, p) = section_counts(rs.drop_last(), tls);
        let r = rs.last();
        if in_section(r, tls) {
            let (err, pqc) = match r {
                ScanResult::Ssh { error, pqc_supported, .. } => (error, pqc_supported),
                ScanResult::Tls { error, pqc_supported, .. } => (error, pqc_supported),
            };
            (t + 1, if err is None { s + 1 } else { s }, if pqc { p + 1 } else { p })
        } else {
            (t, s, p)
        }
    }
}

/// The results of all scan files, file after file.
pub open spec fn all_results(scans: Seq<ScanFile>) -> Seq<ScanResult>
    decreases scans.len(),
{
    if scans.len() == 0 {
        Seq::empty()
    } else {
        all_results(scans.drop_last()) + scans.last().results@
    }
}

/// The index of the first scan file not written by `expected`, if any.
pub open spec fn first_mismatch(scans: Seq<ScanFile>, expected: Seq<char>) -> Option<int> {
    if exists|i: int| 0 <= i < scans.len() && scans[i].version@ != expected {
        Some(choose|i: int| 0 <= i < scans.len() && scans[i].version@ != expected && forall|j: int|
            0 <= j < i ==> scans[j].version@ == expected)
    } else {
        None
    }
}

proof fn lemma_results_by_host_push(rs: Seq<ScanResult>, tls: bool, r: ScanResult)
    ensures
        results_by_host(rs.push(r), tls) == if in_section(r, tls) {
            results_by_host(rs, tls).insert(
                result_host(r),
                host_results(rs, tls, result_host(r)).push(r),
            )
        } else {
            results_by_host(rs, tls)
        },
{
    let rs2 = rs.push(r);
    let target = if in_section(r, tls) {
        results_by_host(rs, tls).insert(result_host(r), host_results(rs, tls, result_host(r)).push(r))
    } else {
        results_by_host(rs, tls)
    };
    assert forall|h: Seq<char>| #![auto] results_by_host(rs2, tls).contains_key(h) <==> target.contains_key(h) by {
        if results_by_host(rs2, tls).contains_key(h) {
            let w = choose|i: int| 0 <= i < rs2.len() && in_section(rs2[i], tls) && result_host(rs2[i]) == h;
            if w < rs.len() {
                assert(rs[w] == rs2[w]);
            }
        }
        if results_by_host(rs, tls).contains_key(h) {
            let w = choose|i: int| 0 <= i < rs.len() && in_section(rs[i], tls) && result_host(rs[i]) == h;
            assert(rs2[w] == rs[w]);
        }
        if in_section(r, tls) && h == result_host(r) {
            assert(rs2[rs.len() as int] == r);
        }
    }
    assert forall|h: Seq<char>| #![auto] results_by_host(rs2, tls).contains_key(h) implies results_by_host(
        rs2,
        tls,
    )[h] == target[h] by {
        let pred = |x: ScanResult| in_section(x, tls) && result_host(x) == h;
        rs.lemma_filter_push(r, pred);
    }
    assert(results_by_host(rs2, tls) =~= target);
}

fn add_result(m: &mut Table<String, Vec<ScanResult>>, hosts: &mut SortedNames, r: ScanResult, tls: bool)
    requires
        in_section(r, tls),
    ensures
        final(m)@ == old(m)@.insert(
            result_host(r),
            (if old(m)@.contains_key(result_host(r)) {
                old(m)@[result_host(r)]
            } else {
                Seq::empty()
            }).push(r),
        ),
        final(hosts)@ == old(hosts)@.insert(result_host(r)),
{
    let host = match &r {
        ScanResult::Ssh { targetspec, .. } => targetspec.host.clone(),
        ScanResult::Tls { targetspec, .. } => targetspec.host.clone(),
    };
    hosts.insert(host.clone());
    let prev = m.replace(host.clone(), Vec::new());
    let mut list = match prev {
        Some(l) => l,
        None => Vec::new(),
    };
    list.push(r);
    m.put(host, list);
}

/// Combines scan files into a report: the results of each protocol grouped
/// by host in file order, the hosts, the counts, and one window per file.
/// Fails on the first file written by another version than `expected_version`.
pub fn create_report(scans: Vec<ScanFile>, expected_version: &str) -> (r: Result<ReportResults, ReportError>)
    requires
        all_results(scans@).len() <= usize::MAX,
    ensures
        match first_mismatch(scans@, expected_version@) {
            Some(i) => r matches Err(ReportError::VersionMismatch { index, found, expected }) && index
                == i && found@ == scans@[i].version@ && expected@ == expected_version@,
            None => r matches Ok(rep) && {
                let rs = all_results(scans@);
                let (st, ss, sp) = section_counts(rs, false);
                let (tt, ts, tp) = section_counts(rs, true);
                &&& rep.ssh_results@ == results_by_host(rs, false)
                &&& rep.ssh_sorted_hosts@ == section_hosts(rs, false)
                &&& rep.tls_results@ == results_by_host(rs, true)
                &&& rep.tls_sorted_hosts@ == section_hosts(rs, true)
                &&& rep.ssh_total_count == st && rep.ssh_success_count == ss
                &&& rep.ssh_pqc_supported_count == sp && rep.ssh_fail_count == st - ss
                &&& rep.tls_total_count == tt && rep.tls_success_count == ts
                &&& rep.tls_pqc_supported_count == tp && rep.tls_fail_count == tt - ts
                &&& rep.scan_windows@.len() == scans@.len()
                &&& forall|i: int| 0 <= i < scans@.len() ==> #[trigger] rep.scan_windows@[i]
                    == scans@[i].window
            },
        },
{
    let ghost all = scans@;
    let expected = expected_version.to_owned();
    let mut i: usize = 0;
    while i < scans.len()
        invariant
            i <= scans@.len(),
            all == scans@,
            expected@ == expected_version@,
            forall|j: int| 0 <= j < i ==> scans@[j].version@ == expected_version@,
        decreases scans@.len() - i,
    {
        if scans[i].version != expected {
            assert(exists|j: int| 0 <= j < all.len() && all[j].version@ != expected_version@);
            let ghost w = choose|j: int| 0 <= j < all.len() && all[j].version@ != expected_version@
                && forall|k: int| 0 <= k < j ==> all[k].version@ == expected_version@;
            assert(w == i) by {
                if w < i {
                } else if w > i {
                }
            }
            return Err(ReportError::VersionMismatch {
                index: i,
                found: scans[i].version.clone(),
                expected: expected,
            });
        }
        i = i + 1;
    }
    assert(first_mismatch(all, expected_version@) is None);
    let mut ssh_map: Table<String, Vec<ScanResult>> = Table::new();
    let mut tls_map: Table<String, Vec<ScanResult>> = Table::new();
    let mut ssh_hosts = SortedNames::new();
    let mut tls_hosts = SortedNames::new();
    let mut ssh_total: usize = 0;
    let mut ssh_success: usize = 0;
    let mut ssh_pqc: usize = 0;
    let mut tls_total: usize = 0;
    let mut tls_success: usize = 0;
    let mut tls_pqc: usize = 0;
    let mut scan_windows: Vec<ScanWindow> = Vec::new();
    let ghost mut done: Seq<ScanResult> = Seq::empty();
    proof {
        assert(all.take(0) =~= Seq::<ScanFile>::empty());
        assert(results_by_host(done, false) =~= Map::<Seq<char>, Seq<ScanResult>>::empty());
        assert(results_by_host(done, true) =~= Map::<Seq<char>, Seq<ScanResult>>::empty());
        assert(section_hosts(done, false) =~= Set::<Seq<char>>::empty());
        assert(section_hosts(done, true) =~= Set::<Seq<char>>::empty());
        assert(all.skip(0) =~= all);
    }
    let mut k: usize = 0;
    let mut scans = scans;
    while scans.len() > 0
        invariant
            k + scans@.len() == all.len(),
            all.len() <= usize::MAX,
            scans@ == all.skip(k as int),
            all_results(all).len() <= usize::MAX,
            done == all_results(all.take(k as int)),
            ssh_map@ == results_by_host(done, false),
            tls_map@ == results_by_host(done, true),
            ssh_hosts@ == section_hosts(done, false),
            tls_hosts@ == section_hosts(done, true),
            section_counts(done, false) == (ssh_total as nat, ssh_success as nat, ssh_pqc as nat),
            section_counts(done, true) == (tls_total as nat, tls_success as nat, tls_pqc as nat),
            scan_windows@.len() == k,
            forall|j: int| 0 <= j < k ==> #[trigger] scan_windows@[j] == all[j].window,
        decreases scans@.len(),
    {
        let scan = scans.remove(0);
        proof {
            assert(all.skip(k as int)[0] == scan);
            assert(all[k as int] == scan);
            assert(scans@ =~= all.skip(k + 1));
            assert(all.take(k + 1).drop_last() =~= all.take(k as int));
            lemma_all_results_prefix(all, k + 1);
        }
        let ghost done0 = done;
        let ghost rs0 = scan.results@;
        let ScanFile { version: _, window, results } = scan;
        scan_windows.push(window);
        let mut results = results;
        let ghost mut taken: int = 0;
        assert(rs0.take(0) =~= Seq::<ScanResult>::empty());
        assert(done0 + rs0.take(0) =~= done0);
        assert(rs0.skip(0) =~= rs0);
        while results.len() > 0
            invariant
                0 <= taken <= rs0.len(),
                results@ == rs0.skip(taken),
                done == done0 + rs0.take(taken),
                done0.len() + rs0.len() <= usize::MAX,
                ssh_map@ == results_by_host(done, false),
                tls_map@ == results_by_host(done, true),
                ssh_hosts@ == section_hosts(done, false),
                tls_hosts@ == section_hosts(done, true),
                section_counts(done, false) == (ssh_total as nat, ssh_success as nat, ssh_pqc as nat),
                section_counts(done, true) == (tls_total as nat, tls_success as nat, tls_pqc as nat),
            decreases results@.len(),
        {
            let r = results.remove(0);
            let ghost rv = r;
            proof {
                assert(rs0.skip(taken)[0] == r);
                assert(rs0[taken] == r);
                assert(results@ =~= rs0.skip(taken + 1));
                assert(rs0.take(taken + 1) =~= rs0.take(taken).push(r));
                law_section_counts_bounded(done, false);
                law_section_counts_bounded(done, true);
                lemma_results_by_host_push(done, false, r);
                lemma_results_by_host_push(done, true, r);
            }
            let (tls, no_error, pqc) = match &r {
                ScanResult::Ssh { error, pqc_supported, .. } => (false, error.is_none(), *pqc_supported),
                ScanResult::Tls { error, pqc_supported, .. } => (true, error.is_none(), *pqc_supported),
            };
            if tls {
                tls_total = tls_total + 1;
                if no_error {
                    tls_success = tls_success + 1;
                }
                if pqc {
                    tls_pqc = tls_pqc + 1;
                }
                add_result(&mut tls_map, &mut tls_hosts, r, true);
            } else {
                ssh_total = ssh_total + 1;
                if no_error {
                    ssh_success = ssh_success + 1;
                }
                if pqc {
                    ssh_pqc = ssh_pqc + 1;
                }
                add_result(&mut ssh_map, &mut ssh_hosts, r, false);
            }
            proof {
                let d2 = done.push(rv);
                assert(d2.drop_last() =~= done);
                assert(d2.last() == rv);
                if in_section(rv, true) {
                    assert(host_results(done, true, result_host(rv)) == if results_by_host(done, true).contains_key(result_host(rv)) {
                        results_by_host(done, true)[result_host(rv)]
                    } else {
                        Seq::<ScanResult>::empty()
                    }) by {
                        if !results_by_host(done, true).contains_key(result_host(rv)) {
                            lemma_host_results_empty(done, true, result_host(rv));
                        }
                    }
                    assert(section_hosts(d2, true) =~= section_hosts(done, true).insert(result_host(rv)));
                    assert(section_hosts(d2, false) =~= section_hosts(done, false));
                } else {
                    assert(host_results(done, false, result_host(rv)) == if results_by_host(done, false).contains_key(result_host(rv)) {
                        results_by_host(done, false)[result_host(rv)]
                    } else {
                        Seq::<ScanResult>::empty()
                    }) by {
                        if !results_by_host(done, false).contains_key(result_host(rv)) {
                            lemma_host_results_empty(done, false, result_host(rv));
                        }
                    }
                    assert(section_hosts(d2, false) =~= section_hosts(done, false).insert(result_host(rv)));
                    assert(section_hosts(d2, true) =~= section_hosts(done, true));
                }
                done = d2;
                taken = taken + 1;
            }
        }
        proof {
            assert(rs0.take(taken) =~= rs0);
            assert(done == all_results(all.take(k + 1)));
        }
        k = k + 1;
    }
    proof {
        assert(all.take(k as int) =~= all);
        law_section_counts_bounded(done, false);
        law_section_counts_bounded(done, true);
    }
    Ok(ReportResults {
        tls_results: tls_map,
        tls_sorted_hosts: tls_hosts,
        tls_success_count: tls_success,
        tls_fail_count: tls_total - tls_success,
        tls_pqc_supported_count: tls_pqc,
        tls_total_count: tls_total,
        ssh_results: ssh_map,
        ssh_sorted_hosts: ssh_hosts,
        ssh_success_count: ssh_success,
        ssh_fail_count: ssh_total - ssh_success,
        ssh_pqc_supported_count: ssh_pqc,
        ssh_total_count: ssh_total,
        scan_windows,
    })
}

proof fn lemma_all_results_prefix(s: Seq<ScanFile>, k: int)
    requires
        0 <= k <= s.len(),
    ensures
        all_results(s.take(k)).len() <= all_results(s).len(),
    decreases s.len(),
{
    if k < s.len() {
        assert(s.drop_last().take(k) =~= s.take(k));
        lemma_all_results_prefix(s.drop_last(), k);
    } else {
        assert(s.take(k) =~= s);
    }
}

/// A section counts no more results than there are, and no more successful
/// or PQC-supporting results than it counts, so its failed count (the total
/// less the successful) is never negative.
pub proof fn law_section_counts_bounded(rs: Seq<ScanResult>, tls: bool)
    ensures
        section_counts(rs, tls).0 <= rs.len(),
        section_counts(rs, tls).1 <= section_counts(rs, tls).0,
        section_counts(rs, tls).2 <= section_counts(rs, tls).0,
    decreases rs.len(),
{
    if rs.len() > 0 {
        law_section_counts_bounded(rs.drop_last(), tls);
    }
}

proof fn lemma_host_results_empty(rs: Seq<ScanResult>, tls: bool, h: Seq<char>)
    requires
        !results_by_host(rs, tls).contains_key(h),
    ensures
        host_results(rs, tls, h) == Seq::<ScanResult>::empty(),
    decreases rs.len(),
{
    reveal_with_fuel(Seq::filter, 1);
    if rs.len() > 0 {
        let prev = rs.drop_last();
        assert(!results_by_host(prev, tls).contains_key(h)) by {
            if results_by_host(prev, tls).contains_key(h) {
                let w = choose|i: int| 0 <= i < prev.len() && in_section(prev[i], tls) && result_host(prev[i]) == h;
                assert(rs[w] == prev[w]);
            }
        }
        lemma_host_results_empty(prev, tls, h);
        assert(!(in_section(rs.last(), tls) && result_host(rs.last()) == h)) by {
            if in_section(rs.last(), tls) && result_host(rs.last()) == h {
                assert(rs[rs.len() - 1] == rs.last());
            }
        }
    }
}

} // verus!
