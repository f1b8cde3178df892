//! Choices made from the scanner's command line: the report format named,
//! and which lines of a target list name targets.

use vstd::prelude::*;
use vstd::std_specs::convert::FromSpecImpl;
use crate::text::strings_view;

verus! {

/// The output formats of a report.
#[derive(Clone, Copy, Debug, PartialEq, Eq, Structural)]
pub enum ReportFormat {
    Html,
    Csv,
    Json,
    Xml,
}

/// The format a name selects; any name but `csv`, `json` and `xml` selects
/// HTML.
pub open spec fn report_format_named(name: Seq<char>) -> ReportFormat {
    if name == "csv"@ {
        ReportFormat::Csv
    } else if name == "json"@ {
        ReportFormat::Json
    } else if name == "xml"@ {
        ReportFormat::Xml
    } else {
        ReportFormat::Html
    }
}

impl<'a> From<&'a str> for ReportFormat {
    fn from(value: &'a str) -> (f: Self) {
        let v = value.to_owned();
        if v == "csv".to_owned() {
            ReportFormat::Csv
        } else if v == "json".to_owned() {
            ReportFormat::Json
        } else if v == "xml".to_owned() {
            ReportFormat::Xml
        } else {
            ReportFormat::Html
        }
    }
}

impl<'a> FromSpecImpl<&'a str> for ReportFormat {
    open spec fn obeys_from_spec() -> bool {
        true
    }

    open spec fn from_spec(value: &'a str) -> Self {
        report_format_named(value@)
    }
}

/// A line of a target list that names a target: not empty and not a
/// comment starting with `#`.
pub open spec fn is_target_line(line: Seq<char>) -> bool {
    line.len() > 0 && line[0] != '#'
}

/// The target lines of a list, each with its line number counted from 1
/// over all lines.
pub open spec fn numbered_target_lines(lines: Seq<Seq<char>>) -> Seq<(int, Seq<char>)>
    decreases lines.len(),
{
    if lines.len() == 0 {
        Seq::empty()
    } else {
        let prev = numbered_target_lines(lines.drop_last());
        if is_target_line(lines.last()) {
            prev.push((lines.len() as int, lines.last()))
        } else {
            prev
        }
    }
}

/// The views of numbered lines.
pub open spec fn numbered_view(v: Seq<(usize, String)>) -> Seq<(int, Seq<char>)> {
    v.map_values(|e: (usize, String)| (e.0 as int, e.1@))
}

/// The lines of a target list that name targets, with their line numbers.
pub fn target_lines(lines: &Vec<String>) -> (r: Vec<(usize, String)>)
    requires
        lines@.len() < usize::MAX,
    ensures
        numbered_view(r@) == numbered_target_lines(strings_view(lines@)),
{
    let ghost ls = strings_view(lines@);
    let mut r: Vec<(usize, String)> = Vec::new();
    let mut i: usize = 0;
    assert(numbered_view(r@) =~= numbered_target_lines(ls.take(0)));
    while i < lines.len()
        invariant
            ls == strings_view(lines@),
            lines@.len() < usize::MAX,
            i <= lines@.len(),
            numbered_view(r@) == numbered_target_lines(ls.take(i as int)),
        decreases lines@.len() - i,
    {
        let line = &lines[i];
        proof {
            assert(ls.take(i + 1).drop_last() =~= ls.take(i as int));
            assert(ls.take(i + 1).last() == line@);
        }
        let line_no = i + 1;
        if line.as_str().unicode_len() > 0 && line.as_str().get_char(0) != '#' {
            r.push((line_no, line.clone()));
            assert(numbered_view(r@) =~= numbered_view(r@.drop_last()).push((line_no as int, line@)));
        } else {
            proof {
                if line@.len() > 0 {
                    assert(line@[0] == '#');
                }
            }
        }
        i = i + 1;
    }
    assert(ls.take(lines@.len() as int) =~= ls);
    r
}

} // verus!
