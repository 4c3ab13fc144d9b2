//! The human-readable lines of the command-line reports: one line per
//! diagnostic, `path:line:column: severity[code]: message`, and a closing
//! summary line.

use vstd::prelude::*;
use vstd::string::*;
use crate::check::{CheckDiagnostic, CheckReport};
use crate::report::ValidationReport;
use crate::strings::{decimal, decimal_text};

verus! {

/// `path:line:column: severity[code]: message`, with the 1-based line and
/// column where the diagnostic starts.
pub open spec fn diagnostic_line_text(path: Seq<char>, d: CheckDiagnostic) -> Seq<char> {
    path + ":"@ + decimal(d.span.start_line as nat) + ":"@ + decimal(d.span.start_column as nat) + ": "@
        + d.severity@ + "["@ + d.code@ + "]: "@ + d.message@
}

/// "file" for one file, "files" otherwise.
pub open spec fn file_noun(count: nat) -> Seq<char> {
    if count == 1 { "file"@ } else { "files"@ }
}

/// The closing line of a syntax check.
pub open spec fn check_summary_text(count: nat, valid: bool) -> Seq<char> {
    "checked "@ + decimal(count) + " SysML "@ + file_noun(count) + if valid {
        ": syntax valid"@
    } else {
        ": syntax errors found"@
    }
}

/// The closing line of a profile validation.
pub open spec fn validation_summary_text(count: nat, profile: Seq<char>, valid: bool) -> Seq<char> {
    "validated "@ + decimal(count) + " SysML "@ + file_noun(count) + ": "@ + profile + if valid {
        Seq::empty()
    } else {
        " errors found"@
    }
}

fn decimal_of_usize(n: usize) -> (text: String)
    ensures
        text@ == decimal(n as nat),
{
    decimal_text(n as u64)
}

/// The human-readable line of one diagnostic of the file at `path`.
pub fn diagnostic_line(path: &str, d: &CheckDiagnostic) -> (line: String)
    ensures
        line@ == diagnostic_line_text(path@, *d),
{
    let mut line = String::from_str(path);
    line.append(":");
    let l = decimal_of_usize(d.span.start_line);
    line.append(l.as_str());
    line.append(":");
    let c = decimal_of_usize(d.span.start_column);
    line.append(c.as_str());
    line.append(": ");
    line.append(d.severity.as_str());
    line.append("[");
    line.append(d.code.as_str());
    line.append("]: ");
    line.append(d.message.as_str());
    line
}

fn noun_for(count: usize) -> (noun: &'static str)
    ensures
        noun@ == file_noun(count as nat),
{
    if count == 1 {
        "file"
    } else {
        "files"
    }
}

/// The closing line of a syntax-check report.
pub fn check_summary_line(report: &CheckReport) -> (line: String)
    ensures
        line@ == check_summary_text(report.files@.len(), report.valid),
{
    let count = report.files.len();
    let mut line = String::from_str("checked ");
    let digits = decimal_of_usize(count);
    line.append(digits.as_str());
    line.append(" SysML ");
    line.append(noun_for(count));
    if report.valid {
        line.append(": syntax valid");
    } else {
        line.append(": syntax errors found");
    }
    line
}

/// The closing line of a validation report.
pub fn validation_summary_line(report: &ValidationReport) -> (line: String)
    ensures
        line@ == validation_summary_text(report.files@.len(), report.profile.id@, report.valid),
{
    let count = report.files.len();
    let mut line = String::from_str("validated ");
    let digits = decimal_of_usize(count);
    line.append(digits.as_str());
    line.append(" SysML ");
    line.append(noun_for(count));
    line.append(": ");
    line.append(report.profile.id.as_str());
    if !report.valid {
        line.append(" errors found");
    } else {
        proof {
            assert(line@ + Seq::<char>::empty() =~= line@);
        }
    }
    line
}

} // verus!
