//! The validation report: the profile's identity, semantic findings merged
//! into the syntax report of each file, and validation of whole sources.

use vstd::prelude::*;
use crate::check::{
    all_positioned_errors, all_valid, check_sources, positioned_error, diagnostic_views, normalized, reports_parse, all_syntax_coded, CheckDiagnostic, CheckError,
    lemma_syntax_report_determined,
    CheckFileReport, CheckReport, CheckSpan, DiagnosticView, TOOL_VERSION,
};
use crate::order::{lemma_text_less_irreflexive, lemma_text_less_total, lemma_text_less_transitive, text_before, text_less};
use crate::lowering::lowered_from;
use crate::project::{code_text, Code, Project};
use crate::strings::{owned, same_text};
use crate::validate::{
    findings_sorted, has_finding, import_check, placed_in_objective, requirement_rules_hold, satisfaction_checked, assertion_checked, spans_ok, validate_project,
    verification_rules_hold, SemanticDiagnostic,
};

verus! {

/// Version of the machine-readable `sysml validate` report.
pub const VALIDATION_REPORT_SCHEMA_VERSION: u32 = 1;

/// The bounded SysML 2.0 requirements structure profile implemented here.
pub const REQUIREMENTS_STRUCTURE_PROFILE_ID: &'static str = "sysml-2.0-requirements-structure-v1";

/// The SysML release commit the requirements structure profile was taken from.
pub const REQUIREMENTS_STRUCTURE_SOURCE_COMMIT: &'static str = "9baca5908ca28b53da085de69336fde48420ea8f";

/// Typed selector for the semantic profile applied by validation. Callers
/// choose a profile explicitly; later releases may add profiles.
#[non_exhaustive]
#[derive(Debug, Clone, Copy, PartialEq, Eq, Structural)]
pub enum ValidationProfileId {
    RequirementsStructureV1,
}

/// Standards identity attached to every validation report.
#[derive(Debug, Clone, PartialEq, Eq)]
pub struct ValidationProfile {
    pub id: String,
    pub language: String,
    pub language_version: String,
    pub source_release: String,
    pub source_commit: String,
    pub metamodel_version: String,
}

/// The identity of the requirements structure profile.
pub open spec fn is_requirements_structure(p: ValidationProfile) -> bool {
    &&& p.id@ == REQUIREMENTS_STRUCTURE_PROFILE_ID@
    &&& p.language@ == "SysML"@
    &&& p.language_version@ == "2.0"@
    &&& p.source_release@ == "2026-04"@
    &&& p.source_commit@ == REQUIREMENTS_STRUCTURE_SOURCE_COMMIT@
    &&& p.metamodel_version@ == "20250201"@
}

impl ValidationProfileId {
    /// The stable identifier of the profile.
    pub fn as_str(self) -> (s: &'static str)
        ensures
            s@ == REQUIREMENTS_STRUCTURE_PROFILE_ID@,
    {
        match self {
            ValidationProfileId::RequirementsStructureV1 => REQUIREMENTS_STRUCTURE_PROFILE_ID,
        }
    }

    /// The standards identity of the profile.
    pub fn metadata(self) -> (p: ValidationProfile)
        ensures
            is_requirements_structure(p),
    {
        match self {
            ValidationProfileId::RequirementsStructureV1 => ValidationProfile::requirements_structure(),
        }
    }
}

impl ValidationProfile {
    /// The identity of the requirements structure profile.
    pub fn requirements_structure() -> (p: ValidationProfile)
        ensures
            is_requirements_structure(p),
    {
        ValidationProfile {
            id: owned(REQUIREMENTS_STRUCTURE_PROFILE_ID),
            language: owned("SysML"),
            language_version: owned("2.0"),
            source_release: owned("2026-04"),
            source_commit: owned(REQUIREMENTS_STRUCTURE_SOURCE_COMMIT),
            metamodel_version: owned("20250201"),
        }
    }
}

/// Deterministic syntax and semantic result for an explicit validation profile.
#[derive(Debug, Clone, PartialEq, Eq)]
pub struct ValidationReport {
    pub schema_version: u32,
    pub tool_version: String,
    pub profile: ValidationProfile,
    pub valid: bool,
    pub files: Vec<CheckFileReport>,
}

/// A semantic finding as a report diagnostic: an error with the finding's
/// code, message and span.
pub open spec fn reported(d: SemanticDiagnostic) -> DiagnosticView {
    (
        "error"@,
        code_text(d.code),
        d.message@,
        CheckSpan {
            start_line: d.span.start.line,
            start_column: d.span.start.column,
            end_line: d.span.end.line,
            end_column: d.span.end.column,
        },
    )
}

/// A semantic finding as a report diagnostic.
pub fn report_diagnostic(d: &SemanticDiagnostic) -> (r: CheckDiagnostic)
    ensures
        r.view_tuple() == reported(*d),
{
    CheckDiagnostic {
        severity: owned("error"),
        code: owned(d.code.as_str()),
        message: d.message.clone(),
        span: CheckSpan {
            start_line: d.span.start.line,
            start_column: d.span.start.column,
            end_line: d.span.end.line,
            end_column: d.span.end.column,
        },
    }
}

/// The order of diagnostics within a file: by start line, start column, code
/// and message.
pub open spec fn reported_before(x: DiagnosticView, y: DiagnosticView) -> bool {
    ||| x.3.start_line < y.3.start_line
    ||| x.3.start_line == y.3.start_line && x.3.start_column < y.3.start_column
    ||| x.3.start_line == y.3.start_line && x.3.start_column == y.3.start_column && text_less(x.1, y.1)
    ||| x.3.start_line == y.3.start_line && x.3.start_column == y.3.start_column && x.1 == y.1 && text_less(x.2, y.2)
}

/// No diagnostic comes after a later one.
pub open spec fn reported_sorted(vs: Seq<DiagnosticView>) -> bool {
    forall|i: int, j: int| 0 <= i < j < vs.len() ==> !reported_before(#[trigger] vs[j], #[trigger] vs[i])
}

pub proof fn lemma_reported_before_transitive(x: DiagnosticView, y: DiagnosticView, z: DiagnosticView)
    requires
        reported_before(x, y),
        reported_before(y, z),
    ensures
        reported_before(x, z),
{
    if text_less(x.1, y.1) && text_less(y.1, z.1) {
        lemma_text_less_transitive(x.1, y.1, z.1);
    }
    if text_less(x.2, y.2) && text_less(y.2, z.2) {
        lemma_text_less_transitive(x.2, y.2, z.2);
    }
}

pub proof fn lemma_reported_before_irreflexive(x: DiagnosticView)
    ensures
        !reported_before(x, x),
{
    lemma_text_less_irreflexive(x.1);
    lemma_text_less_irreflexive(x.2);
}

/// Whether diagnostic `x` is reported before diagnostic `y`.
pub fn is_reported_before(x: &CheckDiagnostic, y: &CheckDiagnostic) -> (r: bool)
    ensures
        r == reported_before(x.view_tuple(), y.view_tuple()),
{
    if x.span.start_line != y.span.start_line {
        return x.span.start_line < y.span.start_line;
    }
    if x.span.start_column != y.span.start_column {
        return x.span.start_column < y.span.start_column;
    }
    if text_before(x.code.as_str(), y.code.as_str()) {
        return true;
    }
    if !same_text(x.code.as_str(), y.code.as_str()) {
        return false;
    }
    text_before(x.message.as_str(), y.message.as_str())
}

proof fn lemma_views_remove_first(ds: Seq<CheckDiagnostic>)
    requires
        ds.len() > 0,
    ensures
        diagnostic_views(ds.remove(0)) == diagnostic_views(ds).remove(0),
{
    assert(diagnostic_views(ds.remove(0)) =~= diagnostic_views(ds).remove(0));
}

proof fn lemma_views_insert(ds: Seq<CheckDiagnostic>, i: int, d: CheckDiagnostic)
    requires
        0 <= i <= ds.len(),
    ensures
        diagnostic_views(ds.insert(i, d)) == diagnostic_views(ds).insert(i, d.view_tuple()),
{
    assert(diagnostic_views(ds.insert(i, d)) =~= diagnostic_views(ds).insert(i, d.view_tuple()));
}

/// Neither diagnostic comes before the other.
pub open spec fn same_reported_rank(x: DiagnosticView, y: DiagnosticView) -> bool {
    !reported_before(x, y) && !reported_before(y, x)
}

/// Diagnostics of the same rank come before the same diagnostics.
pub proof fn lemma_same_reported_rank_before(x: DiagnosticView, y: DiagnosticView, z: DiagnosticView)
    requires
        same_reported_rank(x, y),
    ensures
        reported_before(x, z) == reported_before(y, z),
{
    if x.1 != y.1 {
        lemma_text_less_total(x.1, y.1);
    }
    if x.2 != y.2 {
        lemma_text_less_total(x.2, y.2);
    }
}

/// `r` holds the diagnostics of `orig` rearranged by `idx`: diagnostic `k` of
/// `r` is diagnostic `idx[k]` of `orig`, no index comes twice, and
/// diagnostics of the same rank keep the order they had.
pub open spec fn stable_views(orig: Seq<DiagnosticView>, r: Seq<DiagnosticView>, idx: Seq<int>) -> bool {
    &&& idx.len() == r.len()
    &&& forall|k: int| 0 <= k < r.len() ==> 0 <= #[trigger] idx[k] < orig.len() && r[k] == orig[idx[k]]
    &&& forall|a: int, b: int| 0 <= a < b < r.len() ==> #[trigger] idx[a] != #[trigger] idx[b]
    &&& forall|a: int, b: int| 0 <= a < b < r.len() && same_reported_rank(#[trigger] r[a], #[trigger] r[b]) ==> idx[a] < idx[b]
}

/// Sorts diagnostics into report order, keeping diagnostics of equal rank in
/// the order they came.
pub fn sort_reported(diagnostics: Vec<CheckDiagnostic>) -> (r: Vec<CheckDiagnostic>)
    ensures
        diagnostic_views(r@).to_multiset() == diagnostic_views(diagnostics@).to_multiset(),
        reported_sorted(diagnostic_views(r@)),
        r@.len() == diagnostics@.len(),
        exists|idx: Seq<int>| stable_views(diagnostic_views(diagnostics@), diagnostic_views(r@), idx),
{
    broadcast use vstd::seq_lib::group_to_multiset_ensures;
    broadcast use vstd::multiset::group_multiset_axioms;
    let ghost original = diagnostic_views(diagnostics@);
    let mut rest = diagnostics;
    let mut sorted: Vec<CheckDiagnostic> = Vec::new();
    assert(diagnostic_views(sorted@) =~= Seq::<DiagnosticView>::empty());
    assert(diagnostic_views(sorted@).to_multiset() =~= vstd::multiset::Multiset::empty());
    assert(diagnostic_views(rest@) == original);
    let ghost mut idx: Seq<int> = Seq::empty();
    while rest.len() > 0
        invariant
            diagnostic_views(sorted@).to_multiset().add(diagnostic_views(rest@).to_multiset()) == original.to_multiset(),
            reported_sorted(diagnostic_views(sorted@)),
            original == diagnostic_views(diagnostics@),
            sorted@.len() + rest@.len() == original.len(),
            diagnostic_views(rest@) == original.skip(sorted@.len() as int),
            stable_views(original, diagnostic_views(sorted@), idx),
            forall|k: int| 0 <= k < idx.len() ==> #[trigger] idx[k] < sorted@.len(),
        decreases rest@.len(),
    {
        let ghost rest_before = rest@;
        let ghost m = sorted@.len() as int;
        let d = rest.remove(0);
        let ghost dv = d.view_tuple();
        let mut pos: usize = 0;
        while pos < sorted.len()
            invariant
                dv == d.view_tuple(),
                pos <= sorted@.len(),
                forall|k: int| 0 <= k < pos ==> !reported_before(dv, #[trigger] sorted@[k].view_tuple()),
            ensures
                pos <= sorted@.len(),
                forall|k: int| 0 <= k < pos ==> !reported_before(dv, #[trigger] sorted@[k].view_tuple()),
                pos < sorted@.len() ==> reported_before(dv, sorted@[pos as int].view_tuple()),
            decreases sorted@.len() - pos,
        {
            if is_reported_before(&d, &sorted[pos]) {
                break;
            }
            pos = pos + 1;
        }
        let ghost s = sorted@;
        let ghost sv = diagnostic_views(s);
        sorted.insert(pos, d);
        proof {
            lemma_views_insert(s, pos as int, d);
            lemma_views_remove_first(rest_before);
            let nv = diagnostic_views(sorted@);
            assert(nv == sv.insert(pos as int, dv));
            assert forall|i: int, j: int| 0 <= i < j < nv.len() implies !reported_before(#[trigger] nv[j],
                #[trigger] nv[i]) by {
                if i == pos {
                    if reported_before(nv[j], dv) {
                        lemma_reported_before_transitive(nv[j], dv, sv[pos as int]);
                        if j - 1 == pos {
                            lemma_reported_before_irreflexive(sv[pos as int]);
                        } else {
                            assert(nv[j] == sv[j - 1]);
                        }
                    }
                } else if j == pos {
                    assert(nv[i] == sv[i]);
                    assert(sv[i] == s[i].view_tuple());
                } else {
                    let si = if i < pos { i } else { i - 1 };
                    let sj = if j < pos { j } else { j - 1 };
                    assert(nv[i] == sv[si]);
                    assert(nv[j] == sv[sj]);
                }
            }
            let rv = diagnostic_views(rest_before);
            assert(rv[0] == dv);
            vstd::seq_lib::to_multiset_contains(rv, dv);
            vstd::seq_lib::to_multiset_remove(rv, 0);
            vstd::seq_lib::to_multiset_insert(sv, pos as int, dv);
            assert(rv.contains(dv));
            assert(diagnostic_views(sorted@).to_multiset().add(diagnostic_views(rest@).to_multiset())
                =~= sv.to_multiset().add(rv.to_multiset()));
            let old_idx = idx;
            assert(dv == original[m]) by { assert(rv[0] == original[m]); }
            idx = old_idx.insert(pos as int, m);
            assert(diagnostic_views(rest@) =~= original.skip(sorted@.len() as int));
            assert forall|k: int| 0 <= k < nv.len() implies 0 <= #[trigger] idx[k] < original.len()
                && nv[k] == original[idx[k]] by {
                if k < pos {
                    assert(idx[k] == old_idx[k] && nv[k] == sv[k]);
                } else if k > pos {
                    assert(idx[k] == old_idx[k - 1] && nv[k] == sv[k - 1]);
                }
            }
            assert forall|k: int| 0 <= k < idx.len() implies #[trigger] idx[k] < sorted@.len() by {
                if k < pos {
                    assert(idx[k] == old_idx[k]);
                } else if k > pos {
                    assert(idx[k] == old_idx[k - 1]);
                }
            }
            assert forall|a: int, b: int| 0 <= a < b < nv.len() implies #[trigger] idx[a] != #[trigger] idx[b] by {
                let oa = if a < pos { a } else { a - 1 };
                let ob = if b < pos { b } else { b - 1 };
                if a != pos && b != pos {
                    assert(idx[a] == old_idx[oa] && idx[b] == old_idx[ob]);
                } else if a == pos {
                    assert(idx[b] == old_idx[ob]);
                } else {
                    assert(idx[a] == old_idx[oa]);
                }
            }
            assert forall|a: int, b: int| 0 <= a < b < nv.len() && same_reported_rank(#[trigger] nv[a],
                #[trigger] nv[b]) implies idx[a] < idx[b] by {
                let oa = if a < pos { a } else { a - 1 };
                let ob = if b < pos { b } else { b - 1 };
                if a != pos && b != pos {
                    assert(idx[a] == old_idx[oa] && idx[b] == old_idx[ob]);
                    assert(nv[a] == sv[oa] && nv[b] == sv[ob]);
                } else if b == pos {
                    assert(idx[a] == old_idx[oa]);
                } else {
                    // the new diagnostic comes before sv[pos], so no later one shares its rank
                    assert(nv[b] == sv[ob]);
                    lemma_same_reported_rank_before(dv, sv[ob], sv[pos as int]);
                    if ob == pos {
                        lemma_reported_before_irreflexive(sv[pos as int]);
                    }
                    assert(false);
                }
            }
            assert(stable_views(original, nv, idx));
        }
    }
    assert(diagnostic_views(rest@) =~= Seq::<DiagnosticView>::empty());
    assert(diagnostic_views(rest@).to_multiset() =~= vstd::multiset::Multiset::empty());
    assert(diagnostic_views(sorted@).to_multiset().add(diagnostic_views(rest@).to_multiset())
        =~= diagnostic_views(sorted@).to_multiset());
    sorted
}


/// The report diagnostics of the findings in `ds` whose source has path
/// `path`, in order.
pub open spec fn findings_at_path(p: &Project, ds: Seq<SemanticDiagnostic>, path: Seq<char>) -> Seq<DiagnosticView>
    decreases ds.len(),
{
    if ds.len() == 0 {
        Seq::empty()
    } else {
        findings_at_path(p, ds.drop_last(), path) + if p.sources@[ds.last().span.source as int].path@ == path {
            seq![reported(ds.last())]
        } else {
            Seq::empty()
        }
    }
}

/// No file before file `i` has its path.
pub open spec fn first_with_path(files: Seq<CheckFileReport>, i: int) -> bool {
    forall|j: int| 0 <= j < i ==> (#[trigger] files[j]).path@ != files[i].path@
}

/// The findings merged into file `i`: those at its path, for the first file
/// with that path only.
pub open spec fn additions_for(p: &Project, ds: Seq<SemanticDiagnostic>, files: Seq<CheckFileReport>, i: int) -> Seq<
    DiagnosticView,
> {
    if first_with_path(files, i) {
        findings_at_path(p, ds, files[i].path@)
    } else {
        Seq::empty()
    }
}

/// `f` is file `i` of `files` with the findings of `ds` merged in: with
/// findings to add, its diagnostics and those findings sorted into report
/// order; valid exactly when it has no diagnostic.
pub open spec fn merged_file(p: &Project, ds: Seq<SemanticDiagnostic>, files: Seq<CheckFileReport>, i: int,
    f: CheckFileReport) -> bool {
    let adds = additions_for(p, ds, files, i);
    &&& f.path == files[i].path
    &&& adds.len() == 0 ==> diagnostic_views(f.diagnostics@) == diagnostic_views(files[i].diagnostics@)
    &&& adds.len() > 0 ==> diagnostic_views(f.diagnostics@).to_multiset() == diagnostic_views(
        files[i].diagnostics@).to_multiset().add(adds.to_multiset()) && reported_sorted(diagnostic_views(f.diagnostics@))
    &&& f.valid == (f.diagnostics@.len() == 0)
}

/// The report diagnostics of the findings whose source has the given path.
fn findings_for_path(project: &Project, diagnostics: &Vec<SemanticDiagnostic>, path: &str) -> (r: Vec<CheckDiagnostic>)
    requires
        spans_ok(project, diagnostics@),
    ensures
        diagnostic_views(r@) == findings_at_path(project, diagnostics@, path@),
{
    let mut r: Vec<CheckDiagnostic> = Vec::new();
    let mut k: usize = 0;
    proof {
        assert(diagnostic_views(r@) =~= Seq::<DiagnosticView>::empty());
        assert(diagnostics@.take(0) =~= Seq::<SemanticDiagnostic>::empty());
    }
    while k < diagnostics.len()
        invariant
            spans_ok(project, diagnostics@),
            k <= diagnostics@.len(),
            diagnostic_views(r@) == findings_at_path(project, diagnostics@.take(k as int), path@),
        decreases diagnostics@.len() - k,
    {
        let d = &diagnostics[k];
        assert(project.span_ok(diagnostics@[k as int].span));
        let ghost before = r@;
        if same_text(project.sources[d.span.source].path.as_str(), path) {
            r.push(report_diagnostic(d));
            proof {
                assert(diagnostic_views(r@) =~= diagnostic_views(before).push(reported(*d)));
            }
        }
        proof {
            assert(diagnostics@.take(k + 1).drop_last() =~= diagnostics@.take(k as int));
            assert(diagnostics@.take(k + 1).last() == *d);
        }
        k = k + 1;
    }
    proof {
        assert(diagnostics@.take(k as int) =~= diagnostics@);
    }
    r
}

/// Merges semantic findings into the file reports: each file's findings (by
/// source path, the first file with that path only) join its diagnostics,
/// which are then sorted by line, column, code and message; a file is valid
/// exactly when it has no diagnostic.
pub fn merge_diagnostics(project: &Project, files: &mut Vec<CheckFileReport>, diagnostics: &Vec<SemanticDiagnostic>)
    requires
        spans_ok(project, diagnostics@),
    ensures
        final(files)@.len() == old(files)@.len(),
        forall|i: int| 0 <= i < old(files)@.len() ==> merged_file(project, diagnostics@, old(files)@, i,
            #[trigger] final(files)@[i]),
{
    let ghost start = files@;
    let mut i: usize = 0;
    while i < files.len()
        invariant
            spans_ok(project, diagnostics@),
            files@.len() == start.len(),
            i <= files@.len(),
            forall|j: int| 0 <= j < i ==> merged_file(project, diagnostics@, start, j, #[trigger] files@[j]),
            forall|j: int| i <= j < files@.len() ==> #[trigger] files@[j] == start[j],
        decreases files@.len() - i,
    {
        let mut first = true;
        let mut j: usize = 0;
        while j < i
            invariant
                i < files@.len() == start.len(),
                j <= i,
                forall|l: int| 0 <= l < i ==> merged_file(project, diagnostics@, start, l, #[trigger] files@[l]),
                files@[i as int] == start[i as int],
                first ==> forall|l: int| 0 <= l < j ==> (#[trigger] start[l]).path@ != start[i as int].path@,
                !first ==> !first_with_path(start, i as int),
            decreases i - j,
        {
            if same_text(files[j].path.as_str(), files[i].path.as_str()) {
                proof {
                    assert(files@[j as int].path == start[j as int].path);
                    assert((start[j as int]).path@ == start[i as int].path@);
                }
                first = false;
            }
            proof {
                if first {
                    assert(files@[j as int].path == start[j as int].path);
                }
            }
            j = j + 1;
        }
        let mut additions = if first {
            findings_for_path(project, diagnostics, files[i].path.as_str())
        } else {
            Vec::new()
        };
        proof {
            assert(diagnostic_views(additions@) == additions_for(project, diagnostics@, start, i as int)) by {
                if !first {
                    assert(diagnostic_views(additions@) =~= Seq::<DiagnosticView>::empty());
                }
            }
        }
        let mut record = CheckFileReport { path: String::new(), valid: false, diagnostics: Vec::new() };
        std::mem::swap(&mut record, &mut files[i]);
        let ghost old_views = diagnostic_views(record.diagnostics@);
        if additions.len() > 0 {
            let ghost adds = diagnostic_views(additions@);
            record.diagnostics.append(&mut additions);
            proof {
                assert(diagnostic_views(record.diagnostics@) =~= old_views + adds);
                vstd::seq_lib::lemma_multiset_commutative(old_views, adds);
            }
            let mut all: Vec<CheckDiagnostic> = Vec::new();
            std::mem::swap(&mut all, &mut record.diagnostics);
            record.diagnostics = sort_reported(all);
        }
        record.valid = record.diagnostics.len() == 0;
        std::mem::swap(&mut record, &mut files[i]);
        proof {
            assert forall|l: int| 0 <= l < i + 1 implies merged_file(project, diagnostics@, start, l,
                #[trigger] files@[l]) by {}
        }
        i = i + 1;
    }
}


/// `ds` are findings the profile reports on project `p`: in report order,
/// within its sources, and holding a finding for every profile issue of the
/// lowering, every import outside the profile, every verify declaration
/// outside a verification-case objective, and every second declared type,
/// explicit subject or objective of a requirement or verification.
pub open spec fn semantic_findings(p: &Project, ds: Seq<SemanticDiagnostic>) -> bool {
    &&& spans_ok(p, ds)
    &&& findings_sorted(p, ds)
    &&& forall|i: int| 0 <= i < p.profile_issues@.len() ==> has_finding(ds, (#[trigger] p.profile_issues@[i]).span,
        p.profile_issues@[i].code)
    &&& forall|i: int| 0 <= i < p.imports@.len() ==> (import_check(#[trigger] p.imports@[i]) matches Some(code)
        ==> has_finding(ds, p.imports@[i].span, code))
    &&& forall|i: int| 0 <= i < p.verify_assertions@.len() && !placed_in_objective(p,
        #[trigger] p.verify_assertions@[i]) ==> has_finding(ds, p.verify_assertions@[i].span, Code::VerificationPlacement)
    &&& forall|j: int| 0 <= j < p.requirements@.len() ==> requirement_rules_hold(p, ds, #[trigger] p.requirements@[j])
    &&& forall|j: int| 0 <= j < p.verifications@.len() ==> verification_rules_hold(p, ds, #[trigger] p.verifications@[j])
    &&& forall|j: int| 0 <= j < p.satisfactions@.len() ==> satisfaction_checked(p, ds, #[trigger] p.satisfactions@[j])
    &&& forall|j: int| 0 <= j < p.verify_assertions@.len() ==> assertion_checked(p, ds, #[trigger] p.verify_assertions@[j])
}

/// The report diagnostics of findings within the project's sources are
/// positioned errors.
pub proof fn lemma_findings_at_path_positioned(p: &Project, ds: Seq<SemanticDiagnostic>, path: Seq<char>)
    requires
        spans_ok(p, ds),
    ensures
        all_positioned_errors(findings_at_path(p, ds, path)),
    decreases ds.len(),
{
    if ds.len() > 0 {
        assert(spans_ok(p, ds.drop_last())) by {
            assert forall|j: int| 0 <= j < ds.drop_last().len() implies #[trigger] p.span_ok(ds.drop_last()[j].span) by {
                assert(ds.drop_last()[j] == ds[j]);
            }
        }
        lemma_findings_at_path_positioned(p, ds.drop_last(), path);
        assert(p.span_ok(ds[ds.len() - 1].span));
        let a = findings_at_path(p, ds.drop_last(), path);
        let b = if p.sources@[ds.last().span.source as int].path@ == path { seq![reported(ds.last())] } else {
            Seq::<DiagnosticView>::empty()
        };
        assert forall|j: int| 0 <= j < (a + b).len() implies positioned_error(#[trigger] (a + b)[j]) by {
            if j < a.len() {
                assert((a + b)[j] == a[j]);
            } else {
                assert((a + b)[j] == b[j - a.len()]);
            }
        }
    }
}

/// A sequence holding just the elements of two others, all positioned
/// errors, holds only positioned errors.
pub proof fn lemma_merged_positioned(a: Seq<DiagnosticView>, b: Seq<DiagnosticView>, c: Seq<DiagnosticView>)
    requires
        a.to_multiset() == b.to_multiset().add(c.to_multiset()),
        all_positioned_errors(b),
        all_positioned_errors(c),
    ensures
        all_positioned_errors(a),
{
    broadcast use vstd::seq_lib::group_to_multiset_ensures;
    broadcast use vstd::multiset::group_multiset_axioms;
    assert forall|j: int| 0 <= j < a.len() implies positioned_error(#[trigger] a[j]) by {
        let x = a[j];
        assert(a.contains(x));
        assert(a.to_multiset().count(x) > 0);
        if b.to_multiset().count(x) > 0 {
            assert(b.contains(x));
            let k = choose|k: int| 0 <= k < b.len() && b[k] == x;
            assert(positioned_error(b[k]));
        } else {
            assert(c.to_multiset().count(x) > 0);
            assert(c.contains(x));
            let k = choose|k: int| 0 <= k < c.len() && c[k] == x;
            assert(positioned_error(c[k]));
        }
    }
}

/// Every diagnostic of every file is an error with one-based lines and
/// columns.
pub open spec fn files_positioned(files: Seq<CheckFileReport>) -> bool {
    forall|i: int| 0 <= i < files.len() ==> all_positioned_errors(diagnostic_views((#[trigger] files[i]).diagnostics@))
}

/// Every file of the report is valid exactly when it has no diagnostic.
pub open spec fn validity_by_diagnostics(files: Seq<CheckFileReport>) -> bool {
    forall|i: int| 0 <= i < files.len() ==> (#[trigger] files[i]).valid == (files[i].diagnostics@.len() == 0)
}

/// The validation report built from a syntax report and the lowered project:
/// with any syntax finding, the syntax files as they are and no semantic
/// validation; otherwise the profile's findings merged into the files.
pub fn report_validation(syntax: CheckReport, project: &Project, profile: ValidationProfileId) -> (r: ValidationReport)
    requires
        project.wf(),
        validity_by_diagnostics(syntax.files@),
        files_positioned(syntax.files@),
    ensures
        files_positioned(r.files@),
        r.schema_version == VALIDATION_REPORT_SCHEMA_VERSION,
        r.tool_version@ == TOOL_VERSION@,
        is_requirements_structure(r.profile),
        r.valid == all_valid(r.files@),
        validity_by_diagnostics(r.files@),
        !all_valid(syntax.files@) ==> r.files@ == syntax.files@,
        all_valid(syntax.files@) ==> {
            &&& r.files@.len() == syntax.files@.len()
            &&& exists|ds: Seq<SemanticDiagnostic>| #[trigger] semantic_findings(project, ds) && forall|i: int|
                0 <= i < syntax.files@.len() ==> merged_file(project, ds, syntax.files@, i, #[trigger] r.files@[i])
        },
{
    if !all_files_valid(&syntax.files) {
        return ValidationReport {
            schema_version: VALIDATION_REPORT_SCHEMA_VERSION,
            tool_version: owned(TOOL_VERSION),
            profile: profile.metadata(),
            valid: false,
            files: syntax.files,
        };
    }
    let diagnostics = match profile {
        ValidationProfileId::RequirementsStructureV1 => validate_project(project),
    };
    let mut files = syntax.files;
    let ghost before = files@;
    merge_diagnostics(project, &mut files, &diagnostics);
    let valid = all_files_valid(&files);
    proof {
        assert(semantic_findings(project, diagnostics@));
        assert forall|i: int| 0 <= i < files@.len() implies (#[trigger] files@[i]).valid == (
            files@[i].diagnostics@.len() == 0) by {
            assert(merged_file(project, diagnostics@, before, i, files@[i]));
        }
        assert forall|i: int| 0 <= i < files@.len() implies all_positioned_errors(diagnostic_views(
            (#[trigger] files@[i]).diagnostics@)) by {
            assert(merged_file(project, diagnostics@, before, i, files@[i]));
            let adds = additions_for(project, diagnostics@, before, i);
            assert(all_positioned_errors(diagnostic_views(before[i].diagnostics@)));
            if first_with_path(before, i) {
                lemma_findings_at_path_positioned(project, diagnostics@, before[i].path@);
            }
            if adds.len() > 0 {
                lemma_merged_positioned(diagnostic_views(files@[i].diagnostics@), diagnostic_views(
                    before[i].diagnostics@), adds);
            }
        }
    }
    ValidationReport {
        schema_version: VALIDATION_REPORT_SCHEMA_VERSION,
        tool_version: owned(TOOL_VERSION),
        profile: profile.metadata(),
        valid,
        files,
    }
}

/// Whether every file report is valid.
pub fn all_files_valid(files: &Vec<CheckFileReport>) -> (b: bool)
    ensures
        b == all_valid(files@),
{
    let mut k: usize = 0;
    while k < files.len()
        invariant
            k <= files@.len(),
            forall|j: int| 0 <= j < k ==> (#[trigger] files@[j]).valid,
        decreases files@.len() - k,
    {
        if !files[k].valid {
            return false;
        }
        k = k + 1;
    }
    true
}

/// Each file report reports its source for the SysML parse of its text.
pub open spec fn syntax_reports(files: Seq<CheckFileReport>, sources: Seq<(String, String)>) -> bool {
    &&& files.len() == sources.len()
    &&& forall|i: int| 0 <= i < sources.len() ==> reports_parse(#[trigger] files[i], sources[i].0@, sources[i].1@)
    &&& forall|i: int| 0 <= i < sources.len() ==> all_syntax_coded(diagnostic_views((#[trigger] files[i]).diagnostics@))
}

/// Two syntax checks of the same sources agree file by file: the same path,
/// verdict and diagnostics, and so the same overall verdict. A validation
/// whose syntax check fails therefore reports exactly the files that the
/// syntax check reports for those sources.
pub proof fn lemma_syntax_reports_agree(a: Seq<CheckFileReport>, b: Seq<CheckFileReport>, sources: Seq<(
    String,
    String,
)>)
    requires
        syntax_reports(a, sources),
        syntax_reports(b, sources),
    ensures
        a.len() == b.len(),
        forall|i: int| 0 <= i < a.len() ==> {
            &&& (#[trigger] a[i]).path@ == b[i].path@
            &&& a[i].valid == b[i].valid
            &&& diagnostic_views(a[i].diagnostics@) == diagnostic_views(b[i].diagnostics@)
        },
        all_valid(a) == all_valid(b),
{
    assert forall|i: int| 0 <= i < a.len() implies {
        &&& (#[trigger] a[i]).path@ == b[i].path@
        &&& a[i].valid == b[i].valid
        &&& diagnostic_views(a[i].diagnostics@) == diagnostic_views(b[i].diagnostics@)
    } by {
        assert(reports_parse(a[i], sources[i].0@, sources[i].1@));
        assert(reports_parse(b[i], sources[i].0@, sources[i].1@));
        lemma_syntax_report_determined(a[i], b[i], sources[i].0@, sources[i].1@);
    }
    if all_valid(a) {
        assert forall|i: int| 0 <= i < b.len() implies #[trigger] b[i].valid by {
            assert(a[i].valid);
        }
    }
    if all_valid(b) {
        assert forall|i: int| 0 <= i < a.len() implies #[trigger] a[i].valid by {
            assert(b[i].valid);
        }
    }
}

/// Validates `(path, text)` sources against a profile. The syntax check runs
/// first, and semantic validation only when no file has a syntax finding, so
/// that malformed trees cannot produce cascaded findings. The parser is
/// always set up, so this succeeds.
pub fn validate_sources(sources: &Vec<(String, String)>, profile: ValidationProfileId) -> (r: Result<
    ValidationReport,
    CheckError,
>)
    ensures
        r is Ok,
        r matches Ok(report) ==> {
            &&& report.schema_version == VALIDATION_REPORT_SCHEMA_VERSION
            &&& report.tool_version@ == TOOL_VERSION@
            &&& is_requirements_structure(report.profile)
            &&& report.valid == all_valid(report.files@)
            &&& validity_by_diagnostics(report.files@)
            &&& report.files@.len() == sources@.len()
            &&& forall|i: int| 0 <= i < sources@.len() ==> (#[trigger] report.files@[i]).path@ == normalized(
                sources@[i].0@)
            &&& files_positioned(report.files@)
            &&& exists|syntax: Seq<CheckFileReport>| #[trigger] syntax_reports(syntax, sources@) && (!all_valid(syntax)
                ==> report.files@ == syntax) && (all_valid(syntax) ==> exists|p: Project, ds: Seq<SemanticDiagnostic>|
                lowered_from(&p, sources@) && #[trigger] semantic_findings(&p, ds) && forall|i: int| 0 <= i
                < syntax.len() ==> merged_file(&p, ds, syntax, i, #[trigger] report.files@[i]))
        },
{
    let syntax = match check_sources(sources) {
        Ok(report) => report,
        Err(e) => { return Err(e); }
    };
    let ghost syntax_files = syntax.files@;
    proof {
        assert forall|i: int| 0 <= i < syntax_files.len() implies (#[trigger] syntax_files[i]).valid == (
            syntax_files[i].diagnostics@.len() == 0) by {
            assert(reports_parse(syntax_files[i], sources@[i].0@, sources@[i].1@));
        }
        assert forall|i: int| 0 <= i < sources@.len() implies (#[trigger] syntax_files[i]).path@ == normalized(
            sources@[i].0@) by {
            assert(reports_parse(syntax_files[i], sources@[i].0@, sources@[i].1@));
        }
        assert(syntax_reports(syntax_files, sources@));
        assert(files_positioned(syntax_files));
    }
    if !syntax.valid {
        let report = ValidationReport {
            schema_version: VALIDATION_REPORT_SCHEMA_VERSION,
            tool_version: owned(TOOL_VERSION),
            profile: profile.metadata(),
            valid: false,
            files: syntax.files,
        };
        return Ok(report);
    }
    let project = match Project::from_sources(sources) {
        Ok(project) => project,
        Err(e) => { return Err(e); }
    };
    let report = report_validation(syntax, &project, profile);
    proof {
        let ds = choose|ds: Seq<SemanticDiagnostic>| #[trigger] semantic_findings(&project, ds) && forall|j: int|
            0 <= j < syntax_files.len() ==> merged_file(&project, ds, syntax_files, j, #[trigger] report.files@[j]);
        assert(lowered_from(&project, sources@) && semantic_findings(&project, ds));
        assert forall|i: int| 0 <= i < sources@.len() implies (#[trigger] report.files@[i]).path@ == normalized(
            sources@[i].0@) by {
            let ds = choose|ds: Seq<SemanticDiagnostic>| #[trigger] semantic_findings(&project, ds) && forall|j: int|
                0 <= j < syntax_files.len() ==> merged_file(&project, ds, syntax_files, j, #[trigger] report.files@[j]);
            assert(merged_file(&project, ds, syntax_files, i, report.files@[i]));
        }
    }
    Ok(report)
}

} // verus!
