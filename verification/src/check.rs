//! Syntax checking: the report types and the syntax findings of parsed sources.

use vstd::prelude::*;
use std::path::PathBuf;
use crate::strings::{join2, owned, push_char};
use crate::syntax::{depths, is_parent, parse_source, parsed_tree, records_node, sysml_parser, SyntaxTree};

verus! {

#[verifier::external_type_specification]
#[verifier::external_body]
pub struct ExPathBuf(PathBuf);

#[verifier::external_type_specification]
#[verifier::external_body]
pub struct ExIoError(std::io::Error);

/// Version of the machine-readable `sysml check` report.
pub const CHECK_REPORT_SCHEMA_VERSION: u32 = 1;

/// Version of this tool, reported in every report.
pub const TOOL_VERSION: &'static str = "0.2.0-alpha.1";

/// A source range with 1-based lines and 1-based UTF-8 byte columns.
#[derive(Debug, Clone, Copy, PartialEq, Eq, Structural)]
pub struct CheckSpan {
    pub start_line: usize,
    pub start_column: usize,
    pub end_line: usize,
    pub end_column: usize,
}

/// One stable, machine-readable source diagnostic.
#[derive(Debug, Clone, PartialEq, Eq)]
pub struct CheckDiagnostic {
    pub severity: String,
    pub code: String,
    pub message: String,
    pub span: CheckSpan,
}

/// Syntax-check result for one source file.
#[derive(Debug, Clone, PartialEq, Eq)]
pub struct CheckFileReport {
    pub path: String,
    pub valid: bool,
    pub diagnostics: Vec<CheckDiagnostic>,
}

/// Deterministic result of checking one or more SysML source files.
#[derive(Debug, Clone, PartialEq, Eq)]
pub struct CheckReport {
    pub schema_version: u32,
    pub tool_version: String,
    /// The strongest claim made by this report. Version 1 checks syntax only.
    pub validation_level: String,
    pub valid: bool,
    pub files: Vec<CheckFileReport>,
}

/// Failure to discover or read the requested model inputs.
#[derive(Debug)]
pub enum CheckError {
    NoInputs,
    NoModels(PathBuf),
    UnsupportedInput(PathBuf),
    Io { path: PathBuf, source: std::io::Error },
    ParserInitialization(String),
}

/// A diagnostic as severity, code, message and span.
pub type DiagnosticView = (Seq<char>, Seq<char>, Seq<char>, CheckSpan);

impl CheckDiagnostic {
    pub open spec fn view_tuple(&self) -> DiagnosticView {
        (self.severity@, self.code@, self.message@, self.span)
    }
}

pub open spec fn diagnostic_views(ds: Seq<CheckDiagnostic>) -> Seq<DiagnosticView> {
    ds.map_values(|d: CheckDiagnostic| d.view_tuple())
}

/// The one-based span of a syntax node.
pub open spec fn node_span(t: &SyntaxTree, i: int) -> CheckSpan {
    let node = t.nodes@[i];
    CheckSpan {
        start_line: (node.start_row + 1) as usize,
        start_column: (node.start_column + 1) as usize,
        end_line: (node.end_row + 1) as usize,
        end_column: (node.end_column + 1) as usize,
    }
}

/// The syntax findings below node `i`, in preorder: an error node is reported
/// once as invalid syntax and a missing node as the missing symbol, and
/// neither is searched further.
pub open spec fn node_findings(t: &SyntaxTree, i: int) -> Seq<DiagnosticView>
    decreases t.nodes@.len() - i, 1int, 0int,
{
    if !(0 <= i < t.nodes@.len()) {
        Seq::empty()
    } else if t.nodes@[i].error {
        seq![("error"@, "syntax.error"@, "invalid or unexpected SysML syntax"@, node_span(t, i))]
    } else if t.nodes@[i].missing {
        seq![("error"@, "syntax.missing"@, "missing "@ + t.nodes@[i].kind@, node_span(t, i))]
    } else {
        children_findings(t, i, t.nodes@[i].children@.len() as int)
    }
}

/// The findings below the first `k` children of node `i`.
pub open spec fn children_findings(t: &SyntaxTree, i: int, k: int) -> Seq<DiagnosticView>
    decreases t.nodes@.len() - i, 0int, k,
{
    if !(0 <= i < t.nodes@.len()) || k <= 0 || k > t.nodes@[i].children@.len() {
        Seq::empty()
    } else {
        let c = t.nodes@[i].children@[k - 1] as int;
        children_findings(t, i, k - 1) + if i < c < t.nodes@.len() {
            node_findings(t, c)
        } else {
            Seq::empty()
        }
    }
}

/// Node `j` is child number `k` of node `i`, numbered after it in preorder.
pub open spec fn child_at(t: &SyntaxTree, i: int, k: int, j: int) -> bool {
    &&& 0 <= i < j < t.nodes@.len()
    &&& 0 <= k < t.nodes@[i].children@.len()
    &&& t.nodes@[i].children@[k] == j
}

/// Node `i` is neither an error nor a missing node.
pub open spec fn plain_node(t: &SyntaxTree, i: int) -> bool {
    !t.nodes@[i].error && !t.nodes@[i].missing
}

/// The diagnostic of an error or missing node `j` itself.
pub open spec fn own_finding(t: &SyntaxTree, j: int) -> DiagnosticView {
    if t.nodes@[j].error {
        ("error"@, "syntax.error"@, "invalid or unexpected SysML syntax"@, node_span(t, j))
    } else {
        ("error"@, "syntax.missing"@, "missing "@ + t.nodes@[j].kind@, node_span(t, j))
    }
}

/// `path` leads from the root down through children to its last node, every
/// node before the last being neither an error nor a missing node.
pub open spec fn plain_path(t: &SyntaxTree, path: Seq<int>) -> bool {
    &&& path.len() > 0
    &&& path[0] == 0
    &&& forall|m: int| 0 <= m < path.len() - 1 ==> #[trigger] steps_down(t, path[m], path[m + 1])
    &&& 0 <= path.last() < t.nodes@.len()
}

/// Node `a` is neither an error nor missing, and `b` is one of its children.
pub open spec fn steps_down(t: &SyntaxTree, a: int, b: int) -> bool {
    plain_node(t, a) && exists|k: int| #[trigger] child_at(t, a, k, b)
}

proof fn lemma_children_findings_include(t: &SyntaxTree, i: int, kk: int, k: int, j: int)
    requires
        child_at(t, i, k, j),
        k < kk <= t.nodes@[i].children@.len(),
    ensures
        forall|m: int| 0 <= m < node_findings(t, j).len() ==> children_findings(t, i, kk).contains(
            #[trigger] node_findings(t, j)[m]),
    decreases kk,
{
    let front = children_findings(t, i, kk - 1);
    let all = children_findings(t, i, kk);
    if k == kk - 1 {
        assert forall|m: int| 0 <= m < node_findings(t, j).len() implies all.contains(
            #[trigger] node_findings(t, j)[m]) by {
            assert(all[front.len() + m] == node_findings(t, j)[m]);
        }
    } else {
        lemma_children_findings_include(t, i, kk - 1, k, j);
        assert forall|m: int| 0 <= m < node_findings(t, j).len() implies all.contains(
            #[trigger] node_findings(t, j)[m]) by {
            let w = choose|w: int| 0 <= w < front.len() && front[w] == node_findings(t, j)[m];
            assert(all[w] == front[w]);
        }
    }
}

/// The syntax findings below a node that is neither an error nor missing
/// include every finding below each of its children, whatever its other
/// children hold.
pub proof fn lemma_child_findings_reported(t: &SyntaxTree, i: int, k: int, j: int)
    requires
        child_at(t, i, k, j),
        plain_node(t, i),
    ensures
        forall|m: int| 0 <= m < node_findings(t, j).len() ==> node_findings(t, i).contains(
            #[trigger] node_findings(t, j)[m]),
{
    lemma_children_findings_include(t, i, t.nodes@[i].children@.len() as int, k, j);
}

/// Every error or missing node reached from the root through nodes that are
/// neither errors nor missing is reported with its own diagnostic.
pub proof fn lemma_unshadowed_errors_reported(t: &SyntaxTree, path: Seq<int>)
    requires
        plain_path(t, path),
        t.nodes@[path.last()].error || t.nodes@[path.last()].missing,
    ensures
        node_findings(t, 0).contains(own_finding(t, path.last())),
    decreases path.len(),
{
    let j = path.last();
    if path.len() == 1 {
        assert(node_findings(t, j)[0] == own_finding(t, j));
    } else {
        let prefix = path.drop_last();
        let parent = path[path.len() - 2];
        assert(steps_down(t, path[path.len() - 2], path[path.len() - 2 + 1]));
        let k = choose|k: int| child_at(t, parent, k, j);
        lemma_child_findings_reported(t, parent, k, j);
        assert(node_findings(t, j)[0] == own_finding(t, j));
        assert(node_findings(t, parent).contains(own_finding(t, j)));
        lemma_findings_below_reported(t, prefix, own_finding(t, j));
    }
}

/// `f` is the diagnostic of an error or missing node reached from the root
/// through nodes that are neither.
pub open spec fn unshadowed_finding(t: &SyntaxTree, f: DiagnosticView) -> bool {
    exists|path: Seq<int>| #[trigger] plain_path(t, path) && (t.nodes@[path.last()].error
        || t.nodes@[path.last()].missing) && f == own_finding(t, path.last())
}

proof fn lemma_children_findings_from_child(t: &SyntaxTree, i: int, kk: int, f: DiagnosticView)
    requires
        children_findings(t, i, kk).contains(f),
    ensures
        exists|k: int, c: int| #[trigger] child_at(t, i, k, c) && k < kk && node_findings(t, c).contains(f),
    decreases kk,
{
    if 0 <= i < t.nodes@.len() && 0 < kk <= t.nodes@[i].children@.len() {
        let front = children_findings(t, i, kk - 1);
        let c = t.nodes@[i].children@[kk - 1] as int;
        let all = children_findings(t, i, kk);
        let w = choose|w: int| 0 <= w < all.len() && all[w] == f;
        if w < front.len() {
            assert(front[w] == all[w]);
            lemma_children_findings_from_child(t, i, kk - 1, f);
        } else {
            assert(i < c < t.nodes@.len());
            assert(node_findings(t, c)[w - front.len()] == f);
            assert(child_at(t, i, kk - 1, c));
            assert(node_findings(t, c).contains(f));
        }
    }
}

proof fn lemma_findings_below_unshadowed(t: &SyntaxTree, path: Seq<int>, f: DiagnosticView)
    requires
        plain_path(t, path),
        node_findings(t, path.last()).contains(f),
    ensures
        unshadowed_finding(t, f),
    decreases t.nodes@.len() - path.last(),
{
    let i = path.last();
    if t.nodes@[i].error || t.nodes@[i].missing {
        assert(node_findings(t, i)[0] == own_finding(t, i));
        assert(plain_path(t, path));
    } else {
        lemma_children_findings_from_child(t, i, t.nodes@[i].children@.len() as int, f);
        let (k, c) = choose|k: int, c: int| #[trigger] child_at(t, i, k, c) && k < t.nodes@[i].children@.len()
            && node_findings(t, c).contains(f);
        let path2 = path.push(c);
        assert forall|m: int| 0 <= m < path2.len() - 1 implies #[trigger] steps_down(t, path2[m], path2[m + 1]) by {
            if m < path.len() - 1 {
                assert(path2[m] == path[m]);
                assert(path2[m + 1] == path[m + 1]);
                assert(steps_down(t, path[m], path[m + 1]));
            } else {
                assert(path2[m] == i);
                assert(path2[m + 1] == c);
                assert(child_at(t, i, k, c));
            }
        }
        assert(path2.last() == c);
        lemma_findings_below_unshadowed(t, path2, f);
    }
}

/// Every syntax finding of a parse is the diagnostic of an error or missing
/// node that no other error or missing node contains: nothing else is
/// reported.
pub proof fn lemma_findings_are_unshadowed_errors(t: &SyntaxTree, f: DiagnosticView)
    requires
        node_findings(t, 0).contains(f),
    ensures
        unshadowed_finding(t, f),
{
    let path = seq![0int];
    assert(path.last() == 0);
    lemma_findings_below_unshadowed(t, path, f);
}

/// A file report of a parse lists every error or missing node that is not
/// inside another error or missing node.
pub proof fn lemma_report_lists_unshadowed_errors(r: CheckFileReport, path_text: Seq<char>, t: SyntaxTree,
    path: Seq<int>)
    requires
        is_file_report(r, path_text, Some(t)),
        plain_path(&t, path),
        t.nodes@[path.last()].error || t.nodes@[path.last()].missing,
    ensures
        diagnostic_views(r.diagnostics@).contains(own_finding(&t, path.last())),
        !r.valid,
{
    lemma_unshadowed_errors_reported(&t, path);
    assert(diagnostic_views(r.diagnostics@).len() == r.diagnostics@.len());
}

/// A finding below the last node of a plain path is among the root's findings.
proof fn lemma_findings_below_reported(t: &SyntaxTree, path: Seq<int>, f: DiagnosticView)
    requires
        plain_path(t, path),
        node_findings(t, path.last()).contains(f),
    ensures
        node_findings(t, 0).contains(f),
    decreases path.len(),
{
    if path.len() > 1 {
        let prefix = path.drop_last();
        let parent = path[path.len() - 2];
        let j = path.last();
        assert(steps_down(t, path[path.len() - 2], path[path.len() - 2 + 1]));
        let k = choose|k: int| child_at(t, parent, k, j);
        lemma_child_findings_reported(t, parent, k, j);
        let m = choose|m: int| 0 <= m < node_findings(t, j).len() && node_findings(t, j)[m] == f;
        assert(node_findings(t, parent).contains(node_findings(t, j)[m]));
        assert forall|m2: int| 0 <= m2 < prefix.len() - 1 implies #[trigger] steps_down(t, prefix[m2], prefix[m2
            + 1]) by {
            assert(prefix[m2] == path[m2]);
            assert(prefix[m2 + 1] == path[m2 + 1]);
            assert(steps_down(t, path[m2], path[m2 + 1]));
        }
        lemma_findings_below_reported(t, prefix, f);
    }
}

/// The finding reported for a source that the parser produced no tree for.
pub open spec fn parser_failed_finding() -> DiagnosticView {
    (
        "error"@,
        "syntax.parser_failed"@,
        "the parser did not produce a syntax tree"@,
        CheckSpan { start_line: 1, start_column: 1, end_line: 1, end_column: 1 },
    )
}

/// A path with every backslash written as a forward slash.
pub open spec fn normalized(path: Seq<char>) -> Seq<char> {
    path.map_values(|c: char| if c == '\\' { '/' } else { c })
}

/// The report of one file: its normalized path, the findings of its tree (or
/// the parser failure), and validity exactly when there is no finding.
pub open spec fn is_file_report(r: CheckFileReport, path: Seq<char>, tree: Option<SyntaxTree>) -> bool {
    &&& r.path@ == normalized(path)
    &&& diagnostic_views(r.diagnostics@) == match tree {
        Some(t) => node_findings(&t, 0),
        None => seq![parser_failed_finding()],
    }
    &&& r.valid == (r.diagnostics@.len() == 0)
}

/// A report diagnostic is an error whose span has one-based lines and columns.
pub open spec fn positioned_error(v: DiagnosticView) -> bool {
    &&& v.0 == "error"@
    &&& v.3.start_line >= 1 && v.3.start_column >= 1
    &&& v.3.end_line >= 1 && v.3.end_column >= 1
}

/// Every diagnostic of `vs` is a positioned error.
pub open spec fn all_positioned_errors(vs: Seq<DiagnosticView>) -> bool {
    forall|j: int| 0 <= j < vs.len() ==> positioned_error(#[trigger] vs[j])
}

/// A diagnostic with a syntax code.
pub open spec fn syntax_coded(v: DiagnosticView) -> bool {
    v.1 == "syntax.error"@ || v.1 == "syntax.missing"@
}

/// Every diagnostic of `vs` has a syntax code.
pub open spec fn all_syntax_coded(vs: Seq<DiagnosticView>) -> bool {
    forall|j: int| 0 <= j < vs.len() ==> syntax_coded(#[trigger] vs[j])
}

/// Every syntax finding is an error with one-based lines and columns and a
/// syntax code.
pub proof fn lemma_findings_positioned(t: &SyntaxTree, i: int)
    requires
        t.wf(),
    ensures
        all_positioned_errors(node_findings(t, i)),
        all_syntax_coded(node_findings(t, i)),
    decreases t.nodes@.len() - i, 1int, 0int,
{
    if 0 <= i < t.nodes@.len() {
        assert(t.nodes@[i].positions_bounded());
        if !t.nodes@[i].error && !t.nodes@[i].missing {
            lemma_children_positioned(t, i, t.nodes@[i].children@.len() as int);
        }
    }
}

pub proof fn lemma_children_positioned(t: &SyntaxTree, i: int, k: int)
    requires
        t.wf(),
    ensures
        all_positioned_errors(children_findings(t, i, k)),
        all_syntax_coded(children_findings(t, i, k)),
    decreases t.nodes@.len() - i, 0int, k,
{
    if 0 <= i < t.nodes@.len() && 0 < k <= t.nodes@[i].children@.len() {
        let c = t.nodes@[i].children@[k - 1] as int;
        lemma_children_positioned(t, i, k - 1);
        if i < c < t.nodes@.len() {
            lemma_findings_positioned(t, c);
        }
        let a = children_findings(t, i, k - 1);
        let b = if i < c < t.nodes@.len() { node_findings(t, c) } else { Seq::empty() };
        assert forall|j: int| 0 <= j < (a + b).len() implies positioned_error(#[trigger] (a + b)[j])
            && syntax_coded((a + b)[j]) by {
            if j < a.len() {
                assert((a + b)[j] == a[j]);
            } else {
                assert((a + b)[j] == b[j - a.len()]);
            }
        }
    }
}

/// Writes `path` with forward slashes.
pub fn normalized_path(path: &str) -> (r: String)
    ensures
        r@ == normalized(path@),
{
    let chars = crate::strings::chars_of(path);
    let mut r = String::new();
    let mut i: usize = 0;
    while i < chars.len()
        invariant
            chars@ == path@,
            i <= chars@.len(),
            r@ == normalized(path@).subrange(0, i as int),
        decreases chars@.len() - i,
    {
        let c = if chars[i] == '\\' { '/' } else { chars[i] };
        push_char(&mut r, c);
        assert(normalized(path@).subrange(0, i + 1) =~= normalized(path@).subrange(0, i as int).push(c));
        i = i + 1;
    }
    assert(normalized(path@).subrange(0, i as int) =~= normalized(path@));
    r
}

proof fn lemma_views_push(ds: Seq<CheckDiagnostic>, d: CheckDiagnostic)
    ensures
        diagnostic_views(ds.push(d)) == diagnostic_views(ds).push(d.view_tuple()),
{
    assert(diagnostic_views(ds.push(d)) =~= diagnostic_views(ds).push(d.view_tuple()));
}

fn node_diagnostic(tree: &SyntaxTree, i: usize, code: &str, message: String) -> (d: CheckDiagnostic)
    requires
        tree.wf(),
        i < tree.nodes@.len(),
    ensures
        d.view_tuple() == ("error"@, code@, message@, node_span(tree, i as int)),
{
    let node = &tree.nodes[i];
    assert(tree.nodes@[i as int].positions_bounded());
    CheckDiagnostic {
        severity: owned("error"),
        code: owned(code),
        message,
        span: CheckSpan {
            start_line: node.start_row + 1,
            start_column: node.start_column + 1,
            end_line: node.end_row + 1,
            end_column: node.end_column + 1,
        },
    }
}

/// Appends the syntax findings below node `i`.
pub fn collect_syntax_diagnostics(tree: &SyntaxTree, i: usize, diagnostics: &mut Vec<CheckDiagnostic>)
    requires
        tree.wf(),
        i < tree.nodes@.len(),
    ensures
        diagnostic_views(final(diagnostics)@) == diagnostic_views(old(diagnostics)@) + node_findings(tree, i as int),
    decreases tree.nodes@.len() - i,
{
    let ghost start = diagnostic_views(diagnostics@);
    let node = &tree.nodes[i];
    if node.error {
        let d = node_diagnostic(tree, i, "syntax.error", owned("invalid or unexpected SysML syntax"));
        proof { lemma_views_push(diagnostics@, d); }
        diagnostics.push(d);
        assert(diagnostic_views(diagnostics@) =~= start + node_findings(tree, i as int));
        return;
    }
    if node.missing {
        let d = node_diagnostic(tree, i, "syntax.missing", join2("missing ", node.kind.as_str()));
        proof { lemma_views_push(diagnostics@, d); }
        diagnostics.push(d);
        assert(diagnostic_views(diagnostics@) =~= start + node_findings(tree, i as int));
        return;
    }
    let mut k: usize = 0;
    while k < node.children.len()
        invariant
            tree.wf(),
            i < tree.nodes@.len(),
            *node == tree.nodes@[i as int],
            !node.error && !node.missing,
            k <= node.children@.len(),
            diagnostic_views(diagnostics@) == start + children_findings(tree, i as int, k as int),
        decreases node.children@.len() - k,
    {
        let c = node.children[k];
        collect_syntax_diagnostics(tree, c, diagnostics);
        assert(diagnostic_views(diagnostics@) =~= start + children_findings(tree, i as int, k + 1));
        k = k + 1;
    }
}

/// The report of one source file from its parse result.
pub fn file_report(path: &str, tree: Option<&SyntaxTree>) -> (r: CheckFileReport)
    requires
        tree matches Some(t) ==> t.wf(),
    ensures
        is_file_report(r, path@, match tree {
            Some(t) => Some(*t),
            None => None,
        }),
        all_positioned_errors(diagnostic_views(r.diagnostics@)),
{
    let mut diagnostics: Vec<CheckDiagnostic> = Vec::new();
    assert(diagnostic_views(diagnostics@) =~= Seq::<DiagnosticView>::empty());
    match tree {
        Some(t) => collect_syntax_diagnostics(t, 0, &mut diagnostics),
        None => {
            let d = CheckDiagnostic {
                severity: owned("error"),
                code: owned("syntax.parser_failed"),
                message: owned("the parser did not produce a syntax tree"),
                span: CheckSpan { start_line: 1, start_column: 1, end_line: 1, end_column: 1 },
            };
            proof { lemma_views_push(diagnostics@, d); }
            diagnostics.push(d);
            assert(diagnostic_views(diagnostics@) =~= seq![parser_failed_finding()]);
        }
    }
    proof {
        if let Some(t) = tree {
            lemma_findings_positioned(t, 0);
        }
    }
    let valid = diagnostics.len() == 0;
    CheckFileReport { path: normalized_path(path), valid, diagnostics }
}

/// Two strictly increasing sequences with the same members are equal.
pub proof fn lemma_increasing_same_members(a: Seq<usize>, b: Seq<usize>)
    requires
        forall|x: int, y: int| 0 <= x < y < a.len() ==> a[x] < a[y],
        forall|x: int, y: int| 0 <= x < y < b.len() ==> b[x] < b[y],
        forall|v: usize| a.contains(v) <==> b.contains(v),
    ensures
        a == b,
    decreases a.len() + b.len(),
{
    if a.len() == 0 {
        if b.len() > 0 {
            assert(b.contains(b[0]));
        }
        assert(a =~= b);
    } else if b.len() == 0 {
        assert(a.contains(a[0]));
    } else {
        assert(a.contains(a[0]));
        assert(b.contains(b[0]));
        let m = choose|m: int| 0 <= m < a.len() && a[m] == b[0];
        let k = choose|k: int| 0 <= k < b.len() && b[k] == a[0];
        if m > 0 {
            assert(a[0] < a[m]);
            if k > 0 {
                assert(b[0] < b[k]);
            }
        }
        assert(a[0] == b[0]);
        let a1 = a.drop_first();
        let b1 = b.drop_first();
        assert forall|v: usize| a1.contains(v) <==> b1.contains(v) by {
            if a1.contains(v) {
                let x = choose|x: int| 0 <= x < a1.len() && a1[x] == v;
                assert(a[x + 1] == v && a[0] < a[x + 1]);
                assert(a.contains(v));
                let y = choose|y: int| 0 <= y < b.len() && b[y] == v;
                if y == 0 {
                    assert(false);
                }
                assert(b1[y - 1] == v);
            }
            if b1.contains(v) {
                let x = choose|x: int| 0 <= x < b1.len() && b1[x] == v;
                assert(b[x + 1] == v && b[0] < b[x + 1]);
                assert(b.contains(v));
                let y = choose|y: int| 0 <= y < a.len() && a[y] == v;
                if y == 0 {
                    assert(false);
                }
                assert(a1[y - 1] == v);
            }
        }
        lemma_increasing_same_members(a1, b1);
        assert(a =~= b) by {
            assert forall|x: int| 0 <= x < a.len() implies a[x] == b[x] by {
                if x > 0 {
                    assert(a[x] == a1[x - 1]);
                    assert(b[x] == b1[x - 1]);
                }
            }
        }
    }
}

/// Two trees of the same shape: the same nodes as the syntax findings read
/// them, with the same children.
pub open spec fn same_shape(t1: &SyntaxTree, t2: &SyntaxTree) -> bool {
    &&& t1.nodes@.len() == t2.nodes@.len()
    &&& forall|i: int| 0 <= i < t1.nodes@.len() ==> {
        let (a, b) = (#[trigger] t1.nodes@[i], t2.nodes@[i]);
        &&& a.error == b.error && a.missing == b.missing && a.kind@ == b.kind@
        &&& a.start_row == b.start_row && a.start_column == b.start_column
        &&& a.end_row == b.end_row && a.end_column == b.end_column
        &&& a.children@ == b.children@
    }
}

/// Trees of the same shape have the same findings below each node.
pub proof fn lemma_same_shape_findings(t1: &SyntaxTree, t2: &SyntaxTree, i: int)
    requires
        same_shape(t1, t2),
    ensures
        node_findings(t1, i) == node_findings(t2, i),
    decreases t1.nodes@.len() - i, 1int, 0int,
{
    if 0 <= i < t1.nodes@.len() {
        assert(t1.nodes@[i].children@ == t2.nodes@[i].children@);
        if !t1.nodes@[i].error && !t1.nodes@[i].missing {
            lemma_same_shape_children(t1, t2, i, t1.nodes@[i].children@.len() as int);
        }
    }
}

/// Trees of the same shape have the same findings below the first `k`
/// children of each node.
pub proof fn lemma_same_shape_children(t1: &SyntaxTree, t2: &SyntaxTree, i: int, k: int)
    requires
        same_shape(t1, t2),
    ensures
        children_findings(t1, i, k) == children_findings(t2, i, k),
    decreases t1.nodes@.len() - i, 0int, k,
{
    if 0 <= i < t1.nodes@.len() && 0 < k <= t1.nodes@[i].children@.len() {
        assert(t1.nodes@[i].children@ == t2.nodes@[i].children@);
        lemma_same_shape_children(t1, t2, i, k - 1);
        let c = t1.nodes@[i].children@[k - 1] as int;
        if i < c < t1.nodes@.len() {
            lemma_same_shape_findings(t1, t2, c);
        }
    }
}

/// The syntax report of a file depends on its text alone: two reports of the
/// same path for the parse of the same text have the same diagnostics and
/// the same validity.
pub proof fn lemma_syntax_report_determined(r1: CheckFileReport, r2: CheckFileReport, path: Seq<char>, text: Seq<char>)
    requires
        reports_parse(r1, path, text),
        reports_parse(r2, path, text),
    ensures
        r1.path@ == r2.path@,
        diagnostic_views(r1.diagnostics@) == diagnostic_views(r2.diagnostics@),
        r1.valid == r2.valid,
{
    let t1 = choose|t: SyntaxTree| t.wf() && parsed_tree(t, text) && #[trigger] is_file_report(r1, path, Some(t));
    let t2 = choose|t: SyntaxTree| t.wf() && parsed_tree(t, text) && #[trigger] is_file_report(r2, path, Some(t));
    assert(depths(t1.nodes@) =~= depths(t2.nodes@)) by {
        assert forall|i: int| 0 <= i < t1.nodes@.len() implies depths(t1.nodes@)[i] == depths(t2.nodes@)[i] by {
            assert(records_node(t1.nodes@[i], text, i));
            assert(records_node(t2.nodes@[i], text, i));
        }
    }
    assert forall|i: int| 0 <= i < t1.nodes@.len() implies t1.nodes@[i].children@ == t2.nodes@[i].children@ by {
        assert forall|v: usize| t1.nodes@[i].children@.contains(v) <==> t2.nodes@[i].children@.contains(v) by {
            assert(t1.nodes@[i].children@.contains(v) <==> (1 <= v < t1.nodes@.len() && is_parent(depths(t1.nodes@),
                v as int, i)));
            assert(t2.nodes@[i].children@.contains(v) <==> (1 <= v < t2.nodes@.len() && is_parent(depths(t2.nodes@),
                v as int, i)));
        }
        lemma_increasing_same_members(t1.nodes@[i].children@, t2.nodes@[i].children@);
    }
    assert forall|i: int| 0 <= i < t1.nodes@.len() implies records_node(#[trigger] t1.nodes@[i], text, i)
        && records_node(t2.nodes@[i], text, i) by {}
    assert(same_shape(&t1, &t2));
    lemma_same_shape_findings(&t1, &t2, 0);
    assert(diagnostic_views(r1.diagnostics@).len() == r1.diagnostics@.len());
    assert(diagnostic_views(r2.diagnostics@).len() == r2.diagnostics@.len());
}

/// `r` reports the source at `path` for the SysML parse of its text `text`.
pub open spec fn reports_parse(r: CheckFileReport, path: Seq<char>, text: Seq<char>) -> bool {
    exists|t: SyntaxTree| t.wf() && parsed_tree(t, text) && #[trigger] is_file_report(r, path, Some(t))
}

/// Every file of the report is valid.
pub open spec fn all_valid(files: Seq<CheckFileReport>) -> bool {
    forall|i: int| 0 <= i < files.len() ==> #[trigger] files[i].valid
}

/// Checks the syntax of each `(path, text)` source in the given order.
/// Fails only when the parser cannot be set up; otherwise reports each file
/// with the findings of the tree the parser produced for it.
pub fn check_sources(sources: &Vec<(String, String)>) -> (r: Result<CheckReport, CheckError>)
    ensures
        r is Ok,
        r matches Ok(report) ==> {
            &&& report.schema_version == CHECK_REPORT_SCHEMA_VERSION
            &&& report.tool_version@ == TOOL_VERSION@
            &&& report.validation_level@ == "syntax"@
            &&& report.files@.len() == sources@.len()
            &&& forall|i: int| 0 <= i < sources@.len() ==> reports_parse(#[trigger] report.files@[i], sources@[i].0@,
                sources@[i].1@)
            &&& forall|i: int| 0 <= i < sources@.len() ==> all_positioned_errors(diagnostic_views(
                (#[trigger] report.files@[i]).diagnostics@))
            &&& forall|i: int| 0 <= i < sources@.len() ==> all_syntax_coded(diagnostic_views(
                (#[trigger] report.files@[i]).diagnostics@))
            &&& report.valid == all_valid(report.files@)
        },
{
    let mut parser = match sysml_parser() {
        Ok(parser) => parser,
        Err(message) => { return Err(CheckError::ParserInitialization(message)); }
    };
    let mut files: Vec<CheckFileReport> = Vec::new();
    let mut valid = true;
    let mut i: usize = 0;
    while i < sources.len()
        invariant
            i <= sources@.len(),
            files@.len() == i,
            forall|j: int| 0 <= j < i ==> reports_parse(#[trigger] files@[j], sources@[j].0@, sources@[j].1@),
            forall|j: int| 0 <= j < i ==> all_positioned_errors(diagnostic_views((#[trigger] files@[j]).diagnostics@)),
            forall|j: int| 0 <= j < i ==> all_syntax_coded(diagnostic_views((#[trigger] files@[j]).diagnostics@)),
            valid == all_valid(files@),
        decreases sources@.len() - i,
    {
        let tree = parse_source(&mut parser, sources[i].1.as_str());
        let report = file_report(sources[i].0.as_str(), Some(&tree));
        proof {
            assert(is_file_report(report, sources@[i as int].0@, Some(tree)));
            lemma_findings_positioned(&tree, 0);
        }
        valid = valid && report.valid;
        let ghost before = files@;
        files.push(report);
        proof {
            assert forall|j: int| 0 <= j < i + 1 implies reports_parse(#[trigger] files@[j], sources@[j].0@,
                sources@[j].1@) by {
                if j == i {
                    assert(is_file_report(files@[j], sources@[j].0@, Some(tree)));
                } else {
                    assert(files@[j] == before[j]);
                }
            }
            assert forall|j: int| 0 <= j < i + 1 implies all_syntax_coded(diagnostic_views(
                (#[trigger] files@[j]).diagnostics@)) by {
                if j < i {
                    assert(files@[j] == before[j]);
                }
            }
            assert forall|j: int| 0 <= j < i + 1 implies all_positioned_errors(diagnostic_views(
                (#[trigger] files@[j]).diagnostics@)) by {
                if j < i {
                    assert(files@[j] == before[j]);
                }
            }
            assert(valid == all_valid(files@)) by {
                if valid {
                    assert forall|j: int| 0 <= j < files@.len() implies #[trigger] files@[j].valid by {
                        if j < i { assert(files@[j] == before[j]); }
                    }
                } else {
                    if !report.valid { assert(!files@[i as int].valid); }
                    else {
                        let j = choose|j: int| 0 <= j < before.len() && !(#[trigger] before[j].valid);
                        assert(files@[j] == before[j]);
                    }
                }
            }
        }
        i = i + 1;
    }
    Ok(CheckReport {
        schema_version: CHECK_REPORT_SCHEMA_VERSION,
        tool_version: owned(TOOL_VERSION),
        validation_level: owned("syntax"),
        valid,
        files,
    })
}


/// The extension that `std::path::Path::extension` finds in a path: the text
/// after the last dot of its last component, if it has one.
pub uninterp spec fn extension_of(path: Seq<char>) -> Option<Seq<char>>;

/// `Path::extension` of a path given as text.
#[verifier::external_body]
fn path_extension(path: &str) -> (r: Option<String>)
    ensures
        match r {
            Some(e) => extension_of(path@) == Some(e@),
            None => extension_of(path@) is None,
        },
{
    std::path::Path::new(path).extension().and_then(|e| e.to_str()).map(|e| e.to_owned())
}

/// The code of `c` in ASCII lower case.
pub open spec fn ascii_lower_code(c: char) -> u32 {
    if 'A' <= c && c <= 'Z' {
        (c as u32 + 32) as u32
    } else {
        c as u32
    }
}

/// `a` equals `b` when ASCII letters are compared without case.
pub open spec fn equal_ignoring_ascii_case(a: Seq<char>, b: Seq<char>) -> bool {
    a.len() == b.len() && forall|i: int| 0 <= i < a.len() ==> ascii_lower_code(#[trigger] a[i]) == ascii_lower_code(b[i])
}

fn lower_ascii_code(c: char) -> (r: u32)
    ensures
        r == ascii_lower_code(c),
{
    if 'A' <= c && c <= 'Z' {
        c as u32 + 32
    } else {
        c as u32
    }
}

/// Whether the path names a `.sysml` file: its extension is `sysml` in any
/// ASCII case.
/// The extension compared by `is_sysml_file` matches exactly the five
/// letters s, y, s, m, l, each in either case.
pub proof fn lemma_sysml_extension_letters(e: Seq<char>)
    ensures
        equal_ignoring_ascii_case(e, "sysml"@) <==> (e.len() == 5 && (e[0] == 's' || e[0] == 'S') && (e[1] == 'y'
            || e[1] == 'Y') && (e[2] == 's' || e[2] == 'S') && (e[3] == 'm' || e[3] == 'M') && (e[4] == 'l' || e[4]
            == 'L')),
{
    reveal_strlit("sysml");
    assert("sysml"@ =~= seq!['s', 'y', 's', 'm', 'l']);
    if e.len() == 5 {
        lemma_lower_letter(e[0], 's', 'S');
        lemma_lower_letter(e[1], 'y', 'Y');
        lemma_lower_letter(e[2], 's', 'S');
        lemma_lower_letter(e[3], 'm', 'M');
        lemma_lower_letter(e[4], 'l', 'L');
        lemma_lower_letter('s', 's', 'S');
        lemma_lower_letter('y', 'y', 'Y');
        lemma_lower_letter('m', 'm', 'M');
        lemma_lower_letter('l', 'l', 'L');
        if equal_ignoring_ascii_case(e, "sysml"@) {
            assert(ascii_lower_code(e[0]) == ascii_lower_code("sysml"@[0]));
            assert(ascii_lower_code(e[1]) == ascii_lower_code("sysml"@[1]));
            assert(ascii_lower_code(e[2]) == ascii_lower_code("sysml"@[2]));
            assert(ascii_lower_code(e[3]) == ascii_lower_code("sysml"@[3]));
            assert(ascii_lower_code(e[4]) == ascii_lower_code("sysml"@[4]));
        }
        if (e[0] == 's' || e[0] == 'S') && (e[1] == 'y' || e[1] == 'Y') && (e[2] == 's' || e[2] == 'S') && (e[3]
            == 'm' || e[3] == 'M') && (e[4] == 'l' || e[4] == 'L') {
            assert forall|i: int| 0 <= i < e.len() implies ascii_lower_code(#[trigger] e[i]) == ascii_lower_code(
                "sysml"@[i]) by {
                if i == 0 {
                } else if i == 1 {
                } else if i == 2 {
                } else if i == 3 {
                } else {
                }
            }
        }
    }
}

/// ASCII lower-casing gives the lower-case letter `lower` exactly for it and
/// for its upper-case `upper`.
proof fn lemma_lower_letter(c: char, lower: char, upper: char)
    requires
        'A' <= upper <= 'Z',
        lower as u32 == upper as u32 + 32,
    ensures
        ascii_lower_code(c) == lower as u32 <==> (c == lower || c == upper),
{
}

/// A path is taken for a SysML model exactly when it has an extension made of
/// the letters s, y, s, m, l in either case: `Main.swift`, whose extension
/// has five letters too, is not.
pub proof fn lemma_sysml_file_extension(path: Seq<char>, e: Seq<char>)
    requires
        extension_of(path) == Some(e),
    ensures
        (extension_of(path) matches Some(x) && equal_ignoring_ascii_case(x, "sysml"@)) <==> (e.len() == 5 && (e[0]
            == 's' || e[0] == 'S') && (e[1] == 'y' || e[1] == 'Y') && (e[2] == 's' || e[2] == 'S') && (e[3] == 'm'
            || e[3] == 'M') && (e[4] == 'l' || e[4] == 'L')),
{
    lemma_sysml_extension_letters(e);
}

pub fn is_sysml_file(path: &str) -> (b: bool)
    ensures
        b == (extension_of(path@) matches Some(e) && equal_ignoring_ascii_case(e, "sysml"@)),
{
    let extension = match path_extension(path) {
        Some(e) => e,
        None => { return false; }
    };
    let a = crate::strings::chars_of(extension.as_str());
    let b = crate::strings::chars_of("sysml");
    proof {
        reveal_strlit("sysml");
    }
    if a.len() != b.len() {
        return false;
    }
    let mut i: usize = 0;
    while i < a.len()
        invariant
            extension_of(path@) == Some(extension@),
            a@ == extension@,
            b@ == "sysml"@,
            a@.len() == b@.len(),
            i <= a@.len(),
            forall|j: int| 0 <= j < i ==> ascii_lower_code(#[trigger] a@[j]) == ascii_lower_code(b@[j]),
        decreases a@.len() - i,
    {
        if lower_ascii_code(a[i]) != lower_ascii_code(b[i]) {
            assert(ascii_lower_code(extension@[i as int]) != ascii_lower_code("sysml"@[i as int]));
            return false;
        }
        i = i + 1;
    }
    true
}
} // verus!
