use sysml::project::{Code, Project};
use sysml::check::{CheckDiagnostic, CheckSpan};
use sysml::report::{sort_reported, validate_sources, ValidationProfileId};
use sysml::validate::validate_project;

fn sources(text: &str) -> Vec<(String, String)> {
    vec![("model.sysml".to_string(), text.to_string())]
}

#[test]
fn unresolved_reference_message_quotes_the_reference() {
    let report = validate_sources(
        &sources("package P { requirement def R { subject s : Missing; } }"),
        ValidationProfileId::RequirementsStructureV1,
    )
    .expect("validation should run");
    let diagnostic = &report.files[0].diagnostics[0];
    assert_eq!(diagnostic.severity, "error");
    assert_eq!(diagnostic.code, "resolution.unresolved_reference");
    assert_eq!(diagnostic.message, "unresolved requirement subject type \"Missing\"");
    assert_eq!(report.files[0].path, "model.sysml");
    assert!(!report.files[0].valid);
}

#[test]
fn diagnostics_are_sorted_by_position() {
    let report = validate_sources(
        &sources(
            "package P {\n  requirement def A { subject s : MissingA; }\n  requirement def B { subject t : MissingB; }\n}\n",
        ),
        ValidationProfileId::RequirementsStructureV1,
    )
    .expect("validation should run");
    let lines: Vec<usize> = report.files[0].diagnostics.iter().map(|d| d.span.start_line).collect();
    assert_eq!(lines, vec![2, 3]);
}

#[test]
fn profile_issue_for_private_member() {
    let project = Project::from_sources(&sources("package P { private part hidden; }")).expect("lowers");
    assert_eq!(project.profile_issues.len(), 1);
    assert_eq!(project.profile_issues[0].code, Code::UnsupportedVisibility);
    let findings = validate_project(&project);
    assert_eq!(findings.len(), 1);
    assert_eq!(findings[0].code.as_str(), "semantic.profile.unsupported_visibility");
}

#[test]
fn verify_outside_an_objective_is_misplaced() {
    let project = Project::from_sources(&sources(
        "package P { requirement r; case def C { objective o { verify r; } } }",
    ))
    .expect("lowers");
    assert_eq!(project.verify_assertions.len(), 1);
    let findings = validate_project(&project);
    assert!(findings.iter().any(|d| d.code == Code::VerificationPlacement));
}

#[test]
fn semantic_findings_go_to_the_file_of_their_source() {
    let report = validate_sources(
        &vec![
            ("a.sysml".to_string(), "package A { part def P; }".to_string()),
            ("b.sysml".to_string(), "package B { requirement def R { subject s : Nope; } }".to_string()),
        ],
        ValidationProfileId::RequirementsStructureV1,
    )
    .expect("validation should run");
    assert!(report.files[0].valid);
    assert!(report.files[0].diagnostics.is_empty());
    assert!(!report.files[1].valid);
    assert_eq!(report.files[1].diagnostics.len(), 1);
    assert!(!report.valid);
}

#[test]
fn profile_identity_is_reported() {
    let id = ValidationProfileId::RequirementsStructureV1;
    assert_eq!(id.as_str(), "sysml-2.0-requirements-structure-v1");
    let profile = id.metadata();
    assert_eq!(profile.language, "SysML");
    assert_eq!(profile.language_version, "2.0");
}

#[test]
fn equal_rank_diagnostics_keep_their_order() {
    let span = CheckSpan { start_line: 2, start_column: 3, end_line: 2, end_column: 9 };
    let later = CheckSpan { start_line: 1, start_column: 1, end_line: 1, end_column: 2 };
    let make = |severity: &str, span: CheckSpan| CheckDiagnostic {
        severity: severity.to_string(),
        code: "x.code".to_string(),
        message: "same".to_string(),
        span,
    };
    let sorted = sort_reported(vec![make("first", span), make("second", span), make("third", later)]);
    let order: Vec<&str> = sorted.iter().map(|d| d.severity.as_str()).collect();
    assert_eq!(order, vec!["third", "first", "second"]);
}

#[test]
fn specialization_beside_a_declared_type_is_multityping() {
    let project = Project::from_sources(&sources(
        "package P { requirement def A; requirement def B; requirement r : A :> B; }",
    ))
    .expect("lowers");
    let findings = validate_project(&project);
    assert!(findings.iter().any(|d| d.code == Code::UnsupportedMultityping));
}
