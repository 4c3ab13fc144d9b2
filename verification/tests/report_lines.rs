use sysml::check::{check_sources, CheckDiagnostic, CheckSpan};
use sysml::render::{check_summary_line, diagnostic_line, validation_summary_line};
use sysml::report::{validate_sources, ValidationProfileId};

#[test]
fn a_diagnostic_line_names_path_position_severity_code_and_message() {
    let diagnostic = CheckDiagnostic {
        severity: "error".to_string(),
        code: "syntax.error".to_string(),
        message: "unexpected input".to_string(),
        span: CheckSpan { start_line: 12, start_column: 7, end_line: 12, end_column: 9 },
    };
    assert_eq!(
        diagnostic_line("models/a.sysml", &diagnostic),
        "models/a.sysml:12:7: error[syntax.error]: unexpected input"
    );
}

#[test]
fn check_summary_lines_count_files_and_give_the_verdict() {
    let one = vec![("a.sysml".to_string(), "package A;".to_string())];
    let report = check_sources(&one).expect("parser");
    assert_eq!(check_summary_line(&report), "checked 1 SysML file: syntax valid");

    let two = vec![
        ("a.sysml".to_string(), "package A;".to_string()),
        ("b.sysml".to_string(), "package B {".to_string()),
    ];
    let report = check_sources(&two).expect("parser");
    assert_eq!(check_summary_line(&report), "checked 2 SysML files: syntax errors found");
    let broken = &report.files[1];
    assert!(!broken.diagnostics.is_empty());
    let line = diagnostic_line(&broken.path, &broken.diagnostics[0]);
    assert!(line.starts_with("b.sysml:1:"), "{line}");
    assert!(line.contains(": error[syntax."), "{line}");
}

#[test]
fn validation_summary_lines_name_the_profile() {
    let clean = vec![("a.sysml".to_string(), "package A { part def P; }".to_string())];
    let report = validate_sources(&clean, ValidationProfileId::RequirementsStructureV1).expect("validation");
    assert_eq!(
        validation_summary_line(&report),
        "validated 1 SysML file: sysml-2.0-requirements-structure-v1"
    );

    let broken = vec![
        ("a.sysml".to_string(), "package A { private import Missing::Thing; }".to_string()),
        ("b.sysml".to_string(), "package B;".to_string()),
    ];
    let report = validate_sources(&broken, ValidationProfileId::RequirementsStructureV1).expect("validation");
    assert_eq!(
        validation_summary_line(&report),
        "validated 2 SysML files: sysml-2.0-requirements-structure-v1 errors found"
    );
}
