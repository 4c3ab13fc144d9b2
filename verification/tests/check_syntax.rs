use sysml::check::{check_sources, is_sysml_file, normalized_path, CheckFileReport};

fn check_inline(source: &str) -> CheckFileReport {
    let sources = vec![("inline.sysml".to_string(), source.to_string())];
    let mut report = check_sources(&sources).expect("SysML parser should initialize");
    report.files.remove(0)
}

#[test]
fn accepts_stable_short_name_and_declared_interface_name() {
    let report = check_inline(
        "package Demo {
                interface def Link;
                part def System {
                    interface <'IF-DATA-001'> link : Link connect a to b;
                }
            }",
    );

    assert!(report.valid, "{:?}", report.diagnostics);
}

#[test]
fn rejects_unclosed_model_body() {
    let report = check_inline("package Demo { part def Component;");

    assert!(!report.valid);
    assert!(report
        .diagnostics
        .iter()
        .all(|item| item.severity == "error"));
    assert!(report
        .diagnostics
        .iter()
        .any(|item| item.code.starts_with("syntax.")));
}

#[test]
fn check_report_header_and_file_order() {
    let sources = vec![
        ("b.sysml".to_string(), "package B;".to_string()),
        ("a\\c.sysml".to_string(), "package A { part def P; }".to_string()),
    ];
    let report = check_sources(&sources).expect("parser");
    assert_eq!(report.schema_version, 1);
    assert_eq!(report.tool_version, "0.2.0-alpha.1");
    assert_eq!(report.validation_level, "syntax");
    assert!(report.valid);
    assert_eq!(report.files.len(), 2);
    assert_eq!(report.files[0].path, "b.sysml");
    assert_eq!(report.files[1].path, "a/c.sysml");
}

#[test]
fn one_invalid_file_makes_the_report_invalid() {
    let sources = vec![
        ("good.sysml".to_string(), "package Good;".to_string()),
        ("bad.sysml".to_string(), "package Bad {".to_string()),
    ];
    let report = check_sources(&sources).expect("parser");
    assert!(!report.valid);
    assert!(report.files[0].valid);
    assert!(!report.files[1].valid);
    assert!(report.files[1].diagnostics.iter().all(|d| d.span.start_line >= 1 && d.span.start_column >= 1));
}

#[test]
fn normalized_path_writes_forward_slashes() {
    assert_eq!(normalized_path("dir\\sub\\file.sysml"), "dir/sub/file.sysml");
    assert_eq!(normalized_path("plain.sysml"), "plain.sysml");
}

#[test]
fn sysml_files_are_recognized_by_extension() {
    assert!(is_sysml_file("model.sysml"));
    assert!(is_sysml_file("dir/Model.SysML"));
    assert!(is_sysml_file("a.b.sysml"));
    assert!(!is_sysml_file("model.sysml.toml"));
    assert!(!is_sysml_file(".sysml"));
    assert!(!is_sysml_file("sysml"));
    assert!(!is_sysml_file("model.sysm"));
}

#[test]
fn the_same_text_gets_the_same_syntax_findings() {
    let text = "package P { part def A; part def B }".to_string();
    let sources = vec![("a.sysml".to_string(), text.clone()), ("b.sysml".to_string(), text)];
    let report = check_sources(&sources).expect("SysML parser should initialize");
    assert!(!report.files[0].valid);
    assert_eq!(report.files[0].diagnostics, report.files[1].diagnostics);
    assert!(report.files[0].diagnostics.iter().all(|d| d.code.starts_with("syntax.")));
}
