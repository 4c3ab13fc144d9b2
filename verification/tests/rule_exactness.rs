use sysml::report::{validate_sources, ValidationProfileId, ValidationReport};

fn validate_one(text: &str) -> ValidationReport {
    let sources = vec![("model.sysml".to_string(), text.to_string())];
    match validate_sources(&sources, ValidationProfileId::RequirementsStructureV1) {
        Ok(report) => report,
        Err(other) => panic!("validation should run: {other:?}"),
    }
}

fn codes(report: &ValidationReport) -> Vec<String> {
    report
        .files
        .iter()
        .flat_map(|file| file.diagnostics.iter())
        .map(|diagnostic| diagnostic.code.clone())
        .collect()
}

#[test]
fn a_requirement_typed_by_a_requirement_definition_gets_no_type_finding() {
    let report = validate_one(
        r#"
package Requirements {
    requirement def Mass;
    requirement mass : Mass;
}
"#,
    );
    assert!(report.valid, "{:?}", codes(&report));
}

#[test]
fn each_wrongly_typed_requirement_gets_exactly_one_type_finding() {
    let report = validate_one(
        r#"
package Requirements {
    part def Vehicle;
    requirement def Mass;
    requirement first : Vehicle;
    requirement second : Mass;
}
"#,
    );
    assert_eq!(codes(&report), vec!["semantic.requirement.type_kind"]);
}

#[test]
fn the_nearest_enclosing_scope_is_searched_first() {
    let report = validate_one(
        r#"
package Outer {
    part def Spec;
    package Inner {
        requirement def Spec;
        requirement checked : Spec;
    }
}
"#,
    );
    assert!(report.valid, "{:?}", codes(&report));
}

#[test]
fn an_outer_scope_is_searched_when_the_inner_one_has_no_such_name() {
    let report = validate_one(
        r#"
package Outer {
    part def Spec;
    package Inner {
        requirement checked : Spec;
    }
}
"#,
    );
    assert_eq!(codes(&report), vec!["semantic.requirement.type_kind"]);
}

#[test]
fn a_satisfaction_with_a_wrong_target_gets_only_the_target_finding() {
    let report = validate_one(
        r#"
package Requirements {
    part def Computer;
    part computer : Computer;
    part notARequirement : Computer;
    part context {
        satisfy notARequirement by computer;
    }
}
"#,
    );
    assert_eq!(codes(&report), vec!["semantic.satisfaction.target_kind"]);
}

#[test]
fn an_unsupported_import_is_reported_once_and_not_resolved() {
    let report = validate_one(
        r#"
package Requirements {
    private import Missing::**;
}
"#,
    );
    assert_eq!(codes(&report), vec!["semantic.profile.unsupported_import"]);
}
