use sysml::project::{ElementKind, ImportVisibility, Project, ReferenceForm};

#[test]
fn lowers_requirement_identity_text_subject_and_relationships() {
    let project = Project::from_sources(&vec![(
        String::from("requirements.sysml"),
        r#"
package Requirements {
    part def System;
    part def System;
    part system : System;
    requirement def <'REQ-1'> SystemRequirement {
        doc /* The system shall work. */
        subject subjectSystem : System;
        assume constraint { true }
        require constraint { true }
    }
    requirement selected : SystemRequirement;
    part context { satisfy selected by system; }
    assert not satisfy selected by system;
    verification def Test {
        objective { verify selected; }
    }
}
"#
        .to_owned(),
    )])
    .expect("project should lower");

    assert_eq!(project.sources.len(), 1);
    assert_eq!(project.requirements.len(), 3);
    let definition = project.element(project.requirements[0].element);
    assert_eq!(definition.short_name.as_deref(), Some("REQ-1"));
    assert_eq!(definition.name.as_deref(), Some("SystemRequirement"));
    assert_eq!(definition.documentation[0].text, "The system shall work.");
    assert_eq!(project.requirements[0].subjects.len(), 1);
    assert_eq!(project.requirements[0].assumptions.len(), 1);
    assert_eq!(project.requirements[0].required_constraints.len(), 1);
    assert_eq!(project.satisfactions.len(), 2);
    assert!(!project.satisfactions[0].explicitly_asserted);
    assert!(!project.satisfactions[0].negated);
    assert!(project.satisfactions[1].explicitly_asserted);
    assert!(project.satisfactions[1].negated);
    assert_eq!(project.verify_assertions.len(), 1);
}

#[test]
fn keeps_nested_requirement_metadata_with_its_declaring_element() {
    let project = Project::from_sources(&vec![(
        String::from("nested.sysml"),
        r#"
package Requirements {
    requirement def id "REQ-BASE" Base;
    requirement def id REQ_ONE;
    requirement def id REQ_TWO NamedRequirement;
    requirement def <REQ_THREE> AngleRequirement;
    requirement def Outer {
        doc locale "en"
        doc /* Outer text. */
        subject unit : System {
            doc /* Subject text. */
        }
        requirement def Inner :> Base {
            doc /* Inner text. */
        }
    }
}
"#
        .to_owned(),
    )])
    .expect("project should lower");

    let outer = project
        .elements
        .iter()
        .find(|element| element.name.as_deref() == Some("Outer"))
        .expect("outer requirement should exist");
    let inner = project
        .elements
        .iter()
        .find(|element| element.name.as_deref() == Some("Inner"))
        .expect("inner requirement should exist");
    let base = project
        .elements
        .iter()
        .find(|element| element.name.as_deref() == Some("Base"))
        .expect("base requirement should exist");
    assert_eq!(base.short_name.as_deref(), Some("REQ-BASE"));
    let id_only = project
        .elements
        .iter()
        .find(|element| element.short_name.as_deref() == Some("REQ_ONE"))
        .expect("identifier-only requirement should exist");
    assert_eq!(id_only.name, None);
    let id_and_name = project
        .elements
        .iter()
        .find(|element| element.short_name.as_deref() == Some("REQ_TWO"))
        .expect("identifier-and-name requirement should exist");
    assert_eq!(id_and_name.name.as_deref(), Some("NamedRequirement"));
    let angle_id = project
        .elements
        .iter()
        .find(|element| element.name.as_deref() == Some("AngleRequirement"))
        .expect("angle-bracket identifier requirement should exist");
    assert_eq!(angle_id.short_name.as_deref(), Some("REQ_THREE"));
    assert_eq!(outer.documentation.len(), 1);
    assert_eq!(outer.documentation[0].text, "Outer text.");
    assert!(outer.specializations.is_empty());
    assert_eq!(inner.documentation[0].text, "Inner text.");
    assert_eq!(inner.specializations[0].text, "Base");
    let outer_requirement = project
        .requirements
        .iter()
        .find(|requirement| requirement.element == outer.id)
        .expect("outer requirement record should exist");
    let subject = project.element(outer_requirement.subjects[0]);
    assert_eq!(subject.documentation[0].text, "Subject text.");
}

#[test]
fn lowers_membership_imports_and_subject_bindings() {
    let project = Project::from_sources(&vec![(
        String::from("imports.sysml"),
        r#"
package Architecture {
    part def Computer;
    part computer : Computer;
}
package Requirements {
    private import Architecture::Computer;
    private import Architecture::*;
    verification check {
        subject tested = computer;
    }
}
"#
        .to_owned(),
    )])
    .expect("project should lower");

    assert_eq!(project.imports.len(), 2);
    assert_eq!(project.imports[0].visibility, ImportVisibility::Private);
    assert_eq!(project.imports[0].reference.text, "Architecture::Computer");
    assert!(!project.imports[0].wildcard);
    assert_eq!(project.imports[1].reference.text, "Architecture");
    assert!(project.imports[1].wildcard);
    let subject = project
        .elements
        .iter()
        .find(|element| element.name.as_deref() == Some("tested"))
        .expect("verification subject should exist");
    assert_eq!(
        subject
            .referenced_feature
            .as_ref()
            .map(|binding| binding.text.as_str()),
        Some("computer")
    );
}

#[test]
fn distinguishes_import_all_from_ordinary_and_wildcard_imports() {
    let project = Project::from_sources(&vec![(
        String::from("import-all.sysml"),
        r#"
package Model {
    import Model::member;
    import all Model::member;
    import Model::*;
    import all Model::*;
}
"#
        .to_owned(),
    )])
    .expect("project should lower");

    assert_eq!(project.imports.len(), 4);
    assert_eq!(
        project
            .imports
            .iter()
            .map(|import| (import.all, import.wildcard))
            .collect::<Vec<_>>(),
        [(false, false), (true, false), (false, true), (true, true)]
    );
    assert_eq!(project.imports[0].reference.text, "Model::member");
    assert_eq!(project.imports[1].reference.text, "Model::member");
    assert_eq!(project.imports[2].reference.text, "Model");
    assert_eq!(project.imports[3].reference.text, "Model");
}

#[test]
fn lowers_a_pure_dotted_subject_binding_as_a_feature_chain() {
    let project = Project::from_sources(&vec![(
        String::from("binding.sysml"),
        r#"
package Model {
    part def Computer;
    part def Context {
        part computer : Computer;
    }
    part context : Context;
    verification check {
        subject tested = context.computer;
    }
}
"#
        .to_owned(),
    )])
    .expect("project should lower");

    let subject = project
        .elements
        .iter()
        .find(|element| element.name.as_deref() == Some("tested"))
        .expect("verification subject should exist");
    let binding = subject
        .referenced_feature
        .as_ref()
        .expect("pure dotted expression should lower as a reference");
    assert_eq!(binding.text, "context.computer");
    assert_eq!(binding.segments, ["context", "computer"]);
    assert_eq!(binding.form, ReferenceForm::FeatureChain);
}

#[test]
fn keeps_members_below_an_unmodeled_perform_owner_out_of_the_verification() {
    let project = Project::from_sources(&vec![(
        String::from("ownership.sysml"),
        r#"
package Model {
    requirement selected;
    verification def Check {
        objective direct {
            verify selected;
        }
        perform action {
            objective nested {
                verify selected;
            }
        }
    }
}
"#
        .to_owned(),
    )])
    .expect("project should lower");

    let check = project
        .elements
        .iter()
        .find(|element| element.name.as_deref() == Some("Check"))
        .expect("verification should exist");
    let verification = project
        .verifications
        .iter()
        .find(|verification| verification.element == check.id)
        .expect("verification record should exist");
    assert_eq!(verification.objectives.len(), 1);
    assert_eq!(
        project.element(verification.objectives[0]).name.as_deref(),
        Some("direct")
    );

    let nested = project
        .elements
        .iter()
        .find(|element| element.name.as_deref() == Some("nested"))
        .expect("nested objective should still be lowered");
    assert_ne!(nested.owner, Some(check.id));
    assert_eq!(
        nested.owner.map(|owner| project.element(owner).kind),
        Some(ElementKind::GenericUsage)
    );
}

#[test]
fn keeps_members_below_loop_and_body_wrapped_statement_owners_separate() {
    let project = Project::from_sources(&vec![(
        String::from("control-ownership.sysml"),
        r#"
package Model {
    requirement selected;
    verification def Check {
        doc /* Verification text. */
        part start;
        part finish;
        objective direct {
            verify selected;
        }
        for item in items {
            doc /* Loop text. */
            objective belowLoop {
                verify selected;
            }
        }
        first start then finish {
            objective belowFirst {
                verify selected;
            }
        }
    }
}
"#
        .to_owned(),
    )])
    .expect("project should lower");

    let check = project
        .elements
        .iter()
        .find(|element| element.name.as_deref() == Some("Check"))
        .expect("verification should exist");
    let verification = project
        .verifications
        .iter()
        .find(|verification| verification.element == check.id)
        .expect("verification record should exist");
    assert_eq!(verification.objectives.len(), 1);
    assert_eq!(check.documentation.len(), 1);
    assert_eq!(check.documentation[0].text, "Verification text.");

    for name in ["belowLoop", "belowFirst"] {
        let nested = project
            .elements
            .iter()
            .find(|element| element.name.as_deref() == Some(name))
            .expect("nested objective should still be lowered");
        let owner = nested.owner.expect("nested objective should have an owner");
        assert_eq!(project.element(owner).kind, ElementKind::GenericUsage);
        assert_ne!(owner, check.id);
    }

    let loop_objective = project
        .elements
        .iter()
        .find(|element| element.name.as_deref() == Some("belowLoop"))
        .expect("loop objective should exist");
    let loop_owner = project.element(loop_objective.owner.expect("loop should own objective"));
    assert_eq!(loop_owner.documentation.len(), 1);
    assert_eq!(loop_owner.documentation[0].text, "Loop text.");
}

#[test]
fn retains_recognized_kinds_for_body_bearing_definitions() {
    let project = Project::from_sources(&vec![(
        String::from("body-kinds.sysml"),
        r#"
package Model {
    part def System {
        part child;
    }
    part system : System {
        part component;
    }
    constraint def Limit {
        true
    }
    constraint active : Limit {
        true
    }
}
"#
        .to_owned(),
    )])
    .expect("project should lower");

    let system = project
        .elements
        .iter()
        .find(|element| element.name.as_deref() == Some("System"))
        .expect("part definition should exist");
    let limit = project
        .elements
        .iter()
        .find(|element| element.name.as_deref() == Some("Limit"))
        .expect("constraint definition should exist");
    let child = project
        .elements
        .iter()
        .find(|element| element.name.as_deref() == Some("child"))
        .expect("nested part should exist");
    let system_usage = project
        .elements
        .iter()
        .find(|element| element.name.as_deref() == Some("system"))
        .expect("part usage should exist");
    let active = project
        .elements
        .iter()
        .find(|element| element.name.as_deref() == Some("active"))
        .expect("constraint usage should exist");

    assert_eq!(system.kind, ElementKind::PartDefinition);
    assert_eq!(limit.kind, ElementKind::ConstraintDefinition);
    assert_eq!(system_usage.kind, ElementKind::PartUsage);
    assert_eq!(active.kind, ElementKind::ConstraintUsage);
    assert_eq!(child.owner, Some(system.id));
}

#[test]
fn traverses_inline_constraint_bodies_without_requirement_context_leakage() {
    let project = Project::from_sources(&vec![(
        String::from("constraint-bodies.sysml"),
        r#"
package Model {
    part def Computer;
    requirement def Outer {
        subject outer : Computer;
        assume constraint {
            private import Missing::Thing;
            requirement def Inner {
                subject inner : Computer;
            }
        }
        require constraint {
            private part hidden;
        }
    }
}
"#
        .to_owned(),
    )])
    .expect("project should lower");

    let outer = project
        .requirements
        .iter()
        .find(|requirement| {
            project.element(requirement.element).name.as_deref() == Some("Outer")
        })
        .expect("outer requirement should exist");
    assert_eq!(outer.subjects.len(), 1);
    assert_eq!(outer.assumptions.len(), 1);
    assert_eq!(outer.required_constraints.len(), 1);
    assert!(outer.nested_requirements.is_empty());

    let assumption = outer.assumptions[0];
    let required = outer.required_constraints[0];
    let inner = project
        .requirements
        .iter()
        .find(|requirement| {
            project.element(requirement.element).name.as_deref() == Some("Inner")
        })
        .expect("nested requirement should still be lowered");
    assert_eq!(project.element(inner.element).owner, Some(assumption));
    assert_eq!(inner.subjects.len(), 1);

    let import = project
        .imports
        .first()
        .expect("nested import should be lowered");
    assert_eq!(import.scope, Some(assumption));
    assert_eq!(import.reference.text, "Missing::Thing");
    let hidden = project
        .elements
        .iter()
        .find(|element| element.name.as_deref() == Some("hidden"))
        .expect("private nested part should be lowered");
    assert_eq!(hidden.owner, Some(required));
    assert_eq!(project.profile_issues.len(), 1);
    assert_eq!(
        project.profile_issues[0].code.as_str(),
        "semantic.profile.unsupported_visibility"
    );
}

#[test]
fn keeps_nested_requirement_and_verification_contexts_separate() {
    let project = Project::from_sources(&vec![(
        String::from("contexts.sysml"),
        r#"
package Model {
    part def Thing;
    requirement def OuterRequirement {
        verification def NestedVerification {
            subject verified : Thing;
        }
        subject required : Thing;
    }
    verification def OuterVerification {
        requirement def NestedRequirement {
            subject required : Thing;
        }
        subject verified : Thing;
    }
}
"#
        .to_owned(),
    )])
    .expect("project should lower");

    for name in ["OuterRequirement", "NestedRequirement"] {
        let element = project
            .elements
            .iter()
            .find(|element| element.name.as_deref() == Some(name))
            .expect("requirement should exist");
        let requirement = project
            .requirements
            .iter()
            .find(|requirement| requirement.element == element.id)
            .expect("requirement record should exist");
        assert_eq!(requirement.subjects.len(), 1, "{name}");
    }
    for name in ["NestedVerification", "OuterVerification"] {
        let element = project
            .elements
            .iter()
            .find(|element| element.name.as_deref() == Some(name))
            .expect("verification should exist");
        let verification = project
            .verifications
            .iter()
            .find(|verification| verification.element == element.id)
            .expect("verification record should exist");
        assert_eq!(verification.subjects.len(), 1, "{name}");
    }
}

#[test]
fn lowers_each_usage_specialization_and_keeps_verify_body_docs_separate() {
    let project = Project::from_sources(&vec![(
        String::from("relationships.sysml"),
        r#"
package Model {
    requirement first;
    requirement second;
    requirement selected :> first :> second;
    verification def Check {
        objective checkObjective {
            doc /* Objective text. */
            verify selected {
                doc /* Relationship text. */
            }
        }
    }
}
"#
        .to_owned(),
    )])
    .expect("project should lower");

    let selected = project
        .elements
        .iter()
        .find(|element| element.name.as_deref() == Some("selected"))
        .expect("specialized requirement usage should exist");
    assert_eq!(
        selected
            .specializations
            .iter()
            .map(|reference| reference.text.as_str())
            .collect::<Vec<_>>(),
        vec!["first", "second"]
    );

    let objective = project
        .elements
        .iter()
        .find(|element| element.name.as_deref() == Some("checkObjective"))
        .expect("objective should exist");
    assert_eq!(objective.documentation.len(), 1);
    assert_eq!(objective.documentation[0].text, "Objective text.");
}

#[test]
fn captures_each_inline_verified_requirement_specialization() {
    let project = Project::from_sources(&vec![(
        String::from("inline-verification.sysml"),
        r#"
package Model {
    requirement first;
    requirement second;
    verification def Check {
        objective {
            verify requirement child :> first :> second;
        }
    }
}
"#
        .to_owned(),
    )])
    .expect("project should lower");

    let assertion = project
        .verify_assertions
        .first()
        .expect("inline verification should be lowered");
    assert!(assertion.target.is_none());
    let inline = assertion
        .inline_requirement
        .expect("assertion should point to its inline requirement usage");
    let inline_element = project.element(inline);
    assert_eq!(inline_element.kind, ElementKind::RequirementUsage);
    assert_eq!(inline_element.name.as_deref(), Some("child"));
    assert_eq!(inline_element.owner, Some(assertion.owner));
    assert_eq!(
        inline_element
            .specializations
            .iter()
            .map(|reference| reference.text.as_str())
            .collect::<Vec<_>>(),
        ["first", "second"]
    );
    assert_eq!(
        project
            .requirements
            .iter()
            .filter(|requirement| requirement.element == inline)
            .count(),
        1
    );
    let objective = project
        .requirements
        .iter()
        .find(|requirement| requirement.element == assertion.owner)
        .expect("objective should have a requirement record");
    assert_eq!(objective.nested_requirements, [inline]);
}

#[test]
fn lowers_objective_members_as_a_composite_requirement_usage() {
    let project = Project::from_sources(&vec![(
        String::from("objective.sysml"),
        r#"
package Model {
    part def Computer;
    constraint rule;
    requirement def ObjectiveRequirement {
        subject expected : Computer;
    }
    verification def Check {
        objective selected : ObjectiveRequirement {
            subject actual : Computer;
            actor operator : Computer;
            assume rule;
            require rule;
            requirement nested;
        }
    }
}
"#
        .to_owned(),
    )])
    .expect("project should lower");

    let check = project
        .elements
        .iter()
        .find(|element| element.name.as_deref() == Some("Check"))
        .expect("verification should exist");
    let selected = project
        .elements
        .iter()
        .find(|element| element.name.as_deref() == Some("selected"))
        .expect("objective should exist");
    assert_eq!(selected.kind, ElementKind::Objective);
    assert_eq!(selected.owner, Some(check.id));

    let objective = project
        .requirements
        .iter()
        .find(|requirement| requirement.element == selected.id)
        .expect("objective should have a requirement record");
    assert_eq!(objective.subjects.len(), 1);
    assert_eq!(objective.actors.len(), 1);
    assert!(objective.stakeholders.is_empty());
    assert_eq!(objective.assumptions.len(), 1);
    assert_eq!(objective.required_constraints.len(), 1);
    assert_eq!(objective.nested_requirements.len(), 1);

    let verification = project
        .verifications
        .iter()
        .find(|verification| verification.element == check.id)
        .expect("verification record should exist");
    assert_eq!(verification.objectives, [selected.id]);
}

#[test]
fn preserves_a_direct_specialization_on_a_keywordless_feature_usage() {
    let project = Project::from_sources(&vec![(
        String::from("specialization.sysml"),
        r#"
package Model {
    part base;
    candidate :> base;
    bracedCandidate :> base {}
}
"#
        .to_owned(),
    )])
    .expect("project should lower");

    let candidate = project
        .elements
        .iter()
        .find(|element| element.name.as_deref() == Some("candidate"))
        .expect("keywordless feature usage should exist");
    assert_eq!(candidate.kind, ElementKind::GenericUsage);
    assert_eq!(
        candidate
            .specializations
            .iter()
            .map(|reference| reference.text.as_str())
            .collect::<Vec<_>>(),
        ["base"]
    );
    let braced = project
        .elements
        .iter()
        .find(|element| element.name.as_deref() == Some("bracedCandidate"))
        .expect("braced keywordless feature usage should exist");
    assert_eq!(braced.kind, ElementKind::GenericUsage);
    assert_eq!(
        braced
            .specializations
            .iter()
            .map(|reference| reference.text.as_str())
            .collect::<Vec<_>>(),
        ["base"]
    );
}
