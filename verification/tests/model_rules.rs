use sysml::model::{
    Direction, Element, ElementKind, ElementRole, Model, Multiplicity, Relationship, RelationshipKind,
    UsageOwnership, SCHEMA_VERSION,
};

fn vehicle_model() -> Model {
    let mut model = Model::new("Vehicle");
    model
        .add_element(Element::new(
            "Vehicle",
            "Vehicle",
            ElementKind::PartDefinition,
        ))
        .add_element(Element::new("vehicle", "vehicle", ElementKind::PartUsage))
        .add_element(
            Element::new("engine", "engine", ElementKind::PartUsage)
                .owned_by("vehicle")
                .with_multiplicity(Multiplicity::exactly(1)),
        )
        .add_relationship(Relationship::new(
            "vehicle_type",
            RelationshipKind::FeatureTyping,
            "vehicle",
            "Vehicle",
        ));
    model
}

#[test]
fn reports_all_dangling_relationship_endpoints() {
    let mut model = vehicle_model();
    model.add_relationship(Relationship::new(
        "missing_flow",
        RelationshipKind::Flow,
        "missing_source",
        "missing_target",
    ));

    let error = model.validate().expect_err("dangling references must fail");
    let messages = error
        .issues
        .iter()
        .map(|issue| issue.message.as_str())
        .collect::<Vec<_>>();

    assert!(messages.contains(&"unknown element id \"missing_source\""));
    assert!(messages.contains(&"unknown element id \"missing_target\""));
}

#[test]
fn rejects_invalid_feature_typing_roles() {
    let mut model = vehicle_model();
    model.relationships[0].sources = vec!["Vehicle".into()];
    model.relationships[0].targets = vec!["vehicle".into()];

    let error = model
        .validate()
        .expect_err("typing direction must be checked");

    assert!(error.issues.iter().any(|issue| {
        issue
            .message
            .contains("feature_typing must relate a usage to a definition")
    }));
}

#[test]
fn rejects_ownership_cycles() {
    let mut model = vehicle_model();
    model.elements[1].owner = Some("engine".into());

    let error = model.validate().expect_err("ownership cycles must fail");

    assert!(error
        .issues
        .iter()
        .any(|issue| issue.message == "ownership cycle detected"));
}

#[test]
fn rejects_inverted_multiplicity_bounds() {
    let mut model = vehicle_model();
    model.elements[2].multiplicity = Some(Multiplicity::bounded(4, 2));

    let error = model
        .validate()
        .expect_err("inverted multiplicity bounds must fail");

    assert!(error
        .issues
        .iter()
        .any(|issue| issue.message == "lower bound 4 exceeds upper bound 2"));
}

#[test]
fn attribute_usage_constructor_is_referential() {
    let attribute = Element::new("mass", "mass", ElementKind::AttributeUsage);

    assert_eq!(attribute.ownership, UsageOwnership::Reference);
}

#[test]
fn vehicle_model_is_valid_and_summarized() {
    let model = vehicle_model();
    assert!(model.validate().is_ok());
    assert_eq!(model.schema_version, SCHEMA_VERSION);
    let summary = model.summary();
    assert_eq!(summary.elements, 3);
    assert_eq!(summary.definitions, 1);
    assert_eq!(summary.usages, 2);
    assert_eq!(summary.relationships, 1);
}

#[test]
fn element_lookup_by_id() {
    let model = vehicle_model();
    assert_eq!(model.element("engine").map(|e| e.name.as_str()), Some("engine"));
    assert!(model.element("wheel").is_none());
}

#[test]
fn builders_set_their_fields() {
    let port = Element::new("p", "port", ElementKind::PortUsage)
        .documented("a port")
        .with_direction(Direction::In)
        .as_reference();
    assert_eq!(port.documentation.as_deref(), Some("a port"));
    assert_eq!(port.direction, Some(Direction::In));
    assert_eq!(port.ownership, UsageOwnership::Reference);
    let part = Element::new("x", "x", ElementKind::PartUsage);
    assert_eq!(part.ownership, UsageOwnership::Composite);
    let link = Relationship::new("r", RelationshipKind::Connection, "a", "b").named("link");
    assert_eq!(link.name.as_deref(), Some("link"));
    assert_eq!(link.sources, vec!["a".to_string()]);
    assert_eq!(link.targets, vec!["b".to_string()]);
}

#[test]
fn multiplicity_constructors() {
    assert_eq!(Multiplicity::exactly(3), Multiplicity { lower: 3, upper: Some(3) });
    assert_eq!(Multiplicity::bounded(1, 5), Multiplicity { lower: 1, upper: Some(5) });
    assert_eq!(Multiplicity::unbounded(2), Multiplicity { lower: 2, upper: None });
}

#[test]
fn element_kind_roles() {
    assert_eq!(ElementKind::PartDefinition.role(), Some(ElementRole::Definition));
    assert_eq!(ElementKind::PartUsage.role(), Some(ElementRole::Usage));
    assert_eq!(RelationshipKind::FeatureTyping.as_str(), "feature_typing");
}

#[test]
fn rejects_duplicate_ids_and_empty_names() {
    let mut model = Model::new("M");
    model
        .add_element(Element::new("a", "A", ElementKind::PartDefinition))
        .add_element(Element::new("a", "", ElementKind::PartDefinition));
    let error = model.validate().expect_err("duplicate ids must fail");
    assert!(!error.issues.is_empty());
}
