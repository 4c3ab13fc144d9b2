//! The text-backed element/relationship model and its structural checks.

use vstd::prelude::*;
use std::collections::BTreeMap;
use crate::error::{ValidationError, ValidationIssue};
use crate::marks::Marks;
use crate::strings::{
    debug_quoted, debug_text, decimal, decimal_text, is_blank, is_blank_text, join2, join3, owned,
    same_text,
};

verus! {

/// Version of the text-backed model schema understood by this crate.
pub const SCHEMA_VERSION: u32 = 1;

/// The schema version a model document has when it names none.
pub fn default_schema_version() -> (v: u32)
    ensures
        v == SCHEMA_VERSION,
{
    SCHEMA_VERSION
}

/// Whether an element is a definition or a usage.
#[derive(Debug, Clone, Copy, PartialEq, Eq, Structural)]
pub enum ElementRole {
    Definition,
    Usage,
}

/// Definition, usage, and supporting concepts from the major SysML v2 families.
#[derive(Debug, Clone, Copy, PartialEq, Eq, Hash, Structural)]
#[non_exhaustive]
pub enum ElementKind {
    Package,
    AttributeDefinition,
    AttributeUsage,
    EnumerationDefinition,
    EnumeratedValue,
    OccurrenceDefinition,
    OccurrenceUsage,
    IndividualDefinition,
    IndividualUsage,
    ItemDefinition,
    ItemUsage,
    PartDefinition,
    PartUsage,
    PortDefinition,
    PortUsage,
    ConnectionDefinition,
    ConnectionUsage,
    InterfaceDefinition,
    InterfaceUsage,
    AllocationDefinition,
    AllocationUsage,
    FlowDefinition,
    FlowUsage,
    ActionDefinition,
    ActionUsage,
    StateDefinition,
    StateUsage,
    TransitionUsage,
    CalculationDefinition,
    CalculationUsage,
    ConstraintDefinition,
    ConstraintUsage,
    RequirementDefinition,
    RequirementUsage,
    ConcernDefinition,
    ConcernUsage,
    CaseDefinition,
    CaseUsage,
    AnalysisCaseDefinition,
    AnalysisCaseUsage,
    VerificationCaseDefinition,
    VerificationCaseUsage,
    UseCaseDefinition,
    UseCaseUsage,
    ViewDefinition,
    ViewUsage,
    ViewpointDefinition,
    ViewpointUsage,
    RenderingDefinition,
    RenderingUsage,
    MetadataDefinition,
    MetadataUsage,
    Comment,
}

/// The concept family that a definition and its usages share.
#[derive(Debug, Clone, Copy, PartialEq, Eq, Structural)]
pub enum Family {
    Package,
    Attribute,
    Enumeration,
    Occurrence,
    Individual,
    Item,
    Part,
    Port,
    Connection,
    Interface,
    Allocation,
    Flow,
    Action,
    State,
    Calculation,
    Constraint,
    Requirement,
    Concern,
    Case,
    AnalysisCase,
    VerificationCase,
    UseCase,
    View,
    Viewpoint,
    Rendering,
    Metadata,
    Comment,
}

/// Role of each element kind: definitions, usages, and (for packages and
/// comments) neither.
pub open spec fn kind_role(kind: ElementKind) -> Option<ElementRole> {
    match kind {
        ElementKind::AttributeDefinition | ElementKind::EnumerationDefinition
        | ElementKind::OccurrenceDefinition | ElementKind::IndividualDefinition
        | ElementKind::ItemDefinition | ElementKind::PartDefinition
        | ElementKind::PortDefinition | ElementKind::ConnectionDefinition
        | ElementKind::InterfaceDefinition | ElementKind::AllocationDefinition
        | ElementKind::FlowDefinition | ElementKind::ActionDefinition
        | ElementKind::StateDefinition | ElementKind::CalculationDefinition
        | ElementKind::ConstraintDefinition | ElementKind::RequirementDefinition
        | ElementKind::ConcernDefinition | ElementKind::CaseDefinition
        | ElementKind::AnalysisCaseDefinition | ElementKind::VerificationCaseDefinition
        | ElementKind::UseCaseDefinition | ElementKind::ViewDefinition
        | ElementKind::ViewpointDefinition | ElementKind::RenderingDefinition
        | ElementKind::MetadataDefinition => Some(ElementRole::Definition),
        ElementKind::Package | ElementKind::Comment => None,
        _ => Some(ElementRole::Usage),
    }
}

/// Family of each element kind; a kind's definition and usages share one.
pub open spec fn kind_family(kind: ElementKind) -> Family {
    match kind {
        ElementKind::Package => Family::Package,
        ElementKind::AttributeDefinition | ElementKind::AttributeUsage => Family::Attribute,
        ElementKind::EnumerationDefinition | ElementKind::EnumeratedValue => Family::Enumeration,
        ElementKind::OccurrenceDefinition | ElementKind::OccurrenceUsage => Family::Occurrence,
        ElementKind::IndividualDefinition | ElementKind::IndividualUsage => Family::Individual,
        ElementKind::ItemDefinition | ElementKind::ItemUsage => Family::Item,
        ElementKind::PartDefinition | ElementKind::PartUsage => Family::Part,
        ElementKind::PortDefinition | ElementKind::PortUsage => Family::Port,
        ElementKind::ConnectionDefinition | ElementKind::ConnectionUsage => Family::Connection,
        ElementKind::InterfaceDefinition | ElementKind::InterfaceUsage => Family::Interface,
        ElementKind::AllocationDefinition | ElementKind::AllocationUsage => Family::Allocation,
        ElementKind::FlowDefinition | ElementKind::FlowUsage => Family::Flow,
        ElementKind::ActionDefinition | ElementKind::ActionUsage => Family::Action,
        ElementKind::StateDefinition | ElementKind::StateUsage
        | ElementKind::TransitionUsage => Family::State,
        ElementKind::CalculationDefinition | ElementKind::CalculationUsage => Family::Calculation,
        ElementKind::ConstraintDefinition | ElementKind::ConstraintUsage => Family::Constraint,
        ElementKind::RequirementDefinition | ElementKind::RequirementUsage => Family::Requirement,
        ElementKind::ConcernDefinition | ElementKind::ConcernUsage => Family::Concern,
        ElementKind::CaseDefinition | ElementKind::CaseUsage => Family::Case,
        ElementKind::AnalysisCaseDefinition
        | ElementKind::AnalysisCaseUsage => Family::AnalysisCase,
        ElementKind::VerificationCaseDefinition
        | ElementKind::VerificationCaseUsage => Family::VerificationCase,
        ElementKind::UseCaseDefinition | ElementKind::UseCaseUsage => Family::UseCase,
        ElementKind::ViewDefinition | ElementKind::ViewUsage => Family::View,
        ElementKind::ViewpointDefinition | ElementKind::ViewpointUsage => Family::Viewpoint,
        ElementKind::RenderingDefinition | ElementKind::RenderingUsage => Family::Rendering,
        ElementKind::MetadataDefinition | ElementKind::MetadataUsage => Family::Metadata,
        ElementKind::Comment => Family::Comment,
    }
}

impl ElementKind {
    /// Whether this element is a definition, a usage, or a supporting element.
    pub fn role(self) -> (r: Option<ElementRole>)
        ensures
            r == kind_role(self),
    {
        match self {
            ElementKind::AttributeDefinition | ElementKind::EnumerationDefinition
            | ElementKind::OccurrenceDefinition | ElementKind::IndividualDefinition
            | ElementKind::ItemDefinition | ElementKind::PartDefinition
            | ElementKind::PortDefinition | ElementKind::ConnectionDefinition
            | ElementKind::InterfaceDefinition | ElementKind::AllocationDefinition
            | ElementKind::FlowDefinition | ElementKind::ActionDefinition
            | ElementKind::StateDefinition | ElementKind::CalculationDefinition
            | ElementKind::ConstraintDefinition | ElementKind::RequirementDefinition
            | ElementKind::ConcernDefinition | ElementKind::CaseDefinition
            | ElementKind::AnalysisCaseDefinition | ElementKind::VerificationCaseDefinition
            | ElementKind::UseCaseDefinition | ElementKind::ViewDefinition
            | ElementKind::ViewpointDefinition | ElementKind::RenderingDefinition
            | ElementKind::MetadataDefinition => Some(ElementRole::Definition),
            ElementKind::AttributeUsage | ElementKind::EnumeratedValue
            | ElementKind::OccurrenceUsage | ElementKind::IndividualUsage
            | ElementKind::ItemUsage | ElementKind::PartUsage | ElementKind::PortUsage
            | ElementKind::ConnectionUsage | ElementKind::InterfaceUsage
            | ElementKind::AllocationUsage | ElementKind::FlowUsage | ElementKind::ActionUsage
            | ElementKind::StateUsage | ElementKind::TransitionUsage
            | ElementKind::CalculationUsage | ElementKind::ConstraintUsage
            | ElementKind::RequirementUsage | ElementKind::ConcernUsage | ElementKind::CaseUsage
            | ElementKind::AnalysisCaseUsage | ElementKind::VerificationCaseUsage
            | ElementKind::UseCaseUsage | ElementKind::ViewUsage | ElementKind::ViewpointUsage
            | ElementKind::RenderingUsage | ElementKind::MetadataUsage => Some(ElementRole::Usage),
            ElementKind::Package | ElementKind::Comment => None,
        }
    }

    /// The concept family shared by a definition and its usages.
    pub fn family(self) -> (f: Family)
        ensures
            f == kind_family(self),
    {
        match self {
            ElementKind::Package => Family::Package,
            ElementKind::AttributeDefinition | ElementKind::AttributeUsage => Family::Attribute,
            ElementKind::EnumerationDefinition
            | ElementKind::EnumeratedValue => Family::Enumeration,
            ElementKind::OccurrenceDefinition
            | ElementKind::OccurrenceUsage => Family::Occurrence,
            ElementKind::IndividualDefinition
            | ElementKind::IndividualUsage => Family::Individual,
            ElementKind::ItemDefinition | ElementKind::ItemUsage => Family::Item,
            ElementKind::PartDefinition | ElementKind::PartUsage => Family::Part,
            ElementKind::PortDefinition | ElementKind::PortUsage => Family::Port,
            ElementKind::ConnectionDefinition
            | ElementKind::ConnectionUsage => Family::Connection,
            ElementKind::InterfaceDefinition | ElementKind::InterfaceUsage => Family::Interface,
            ElementKind::AllocationDefinition
            | ElementKind::AllocationUsage => Family::Allocation,
            ElementKind::FlowDefinition | ElementKind::FlowUsage => Family::Flow,
            ElementKind::ActionDefinition | ElementKind::ActionUsage => Family::Action,
            ElementKind::StateDefinition | ElementKind::StateUsage
            | ElementKind::TransitionUsage => Family::State,
            ElementKind::CalculationDefinition
            | ElementKind::CalculationUsage => Family::Calculation,
            ElementKind::ConstraintDefinition
            | ElementKind::ConstraintUsage => Family::Constraint,
            ElementKind::RequirementDefinition
            | ElementKind::RequirementUsage => Family::Requirement,
            ElementKind::ConcernDefinition | ElementKind::ConcernUsage => Family::Concern,
            ElementKind::CaseDefinition | ElementKind::CaseUsage => Family::Case,
            ElementKind::AnalysisCaseDefinition
            | ElementKind::AnalysisCaseUsage => Family::AnalysisCase,
            ElementKind::VerificationCaseDefinition
            | ElementKind::VerificationCaseUsage => Family::VerificationCase,
            ElementKind::UseCaseDefinition | ElementKind::UseCaseUsage => Family::UseCase,
            ElementKind::ViewDefinition | ElementKind::ViewUsage => Family::View,
            ElementKind::ViewpointDefinition | ElementKind::ViewpointUsage => Family::Viewpoint,
            ElementKind::RenderingDefinition | ElementKind::RenderingUsage => Family::Rendering,
            ElementKind::MetadataDefinition | ElementKind::MetadataUsage => Family::Metadata,
            ElementKind::Comment => Family::Comment,
        }
    }
}

/// Cardinality for a usage. `None` as the upper bound means unbounded (`*`).
#[derive(Debug, Clone, Copy, PartialEq, Eq, Structural)]
pub struct Multiplicity {
    pub lower: u64,
    pub upper: Option<u64>,
}

impl Multiplicity {
    pub fn exactly(value: u64) -> (m: Self)
        ensures
            m == (Multiplicity { lower: value, upper: Some(value) }),
    {
        Self { lower: value, upper: Some(value) }
    }

    pub fn bounded(lower: u64, upper: u64) -> (m: Self)
        ensures
            m == (Multiplicity { lower, upper: Some(upper) }),
    {
        Self { lower, upper: Some(upper) }
    }

    pub fn unbounded(lower: u64) -> (m: Self)
        ensures
            m == (Multiplicity { lower, upper: None }),
    {
        Self { lower, upper: None }
    }
}

/// Direction of values relative to the owning context.
#[derive(Debug, Clone, Copy, PartialEq, Eq, Structural)]
pub enum Direction {
    In,
    Out,
    InOut,
}

/// Whether a usage composes its values or only references them.
#[derive(Debug, Clone, Copy, PartialEq, Eq, Structural)]
pub enum UsageOwnership {
    Composite,
    Reference,
}

impl UsageOwnership {
    pub fn is_composite(value: &Self) -> (b: bool)
        ensures
            b == (*value == UsageOwnership::Composite),
    {
        *value == UsageOwnership::Composite
    }
}

impl Default for UsageOwnership {
    fn default() -> (o: Self)
        ensures
            o == UsageOwnership::Composite,
    {
        UsageOwnership::Composite
    }
}

/// One named modeling element.
#[derive(Debug, Clone, PartialEq, Eq)]
pub struct Element {
    /// Stable identifier used by relationships and ownership references.
    pub id: String,
    /// Human-readable element name.
    pub name: String,
    /// SysML concept represented by this element.
    pub kind: ElementKind,
    /// Optional owning element identifier.
    pub owner: Option<String>,
    /// Optional cardinality for a usage.
    pub multiplicity: Option<Multiplicity>,
    /// Optional direction for a usage.
    pub direction: Option<Direction>,
    /// Whether a usage is composite or referential.
    pub ownership: UsageOwnership,
    /// Human-readable documentation.
    pub documentation: Option<String>,
    /// Extension values kept as deterministic string pairs.
    pub properties: BTreeMap<String, String>,
}

impl Element {
    /// Create an element with no owner, multiplicity, direction, or documentation.
    /// Attribute usages are referential, every other kind composite.
    pub fn new(id: &str, name: &str, kind: ElementKind) -> (e: Self)
        ensures
            e.id@ == id@,
            e.name@ == name@,
            e.kind == kind,
            e.owner.is_none(),
            e.multiplicity.is_none(),
            e.direction.is_none(),
            e.documentation.is_none(),
            e.ownership == (if kind == ElementKind::AttributeUsage {
                UsageOwnership::Reference
            } else {
                UsageOwnership::Composite
            }),
            e.properties@ == Map::<String, String>::empty(),
    {
        let ownership = if kind == ElementKind::AttributeUsage {
            UsageOwnership::Reference
        } else {
            UsageOwnership::Composite
        };
        Self {
            id: owned(id),
            name: owned(name),
            kind,
            owner: None,
            multiplicity: None,
            direction: None,
            ownership,
            documentation: None,
            properties: BTreeMap::new(),
        }
    }

    pub fn owned_by(self, owner: &str) -> (e: Self)
        ensures
            e.owner matches Some(o) && o@ == owner@,
            e.id == self.id && e.name == self.name && e.kind == self.kind,
            e.multiplicity == self.multiplicity && e.direction == self.direction,
            e.ownership == self.ownership && e.documentation == self.documentation,
            e.properties == self.properties,
    {
        let mut e = self;
        e.owner = Some(owned(owner));
        e
    }

    pub fn documented(self, documentation: &str) -> (e: Self)
        ensures
            e.documentation matches Some(d) && d@ == documentation@,
            e.id == self.id && e.name == self.name && e.kind == self.kind,
            e.owner == self.owner && e.multiplicity == self.multiplicity,
            e.direction == self.direction && e.ownership == self.ownership,
            e.properties == self.properties,
    {
        let mut e = self;
        e.documentation = Some(owned(documentation));
        e
    }

    pub fn with_multiplicity(self, multiplicity: Multiplicity) -> (e: Self)
        ensures
            e.multiplicity == Some(multiplicity),
            e.id == self.id && e.name == self.name && e.kind == self.kind,
            e.owner == self.owner && e.direction == self.direction,
            e.ownership == self.ownership && e.documentation == self.documentation,
            e.properties == self.properties,
    {
        let mut e = self;
        e.multiplicity = Some(multiplicity);
        e
    }

    pub fn with_direction(self, direction: Direction) -> (e: Self)
        ensures
            e.direction == Some(direction),
            e.id == self.id && e.name == self.name && e.kind == self.kind,
            e.owner == self.owner && e.multiplicity == self.multiplicity,
            e.ownership == self.ownership && e.documentation == self.documentation,
            e.properties == self.properties,
    {
        let mut e = self;
        e.direction = Some(direction);
        e
    }

    pub fn as_reference(self) -> (e: Self)
        ensures
            e.ownership == UsageOwnership::Reference,
            e.id == self.id && e.name == self.name && e.kind == self.kind,
            e.owner == self.owner && e.multiplicity == self.multiplicity,
            e.direction == self.direction && e.documentation == self.documentation,
            e.properties == self.properties,
    {
        let mut e = self;
        e.ownership = UsageOwnership::Reference;
        e
    }
}

/// Major relationship families used to construct and connect SysML models.
#[derive(Debug, Clone, Copy, PartialEq, Eq, Hash, Structural)]
#[non_exhaustive]
pub enum RelationshipKind {
    Ownership,
    Dependency,
    Annotation,
    FeatureTyping,
    Subclassification,
    Subsetting,
    Redefinition,
    Connection,
    Binding,
    Succession,
    Interface,
    Allocation,
    Flow,
    Transition,
    Satisfaction,
    Verification,
    Include,
    Expose,
    Rendering,
}

/// The snake-case name of each relationship kind.
pub open spec fn relationship_kind_name(kind: RelationshipKind) -> Seq<char> {
    match kind {
        RelationshipKind::Ownership => "ownership"@,
        RelationshipKind::Dependency => "dependency"@,
        RelationshipKind::Annotation => "annotation"@,
        RelationshipKind::FeatureTyping => "feature_typing"@,
        RelationshipKind::Subclassification => "subclassification"@,
        RelationshipKind::Subsetting => "subsetting"@,
        RelationshipKind::Redefinition => "redefinition"@,
        RelationshipKind::Connection => "connection"@,
        RelationshipKind::Binding => "binding"@,
        RelationshipKind::Succession => "succession"@,
        RelationshipKind::Interface => "interface"@,
        RelationshipKind::Allocation => "allocation"@,
        RelationshipKind::Flow => "flow"@,
        RelationshipKind::Transition => "transition"@,
        RelationshipKind::Satisfaction => "satisfaction"@,
        RelationshipKind::Verification => "verification"@,
        RelationshipKind::Include => "include"@,
        RelationshipKind::Expose => "expose"@,
        RelationshipKind::Rendering => "rendering"@,
    }
}

/// Dependencies, annotations and connections may relate any number of
/// elements; every other relationship kind is binary.
pub open spec fn kind_is_binary(kind: RelationshipKind) -> bool {
    !(kind == RelationshipKind::Dependency || kind == RelationshipKind::Annotation
        || kind == RelationshipKind::Connection)
}

impl RelationshipKind {
    pub fn is_binary(self) -> (b: bool)
        ensures
            b == kind_is_binary(self),
    {
        !matches!(
            self,
            RelationshipKind::Dependency | RelationshipKind::Annotation
                | RelationshipKind::Connection
        )
    }

    pub fn as_str(self) -> (s: &'static str)
        ensures
            s@ == relationship_kind_name(self),
    {
        match self {
            RelationshipKind::Ownership => "ownership",
            RelationshipKind::Dependency => "dependency",
            RelationshipKind::Annotation => "annotation",
            RelationshipKind::FeatureTyping => "feature_typing",
            RelationshipKind::Subclassification => "subclassification",
            RelationshipKind::Subsetting => "subsetting",
            RelationshipKind::Redefinition => "redefinition",
            RelationshipKind::Connection => "connection",
            RelationshipKind::Binding => "binding",
            RelationshipKind::Succession => "succession",
            RelationshipKind::Interface => "interface",
            RelationshipKind::Allocation => "allocation",
            RelationshipKind::Flow => "flow",
            RelationshipKind::Transition => "transition",
            RelationshipKind::Satisfaction => "satisfaction",
            RelationshipKind::Verification => "verification",
            RelationshipKind::Include => "include",
            RelationshipKind::Expose => "expose",
            RelationshipKind::Rendering => "rendering",
        }
    }
}

/// A typed directed relationship between model elements.
#[derive(Debug, Clone, PartialEq, Eq)]
pub struct Relationship {
    pub id: String,
    pub kind: RelationshipKind,
    pub name: Option<String>,
    pub sources: Vec<String>,
    pub targets: Vec<String>,
    pub documentation: Option<String>,
    pub properties: BTreeMap<String, String>,
}

impl Relationship {
    /// Create a binary relationship.
    pub fn new(id: &str, kind: RelationshipKind, source: &str, target: &str) -> (r: Self)
        ensures
            r.id@ == id@,
            r.kind == kind,
            r.name.is_none(),
            r.sources@.len() == 1 && r.sources@[0]@ == source@,
            r.targets@.len() == 1 && r.targets@[0]@ == target@,
            r.documentation.is_none(),
            r.properties@ == Map::<String, String>::empty(),
    {
        let mut sources = Vec::new();
        sources.push(owned(source));
        let mut targets = Vec::new();
        targets.push(owned(target));
        Self {
            id: owned(id),
            kind,
            name: None,
            sources,
            targets,
            documentation: None,
            properties: BTreeMap::new(),
        }
    }

    /// Create a relationship with arbitrary source and target arity.
    pub fn nary(id: &str, kind: RelationshipKind, sources: Vec<String>, targets: Vec<String>) -> (r: Self)
        ensures
            r.id@ == id@,
            r.kind == kind,
            r.name.is_none(),
            r.sources == sources,
            r.targets == targets,
            r.documentation.is_none(),
            r.properties@ == Map::<String, String>::empty(),
    {
        Self {
            id: owned(id),
            kind,
            name: None,
            sources,
            targets,
            documentation: None,
            properties: BTreeMap::new(),
        }
    }

    pub fn named(self, name: &str) -> (r: Self)
        ensures
            r.name matches Some(n) && n@ == name@,
            r.id == self.id && r.kind == self.kind && r.sources == self.sources,
            r.targets == self.targets && r.documentation == self.documentation,
            r.properties == self.properties,
    {
        let mut r = self;
        r.name = Some(owned(name));
        r
    }
}

/// Basic model counts.
#[derive(Debug, Clone, Copy, PartialEq, Eq, Structural)]
pub struct ModelSummary {
    pub elements: usize,
    pub definitions: usize,
    pub usages: usize,
    pub relationships: usize,
}

/// A complete text-backed system model.
#[derive(Debug, Clone, PartialEq, Eq)]
pub struct Model {
    /// Version of the model schema, independent of the crate version.
    pub schema_version: u32,
    /// Human-readable model name.
    pub name: String,
    /// Definitions, usages, packages, and supporting elements.
    pub elements: Vec<Element>,
    /// Directed relationships between elements.
    pub relationships: Vec<Relationship>,
}

/// Number of elements among the first `n` whose kind has the given role.
pub open spec fn count_role(elements: Seq<Element>, n: int, role: ElementRole) -> nat
    decreases n,
{
    if n <= 0 {
        0
    } else {
        count_role(elements, n - 1, role) + if kind_role(elements[n - 1].kind) == Some(role) {
            1nat
        } else {
            0nat
        }
    }
}

/// Index of the first element whose identifier is `id`, searching from
/// `from`; blank identifiers never register.
pub open spec fn first_element_with_id(elements: Seq<Element>, id: Seq<char>, from: int) -> Option<int>
    decreases elements.len() - from,
{
    if from < 0 || from >= elements.len() {
        None
    } else if elements[from].id@ == id && !is_blank(id) {
        Some(from)
    } else {
        first_element_with_id(elements, id, from + 1)
    }
}

/// Index of the first relationship whose identifier is `id`; blank
/// identifiers never register.
pub open spec fn first_relationship_with_id(rels: Seq<Relationship>, id: Seq<char>, from: int) -> Option<int>
    decreases rels.len() - from,
{
    if from < 0 || from >= rels.len() {
        None
    } else if rels[from].id@ == id && !is_blank(id) {
        Some(from)
    } else {
        first_relationship_with_id(rels, id, from + 1)
    }
}

/// The element that an identifier refers to: the first one registered under it.
pub open spec fn element_for_id(m: &Model, id: Seq<char>) -> Option<int> {
    first_element_with_id(m.elements@, id, 0)
}

pub type Issue = (Seq<char>, Seq<char>);

pub open spec fn indexed(prefix: Seq<char>, index: int) -> Seq<char> {
    prefix + decimal(index as nat) + "]"@
}

pub open spec fn element_location(i: int) -> Seq<char> {
    indexed("elements["@, i)
}

pub open spec fn relationship_location(k: int) -> Seq<char> {
    indexed("relationships["@, k)
}

/// Issues about the schema version and the model name.
pub open spec fn header_issues(m: &Model) -> Seq<Issue> {
    (if m.schema_version != SCHEMA_VERSION {
        seq![(
            "schema_version"@,
            "unsupported schema version "@ + decimal(m.schema_version as nat) + "; expected "@
                + decimal(SCHEMA_VERSION as nat),
        )]
    } else {
        Seq::empty()
    }) + (if is_blank(m.name@) {
        seq![("name"@, "model name must not be empty"@)]
    } else {
        Seq::empty()
    })
}

/// Issues about the element at index `i`, in the order they are reported.
pub open spec fn element_issues(m: &Model, i: int) -> Seq<Issue> {
    let e = m.elements@[i];
    let loc = element_location(i);
    let id_issue = if is_blank(e.id@) {
        seq![(loc + ".id"@, "element id must not be empty"@)]
    } else if element_for_id(m, e.id@) != Some(i) {
        seq![(loc + ".id"@, "duplicate model id "@ + debug_text(e.id@))]
    } else {
        Seq::empty()
    };
    let name_issue = if is_blank(e.name@) {
        seq![(loc + ".name"@, "element name must not be empty"@)]
    } else {
        Seq::empty()
    };
    let bound_issue = match e.multiplicity {
        Some(mult) => match mult.upper {
            Some(upper) => if mult.lower > upper {
                seq![(
                    loc + ".multiplicity"@,
                    "lower bound "@ + decimal(mult.lower as nat) + " exceeds upper bound "@
                        + decimal(upper as nat),
                )]
            } else {
                Seq::empty()
            },
            None => Seq::empty(),
        },
        None => Seq::empty(),
    };
    let usage_issue = if kind_role(e.kind) != Some(ElementRole::Usage) && (e.multiplicity.is_some()
        || e.direction.is_some() || e.ownership != UsageOwnership::Composite) {
        seq![(loc, "multiplicity, direction, and reference ownership apply only to usage elements"@)]
    } else {
        Seq::empty()
    };
    let attribute_issue = if e.kind == ElementKind::AttributeUsage && e.ownership
        != UsageOwnership::Reference {
        seq![(loc, "attribute usages are always referential in SysML v2"@)]
    } else {
        Seq::empty()
    };
    id_issue + name_issue + bound_issue + usage_issue + attribute_issue
}

pub open spec fn elements_issues_upto(m: &Model, n: int) -> Seq<Issue>
    decreases n,
{
    if n <= 0 {
        Seq::empty()
    } else {
        elements_issues_upto(m, n - 1) + element_issues(m, n - 1)
    }
}

/// Issues for the endpoint identifiers `ids[0..n]` that name no element.
pub open spec fn endpoint_issues(m: &Model, loc: Seq<char>, ids: Seq<String>, n: int) -> Seq<Issue>
    decreases n,
{
    if n <= 0 {
        Seq::empty()
    } else {
        endpoint_issues(m, loc, ids, n - 1) + if element_for_id(m, ids[n - 1]@).is_none() {
            seq![(loc, "unknown element id "@ + debug_text(ids[n - 1]@))]
        } else {
            Seq::empty()
        }
    }
}

/// The rule that a relationship of `kind` from `source` to `target` breaks, if any.
pub open spec fn role_error(kind: RelationshipKind, source: ElementKind, target: ElementKind) -> Option<Seq<char>> {
    match kind {
        RelationshipKind::FeatureTyping => if kind_role(source) != Some(ElementRole::Usage)
            || kind_role(target) != Some(ElementRole::Definition) {
            Some("feature_typing must relate a usage to a definition"@)
        } else if kind_family(source) != kind_family(target) {
            Some("feature_typing must relate elements from the same concept family"@)
        } else {
            None
        },
        RelationshipKind::Subclassification => if kind_role(source) != Some(ElementRole::Definition)
            || kind_role(target) != Some(ElementRole::Definition) {
            Some("subclassification must relate two definitions"@)
        } else {
            None
        },
        RelationshipKind::Subsetting | RelationshipKind::Redefinition => if kind_role(source)
            != Some(ElementRole::Usage) || kind_role(target) != Some(ElementRole::Usage) {
            Some("subsetting and redefinition must relate two usages"@)
        } else {
            None
        },
        RelationshipKind::Satisfaction | RelationshipKind::Verification => if kind_family(target)
            != Family::Requirement {
            Some("satisfaction and verification must target a requirement"@)
        } else {
            None
        },
        RelationshipKind::Include => if kind_family(source) != Family::UseCase || kind_family(target)
            != Family::UseCase {
            Some("include must relate two use cases"@)
        } else {
            None
        },
        _ => None,
    }
}

/// A satisfaction or verification between two named elements has a role
/// issue exactly when its target is neither a requirement definition nor a
/// requirement usage, whatever its source is, and the issue says that it
/// must target a requirement.
pub proof fn lemma_satisfaction_targets_requirement(m: &Model, r: Relationship, loc: Seq<char>, s: int, t: int)
    requires
        r.kind == RelationshipKind::Satisfaction || r.kind == RelationshipKind::Verification,
        r.sources@.len() == 1,
        r.targets@.len() == 1,
        element_for_id(m, r.sources@[0]@) == Some(s),
        element_for_id(m, r.targets@[0]@) == Some(t),
    ensures
        (m.elements@[t].kind == ElementKind::RequirementDefinition || m.elements@[t].kind
            == ElementKind::RequirementUsage) ==> role_issues(m, r, loc) == Seq::<Issue>::empty(),
        !(m.elements@[t].kind == ElementKind::RequirementDefinition || m.elements@[t].kind
            == ElementKind::RequirementUsage) ==> role_issues(m, r, loc) == seq![
            (loc, "satisfaction and verification must target a requirement"@)],
{
}

/// The endpoint rules of the other binary relationships: subclassification
/// relates two definitions, subsetting and redefinition two usages, include
/// two use cases (definitions or usages), and feature typing a usage to a
/// definition of the same family; a role issue comes exactly when the rule
/// is broken, and relationships of other kinds get none.
pub proof fn lemma_relationship_endpoint_rules(m: &Model, r: Relationship, loc: Seq<char>, s: int, t: int)
    requires
        r.sources@.len() == 1,
        r.targets@.len() == 1,
        element_for_id(m, r.sources@[0]@) == Some(s),
        element_for_id(m, r.targets@[0]@) == Some(t),
    ensures
        ({
            let sk = m.elements@[s].kind;
            let tk = m.elements@[t].kind;
            let broken = match r.kind {
                RelationshipKind::Subclassification => !(kind_role(sk) == Some(ElementRole::Definition) && kind_role(
                    tk,
                ) == Some(ElementRole::Definition)),
                RelationshipKind::Subsetting | RelationshipKind::Redefinition => !(kind_role(sk) == Some(
                    ElementRole::Usage,
                ) && kind_role(tk) == Some(ElementRole::Usage)),
                RelationshipKind::Include => !((sk == ElementKind::UseCaseDefinition || sk == ElementKind::UseCaseUsage)
                    && (tk == ElementKind::UseCaseDefinition || tk == ElementKind::UseCaseUsage)),
                RelationshipKind::FeatureTyping => !(kind_role(sk) == Some(ElementRole::Usage) && kind_role(tk) == Some(
                    ElementRole::Definition) && kind_family(sk) == kind_family(tk)),
                RelationshipKind::Satisfaction | RelationshipKind::Verification => !(tk
                    == ElementKind::RequirementDefinition || tk == ElementKind::RequirementUsage),
                _ => false,
            };
            &&& broken ==> role_issues(m, r, loc).len() == 1 && role_issues(m, r, loc)[0].0 == loc
            &&& !broken ==> role_issues(m, r, loc) == Seq::<Issue>::empty()
        }),
{
}

/// The number counted for a role is the number of elements among the first
/// `n` whose kind has that role: packages and comments, which have no role,
/// count for neither definitions nor usages.
pub proof fn lemma_count_role_counts_kinds(elements: Seq<Element>, n: int, role: ElementRole)
    requires
        0 <= n <= elements.len(),
    ensures
        count_role(elements, n, role) == elements.take(n).filter(|e: Element| kind_role(e.kind) == Some(role)).len(),
    decreases n,
{
    reveal(Seq::filter);
    let pred = |e: Element| kind_role(e.kind) == Some(role);
    if n > 0 {
        lemma_count_role_counts_kinds(elements, n - 1, role);
        assert(elements.take(n).drop_last() =~= elements.take(n - 1));
        assert(elements.take(n).last() == elements[n - 1]);
    } else {
        assert(elements.take(n).len() == 0);
    }
}

/// Adding a package or a comment changes neither the number of definitions
/// nor the number of usages; adding an element of any other kind adds one
/// to exactly one of them.
pub proof fn lemma_count_role_push(elements: Seq<Element>, e: Element)
    ensures
        e.kind == ElementKind::Package || e.kind == ElementKind::Comment ==> count_role(elements.push(e),
            (elements.len() + 1) as int, ElementRole::Definition) == count_role(elements, elements.len() as int,
            ElementRole::Definition) && count_role(elements.push(e), (elements.len() + 1) as int, ElementRole::Usage)
            == count_role(elements, elements.len() as int, ElementRole::Usage),
        !(e.kind == ElementKind::Package || e.kind == ElementKind::Comment) ==> count_role(elements.push(e),
            (elements.len() + 1) as int, ElementRole::Definition) + count_role(elements.push(e), (elements.len() + 1) as int,
            ElementRole::Usage) == count_role(elements, elements.len() as int, ElementRole::Definition)
            + count_role(elements, elements.len() as int, ElementRole::Usage) + 1,
{
    lemma_count_role_prefix(elements, e, elements.len() as int, ElementRole::Definition);
    lemma_count_role_prefix(elements, e, elements.len() as int, ElementRole::Usage);
    assert(elements.push(e)[elements.len() as int] == e);
}

proof fn lemma_count_role_prefix(elements: Seq<Element>, e: Element, n: int, role: ElementRole)
    requires
        0 <= n <= elements.len(),
    ensures
        count_role(elements.push(e), n, role) == count_role(elements, n, role),
    decreases n,
{
    if n > 0 {
        lemma_count_role_prefix(elements, e, n - 1, role);
        assert(elements.push(e)[n - 1] == elements[n - 1]);
    }
}

/// The role issue of a binary relationship whose endpoints both name elements.
pub open spec fn role_issues(m: &Model, r: Relationship, loc: Seq<char>) -> Seq<Issue> {
    if r.sources@.len() != 1 || r.targets@.len() != 1 {
        Seq::empty()
    } else {
        match (element_for_id(m, r.sources@[0]@), element_for_id(m, r.targets@[0]@)) {
            (Some(s), Some(t)) => match role_error(r.kind, m.elements@[s].kind, m.elements@[t].kind) {
                Some(msg) => seq![(loc, msg)],
                None => Seq::empty(),
            },
            _ => Seq::empty(),
        }
    }
}

/// Issues about the relationship at index `k`, in the order they are reported.
pub open spec fn relationship_issues(m: &Model, k: int) -> Seq<Issue> {
    let r = m.relationships@[k];
    let loc = relationship_location(k);
    let id_issue = if is_blank(r.id@) {
        seq![(loc + ".id"@, "relationship id must not be empty"@)]
    } else if element_for_id(m, r.id@).is_some() || first_relationship_with_id(
        m.relationships@,
        r.id@,
        0,
    ) != Some(k) {
        seq![(loc + ".id"@, "duplicate model id "@ + debug_text(r.id@))]
    } else {
        Seq::empty()
    };
    let source_issue = if r.sources@.len() == 0 {
        seq![(loc + ".sources"@, "relationship must have at least one source"@)]
    } else {
        Seq::empty()
    };
    let target_issue = if r.targets@.len() == 0 {
        seq![(loc + ".targets"@, "relationship must have at least one target"@)]
    } else {
        Seq::empty()
    };
    let arity_issue = if kind_is_binary(r.kind) && (r.sources@.len() != 1 || r.targets@.len()
        != 1) {
        seq![(
            loc,
            relationship_kind_name(r.kind) + " relationships require exactly one source and one target"@,
        )]
    } else {
        Seq::empty()
    };
    id_issue + source_issue + target_issue + arity_issue + endpoint_issues(
        m,
        loc + ".sources"@,
        r.sources@,
        r.sources@.len() as int,
    ) + endpoint_issues(m, loc + ".targets"@, r.targets@, r.targets@.len() as int) + role_issues(
        m,
        r,
        loc,
    )
}

pub open spec fn relationships_issues_upto(m: &Model, n: int) -> Seq<Issue>
    decreases n,
{
    if n <= 0 {
        Seq::empty()
    } else {
        relationships_issues_upto(m, n - 1) + relationship_issues(m, n - 1)
    }
}

/// The owner chain that starts at element `i`: step 0 is the element's own
/// identifier, step 1 its owner, and each later step the owner of the element
/// that the previous identifier names, as long as there is one.
pub open spec fn owner_walk(m: &Model, i: int, k: nat) -> Option<Seq<char>>
    decreases k,
{
    if k == 0 {
        Some(m.elements@[i].id@)
    } else if k == 1 {
        match m.elements@[i].owner {
            Some(o) => Some(o@),
            None => None,
        }
    } else {
        match owner_walk(m, i, (k - 1) as nat) {
            Some(w) => match element_for_id(m, w) {
                Some(j) => match m.elements@[j].owner {
                    Some(o) => Some(o@),
                    None => None,
                },
                None => None,
            },
            None => None,
        }
    }
}

/// The owner chain of element `i` comes back to an identifier it has already passed.
pub open spec fn owner_chain_repeats(m: &Model, i: int) -> bool {
    exists|j: nat, k: nat| j < k && #[trigger] owner_walk(m, i, j) is Some && owner_walk(m, i, j)
        == #[trigger] owner_walk(m, i, k)
}

/// The ownership issue of element `i`, if any.
pub open spec fn owner_issues(m: &Model, i: int) -> Seq<Issue> {
    let e = m.elements@[i];
    let loc = element_location(i) + ".owner"@;
    match e.owner {
        None => Seq::empty(),
        Some(o) => if o@ == e.id@ {
            seq![(loc, "element cannot own itself"@)]
        } else if element_for_id(m, o@).is_none() {
            seq![(loc, "unknown owner id "@ + debug_text(o@))]
        } else if owner_chain_repeats(m, i) {
            seq![(loc, "ownership cycle detected"@)]
        } else {
            Seq::empty()
        },
    }
}

pub open spec fn owners_issues_upto(m: &Model, n: int) -> Seq<Issue>
    decreases n,
{
    if n <= 0 {
        Seq::empty()
    } else {
        owners_issues_upto(m, n - 1) + owner_issues(m, n - 1)
    }
}

/// Every issue of a model, in the order `Model::validate` reports them.
pub open spec fn model_issues(m: &Model) -> Seq<Issue> {
    header_issues(m) + elements_issues_upto(m, m.elements@.len() as int)
        + relationships_issues_upto(m, m.relationships@.len() as int) + owners_issues_upto(
        m,
        m.elements@.len() as int,
    )
}

pub open spec fn issue_pairs(issues: Seq<ValidationIssue>) -> Seq<Issue> {
    issues.map_values(|issue: ValidationIssue| issue.view_pair())
}


proof fn lemma_issue_pairs_push(issues: Seq<ValidationIssue>, x: ValidationIssue)
    ensures
        issue_pairs(issues.push(x)) == issue_pairs(issues).push(x.view_pair()),
{
    assert(issue_pairs(issues.push(x)) =~= issue_pairs(issues).push(x.view_pair()));
}

/// Appends an issue with the given location and message.
fn push_issue(issues: &mut Vec<ValidationIssue>, location: String, message: String)
    ensures
        issue_pairs(final(issues)@) == issue_pairs(old(issues)@).push((location@, message@)),
{
    proof {
        lemma_issue_pairs_push(issues@, ValidationIssue { location, message });
    }
    issues.push(ValidationIssue::new(location, message));
}

/// `prefix` followed by the decimal index and a closing bracket.
fn indexed_text(prefix: &str, index: usize) -> (r: String)
    ensures
        r@ == indexed(prefix@, index as int),
{
    let digits = decimal_text(index as u64);
    join3(prefix, digits.as_str(), "]")
}

impl Model {
    /// Create an empty model using the current text schema.
    pub fn new(name: &str) -> (m: Self)
        ensures
            m.schema_version == SCHEMA_VERSION,
            m.name@ == name@,
            m.elements@.len() == 0,
            m.relationships@.len() == 0,
    {
        Self { schema_version: SCHEMA_VERSION, name: owned(name), elements: Vec::new(), relationships: Vec::new() }
    }

    /// Add an element to the model.
    pub fn add_element(&mut self, element: Element) -> (r: &mut Self)
        ensures
            r.elements@ == old(self).elements@.push(element),
            r.relationships == old(self).relationships,
            r.name == old(self).name,
            r.schema_version == old(self).schema_version,
            *final(self) == *final(r),
    {
        self.elements.push(element);
        self
    }

    /// Add a relationship to the model.
    pub fn add_relationship(&mut self, relationship: Relationship) -> (r: &mut Self)
        ensures
            r.relationships@ == old(self).relationships@.push(relationship),
            r.elements == old(self).elements,
            r.name == old(self).name,
            r.schema_version == old(self).schema_version,
            *final(self) == *final(r),
    {
        self.relationships.push(relationship);
        self
    }

    /// Find an element by its stable model identifier: the first one with it.
    pub fn element(&self, id: &str) -> (r: Option<&Element>)
        ensures
            match r {
                Some(e) => exists|i: int| 0 <= i < self.elements@.len() && self.elements@[i] == *e
                    && self.elements@[i].id@ == id@ && forall|j: int| 0 <= j < i ==> self.elements@[j].id@ != id@,
                None => forall|j: int| 0 <= j < self.elements@.len() ==> self.elements@[j].id@ != id@,
            },
    {
        let mut i: usize = 0;
        while i < self.elements.len()
            invariant
                i <= self.elements@.len(),
                forall|j: int| 0 <= j < i ==> self.elements@[j].id@ != id@,
            decreases self.elements@.len() - i,
        {
            if same_text(self.elements[i].id.as_str(), id) {
                return Some(&self.elements[i]);
            }
            i = i + 1;
        }
        None
    }

    /// Return basic counts suitable for CLI and tooling output.
    pub fn summary(&self) -> (s: ModelSummary)
        ensures
            s.elements == self.elements@.len(),
            s.definitions == count_role(self.elements@, self.elements@.len() as int, ElementRole::Definition),
            s.usages == count_role(self.elements@, self.elements@.len() as int, ElementRole::Usage),
            s.relationships == self.relationships@.len(),
            s.definitions + s.usages <= s.elements,
    {
        let mut definitions: usize = 0;
        let mut usages: usize = 0;
        let mut i: usize = 0;
        while i < self.elements.len()
            invariant
                i <= self.elements@.len(),
                definitions == count_role(self.elements@, i as int, ElementRole::Definition),
                usages == count_role(self.elements@, i as int, ElementRole::Usage),
                definitions + usages <= i,
            decreases self.elements@.len() - i,
        {
            let role = self.elements[i].kind.role();
            if role == Some(ElementRole::Definition) {
                definitions = definitions + 1;
            }
            if role == Some(ElementRole::Usage) {
                usages = usages + 1;
            }
            i = i + 1;
        }
        ModelSummary {
            elements: self.elements.len(),
            definitions,
            usages,
            relationships: self.relationships.len(),
        }
    }

    /// The element that `id` refers to in reference checks: the first one
    /// registered under that (non-blank) identifier.
    fn element_index(&self, id: &str) -> (r: Option<usize>)
        ensures
            match r {
                Some(j) => element_for_id(self, id@) == Some(j as int),
                None => element_for_id(self, id@).is_none(),
            },
    {
        if is_blank_text(id) {
            proof { self.lemma_blank_not_registered(id@, 0); }
            return None;
        }
        let mut i: usize = 0;
        while i < self.elements.len()
            invariant
                i <= self.elements@.len(),
                !is_blank(id@),
                element_for_id(self, id@) == first_element_with_id(self.elements@, id@, i as int),
            decreases self.elements@.len() - i,
        {
            if same_text(self.elements[i].id.as_str(), id) {
                return Some(i);
            }
            i = i + 1;
        }
        None
    }

    proof fn lemma_blank_not_registered(&self, id: Seq<char>, from: int)
        requires
            is_blank(id),
            0 <= from,
        ensures
            first_element_with_id(self.elements@, id, from).is_none(),
        decreases self.elements@.len() - from,
    {
        if from < self.elements@.len() {
            self.lemma_blank_not_registered(id, from + 1);
        }
    }

    proof fn lemma_first_registered_in_range(&self, id: Seq<char>, from: int)
        requires
            0 <= from,
        ensures
            first_element_with_id(self.elements@, id, from) matches Some(j) ==> from <= j < self.elements@.len()
                && self.elements@[j].id@ == id,
        decreases self.elements@.len() - from,
    {
        if from < self.elements@.len() {
            self.lemma_first_registered_in_range(id, from + 1);
        }
    }

    fn relationship_index(&self, id: &str) -> (r: Option<usize>)
        requires
            !is_blank(id@),
        ensures
            match r {
                Some(k) => first_relationship_with_id(self.relationships@, id@, 0) == Some(k as int),
                None => first_relationship_with_id(self.relationships@, id@, 0).is_none(),
            },
    {
        let mut i: usize = 0;
        while i < self.relationships.len()
            invariant
                i <= self.relationships@.len(),
                !is_blank(id@),
                first_relationship_with_id(self.relationships@, id@, 0)
                    == first_relationship_with_id(self.relationships@, id@, i as int),
            decreases self.relationships@.len() - i,
        {
            if same_text(self.relationships[i].id.as_str(), id) {
                return Some(i);
            }
            i = i + 1;
        }
        None
    }

    fn check_header(&self, issues: &mut Vec<ValidationIssue>)
        ensures
            issue_pairs(final(issues)@) == issue_pairs(old(issues)@) + header_issues(self),
    {
        let ghost start = issue_pairs(issues@);
        if self.schema_version != SCHEMA_VERSION {
            let found = decimal_text(self.schema_version as u64);
            let expected = decimal_text(SCHEMA_VERSION as u64);
            let message = join3("unsupported schema version ", found.as_str(), "; expected ");
            let message = message.concat(expected.as_str());
            push_issue(issues, owned("schema_version"), message);
        }
        if is_blank_text(self.name.as_str()) {
            push_issue(issues, owned("name"), owned("model name must not be empty"));
        }
        assert(issue_pairs(issues@) =~= start + header_issues(self));
    }

    fn check_element(&self, i: usize, issues: &mut Vec<ValidationIssue>)
        requires
            i < self.elements@.len(),
        ensures
            issue_pairs(final(issues)@) == issue_pairs(old(issues)@) + element_issues(self, i as int),
    {
        let ghost start = issue_pairs(issues@);
        let element = &self.elements[i];
        let location = indexed_text("elements[", i);
        let ghost loc = location@;
        let ghost p0 = issue_pairs(issues@);
        if is_blank_text(element.id.as_str()) {
            push_issue(issues, join2(location.as_str(), ".id"), owned("element id must not be empty"));
        } else if self.element_index(element.id.as_str()) != Some(i) {
            let quoted = debug_quoted(element.id.as_str());
            push_issue(issues, join2(location.as_str(), ".id"), join2("duplicate model id ", quoted.as_str()));
        }
        let ghost p1 = issue_pairs(issues@);
        if is_blank_text(element.name.as_str()) {
            push_issue(issues, join2(location.as_str(), ".name"), owned("element name must not be empty"));
        }
        let ghost p2 = issue_pairs(issues@);
        if let Some(multiplicity) = element.multiplicity {
            if let Some(upper) = multiplicity.upper {
                if multiplicity.lower > upper {
                    let low = decimal_text(multiplicity.lower);
                    let high = decimal_text(upper);
                    let message = join3("lower bound ", low.as_str(), " exceeds upper bound ");
                    push_issue(issues, join2(location.as_str(), ".multiplicity"), message.concat(high.as_str()));
                }
            }
        }
        let ghost p3 = issue_pairs(issues@);
        if element.kind.role() != Some(ElementRole::Usage) && (element.multiplicity.is_some()
            || element.direction.is_some() || element.ownership != UsageOwnership::Composite) {
            push_issue(
                issues,
                location.clone(),
                owned("multiplicity, direction, and reference ownership apply only to usage elements"),
            );
        }
        let ghost p4 = issue_pairs(issues@);
        if element.kind == ElementKind::AttributeUsage && element.ownership != UsageOwnership::Reference {
            push_issue(issues, location.clone(), owned("attribute usages are always referential in SysML v2"));
        }
        assert(issue_pairs(issues@) =~= start + element_issues(self, i as int));
    }

    fn check_endpoints(
        &self,
        location: &String,
        ids: &Vec<String>,
        issues: &mut Vec<ValidationIssue>,
    )
        ensures
            issue_pairs(final(issues)@) == issue_pairs(old(issues)@) + endpoint_issues(
                self,
                location@,
                ids@,
                ids@.len() as int,
            ),
    {
        let ghost start = issue_pairs(issues@);
        let mut n: usize = 0;
        while n < ids.len()
            invariant
                n <= ids@.len(),
                issue_pairs(issues@) == start + endpoint_issues(self, location@, ids@, n as int),
            decreases ids@.len() - n,
        {
            if self.element_index(ids[n].as_str()).is_none() {
                let quoted = debug_quoted(ids[n].as_str());
                push_issue(issues, location.clone(), join2("unknown element id ", quoted.as_str()));
            }
            assert(issue_pairs(issues@) =~= start + endpoint_issues(self, location@, ids@, n + 1));
            n = n + 1;
        }
    }

    fn role_message(kind: RelationshipKind, source: ElementKind, target: ElementKind) -> (r: Option<&'static str>)
        ensures
            match r {
                Some(msg) => role_error(kind, source, target) == Some(msg@),
                None => role_error(kind, source, target).is_none(),
            },
    {
        match kind {
            RelationshipKind::FeatureTyping => {
                if source.role() != Some(ElementRole::Usage) || target.role() != Some(ElementRole::Definition) {
                    Some("feature_typing must relate a usage to a definition")
                } else if source.family() != target.family() {
                    Some("feature_typing must relate elements from the same concept family")
                } else {
                    None
                }
            }
            RelationshipKind::Subclassification => {
                if source.role() != Some(ElementRole::Definition) || target.role() != Some(ElementRole::Definition) {
                    Some("subclassification must relate two definitions")
                } else {
                    None
                }
            }
            RelationshipKind::Subsetting | RelationshipKind::Redefinition => {
                if source.role() != Some(ElementRole::Usage) || target.role() != Some(ElementRole::Usage) {
                    Some("subsetting and redefinition must relate two usages")
                } else {
                    None
                }
            }
            RelationshipKind::Satisfaction | RelationshipKind::Verification => {
                if target.family() != Family::Requirement {
                    Some("satisfaction and verification must target a requirement")
                } else {
                    None
                }
            }
            RelationshipKind::Include => {
                if source.family() != Family::UseCase || target.family() != Family::UseCase {
                    Some("include must relate two use cases")
                } else {
                    None
                }
            }
            _ => None,
        }
    }

    fn check_relationship_roles(&self, relationship: &Relationship, location: &String, issues: &mut Vec<ValidationIssue>)
        ensures
            issue_pairs(final(issues)@) == issue_pairs(old(issues)@) + role_issues(self, *relationship, location@),
    {
        let ghost start = issue_pairs(issues@);
        if relationship.sources.len() != 1 || relationship.targets.len() != 1 {
            assert(issue_pairs(issues@) =~= start + role_issues(self, *relationship, location@));
            return;
        }
        let source = self.element_index(relationship.sources[0].as_str());
        let target = self.element_index(relationship.targets[0].as_str());
        match (source, target) {
            (Some(s), Some(t)) => {
                proof {
                    self.lemma_first_registered_in_range(relationship.sources@[0]@, 0);
                    self.lemma_first_registered_in_range(relationship.targets@[0]@, 0);
                }
                let message = Self::role_message(relationship.kind, self.elements[s].kind, self.elements[t].kind);
                if let Some(message) = message {
                    push_issue(issues, location.clone(), owned(message));
                }
            }
            _ => {}
        }
        assert(issue_pairs(issues@) =~= start + role_issues(self, *relationship, location@));
    }

    fn check_relationship(&self, k: usize, issues: &mut Vec<ValidationIssue>)
        requires
            k < self.relationships@.len(),
        ensures
            issue_pairs(final(issues)@) == issue_pairs(old(issues)@) + relationship_issues(self, k as int),
    {
        let ghost start = issue_pairs(issues@);
        let relationship = &self.relationships[k];
        let location = indexed_text("relationships[", k);
        if is_blank_text(relationship.id.as_str()) {
            push_issue(issues, join2(location.as_str(), ".id"), owned("relationship id must not be empty"));
        } else if self.element_index(relationship.id.as_str()).is_some()
            || self.relationship_index(relationship.id.as_str()) != Some(k) {
            let quoted = debug_quoted(relationship.id.as_str());
            push_issue(issues, join2(location.as_str(), ".id"), join2("duplicate model id ", quoted.as_str()));
        }
        let ghost p1 = issue_pairs(issues@);
        if relationship.sources.len() == 0 {
            push_issue(issues, join2(location.as_str(), ".sources"), owned("relationship must have at least one source"));
        }
        if relationship.targets.len() == 0 {
            push_issue(issues, join2(location.as_str(), ".targets"), owned("relationship must have at least one target"));
        }
        if relationship.kind.is_binary() && (relationship.sources.len() != 1 || relationship.targets.len() != 1) {
            let message = join2(relationship.kind.as_str(), " relationships require exactly one source and one target");
            push_issue(issues, location.clone(), message);
        }
        let ghost p2 = issue_pairs(issues@);
        let sources_location = join2(location.as_str(), ".sources");
        self.check_endpoints(&sources_location, &relationship.sources, issues);
        let targets_location = join2(location.as_str(), ".targets");
        self.check_endpoints(&targets_location, &relationship.targets, issues);
        self.check_relationship_roles(relationship, &location, issues);
        assert(issue_pairs(issues@) =~= start + relationship_issues(self, k as int));
    }

    proof fn lemma_walk_stops(&self, i: int, s: nat, k: nat)
        requires
            1 <= s <= k,
            owner_walk(self, i, s) is None,
        ensures
            owner_walk(self, i, k) is None,
        decreases k - s,
    {
        if s < k {
            self.lemma_walk_stops(i, s, (k - 1) as nat);
        }
    }

    proof fn lemma_registered_id(&self, id: Seq<char>, j: int)
        requires
            element_for_id(self, id) == Some(j),
        ensures
            0 <= j < self.elements@.len(),
            self.elements@[j].id@ == id,
    {
        self.lemma_first_registered_in_range(id, 0);
    }

    /// Follows the owner chain of element `i` and reports whether it comes back
    /// to an identifier it has already passed.
    fn owner_cycle(&self, i: usize) -> (b: bool)
        requires
            i < self.elements@.len(),
            self.elements@[i as int].owner is Some,
        ensures
            b == owner_chain_repeats(self, i as int),
    {
        let n = self.elements.len();
        let element = &self.elements[i];
        let mut visited: Vec<String> = Vec::new();
        visited.push(element.id.clone());
        let mut marks = Marks::new(n);
        let mut cursor: String = match &element.owner {
            Some(o) => o.clone(),
            None => { return false; }
        };
        let ghost mut t: nat = 1;
        loop
            invariant
                i < n == self.elements@.len(),
                marks.bound() == n,
                t >= 1,
                visited@.len() == t,
                forall|a: int| 0 <= a < t ==> owner_walk(self, i as int, a as nat) == Some(#[trigger] visited@[a]@),
                owner_walk(self, i as int, t) == Some(cursor@),
                forall|a: int, b: int| 0 <= a < b < t ==> visited@[a]@ != visited@[b]@,
                forall|x: int| #[trigger] marks.contains(x) ==> exists|a: int| 1 <= a < t
                    && element_for_id(self, visited@[a]@) == Some(x),
            decreases marks.remaining(),
        {
            let mut a: usize = 0;
            while a < visited.len()
                invariant
                    a <= visited@.len(),
                    visited@.len() == t,
                    i < self.elements@.len(),
                    forall|c: int| 0 <= c < t ==> owner_walk(self, i as int, c as nat) == Some(#[trigger] visited@[c]@),
                    owner_walk(self, i as int, t) == Some(cursor@),
                    forall|c: int| 0 <= c < a ==> visited@[c]@ != cursor@,
                decreases visited@.len() - a,
            {
                if visited[a] == cursor {
                    proof {
                        assert(owner_walk(self, i as int, a as nat) is Some && owner_walk(self, i as int, a as nat)
                            == owner_walk(self, i as int, t));
                    }
                    return true;
                }
                a = a + 1;
            }
            let found = self.element_index(cursor.as_str());
            let ghost old_visited = visited@;
            visited.push(cursor.clone());
            match found {
                None => {
                    proof {
                        assert(owner_walk(self, i as int, t + 1) is None);
                        assert forall|p: nat, q: nat| p < q && #[trigger] owner_walk(self, i as int, p) is Some
                            implies owner_walk(self, i as int, p) != #[trigger] owner_walk(self, i as int, q) by {
                            if q > t {
                                self.lemma_walk_stops(i as int, t + 1, q);
                            } else {
                                assert(visited@[p as int]@ != visited@[q as int]@);
                            }
                        }
                    }
                    return false;
                }
                Some(j) => {
                    proof {
                        self.lemma_registered_id(cursor@, j as int);
                        if marks.contains(j as int) {
                            let a2 = choose|a2: int| 1 <= a2 < t && element_for_id(self, old_visited[a2]@)
                                == Some(j as int);
                            self.lemma_registered_id(old_visited[a2]@, j as int);
                            assert(false);
                        }
                    }
                    marks.insert(j);
                    match &self.elements[j].owner {
                        None => {
                            proof {
                                assert(owner_walk(self, i as int, t + 1) is None);
                                assert forall|p: nat, q: nat| p < q && #[trigger] owner_walk(self, i as int, p) is Some
                                    implies owner_walk(self, i as int, p) != #[trigger] owner_walk(self, i as int, q) by {
                                    if q > t {
                                        self.lemma_walk_stops(i as int, t + 1, q);
                                    } else {
                                        assert(visited@[p as int]@ != visited@[q as int]@);
                                    }
                                }
                            }
                            return false;
                        }
                        Some(next) => {
                            cursor = next.clone();
                            proof {
                                assert forall|x: int| #[trigger] marks.contains(x) implies exists|a: int| 1 <= a < t + 1
                                    && element_for_id(self, visited@[a]@) == Some(x) by {
                                    if x == j as int {
                                        assert(element_for_id(self, visited@[t as int]@) == Some(x));
                                    } else {
                                        let a3 = choose|a3: int| 1 <= a3 < t && element_for_id(self, old_visited[a3]@)
                                            == Some(x);
                                        assert(visited@[a3] == old_visited[a3]);
                                    }
                                }
                                t = t + 1;
                            }
                        }
                    }
                }
            }
        }
    }

    fn check_owner(&self, i: usize, issues: &mut Vec<ValidationIssue>)
        requires
            i < self.elements@.len(),
        ensures
            issue_pairs(final(issues)@) == issue_pairs(old(issues)@) + owner_issues(self, i as int),
    {
        let ghost start = issue_pairs(issues@);
        let element = &self.elements[i];
        if let Some(owner) = &element.owner {
            let location = indexed_text("elements[", i);
            let location = join2(location.as_str(), ".owner");
            if *owner == element.id {
                push_issue(issues, location, owned("element cannot own itself"));
            } else if self.element_index(owner.as_str()).is_none() {
                let quoted = debug_quoted(owner.as_str());
                push_issue(issues, location, join2("unknown owner id ", quoted.as_str()));
            } else if self.owner_cycle(i) {
                push_issue(issues, location, owned("ownership cycle detected"));
            }
        }
        assert(issue_pairs(issues@) =~= start + owner_issues(self, i as int));
    }

    /// Validate identifiers, references, multiplicities, and relationship roles.
    /// Every failure is collected, in the order of `model_issues`.
    pub fn validate(&self) -> (r: Result<(), ValidationError>)
        ensures
            match r {
                Ok(()) => model_issues(self).len() == 0,
                Err(e) => e.pairs() == model_issues(self) && e.issues@.len() > 0,
            },
    {
        let mut issues: Vec<ValidationIssue> = Vec::new();
        assert(issue_pairs(issues@) =~= Seq::<Issue>::empty());
        self.check_header(&mut issues);
        let mut i: usize = 0;
        while i < self.elements.len()
            invariant
                i <= self.elements@.len(),
                issue_pairs(issues@) == header_issues(self) + elements_issues_upto(self, i as int),
            decreases self.elements@.len() - i,
        {
            self.check_element(i, &mut issues);
            assert(issue_pairs(issues@) =~= header_issues(self) + elements_issues_upto(self, i + 1));
            i = i + 1;
        }
        let ghost after_elements = issue_pairs(issues@);
        let mut k: usize = 0;
        while k < self.relationships.len()
            invariant
                k <= self.relationships@.len(),
                issue_pairs(issues@) == after_elements + relationships_issues_upto(self, k as int),
            decreases self.relationships@.len() - k,
        {
            self.check_relationship(k, &mut issues);
            assert(issue_pairs(issues@) =~= after_elements + relationships_issues_upto(self, k + 1));
            k = k + 1;
        }
        let ghost after_relationships = issue_pairs(issues@);
        let mut i: usize = 0;
        while i < self.elements.len()
            invariant
                i <= self.elements@.len(),
                issue_pairs(issues@) == after_relationships + owners_issues_upto(self, i as int),
            decreases self.elements@.len() - i,
        {
            self.check_owner(i, &mut issues);
            assert(issue_pairs(issues@) =~= after_relationships + owners_issues_upto(self, i + 1));
            i = i + 1;
        }
        assert(issue_pairs(issues@) =~= model_issues(self));
        if issues.len() == 0 {
            Ok(())
        } else {
            Err(ValidationError { issues })
        }
    }
}

} // verus!
