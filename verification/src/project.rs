//! The parser-neutral project representation that semantic validation works
//! on: sources, elements with their ownership, the references they make, and
//! the requirement, satisfaction and verification records.

use vstd::prelude::*;

verus! {

/// Index of a source in `Project::sources`.
pub type SourceId = usize;

/// Index of an element in `Project::elements`.
pub type ElementId = usize;

/// A point in a source: byte offset, 1-based line and 1-based byte column.
#[derive(Debug, Clone, Copy, PartialEq, Eq, Structural)]
pub struct Position {
    pub byte: usize,
    pub line: usize,
    pub column: usize,
}

#[derive(Debug, Clone, Copy, PartialEq, Eq, Structural)]
pub struct Span {
    pub source: SourceId,
    pub start: Position,
    pub end: Position,
}

#[derive(Debug, Clone, Copy, PartialEq, Eq, Structural)]
pub enum ReferenceForm {
    Qualified,
    FeatureChain,
}

/// A reference written in a source: its segments, both as text and as
/// indices into the project's name table.
#[derive(Debug)]
pub struct Reference {
    pub text: String,
    pub segments: Vec<String>,
    pub names: Vec<usize>,
    pub form: ReferenceForm,
    pub span: Span,
}

#[derive(Debug)]
pub struct Documentation {
    pub text: String,
    pub span: Span,
}

#[derive(Debug)]
pub struct Source {
    pub id: SourceId,
    pub path: String,
}

#[derive(Debug, Clone, Copy, PartialEq, Eq, Structural)]
pub enum ElementKind {
    Package,
    PartDefinition,
    PartUsage,
    RequirementDefinition,
    RequirementUsage,
    ConstraintDefinition,
    ConstraintUsage,
    VerificationDefinition,
    VerificationUsage,
    Objective,
    Subject,
    Actor,
    Stakeholder,
    GenericDefinition,
    GenericUsage,
}

pub open spec fn kind_is_usage(kind: ElementKind) -> bool {
    match kind {
        ElementKind::PartUsage | ElementKind::RequirementUsage | ElementKind::ConstraintUsage
        | ElementKind::VerificationUsage | ElementKind::Objective | ElementKind::Subject
        | ElementKind::Actor | ElementKind::Stakeholder | ElementKind::GenericUsage => true,
        _ => false,
    }
}

/// Requirement usages, including objectives.
pub open spec fn kind_is_requirement_usage(kind: ElementKind) -> bool {
    kind == ElementKind::RequirementUsage || kind == ElementKind::Objective
}

impl ElementKind {
    pub fn is_usage(self) -> (b: bool)
        ensures
            b == kind_is_usage(self),
    {
        matches!(
            self,
            ElementKind::PartUsage | ElementKind::RequirementUsage | ElementKind::ConstraintUsage
                | ElementKind::VerificationUsage | ElementKind::Objective | ElementKind::Subject
                | ElementKind::Actor | ElementKind::Stakeholder | ElementKind::GenericUsage
        )
    }

    pub fn is_requirement_usage(self) -> (b: bool)
        ensures
            b == kind_is_requirement_usage(self),
    {
        matches!(self, ElementKind::RequirementUsage | ElementKind::Objective)
    }
}

#[derive(Debug)]
pub struct Element {
    pub id: ElementId,
    pub kind: ElementKind,
    pub name: Option<String>,
    pub short_name: Option<String>,
    /// The name and short name as indices into the project's name table.
    pub name_id: Option<usize>,
    pub short_name_id: Option<usize>,
    pub owner: Option<ElementId>,
    pub package: Option<ElementId>,
    pub span: Span,
    pub declared_types: Vec<Reference>,
    pub specializations: Vec<Reference>,
    pub documentation: Vec<Documentation>,
    pub referenced_feature: Option<Reference>,
}

#[derive(Debug, Clone, Copy, PartialEq, Eq, Structural)]
pub enum ImportVisibility {
    Missing,
    Private,
    Protected,
    Public,
}

#[derive(Debug)]
pub struct Import {
    pub scope: Option<ElementId>,
    pub visibility: ImportVisibility,
    pub reference: Reference,
    pub all: bool,
    pub wildcard: bool,
    pub recursive: bool,
    pub filtered: bool,
    pub span: Span,
}

#[derive(Debug)]
pub struct Requirement {
    pub element: ElementId,
    pub subjects: Vec<ElementId>,
    pub actors: Vec<ElementId>,
    pub stakeholders: Vec<ElementId>,
    pub assumptions: Vec<ElementId>,
    pub required_constraints: Vec<ElementId>,
    pub nested_requirements: Vec<ElementId>,
}

#[derive(Debug)]
pub struct Satisfaction {
    pub package: Option<ElementId>,
    pub owner: Option<ElementId>,
    pub requirement: Option<Reference>,
    pub inline_requirement: Option<ElementId>,
    pub subject: Option<Reference>,
    pub explicitly_asserted: bool,
    pub negated: bool,
    pub span: Span,
}

#[derive(Debug)]
pub struct Verification {
    pub element: ElementId,
    pub subjects: Vec<ElementId>,
    pub objectives: Vec<ElementId>,
}

#[derive(Debug)]
pub struct VerifyAssertion {
    pub owner: ElementId,
    pub package: Option<ElementId>,
    pub target: Option<Reference>,
    pub inline_requirement: Option<ElementId>,
    pub span: Span,
}

/// The stable diagnostic codes of semantic validation.
#[derive(Debug, Clone, Copy, PartialEq, Eq, Structural)]
pub enum Code {
    UnresolvedReference,
    AmbiguousReference,
    ImportVisibility,
    UnsupportedImport,
    UnsupportedVisibility,
    UnsupportedRelationshipBody,
    UnsupportedMultityping,
    RequirementTypeCardinality,
    RequirementTypeKind,
    RequirementSpecializationKind,
    RequirementInheritanceCycle,
    RequirementSubjectCardinality,
    RequirementSubjectBinding,
    RequirementPartParameterType,
    RequirementConstraintTypeKind,
    RequirementRequiredMemberKind,
    SatisfactionTargetKind,
    SatisfactionSubjectKind,
    SatisfactionSubjectConformance,
    VerificationCaseTypeCardinality,
    VerificationCaseTypeKind,
    VerificationCaseSpecializationKind,
    VerificationInheritanceCycle,
    VerificationObjectiveCardinality,
    VerificationSubjectBinding,
    VerificationSubjectConformance,
    VerificationPlacement,
    VerificationTargetKind,
}

pub open spec fn code_text(code: Code) -> Seq<char> {
    match code {
        Code::UnresolvedReference => "resolution.unresolved_reference"@,
        Code::AmbiguousReference => "resolution.ambiguous_reference"@,
        Code::ImportVisibility => "semantic.import.visibility"@,
        Code::UnsupportedImport => "semantic.profile.unsupported_import"@,
        Code::UnsupportedVisibility => "semantic.profile.unsupported_visibility"@,
        Code::UnsupportedRelationshipBody => "semantic.profile.unsupported_relationship_body"@,
        Code::UnsupportedMultityping => "semantic.profile.unsupported_multityping"@,
        Code::RequirementTypeCardinality => "semantic.requirement.type_cardinality"@,
        Code::RequirementTypeKind => "semantic.requirement.type_kind"@,
        Code::RequirementSpecializationKind => "semantic.requirement.specialization_kind"@,
        Code::RequirementInheritanceCycle => "semantic.requirement.inheritance_cycle"@,
        Code::RequirementSubjectCardinality => "semantic.requirement.subject_cardinality"@,
        Code::RequirementSubjectBinding => "semantic.requirement.subject_binding"@,
        Code::RequirementPartParameterType => "semantic.requirement.part_parameter_type"@,
        Code::RequirementConstraintTypeKind => "semantic.requirement.constraint_type_kind"@,
        Code::RequirementRequiredMemberKind => "semantic.requirement.required_member_kind"@,
        Code::SatisfactionTargetKind => "semantic.satisfaction.target_kind"@,
        Code::SatisfactionSubjectKind => "semantic.satisfaction.subject_kind"@,
        Code::SatisfactionSubjectConformance => "semantic.satisfaction.subject_conformance"@,
        Code::VerificationCaseTypeCardinality => "semantic.verification.case_type_cardinality"@,
        Code::VerificationCaseTypeKind => "semantic.verification.case_type_kind"@,
        Code::VerificationCaseSpecializationKind => "semantic.verification.case_specialization_kind"@,
        Code::VerificationInheritanceCycle => "semantic.verification.inheritance_cycle"@,
        Code::VerificationObjectiveCardinality => "semantic.verification.objective_cardinality"@,
        Code::VerificationSubjectBinding => "semantic.verification.subject_binding"@,
        Code::VerificationSubjectConformance => "semantic.verification.subject_conformance"@,
        Code::VerificationPlacement => "semantic.verification.placement"@,
        Code::VerificationTargetKind => "semantic.verification.target_kind"@,
    }
}

impl Code {
    pub fn as_str(self) -> (s: &'static str)
        ensures
            s@ == code_text(self),
    {
        match self {
            Code::UnresolvedReference => "resolution.unresolved_reference",
            Code::AmbiguousReference => "resolution.ambiguous_reference",
            Code::ImportVisibility => "semantic.import.visibility",
            Code::UnsupportedImport => "semantic.profile.unsupported_import",
            Code::UnsupportedVisibility => "semantic.profile.unsupported_visibility",
            Code::UnsupportedRelationshipBody => "semantic.profile.unsupported_relationship_body",
            Code::UnsupportedMultityping => "semantic.profile.unsupported_multityping",
            Code::RequirementTypeCardinality => "semantic.requirement.type_cardinality",
            Code::RequirementTypeKind => "semantic.requirement.type_kind",
            Code::RequirementSpecializationKind => "semantic.requirement.specialization_kind",
            Code::RequirementInheritanceCycle => "semantic.requirement.inheritance_cycle",
            Code::RequirementSubjectCardinality => "semantic.requirement.subject_cardinality",
            Code::RequirementSubjectBinding => "semantic.requirement.subject_binding",
            Code::RequirementPartParameterType => "semantic.requirement.part_parameter_type",
            Code::RequirementConstraintTypeKind => "semantic.requirement.constraint_type_kind",
            Code::RequirementRequiredMemberKind => "semantic.requirement.required_member_kind",
            Code::SatisfactionTargetKind => "semantic.satisfaction.target_kind",
            Code::SatisfactionSubjectKind => "semantic.satisfaction.subject_kind",
            Code::SatisfactionSubjectConformance => "semantic.satisfaction.subject_conformance",
            Code::VerificationCaseTypeCardinality => "semantic.verification.case_type_cardinality",
            Code::VerificationCaseTypeKind => "semantic.verification.case_type_kind",
            Code::VerificationCaseSpecializationKind => "semantic.verification.case_specialization_kind",
            Code::VerificationInheritanceCycle => "semantic.verification.inheritance_cycle",
            Code::VerificationObjectiveCardinality => "semantic.verification.objective_cardinality",
            Code::VerificationSubjectBinding => "semantic.verification.subject_binding",
            Code::VerificationSubjectConformance => "semantic.verification.subject_conformance",
            Code::VerificationPlacement => "semantic.verification.placement",
            Code::VerificationTargetKind => "semantic.verification.target_kind",
        }
    }
}

/// The codes of references that do not resolve uniquely.
pub open spec fn is_resolution_code(c: Code) -> bool {
    c == Code::UnresolvedReference || c == Code::AmbiguousReference
}

/// A finding of the lowering itself: a construct outside the profile.
#[derive(Debug)]
pub struct ProfileIssue {
    pub span: Span,
    pub code: Code,
    pub message: String,
}

#[derive(Debug)]
pub struct Project {
    pub sources: Vec<Source>,
    /// Every distinct name and reference segment, each once.
    pub names: Vec<String>,
    pub elements: Vec<Element>,
    pub imports: Vec<Import>,
    pub requirements: Vec<Requirement>,
    pub verifications: Vec<Verification>,
    pub satisfactions: Vec<Satisfaction>,
    pub verify_assertions: Vec<VerifyAssertion>,
    pub profile_issues: Vec<ProfileIssue>,
}

impl Project {
    /// A span in one of the sources, with one-based lines and columns.
    pub open spec fn span_ok(&self, span: Span) -> bool {
        &&& span.source < self.sources@.len()
        &&& span.start.line >= 1 && span.start.column >= 1
        &&& span.end.line >= 1 && span.end.column >= 1
    }

    pub open spec fn id_ok(&self, id: ElementId) -> bool {
        id < self.elements@.len()
    }

    pub open spec fn opt_id_ok(&self, id: Option<ElementId>) -> bool {
        match id {
            Some(i) => i < self.elements@.len(),
            None => true,
        }
    }

    /// The name with index `k` is `text`.
    pub open spec fn name_is(&self, k: usize, text: Seq<char>) -> bool {
        k < self.names@.len() && self.names@[k as int]@ == text
    }

    pub open spec fn opt_name_ok(&self, id: Option<usize>, text: Option<String>) -> bool {
        match (id, text) {
            (Some(k), Some(t)) => self.name_is(k, t@),
            (None, None) => true,
            _ => false,
        }
    }

    /// A reference with at least one segment, each interned, and a span in a source.
    pub open spec fn reference_ok(&self, r: Reference) -> bool {
        &&& r.segments@.len() > 0
        &&& r.names@.len() == r.segments@.len()
        &&& forall|j: int| 0 <= j < r.names@.len() ==> self.name_is(#[trigger] r.names@[j], r.segments@[j]@)
        &&& self.span_ok(r.span)
    }

    pub open spec fn references_ok(&self, rs: Seq<Reference>) -> bool {
        forall|j: int| 0 <= j < rs.len() ==> self.reference_ok(#[trigger] rs[j])
    }

    pub open spec fn opt_reference_ok(&self, r: Option<Reference>) -> bool {
        match r {
            Some(x) => self.reference_ok(x),
            None => true,
        }
    }

    pub open spec fn ids_ok(&self, ids: Seq<ElementId>) -> bool {
        forall|j: int| 0 <= j < ids.len() ==> #[trigger] ids[j] < self.elements@.len()
    }

    pub open spec fn element_ok(&self, i: int) -> bool {
        self.element_valid(self.elements@[i], i)
    }

    /// `e` may stand at index `i`: numbered `i`, owned by and inside earlier
    /// elements, with spans in the sources and interned names and references.
    pub open spec fn element_valid(&self, e: Element, i: int) -> bool {
        &&& e.id == i
        &&& (e.owner matches Some(o) ==> o < i)
        &&& (e.package matches Some(p) ==> p < i)
        &&& self.span_ok(e.span)
        &&& self.opt_name_ok(e.name_id, e.name)
        &&& self.opt_name_ok(e.short_name_id, e.short_name)
        &&& self.references_ok(e.declared_types@)
        &&& self.references_ok(e.specializations@)
        &&& self.opt_reference_ok(e.referenced_feature)
    }

    pub open spec fn import_ok(&self, import: Import) -> bool {
        &&& self.opt_id_ok(import.scope)
        &&& self.reference_ok(import.reference)
        &&& self.span_ok(import.span)
    }

    pub open spec fn requirement_ok(&self, r: Requirement) -> bool {
        &&& self.id_ok(r.element)
        &&& self.ids_ok(r.subjects@) && self.ids_ok(r.actors@) && self.ids_ok(r.stakeholders@)
        &&& self.ids_ok(r.assumptions@) && self.ids_ok(r.required_constraints@)
        &&& self.ids_ok(r.nested_requirements@)
    }

    pub open spec fn verification_ok(&self, v: Verification) -> bool {
        &&& self.id_ok(v.element)
        &&& self.ids_ok(v.subjects@) && self.ids_ok(v.objectives@)
    }

    pub open spec fn satisfaction_ok(&self, s: Satisfaction) -> bool {
        &&& self.opt_id_ok(s.package) && self.opt_id_ok(s.owner) && self.opt_id_ok(s.inline_requirement)
        &&& self.opt_reference_ok(s.requirement) && self.opt_reference_ok(s.subject)
        &&& self.span_ok(s.span)
        &&& (s.inline_requirement is None ==> s.requirement is Some)
        &&& (s.inline_requirement matches Some(i) ==> i < self.elements@.len()
            && kind_is_requirement_usage(self.elements@[i as int].kind))
    }

    pub open spec fn assertion_ok(&self, a: VerifyAssertion) -> bool {
        &&& self.id_ok(a.owner) && self.opt_id_ok(a.package) && self.opt_id_ok(a.inline_requirement)
        &&& self.opt_reference_ok(a.target)
        &&& self.span_ok(a.span)
        &&& (a.inline_requirement matches Some(i) ==> i < self.elements@.len()
            && kind_is_requirement_usage(self.elements@[i as int].kind))
    }

    /// The project's internal consistency: numbering, ownership order, spans
    /// within the sources, interned names, and records that point at elements.
    pub open spec fn wf(&self) -> bool {
        &&& forall|s: int| 0 <= s < self.sources@.len() ==> (#[trigger] self.sources@[s]).id == s
        &&& forall|a: int, b: int| 0 <= a < b < self.names@.len() ==> (#[trigger] self.names@[a])@
            != (#[trigger] self.names@[b])@
        &&& forall|i: int| 0 <= i < self.elements@.len() ==> #[trigger] self.element_ok(i)
        &&& forall|i: int| 0 <= i < self.imports@.len() ==> #[trigger] self.import_ok(self.imports@[i])
        &&& forall|i: int| 0 <= i < self.requirements@.len() ==> #[trigger] self.requirement_ok(self.requirements@[i])
        &&& forall|i: int| 0 <= i < self.verifications@.len() ==> #[trigger] self.verification_ok(self.verifications@[i])
        &&& forall|i: int| 0 <= i < self.satisfactions@.len() ==> #[trigger] self.satisfaction_ok(self.satisfactions@[i])
        &&& forall|i: int| 0 <= i < self.verify_assertions@.len() ==> #[trigger] self.assertion_ok(self.verify_assertions@[i])
        &&& forall|i: int| 0 <= i < self.profile_issues@.len() ==> #[trigger] self.span_ok(self.profile_issues@[i].span)
        &&& forall|i: int| 0 <= i < self.profile_issues@.len() ==> !is_resolution_code(
            (#[trigger] self.profile_issues@[i]).code)
    }
}

impl Project {
    /// The element with number `id`.
    pub fn element(&self, id: ElementId) -> (e: &Element)
        requires
            id < self.elements@.len(),
        ensures
            *e == self.elements@[id as int],
    {
        &self.elements[id]
    }

    /// The source with number `id`.
    pub fn source(&self, id: SourceId) -> (s: &Source)
        requires
            id < self.sources@.len(),
        ensures
            *s == self.sources@[id as int],
    {
        &self.sources[id]
    }
}

} // verus!
