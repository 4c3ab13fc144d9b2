//! The bounded SysML 2.0 requirements structure profile: the semantic rules
//! for requirements, satisfactions and verifications over a resolved project.

use vstd::prelude::*;
use crate::marks::Marks;
use crate::project::{
    code_text, is_resolution_code, ProfileIssue, kind_is_requirement_usage, kind_is_usage, Code, Element, ElementId, ElementKind, Import,
    ImportVisibility, Project, Reference, Requirement, Satisfaction, Span, Verification, VerifyAssertion,
};
use crate::resolve::{
    carries_reference_name, direct_target, finds_reference, Resolution, ResolutionFailure, ResolutionOutcome, ResolutionState,
    Resolver,
};
use crate::order::{
    lemma_text_less_irreflexive, lemma_text_less_total, lemma_text_less_transitive, text_before, text_less,
};
use crate::strings::{debug_quoted, debug_text, join2, join3, owned, same_text};

verus! {

/// One semantic finding, reported against a span of a source.
pub struct SemanticDiagnostic {
    pub span: Span,
    pub code: Code,
    pub message: String,
}

#[derive(Debug, Clone, Copy, PartialEq, Eq, Structural)]
pub enum Conformance {
    Conforms,
    DoesNotConform,
    Indeterminate,
}

#[derive(Debug, Clone, Copy, PartialEq, Eq, Structural)]
pub enum SubjectTypeOutcome {
    Resolved(ElementId),
    Missing,
    Invalid,
}

/// More than one type or specialization parent, or both kinds at once.
pub open spec fn multiple_parents(e: Element) -> bool {
    e.declared_types@.len() > 1 || e.specializations@.len() > 1 || (e.declared_types@.len() > 0
        && e.specializations@.len() > 0)
}

pub fn has_multiple_parent_relationships(element: &Element) -> (b: bool)
    ensures
        b == multiple_parents(*element),
{
    element.declared_types.len() > 1 || element.specializations.len() > 1
        || (element.declared_types.len() != 0 && element.specializations.len() != 0)
}

/// The reference reported for a multi-typed element: the second declared
/// type, else the first specialization beside a type, else the second
/// specialization.
pub open spec fn unsupported_parent_index(e: Element) -> Option<(bool, int)> {
    if e.declared_types@.len() > 1 {
        Some((true, 1))
    } else if e.declared_types@.len() > 0 && e.specializations@.len() > 0 {
        Some((false, 0))
    } else if e.specializations@.len() > 1 {
        Some((false, 1))
    } else {
        None
    }
}

/// The specialization reported when an element has a specialization beside
/// another parent: the second specialization, or the first one beside a
/// declared type.
pub open spec fn extra_specialization(e: Element) -> Option<Span> {
    if e.specializations@.len() > 0 && e.declared_types@.len() + e.specializations@.len() > 1 {
        if e.declared_types@.len() == 0 {
            Some(e.specializations@[1].span)
        } else {
            Some(e.specializations@[0].span)
        }
    } else {
        None
    }
}

/// The span of the reference reported for a multi-typed element.
pub open spec fn unsupported_parent_span(e: Element) -> Option<Span> {
    match unsupported_parent_index(e) {
        Some((typed, k)) => Some(if typed { e.declared_types@[k].span } else { e.specializations@[k].span }),
        None => None,
    }
}

/// The head of a type chain is checked in `ds`: a multi-typed element is
/// reported, and so is some reference when one of its declared types or
/// specializations names nothing.
pub open spec fn chain_head_checked(p: &Project, ds: Seq<SemanticDiagnostic>, e: Element) -> bool {
    &&& unsupported_parent_span(e) matches Some(s) ==> has_finding(ds, s, Code::UnsupportedMultityping)
    &&& (exists|k: int| 0 <= k < e.declared_types@.len() && names_nothing(p, #[trigger] e.declared_types@[k]))
        ==> resolution_reported(ds)
    &&& (exists|k: int| 0 <= k < e.specializations@.len() && names_nothing(p, #[trigger] e.specializations@[k]))
        ==> resolution_reported(ds)
}

/// Findings only appended keep a reported reference reported.
pub proof fn lemma_resolution_reported_kept(a: Seq<SemanticDiagnostic>, b: Seq<SemanticDiagnostic>)
    requires
        keeps_findings(a, b),
        resolution_reported(a),
    ensures
        resolution_reported(b),
{
    let j = choose|j: int| 0 <= j < a.len() && (#[trigger] a[j].code == Code::UnresolvedReference
        || a[j].code == Code::AmbiguousReference);
    assert(same_finding(a[j], a[j].span, a[j].code));
    lemma_keeps_finding(a, b, a[j].span, a[j].code);
    let k = choose|k: int| 0 <= k < b.len() && same_finding(#[trigger] b[k], a[j].span, a[j].code);
    assert(b[k].code == a[j].code);
}

/// Findings only appended keep a checked chain head checked.
pub proof fn lemma_chain_head_kept(p: &Project, a: Seq<SemanticDiagnostic>, b: Seq<SemanticDiagnostic>, e: Element)
    requires
        keeps_findings(a, b),
        chain_head_checked(p, a, e),
    ensures
        chain_head_checked(p, b, e),
{
    if let Some(s) = unsupported_parent_span(e) {
        lemma_keeps_finding(a, b, s, Code::UnsupportedMultityping);
    }
    if resolution_reported(a) {
        lemma_resolution_reported_kept(a, b);
    }
}

/// The subject-binding code of a requirement or a verification.
pub open spec fn binding_code(requirement: bool) -> Code {
    if requirement { Code::RequirementSubjectBinding } else { Code::VerificationSubjectBinding }
}

/// The subject-binding checks of first subject `s` of `owner` hold in `ds`: a
/// subject plainly typed by something without specializations other than the
/// inherited subject type is reported at the subject, and a typed subject
/// bound to a feature plainly typed by something without specializations
/// other than that type is reported at the binding.
pub open spec fn binding_checked(p: &Project, ds: Seq<SemanticDiagnostic>, owner: ElementId, s: ElementId,
    requirement: bool) -> bool {
    &&& forall|x: usize, z: usize| (requirement ==> kind_is_requirement_usage(p.elements@[owner as int].kind))
        && #[trigger] inherits_subject_type(p, owner, requirement, z) && #[trigger] plainly_typed(p,
        p.elements@[s as int], x) && x != z && p.elements@[x as int].specializations@.len() == 0 ==> has_finding(ds,
        p.elements@[s as int].span, binding_code(requirement))
    &&& forall|d: usize, v: usize, w: usize| inherits_nothing(p, owner, requirement) && #[trigger] typed_plainly(p,
        p.elements@[s as int], d) && #[trigger] bound_plainly(p, s, v) && v != s && kind_is_usage(
        p.elements@[v as int].kind) && #[trigger] plainly_typed(p, p.elements@[v as int], w) && w != d
        && p.elements@[w as int].specializations@.len() == 0 ==> has_finding(ds,
        p.elements@[s as int].referenced_feature.unwrap().span, binding_code(requirement))
}

/// Findings kept keep the subject-binding checks that held.
pub proof fn lemma_binding_checked_kept(p: &Project, a: Seq<SemanticDiagnostic>, b: Seq<SemanticDiagnostic>,
    owner: ElementId, s: ElementId, requirement: bool)
    requires
        keeps_findings(a, b),
        binding_checked(p, a, owner, s, requirement),
    ensures
        binding_checked(p, b, owner, s, requirement),
{
    if has_finding(a, p.elements@[s as int].span, binding_code(requirement)) {
        lemma_keeps_finding(a, b, p.elements@[s as int].span, binding_code(requirement));
    }
    if p.elements@[s as int].referenced_feature is Some && has_finding(a,
        p.elements@[s as int].referenced_feature.unwrap().span, binding_code(requirement)) {
        lemma_keeps_finding(a, b, p.elements@[s as int].referenced_feature.unwrap().span, binding_code(requirement));
    }
}

/// The subject-binding checks follow from what `validate_subject_binding`
/// states of one call.
proof fn lemma_binding_checked_from_call(p: &Project, a: Seq<SemanticDiagnostic>, b: Seq<SemanticDiagnostic>,
    owner: ElementId, s: ElementId, requirement: bool)
    requires
        forall|x: usize, z: usize| (requirement ==> kind_is_requirement_usage(p.elements@[owner as int].kind))
            && #[trigger] inherits_subject_type(p, owner, requirement, z) && #[trigger] plainly_typed(p,
            p.elements@[s as int], x) && x != z && p.elements@[x as int].specializations@.len() == 0 ==> has_finding(b,
            p.elements@[s as int].span, binding_code(requirement)),
        forall|d: usize, v: usize, w: usize| inherits_nothing(p, owner, requirement) && #[trigger] typed_plainly(p,
            p.elements@[s as int], d) && #[trigger] bound_plainly(p, s, v) && v != s && kind_is_usage(
            p.elements@[v as int].kind) && #[trigger] plainly_typed(p, p.elements@[v as int], w) && w != d
            && p.elements@[w as int].specializations@.len() == 0 ==> b.len() == a.len() + 1 && same_finding(b.last(),
            p.elements@[s as int].referenced_feature.unwrap().span, binding_code(requirement)),
    ensures
        binding_checked(p, b, owner, s, requirement),
{
    assert forall|d: usize, v: usize, w: usize| inherits_nothing(p, owner, requirement) && #[trigger] typed_plainly(p,
        p.elements@[s as int], d) && #[trigger] bound_plainly(p, s, v) && v != s && kind_is_usage(
        p.elements@[v as int].kind) && #[trigger] plainly_typed(p, p.elements@[v as int], w) && w != d
        && p.elements@[w as int].specializations@.len() == 0 implies has_finding(b,
        p.elements@[s as int].referenced_feature.unwrap().span, binding_code(requirement)) by {
        assert(same_finding(b[b.len() - 1], p.elements@[s as int].referenced_feature.unwrap().span,
            binding_code(requirement)));
    }
}

/// `owner` inherits no subject type: a requirement definition (or a
/// requirement or verification with no parents).
pub open spec fn inherits_nothing(p: &Project, owner: ElementId, requirement: bool) -> bool {
    if requirement {
        !kind_is_requirement_usage(p.elements@[owner as int].kind) || parentless(p.elements@[owner as int])
    } else {
        parentless(p.elements@[owner as int])
    }
}

/// The subject type that `owner` inherits is `z`: it has one parent
/// reference, to a requirement (or verification) with no parents whose
/// subject is plainly typed by `z`.
pub open spec fn inherits_subject_type(p: &Project, owner: ElementId, requirement: bool, z: usize) -> bool {
    exists|y: ElementId| #[trigger] sole_parent(p, owner, requirement, y) && if requirement {
        requirement_root_subject(p, y, z)
    } else {
        verification_root(p, y, Some(z))
    }
}

/// The readable name of each element kind.
pub fn kind_name(kind: ElementKind) -> (s: &'static str)
    ensures
        s@ == kind_text(kind),
{
    match kind {
        ElementKind::Package => "package",
        ElementKind::PartDefinition => "part definition",
        ElementKind::PartUsage => "part usage",
        ElementKind::RequirementDefinition => "requirement definition",
        ElementKind::RequirementUsage => "requirement usage",
        ElementKind::ConstraintDefinition => "constraint definition",
        ElementKind::ConstraintUsage => "constraint usage",
        ElementKind::VerificationDefinition => "verification definition",
        ElementKind::VerificationUsage => "verification usage",
        ElementKind::Objective => "objective",
        ElementKind::Subject => "subject",
        ElementKind::Actor => "actor",
        ElementKind::Stakeholder => "stakeholder",
        ElementKind::GenericDefinition => "definition",
        ElementKind::GenericUsage => "usage",
    }
}

pub open spec fn kind_text(kind: ElementKind) -> Seq<char> {
    match kind {
        ElementKind::Package => "package"@,
        ElementKind::PartDefinition => "part definition"@,
        ElementKind::PartUsage => "part usage"@,
        ElementKind::RequirementDefinition => "requirement definition"@,
        ElementKind::RequirementUsage => "requirement usage"@,
        ElementKind::ConstraintDefinition => "constraint definition"@,
        ElementKind::ConstraintUsage => "constraint usage"@,
        ElementKind::VerificationDefinition => "verification definition"@,
        ElementKind::VerificationUsage => "verification usage"@,
        ElementKind::Objective => "objective"@,
        ElementKind::Subject => "subject"@,
        ElementKind::Actor => "actor"@,
        ElementKind::Stakeholder => "stakeholder"@,
        ElementKind::GenericDefinition => "definition"@,
        ElementKind::GenericUsage => "usage"@,
    }
}

/// The first `old.len()` diagnostics are unchanged.
pub open spec fn extends(old: Seq<SemanticDiagnostic>, new: Seq<SemanticDiagnostic>) -> bool {
    old.len() <= new.len() && forall|j: int| 0 <= j < old.len() ==> #[trigger] new[j] == old[j]
}

pub open spec fn spans_ok(p: &Project, ds: Seq<SemanticDiagnostic>) -> bool {
    forall|j: int| 0 <= j < ds.len() ==> #[trigger] p.span_ok(ds[j].span)
}

pub struct RequirementsValidator<'a> {
    pub project: &'a Project,
    pub diagnostics: Vec<SemanticDiagnostic>,
}

/// No two findings of `ds` report the same unresolved or ambiguous reference:
/// a resolution finding's span and code occur once.
pub open spec fn resolutions_unique(ds: Seq<SemanticDiagnostic>) -> bool {
    forall|a: int, b: int| 0 <= a < b < ds.len() && #[trigger] is_resolution_code(ds[a].code) ==> !same_finding(
        #[trigger] ds[b], ds[a].span, ds[a].code)
}

pub open spec fn opt_id_below(id: Option<ElementId>, n: nat) -> bool {
    match id {
        Some(i) => i < n,
        None => true,
    }
}

impl<'a> RequirementsValidator<'a> {
    pub open spec fn inv(&self) -> bool {
        self.project.wf() && spans_ok(self.project, self.diagnostics@) && resolutions_unique(self.diagnostics@)
    }

    pub open spec fn n(&self) -> nat {
        self.project.elements@.len()
    }

    pub open spec fn element_at(&self, id: ElementId) -> Element {
        self.project.elements@[id as int]
    }

    pub fn new(project: &'a Project) -> (v: Self)
        requires
            project.wf(),
        ensures
            v.inv(),
            v.project == project,
            v.diagnostics@.len() == 0,
    {
        RequirementsValidator { project, diagnostics: Vec::new() }
    }

    fn resolver(&self) -> (r: Resolver<'a>)
        ensures
            r.project == self.project,
    {
        Resolver { project: self.project }
    }

    // ----- resolution without reporting -------------------------------------

    pub(crate) fn resolve_reference_outcome(
        &self,
        reference: &Reference,
        owner: Option<ElementId>,
        package: Option<ElementId>,
    ) -> (o: ResolutionOutcome)
        requires
            self.project.wf(),
            self.project.reference_ok(*reference),
            self.project.opt_id_ok(owner),
            self.project.opt_id_ok(package),
        ensures
            o.ok(self.project),
            finds_reference(self.project, o, *reference),
            forall|x: usize| #[trigger] direct_target(self.project, *reference, owner, x) ==> o.resolution
                == Resolution::Found(x) && o.failures@.len() == 0,
    {
        let mut state = ResolutionState::new();
        let resolver = self.resolver();
        proof {
            assert(state.members@.no_duplicates());
            assert(state.imports@.no_duplicates());
            assert(state.members@.len() == 0);
        }
        resolver.resolve_reference_guarded(reference, owner, package, &mut state)
    }

    /// The resolution of a reference; a result reached through a failing
    /// parent relationship counts as unresolved.
    pub(crate) fn resolve_reference(
        &self,
        reference: &Reference,
        owner: Option<ElementId>,
        package: Option<ElementId>,
    ) -> (r: Resolution)
        requires
            self.project.wf(),
            self.project.reference_ok(*reference),
            self.project.opt_id_ok(owner),
            self.project.opt_id_ok(package),
        ensures
            r matches Resolution::Found(id) ==> id < self.n() && carries_reference_name(self.project, *reference, id),
            forall|x: usize| #[trigger] direct_target(self.project, *reference, owner, x) ==> r == Resolution::Found(x),
    {
        let outcome = self.resolve_reference_outcome(reference, owner, package);
        if outcome.failures.len() != 0 && matches!(outcome.resolution, Resolution::Found(_)) {
            Resolution::Missing
        } else {
            outcome.resolution
        }
    }

    /// Resolves a reference made by element `id` from its own scope.
    fn resolve_from(&self, reference: &Reference, id: ElementId) -> (r: Resolution)
        requires
            self.project.wf(),
            id < self.n(),
            self.project.reference_ok(*reference),
        ensures
            r matches Resolution::Found(t) ==> t < self.n() && carries_reference_name(self.project, *reference, t),
            forall|x: usize| #[trigger] direct_target(self.project, *reference, self.element_at(id).owner, x) ==> r
                == Resolution::Found(x),
    {
        proof { assert(self.project.element_ok(id as int)); }
        let element = &self.project.elements[id];
        self.resolve_reference(reference, element.owner, element.package)
    }

    /// The first declared type of element `id` that resolves.
    pub(crate) fn first_resolved_type(&self, id: ElementId) -> (r: Option<ElementId>)
        requires
            self.project.wf(),
            id < self.n(),
        ensures
            opt_id_below(r, self.n()),
            self.element_at(id).declared_types@.len() == 0 ==> r is None,
            forall|x: usize| self.element_at(id).declared_types@.len() > 0 && #[trigger] direct_target(self.project,
                self.element_at(id).declared_types@[0], self.element_at(id).owner, x) ==> r == Some(x),
            r matches Some(t) ==> exists|k: int| 0 <= k < self.element_at(id).declared_types@.len()
                && carries_reference_name(self.project, #[trigger] self.element_at(id).declared_types@[k], t),
    {
        proof { assert(self.project.element_ok(id as int)); }
        let element = &self.project.elements[id];
        let mut k: usize = 0;
        while k < element.declared_types.len()
            invariant
                self.project.wf(),
                id < self.n(),
                *element == self.element_at(id),
                self.project.element_ok(id as int),
                k <= element.declared_types@.len(),
                k > 0 ==> forall|x: usize| !#[trigger] direct_target(self.project, element.declared_types@[0],
                    element.owner, x),
            decreases element.declared_types@.len() - k,
        {
            assert(self.project.reference_ok(element.declared_types@[k as int]));
            if let Resolution::Found(t) = self.resolve_from(&element.declared_types[k], id) {
                proof {
                    if k == 0 {
                        assert forall|x: usize| #[trigger] direct_target(self.project, element.declared_types@[0],
                            element.owner, x) implies t == x by {}
                    }
                }
                return Some(t);
            }
            k = k + 1;
        }
        None
    }

    pub(crate) fn effective_type_chain_is_invalid(&self, id: ElementId) -> (b: bool)
        requires
            self.project.wf(),
            id < self.n(),
        ensures
            multiple_parents(self.element_at(id)) ==> b,
            self.element_at(id).declared_types@.len() + self.element_at(id).specializations@.len() == 0 ==> !b,
            forall|x: usize| #[trigger] plainly_typed(self.project, self.element_at(id), x) ==> !b,
            forall|x: usize| #[trigger] typed_plainly(self.project, self.element_at(id), x) ==> !b,
    {
        let mut visited = Marks::new(self.project.elements.len());
        self.effective_type_chain_is_invalid_inner(id, &mut visited)
    }

    /// Whether the type chain of an element cannot be followed: it is
    /// multi-typed or one of its parents does not resolve, here or on the way
    /// up through usages it specializes.
    pub(crate) fn effective_type_chain_is_invalid_inner(&self, id: ElementId, visited: &mut Marks) -> (b: bool)
        requires
            self.project.wf(),
            id < self.n(),
            old(visited).bound() == self.n(),
        ensures
            final(visited).bound() == self.n(),
            final(visited).remaining() <= old(visited).remaining(),
            old(visited).contains(id as int) ==> !b,
            !old(visited).contains(id as int) && multiple_parents(self.element_at(id)) ==> b,
            self.element_at(id).declared_types@.len() + self.element_at(id).specializations@.len() == 0 ==> !b,
            forall|x: usize| #[trigger] plainly_typed(self.project, self.element_at(id), x) ==> !b,
            forall|x: usize| #[trigger] typed_plainly(self.project, self.element_at(id), x) ==> !b,
        decreases old(visited).remaining(),
    {
        if !visited.insert(id) {
            return false;
        }
        proof { assert(self.project.element_ok(id as int)); }
        let element = &self.project.elements[id];
        if has_multiple_parent_relationships(element) {
            return true;
        }
        let mut k: usize = 0;
        while k < element.declared_types.len()
            invariant
                self.project.wf(),
                id < self.n(),
                *element == self.element_at(id),
                self.project.element_ok(id as int),
                k <= element.declared_types@.len(),
                visited.bound() == self.n(),
                visited.remaining() < old(visited).remaining(),
                !old(visited).contains(id as int),
            decreases element.declared_types@.len() - k,
        {
            assert(self.project.reference_ok(element.declared_types@[k as int]));
            if !matches!(self.resolve_from(&element.declared_types[k], id), Resolution::Found(_)) {
                return true;
            }
            k = k + 1;
        }
        let mut k: usize = 0;
        while k < element.specializations.len()
            invariant
                self.project.wf(),
                id < self.n(),
                *element == self.element_at(id),
                self.project.element_ok(id as int),
                k <= element.specializations@.len(),
                visited.bound() == self.n(),
                visited.remaining() < old(visited).remaining(),
                !old(visited).contains(id as int),
            decreases element.specializations@.len() - k,
        {
            assert(self.project.reference_ok(element.specializations@[k as int]));
            if !matches!(self.resolve_from(&element.specializations[k], id), Resolution::Found(_)) {
                return true;
            }
            k = k + 1;
        }
        if element.declared_types.len() != 0 {
            return false;
        }
        if element.specializations.len() == 0 {
            return false;
        }
        assert(self.project.reference_ok(element.specializations@[0]));
        let parent = match self.resolve_from(&element.specializations[0], id) {
            Resolution::Found(parent) => parent,
            _ => { return true; }
        };
        self.project.elements[parent].kind.is_usage() && self.effective_type_chain_is_invalid_inner(parent, visited)
    }

    /// Whether the feature an element is bound to cannot be used for its type:
    /// it does not resolve, is not a usage, or has an invalid type chain.
    pub(crate) fn binding_target_type_chain_is_invalid(&self, id: ElementId) -> (b: bool)
        requires
            self.project.wf(),
            id < self.n(),
        ensures
            self.element_at(id).referenced_feature is None ==> !b,
            forall|x: usize| self.element_at(id).referenced_feature is Some && #[trigger] direct_target(self.project,
                self.element_at(id).referenced_feature.unwrap(), self.element_at(id).owner, x) ==> {
                let t = self.project.elements@[x as int];
                &&& !kind_is_usage(t.kind) ==> b
                &&& multiple_parents(t) ==> b
                &&& kind_is_usage(t.kind) && t.declared_types@.len() + t.specializations@.len() == 0 ==> !b
                &&& forall|w: usize| kind_is_usage(t.kind) && #[trigger] plainly_typed(self.project, t, w) ==> !b
            },
    {
        proof { assert(self.project.element_ok(id as int)); }
        let element = &self.project.elements[id];
        let binding = match &element.referenced_feature {
            Some(binding) => binding,
            None => { return false; }
        };
        let target = match self.resolve_from(binding, id) {
            Resolution::Found(target) => target,
            _ => { return true; }
        };
        !self.project.elements[target].kind.is_usage() || self.effective_type_chain_is_invalid(target)
    }

    pub(crate) fn resolved_subject_type(&self, id: ElementId) -> (r: Option<ElementId>)
        requires
            self.project.wf(),
            id < self.n(),
        ensures
            opt_id_below(r, self.n()),
            forall|x: usize| #[trigger] plainly_typed(self.project, self.element_at(id), x) ==> r == Some(x),
            self.element_at(id).referenced_feature is None && self.element_at(id).declared_types@.len()
                + self.element_at(id).specializations@.len() == 0 ==> r is None,
            forall|v: usize, w: usize| #[trigger] bound_plainly(self.project, id, v) && v != id
                && #[trigger] plainly_typed(self.project, self.project.elements@[v as int], w) ==> r == Some(w),
    {
        let mut visited = Marks::new(self.project.elements.len());
        self.resolved_element_type(id, &mut visited)
    }

    /// The effective type of an element: that of the feature it is bound to,
    /// else its first resolvable declared type, else (through a single
    /// specialization) the type of the usage it specializes or the definition
    /// it specializes.
    pub(crate) fn resolved_element_type(&self, id: ElementId, visited: &mut Marks) -> (r: Option<ElementId>)
        requires
            self.project.wf(),
            id < self.n(),
            old(visited).bound() == self.n(),
        ensures
            opt_id_below(r, self.n()),
            final(visited).bound() == self.n(),
            final(visited).remaining() <= old(visited).remaining(),
            old(visited).contains(id as int) ==> r is None,
            forall|x: usize| !old(visited).contains(id as int) && #[trigger] plainly_typed(self.project,
                self.element_at(id), x) ==> r == Some(x),
            self.element_at(id).referenced_feature is None && self.element_at(id).declared_types@.len()
                + self.element_at(id).specializations@.len() == 0 ==> r is None,
            forall|v: usize, w: usize| !old(visited).contains(id as int) && !old(visited).contains(v as int)
                && #[trigger] bound_plainly(self.project, id, v) && v != id
                && #[trigger] plainly_typed(self.project, self.project.elements@[v as int], w) ==> r == Some(w),
        decreases old(visited).remaining(),
    {
        if !visited.insert(id) {
            return None;
        }
        proof { assert(self.project.element_ok(id as int)); }
        let element = &self.project.elements[id];
        if let Some(binding) = &element.referenced_feature {
            let bound = match self.resolve_from(binding, id) {
                Resolution::Found(bound) => bound,
                _ => { return None; }
            };
            return self.resolved_element_type(bound, visited);
        }
        if has_multiple_parent_relationships(element) {
            return None;
        }
        if let Some(declared) = self.first_resolved_type(id) {
            return Some(declared);
        }
        if element.specializations.len() == 0 {
            return None;
        }
        assert(self.project.reference_ok(element.specializations@[0]));
        let parent = match self.resolve_from(&element.specializations[0], id) {
            Resolution::Found(parent) => parent,
            _ => { return None; }
        };
        if self.project.elements[parent].kind.is_usage() {
            self.resolved_element_type(parent, visited)
        } else {
            Some(parent)
        }
    }

    /// Whether `actual` is `expected` or reaches it through specializations;
    /// indeterminate when a specialization on the way does not resolve.
    pub(crate) fn is_same_or_specializes_without_reporting(
        &self,
        actual: ElementId,
        expected: ElementId,
        visited: &mut Marks,
    ) -> (c: Conformance)
        requires
            self.project.wf(),
            actual < self.n(),
            old(visited).bound() == self.n(),
        ensures
            final(visited).bound() == self.n(),
            final(visited).remaining() <= old(visited).remaining(),
            actual == expected ==> c == Conformance::Conforms,
            actual != expected && old(visited).contains(actual as int) ==> c == Conformance::DoesNotConform,
            actual != expected && self.project.elements@[actual as int].specializations@.len() == 0 ==> c
                == Conformance::DoesNotConform,
            !old(visited).contains(actual as int) && specializes_directly(self.project, actual, expected) ==> c
                == Conformance::Conforms,
        decreases old(visited).remaining(),
    {
        if actual == expected {
            return Conformance::Conforms;
        }
        if !visited.insert(actual) {
            return Conformance::DoesNotConform;
        }
        proof { assert(self.project.element_ok(actual as int)); }
        let element = &self.project.elements[actual];
        let mut conforms = false;
        let mut indeterminate = false;
        let mut k: usize = 0;
        while k < element.specializations.len()
            invariant
                self.project.wf(),
                actual < self.n(),
                *element == self.element_at(actual),
                self.project.element_ok(actual as int),
                k <= element.specializations@.len(),
                visited.bound() == self.n(),
                visited.remaining() < old(visited).remaining(),
                actual != expected,
                k == 0 ==> !conforms && !indeterminate,
                forall|k2: int| 0 <= k2 < k && #[trigger] direct_target(self.project, element.specializations@[k2],
                    element.owner, expected as usize) ==> conforms,
            decreases element.specializations@.len() - k,
        {
            assert(self.project.reference_ok(element.specializations@[k as int]));
            match self.resolve_from(&element.specializations[k], actual) {
                Resolution::Found(parent) => {
                    match self.is_same_or_specializes_without_reporting(parent, expected, visited) {
                        Conformance::Conforms => { conforms = true; }
                        Conformance::DoesNotConform => {}
                        Conformance::Indeterminate => { indeterminate = true; }
                    }
                }
                _ => { indeterminate = true; }
            }
            k = k + 1;
        }
        if conforms {
            Conformance::Conforms
        } else if indeterminate {
            Conformance::Indeterminate
        } else {
            Conformance::DoesNotConform
        }
    }

    /// The effective type of a subject as a type it may use: invalid when its
    /// type or binding chain is broken, its declared type does not resolve or
    /// does not conform to the inherited type, or it has no effective type
    /// although one is expected; missing when none is expected and none found.
    pub(crate) fn local_subject_type(&self, subject: ElementId, inherited_type: Option<ElementId>) -> (r: SubjectTypeOutcome)
        requires
            self.project.wf(),
            subject < self.n(),
            opt_id_below(inherited_type, self.n()),
        ensures
            r matches SubjectTypeOutcome::Resolved(t) ==> t < self.n(),
            forall|x: usize| #[trigger] plainly_typed(self.project, self.element_at(subject), x) && (inherited_type is None
                || inherited_type == Some(x)) ==> r == SubjectTypeOutcome::Resolved(x),
            self.element_at(subject).referenced_feature is None && self.element_at(subject).declared_types@.len()
                + self.element_at(subject).specializations@.len() == 0 ==> r == (if inherited_type is None {
                SubjectTypeOutcome::Missing
            } else {
                SubjectTypeOutcome::Invalid
            }),
    {
        if self.effective_type_chain_is_invalid(subject) || self.binding_target_type_chain_is_invalid(subject) {
            return SubjectTypeOutcome::Invalid;
        }
        let declared_type = self.first_resolved_type(subject);
        if self.project.elements[subject].declared_types.len() != 0 && declared_type.is_none() {
            return SubjectTypeOutcome::Invalid;
        }
        if let (Some(declared), Some(inherited)) = (declared_type, inherited_type) {
            let mut visited = Marks::new(self.project.elements.len());
            if self.is_same_or_specializes_without_reporting(declared, inherited, &mut visited) != Conformance::Conforms {
                return SubjectTypeOutcome::Invalid;
            }
        }
        let expected = match declared_type {
            Some(t) => Some(t),
            None => inherited_type,
        };
        let actual_type = match self.resolved_subject_type(subject) {
            Some(t) => t,
            None => {
                return if expected.is_some() {
                    SubjectTypeOutcome::Invalid
                } else {
                    SubjectTypeOutcome::Missing
                };
            }
        };
        if let Some(expected_type) = expected {
            let mut visited = Marks::new(self.project.elements.len());
            if self.is_same_or_specializes_without_reporting(actual_type, expected_type, &mut visited)
                != Conformance::Conforms {
                return SubjectTypeOutcome::Invalid;
            }
        }
        SubjectTypeOutcome::Resolved(actual_type)
    }

    /// The record of the requirement declared by element `id`, if any.
    pub(crate) fn requirement_index(&self, id: ElementId) -> (r: Option<usize>)
        requires
            self.project.wf(),
        ensures
            match r {
                Some(k) => k < self.project.requirements@.len() && self.project.requirements@[k as int].element == id
                    && forall|j: int| 0 <= j < k ==> self.project.requirements@[j].element != id,
                None => forall|j: int| 0 <= j < self.project.requirements@.len()
                    ==> self.project.requirements@[j].element != id,
            },
    {
        let mut k: usize = 0;
        while k < self.project.requirements.len()
            invariant
                k <= self.project.requirements@.len(),
                forall|j: int| 0 <= j < k ==> self.project.requirements@[j].element != id,
            decreases self.project.requirements@.len() - k,
        {
            if self.project.requirements[k].element == id {
                return Some(k);
            }
            k = k + 1;
        }
        None
    }

    /// The record of the verification declared by element `id`, if any.
    pub(crate) fn verification_index(&self, id: ElementId) -> (r: Option<usize>)
        requires
            self.project.wf(),
        ensures
            match r {
                Some(k) => k < self.project.verifications@.len() && self.project.verifications@[k as int].element == id
                    && forall|j: int| 0 <= j < k ==> self.project.verifications@[j].element != id,
                None => forall|j: int| 0 <= j < self.project.verifications@.len()
                    ==> self.project.verifications@[j].element != id,
            },
    {
        let mut k: usize = 0;
        while k < self.project.verifications.len()
            invariant
                k <= self.project.verifications@.len(),
                forall|j: int| 0 <= j < k ==> self.project.verifications@[j].element != id,
            decreases self.project.verifications@.len() - k,
        {
            if self.project.verifications[k].element == id {
                return Some(k);
            }
            k = k + 1;
        }
        None
    }

    /// The parents of a requirement that fit its kind: declared types that are
    /// requirement definitions, then specializations that are requirement
    /// usages (for a usage) or requirement definitions (for a definition).
    pub(crate) fn resolved_requirement_parents(&self, id: ElementId) -> (parents: Vec<ElementId>)
        requires
            self.project.wf(),
            id < self.n(),
        ensures
            forall|j: int| 0 <= j < parents@.len() ==> #[trigger] parents@[j] < self.n(),
            parents@.len() <= self.element_at(id).declared_types@.len() + self.element_at(id).specializations@.len(),
            keeps_direct_parents(self.project, self.element_at(id), true, parents@),
    {
        self.resolved_parents(id, true)
    }

    /// The parents of a verification that fit its kind: declared types that are
    /// verification definitions, then specializations of the same kind.
    pub(crate) fn resolved_verification_parents(&self, id: ElementId) -> (parents: Vec<ElementId>)
        requires
            self.project.wf(),
            id < self.n(),
        ensures
            forall|j: int| 0 <= j < parents@.len() ==> #[trigger] parents@[j] < self.n(),
            parents@.len() <= self.element_at(id).declared_types@.len() + self.element_at(id).specializations@.len(),
            keeps_direct_parents(self.project, self.element_at(id), false, parents@),
    {
        self.resolved_parents(id, false)
    }

    fn parent_fits(&self, child: ElementKind, parent: ElementKind, requirement: bool, typed: bool) -> (b: bool)
        ensures
            b == fits(child, parent, requirement, typed),
    {
        if requirement {
            if typed {
                parent == ElementKind::RequirementDefinition
            } else if child.is_requirement_usage() {
                parent.is_requirement_usage()
            } else {
                parent == ElementKind::RequirementDefinition
            }
        } else {
            if typed {
                parent == ElementKind::VerificationDefinition
            } else if child == ElementKind::VerificationUsage {
                parent == ElementKind::VerificationUsage
            } else {
                parent == ElementKind::VerificationDefinition
            }
        }
    }

    fn resolved_parents(&self, id: ElementId, requirement: bool) -> (parents: Vec<ElementId>)
        requires
            self.project.wf(),
            id < self.n(),
        ensures
            forall|j: int| 0 <= j < parents@.len() ==> #[trigger] parents@[j] < self.n(),
            parents@.len() <= self.element_at(id).declared_types@.len() + self.element_at(id).specializations@.len(),
            keeps_direct_parents(self.project, self.element_at(id), requirement, parents@),
    {
        proof { assert(self.project.element_ok(id as int)); }
        let element = &self.project.elements[id];
        let mut parents: Vec<ElementId> = Vec::new();
        let mut k: usize = 0;
        while k < element.declared_types.len()
            invariant
                self.project.wf(),
                id < self.n(),
                *element == self.element_at(id),
                self.project.element_ok(id as int),
                k <= element.declared_types@.len(),
                parents@.len() <= k,
                forall|j: int| 0 <= j < parents@.len() ==> #[trigger] parents@[j] < self.n(),
                forall|k2: int, x: usize| 0 <= k2 < k && #[trigger] direct_target(self.project,
                    element.declared_types@[k2], element.owner, x) && fits(element.kind,
                    self.project.elements@[x as int].kind, requirement, true) ==> parents@.contains(x),
            decreases element.declared_types@.len() - k,
        {
            assert(self.project.reference_ok(element.declared_types@[k as int]));
            let ghost before = parents@;
            let found = self.resolve_from(&element.declared_types[k], id);
            if let Resolution::Found(parent) = found {
                if self.parent_fits(element.kind, self.project.elements[parent].kind, requirement, true) {
                    parents.push(parent);
                }
            }
            proof {
                assert forall|k2: int, x: usize| 0 <= k2 < k + 1 && #[trigger] direct_target(self.project,
                    element.declared_types@[k2], element.owner, x) && fits(element.kind,
                    self.project.elements@[x as int].kind, requirement, true) implies parents@.contains(x) by {
                    if k2 < k {
                        assert(before.contains(x));
                        let w = choose|w: int| 0 <= w < before.len() && before[w] == x;
                        assert(parents@[w] == x);
                    } else {
                        assert(found == Resolution::Found(x));
                        assert(parents@[parents@.len() - 1] == x);
                    }
                }
            }
            k = k + 1;
        }
        let mut k: usize = 0;
        while k < element.specializations.len()
            invariant
                self.project.wf(),
                id < self.n(),
                *element == self.element_at(id),
                self.project.element_ok(id as int),
                k <= element.specializations@.len(),
                parents@.len() <= element.declared_types@.len() + k,
                forall|j: int| 0 <= j < parents@.len() ==> #[trigger] parents@[j] < self.n(),
                forall|k2: int, x: usize| 0 <= k2 < element.declared_types@.len() && #[trigger] direct_target(
                    self.project, element.declared_types@[k2], element.owner, x) && fits(element.kind,
                    self.project.elements@[x as int].kind, requirement, true) ==> parents@.contains(x),
                forall|k2: int, x: usize| 0 <= k2 < k && #[trigger] direct_target(self.project,
                    element.specializations@[k2], element.owner, x) && fits(element.kind,
                    self.project.elements@[x as int].kind, requirement, false) ==> parents@.contains(x),
            decreases element.specializations@.len() - k,
        {
            assert(self.project.reference_ok(element.specializations@[k as int]));
            let ghost before = parents@;
            let found = self.resolve_from(&element.specializations[k], id);
            if let Resolution::Found(parent) = found {
                if self.parent_fits(element.kind, self.project.elements[parent].kind, requirement, false) {
                    parents.push(parent);
                }
            }
            proof {
                assert forall|k2: int, x: usize| 0 <= k2 < element.declared_types@.len() && #[trigger] direct_target(
                    self.project, element.declared_types@[k2], element.owner, x) && fits(element.kind,
                    self.project.elements@[x as int].kind, requirement, true) implies parents@.contains(x) by {
                    assert(before.contains(x));
                    let w = choose|w: int| 0 <= w < before.len() && before[w] == x;
                    assert(parents@[w] == x);
                }
                assert forall|k2: int, x: usize| 0 <= k2 < k + 1 && #[trigger] direct_target(self.project,
                    element.specializations@[k2], element.owner, x) && fits(element.kind,
                    self.project.elements@[x as int].kind, requirement, false) implies parents@.contains(x) by {
                    if k2 < k {
                        assert(before.contains(x));
                        let w = choose|w: int| 0 <= w < before.len() && before[w] == x;
                        assert(parents@[w] == x);
                    } else {
                        assert(found == Resolution::Found(x));
                        assert(parents@[parents@.len() - 1] == x);
                    }
                }
            }
            k = k + 1;
        }
        parents
    }

    pub(crate) fn requirement_parent_chain_is_cyclic(&self, start: ElementId) -> (b: bool)
        requires
            self.project.wf(),
            start < self.n(),
        ensures
            b ==> self.element_at(start).declared_types@.len() + self.element_at(start).specializations@.len() > 0,
            self_parent(self.project, start, true) ==> b,
            cycle_fits(self.project, start, true, b),
    {
        self.parent_chain_is_cyclic(start, true)
    }

    pub(crate) fn verification_parent_chain_is_cyclic(&self, start: ElementId) -> (b: bool)
        requires
            self.project.wf(),
            start < self.n(),
        ensures
            b ==> self.element_at(start).declared_types@.len() + self.element_at(start).specializations@.len() > 0,
            self_parent(self.project, start, false) ==> b,
            cycle_fits(self.project, start, false, b),
    {
        self.parent_chain_is_cyclic(start, false)
    }

    /// Follows single fitting parents from `start` and reports whether the
    /// chain comes back to `start`. A cyclic chain implies that `start` has a
    /// declared type or specialization.
    fn parent_chain_is_cyclic(&self, start: ElementId, requirement: bool) -> (b: bool)
        requires
            self.project.wf(),
            start < self.n(),
        ensures
            b ==> self.element_at(start).declared_types@.len() + self.element_at(start).specializations@.len() > 0,
            self_parent(self.project, start, requirement) ==> b,
            cycle_fits(self.project, start, requirement, b),
    {
        let ghost selfp = self_parent(self.project, start, requirement);
        let ghost stops = exists|y: ElementId| #[trigger] sole_parent(self.project, start, requirement, y) && y != start
            && parentless(self.project.elements@[y as int]);
        let mut current = start;
        let mut visited = Marks::new(self.project.elements.len());
        let ghost mut moved = false;
        loop
            invariant
                self.project.wf(),
                start < self.n(),
                current < self.n(),
                visited.bound() == self.n(),
                !moved ==> current == start && !visited.contains(start as int),
                moved ==> self.element_at(start).declared_types@.len()
                    + self.element_at(start).specializations@.len() > 0,
                selfp == self_parent(self.project, start, requirement),
                selfp && moved ==> current == start && visited.contains(start as int),
                stops == (exists|y: ElementId| #[trigger] sole_parent(self.project, start, requirement, y) && y
                    != start && parentless(self.project.elements@[y as int])),
                stops && moved ==> current != start && parentless(self.element_at(current)) && !visited.contains(
                    current as int),
                moved ==> !multiple_parents(self.element_at(start)),
                !moved ==> forall|i: int| !visited.contains(i),
            decreases visited.remaining(),
        {
            if !visited.insert(current) {
                return current == start;
            }
            let element = &self.project.elements[current];
            if has_multiple_parent_relationships(element) {
                return false;
            }
            let parents = if requirement {
                self.resolved_requirement_parents(current)
            } else {
                self.resolved_verification_parents(current)
            };
            proof {
                if selfp && !moved {
                    let e = self.element_at(start);
                    let k = if e.declared_types@.len() == 1 { e.declared_types@[0] } else { e.specializations@[0] };
                    assert(direct_target(self.project, k, e.owner, start));
                    assert(parents@.contains(start));
                    assert(parents@.len() == 1);
                    assert(parents@[0] == start);
                }
            }
            proof {
                if stops && !moved {
                    let y = choose|y: ElementId| #[trigger] sole_parent(self.project, start, requirement, y) && y
                        != start && parentless(self.project.elements@[y as int]);
                    let e = self.element_at(start);
                    let k = if e.declared_types@.len() == 1 { e.declared_types@[0] } else { e.specializations@[0] };
                    assert(direct_target(self.project, k, e.owner, y));
                    assert(parents@.contains(y));
                    assert(parents@.len() == 1);
                    assert(parents@[0] == y);
                }
            }
            if parents.len() != 1 {
                return false;
            }
            current = parents[0];
            proof { moved = true; }
        }
    }

    pub(crate) fn inherited_requirement_subject_type(&self, id: ElementId) -> (r: Option<ElementId>)
        requires
            self.project.wf(),
            id < self.n(),
        ensures
            opt_id_below(r, self.n()),
            parentless(self.element_at(id)) ==> r is None,
            forall|y: ElementId, x: usize| #[trigger] sole_parent(self.project, id, true, y)
                && #[trigger] requirement_root_subject(self.project, y, x) ==> r == Some(x),
    {
        if has_multiple_parent_relationships(&self.project.elements[id]) {
            return None;
        }
        let parents = self.resolved_requirement_parents(id);
        proof {
            assert forall|y: ElementId| #[trigger] sole_parent(self.project, id, true, y) implies parents@.len() == 1
                && parents@[0] == y by {
                let e = self.element_at(id);
                let k = if e.declared_types@.len() == 1 { e.declared_types@[0] } else { e.specializations@[0] };
                assert(direct_target(self.project, k, e.owner, y as usize));
                assert(parents@.contains(y));
            }
        }
        let mut k: usize = 0;
        while k < parents.len()
            invariant
                self.project.wf(),
                id < self.n(),
                k <= parents@.len(),
                forall|j: int| 0 <= j < parents@.len() ==> #[trigger] parents@[j] < self.n(),
                forall|y: ElementId| #[trigger] sole_parent(self.project, id, true, y) ==> parents@.len() == 1
                    && parents@[0] == y,
                parentless(self.element_at(id)) ==> parents@.len() == 0,
                k > 0 ==> forall|y: ElementId, x: usize| !(#[trigger] sole_parent(self.project, id, true, y)
                    && #[trigger] requirement_root_subject(self.project, y, x)),
            decreases parents@.len() - k,
        {
            if let Some(t) = self.effective_requirement_subject_type(parents[k]) {
                return Some(t);
            }
            k = k + 1;
        }
        None
    }

    pub(crate) fn effective_requirement_subject_type(&self, id: ElementId) -> (r: Option<ElementId>)
        requires
            self.project.wf(),
            id < self.n(),
        ensures
            opt_id_below(r, self.n()),
            (forall|j: int| 0 <= j < self.project.requirements@.len() ==> self.project.requirements@[j].element != id)
                ==> r is None,
            forall|x: usize| #[trigger] requirement_root_subject(self.project, id, x) ==> r == Some(x),
    {
        let mut visited = Marks::new(self.project.elements.len());
        self.effective_requirement_subject_type_inner(id, &mut visited)
    }

    /// The subject type of a requirement: that of its single explicit subject
    /// (checked against what it inherits, for usages), else the first subject
    /// type inherited through its parents.
    pub(crate) fn effective_requirement_subject_type_inner(&self, id: ElementId, visited: &mut Marks) -> (r: Option<ElementId>)
        requires
            self.project.wf(),
            id < self.n(),
            old(visited).bound() == self.n(),
        ensures
            opt_id_below(r, self.n()),
            final(visited).bound() == self.n(),
            final(visited).remaining() <= old(visited).remaining(),
            old(visited).contains(id as int) ==> r is None,
            (forall|j: int| 0 <= j < self.project.requirements@.len() ==> self.project.requirements@[j].element != id)
                ==> r is None,
            forall|x: usize| !old(visited).contains(id as int) && #[trigger] requirement_root_subject(self.project, id, x)
                ==> r == Some(x),
        decreases old(visited).remaining(),
    {
        if !visited.insert(id) {
            return None;
        }
        let index = match self.requirement_index(id) {
            Some(index) => index,
            None => { return None; }
        };
        let requirement = &self.project.requirements[index];
        proof {
            assert(self.project.requirement_ok(self.project.requirements@[index as int]));
            assert forall|x: usize| #[trigger] requirement_root_subject(self.project, id, x) implies
                requirement.subjects@.len() == 1 && parentless(self.element_at(id)) && plainly_typed(self.project,
                self.project.elements@[requirement.subjects@[0] as int], x) by {
                let w = choose|w: int| #![trigger self.project.requirements@[w]]
                    0 <= w < self.project.requirements@.len() && self.project.requirements@[w].element == id
                    && (forall|j: int| 0 <= j < w ==> self.project.requirements@[j].element != id)
                    && self.project.requirements@[w].subjects@.len() == 1 && parentless(self.project.elements@[id as int])
                    && plainly_typed(self.project, self.project.elements@[self.project.requirements@[w].subjects@[0] as int], x);
                if w < index {
                    assert(self.project.requirements@[w].element != id);
                } else if w > index {
                    assert(self.project.requirements@[index as int].element != id);
                }
            }
        }
        let element = &self.project.elements[id];
        if requirement.subjects.len() > 1 || has_multiple_parent_relationships(element) {
            return None;
        }
        let parents = self.resolved_requirement_parents(id);
        let mut inherited_type: Option<ElementId> = None;
        let mut k: usize = 0;
        while k < parents.len()
            invariant
                self.project.wf(),
                parents@.len() == 0 ==> inherited_type is None,
                k <= parents@.len(),
                forall|j: int| 0 <= j < parents@.len() ==> #[trigger] parents@[j] < self.n(),
                opt_id_below(inherited_type, self.n()),
                visited.bound() == self.n(),
                visited.remaining() < old(visited).remaining(),
            decreases parents@.len() - k,
        {
            if let Some(t) = self.effective_requirement_subject_type_inner(parents[k], visited) {
                inherited_type = Some(t);
                break;
            }
            k = k + 1;
        }
        if requirement.subjects.len() != 0 {
            let subject = requirement.subjects[0];
            let inherited_constraint = if element.kind.is_requirement_usage() { inherited_type } else { None };
            return match self.local_subject_type(subject, inherited_constraint) {
                SubjectTypeOutcome::Resolved(t) => Some(t),
                _ => None,
            };
        }
        inherited_type
    }

    pub(crate) fn inherited_verification_subject_type(&self, id: ElementId) -> (r: Option<ElementId>)
        requires
            self.project.wf(),
            id < self.n(),
        ensures
            opt_id_below(r, self.n()),
            parentless(self.element_at(id)) ==> r is None,
            forall|y: ElementId, x: usize| #[trigger] sole_parent(self.project, id, false, y)
                && #[trigger] verification_root(self.project, y, Some(x)) ==> r == Some(x),
    {
        if has_multiple_parent_relationships(&self.project.elements[id]) {
            return None;
        }
        let parents = self.resolved_verification_parents(id);
        proof {
            assert forall|y: ElementId| #[trigger] sole_parent(self.project, id, false, y) implies parents@.len() == 1
                && parents@[0] == y by {
                let e = self.element_at(id);
                let k = if e.declared_types@.len() == 1 { e.declared_types@[0] } else { e.specializations@[0] };
                assert(direct_target(self.project, k, e.owner, y as usize));
                assert(parents@.contains(y));
            }
        }
        let mut k: usize = 0;
        while k < parents.len()
            invariant
                self.project.wf(),
                id < self.n(),
                k <= parents@.len(),
                forall|j: int| 0 <= j < parents@.len() ==> #[trigger] parents@[j] < self.n(),
                forall|y: ElementId| #[trigger] sole_parent(self.project, id, false, y) ==> parents@.len() == 1
                    && parents@[0] == y,
                parentless(self.element_at(id)) ==> parents@.len() == 0,
                k > 0 ==> forall|y: ElementId, x: usize| !(#[trigger] sole_parent(self.project, id, false, y)
                    && #[trigger] verification_root(self.project, y, Some(x))),
            decreases parents@.len() - k,
        {
            if let Some(t) = self.effective_verification_subject_type(parents[k]) {
                return Some(t);
            }
            k = k + 1;
        }
        None
    }

    pub(crate) fn effective_verification_subject_type(&self, id: ElementId) -> (r: Option<ElementId>)
        requires
            self.project.wf(),
            id < self.n(),
        ensures
            opt_id_below(r, self.n()),
            (forall|j: int| 0 <= j < self.project.verifications@.len() ==> self.project.verifications@[j].element
                != id) ==> r is None,
            verification_root(self.project, id, None) ==> r is None,
            forall|x: usize| #[trigger] verification_root(self.project, id, Some(x)) ==> r == Some(x),
    {
        match self.effective_verification_subject_type_outcome(id) {
            SubjectTypeOutcome::Resolved(t) => Some(t),
            _ => None,
        }
    }

    pub(crate) fn effective_verification_subject_type_outcome(&self, id: ElementId) -> (r: SubjectTypeOutcome)
        requires
            self.project.wf(),
            id < self.n(),
        ensures
            r matches SubjectTypeOutcome::Resolved(t) ==> t < self.n(),
            (forall|j: int| 0 <= j < self.project.verifications@.len() ==> self.project.verifications@[j].element
                != id) ==> r == SubjectTypeOutcome::Invalid,
            verification_root(self.project, id, None) ==> r == SubjectTypeOutcome::Missing,
            forall|x: usize| #[trigger] verification_root(self.project, id, Some(x)) ==> r
                == SubjectTypeOutcome::Resolved(x),
    {
        let mut visited = Marks::new(self.project.elements.len());
        self.effective_verification_subject_type_inner(id, &mut visited)
    }

    /// The subject type of a verification: inherited through a single fitting
    /// parent (missing with no parents at all, invalid otherwise), narrowed by
    /// its own first subject when it has one.
    pub(crate) fn effective_verification_subject_type_inner(&self, id: ElementId, visited: &mut Marks) -> (r: SubjectTypeOutcome)
        requires
            self.project.wf(),
            id < self.n(),
            old(visited).bound() == self.n(),
        ensures
            r matches SubjectTypeOutcome::Resolved(t) ==> t < self.n(),
            final(visited).bound() == self.n(),
            final(visited).remaining() <= old(visited).remaining(),
            old(visited).contains(id as int) ==> r == SubjectTypeOutcome::Invalid,
            (forall|j: int| 0 <= j < self.project.verifications@.len() ==> self.project.verifications@[j].element
                != id) ==> r == SubjectTypeOutcome::Invalid,
            !old(visited).contains(id as int) && verification_root(self.project, id, None) ==> r == SubjectTypeOutcome::Missing,
            forall|x: usize| !old(visited).contains(id as int) && #[trigger] verification_root(self.project, id, Some(x)) ==> r
                == SubjectTypeOutcome::Resolved(x),
        decreases old(visited).remaining(),
    {
        if !visited.insert(id) {
            return SubjectTypeOutcome::Invalid;
        }
        let index = match self.verification_index(id) {
            Some(index) => index,
            None => { return SubjectTypeOutcome::Invalid; }
        };
        let verification = &self.project.verifications[index];
        proof {
            assert(self.project.verification_ok(self.project.verifications@[index as int]));
            assert forall|t: Option<usize>| #[trigger] verification_root(self.project, id, t) implies
                parentless(self.element_at(id)) && match t {
                    None => verification.subjects@.len() == 0,
                    Some(x) => verification.subjects@.len() > 0 && plainly_typed(self.project,
                        self.project.elements@[verification.subjects@[0] as int], x),
                } by {
                let w = choose|w: int| #![trigger self.project.verifications@[w]]
                    0 <= w < self.project.verifications@.len() && self.project.verifications@[w].element == id
                    && (forall|j: int| 0 <= j < w ==> self.project.verifications@[j].element != id)
                    && parentless(self.project.elements@[id as int])
                    && match t {
                        None => self.project.verifications@[w].subjects@.len() == 0,
                        Some(x) => self.project.verifications@[w].subjects@.len() > 0 && plainly_typed(self.project,
                            self.project.elements@[self.project.verifications@[w].subjects@[0] as int], x),
                    };
                if w < index {
                    assert(self.project.verifications@[w].element != id);
                } else if w > index {
                    assert(self.project.verifications@[index as int].element != id);
                }
            }
        }
        let element = &self.project.elements[id];
        if has_multiple_parent_relationships(element) {
            return SubjectTypeOutcome::Invalid;
        }
        let parents = self.resolved_verification_parents(id);
        let inherited_type = if parents.len() == 1 {
            self.effective_verification_subject_type_inner(parents[0], visited)
        } else if parents.len() == 0 && element.declared_types.len() == 0 && element.specializations.len() == 0 {
            SubjectTypeOutcome::Missing
        } else {
            SubjectTypeOutcome::Invalid
        };
        if verification.subjects.len() != 0 {
            let subject = verification.subjects[0];
            return match inherited_type {
                SubjectTypeOutcome::Resolved(t) => self.local_subject_type(subject, Some(t)),
                SubjectTypeOutcome::Missing => self.local_subject_type(subject, None),
                SubjectTypeOutcome::Invalid => SubjectTypeOutcome::Invalid,
            };
        }
        inherited_type
    }

    /// The verification whose objective directly owns a verify declaration.
    pub(crate) fn verification_owner(&self, assertion: &VerifyAssertion) -> (r: Option<ElementId>)
        requires
            self.project.wf(),
            assertion.owner < self.n(),
        ensures
            match r {
                Some(v) => v < self.n() && self.element_at(assertion.owner).kind == ElementKind::Objective
                    && self.element_at(assertion.owner).owner == Some(v)
                    && (self.element_at(v).kind == ElementKind::VerificationDefinition
                        || self.element_at(v).kind == ElementKind::VerificationUsage),
                None => !(self.element_at(assertion.owner).kind == ElementKind::Objective
                    && (self.element_at(assertion.owner).owner matches Some(v) && v < self.n()
                        && (self.element_at(v).kind == ElementKind::VerificationDefinition
                            || self.element_at(v).kind == ElementKind::VerificationUsage))),
            },
    {
        let objective = &self.project.elements[assertion.owner];
        proof { assert(self.project.element_ok(assertion.owner as int)); }
        if objective.kind != ElementKind::Objective {
            return None;
        }
        let verification = match objective.owner {
            Some(v) => v,
            None => { return None; }
        };
        let kind = self.project.elements[verification].kind;
        if kind == ElementKind::VerificationDefinition || kind == ElementKind::VerificationUsage {
            Some(verification)
        } else {
            None
        }
    }
}


/// The rules of a requirement hold in findings `ds`: a second declared type,
/// a second explicit subject and a specialization beside another parent are
/// each reported; its type, specialization and cycle checks hold; and each
/// assumed and required constraint member is checked.
pub open spec fn requirement_rules_hold(p: &Project, ds: Seq<SemanticDiagnostic>, r: Requirement) -> bool {
    &&& p.elements@[r.element as int].declared_types@.len() > 1 ==> has_finding(ds,
        p.elements@[r.element as int].declared_types@[1].span, Code::RequirementTypeCardinality)
    &&& r.subjects@.len() > 1 ==> has_finding(ds, p.elements@[r.subjects@[1] as int].span,
        Code::RequirementSubjectCardinality)
    &&& extra_specialization(p.elements@[r.element as int]) matches Some(span) ==> has_finding(ds, span,
        Code::UnsupportedMultityping)
    &&& parents_checked(p, ds, r.element, true)
    &&& forall|k: int| 0 <= k < r.assumptions@.len() ==> member_checked(p, ds, #[trigger] r.assumptions@[k])
    &&& forall|k: int| 0 <= k < r.required_constraints@.len() ==> member_checked(p, ds,
        #[trigger] r.required_constraints@[k])
    &&& r.subjects@.len() > 0 ==> binding_checked(p, ds, r.element, r.subjects@[0], true)
}

/// The rules of a verification hold in findings `ds`: a second declared
/// type, a second objective and a specialization beside another parent are
/// each reported, and its type, specialization and cycle checks hold.
pub open spec fn verification_rules_hold(p: &Project, ds: Seq<SemanticDiagnostic>, v: Verification) -> bool {
    &&& p.elements@[v.element as int].declared_types@.len() > 1 ==> has_finding(ds,
        p.elements@[v.element as int].declared_types@[1].span, Code::VerificationCaseTypeCardinality)
    &&& v.objectives@.len() > 1 ==> has_finding(ds, p.elements@[v.objectives@[1] as int].span,
        Code::VerificationObjectiveCardinality)
    &&& extra_specialization(p.elements@[v.element as int]) matches Some(span) ==> has_finding(ds, span,
        Code::UnsupportedMultityping)
    &&& parents_checked(p, ds, v.element, false)
    &&& v.subjects@.len() > 0 ==> binding_checked(p, ds, v.element, v.subjects@[0], false)
}

/// Findings kept keep the requirement rules that held.
pub proof fn lemma_rules_kept(p: &Project, a: Seq<SemanticDiagnostic>, b: Seq<SemanticDiagnostic>, r: Requirement)
    requires
        keeps_findings(a, b),
        requirement_rules_hold(p, a, r),
    ensures
        requirement_rules_hold(p, b, r),
{
    if p.elements@[r.element as int].declared_types@.len() > 1 {
        lemma_keeps_finding(a, b, p.elements@[r.element as int].declared_types@[1].span,
            Code::RequirementTypeCardinality);
    }
    if r.subjects@.len() > 1 {
        lemma_keeps_finding(a, b, p.elements@[r.subjects@[1] as int].span, Code::RequirementSubjectCardinality);
    }
    if let Some(span) = extra_specialization(p.elements@[r.element as int]) {
        lemma_keeps_finding(a, b, span, Code::UnsupportedMultityping);
    }
    lemma_parents_checked_kept(p, a, b, r.element, true);
    assert forall|k: int| 0 <= k < r.assumptions@.len() implies member_checked(p, b, #[trigger] r.assumptions@[k]) by {
        lemma_member_checked_kept(p, a, b, r.assumptions@[k]);
    }
    assert forall|k: int| 0 <= k < r.required_constraints@.len() implies member_checked(p, b,
        #[trigger] r.required_constraints@[k]) by {
        lemma_member_checked_kept(p, a, b, r.required_constraints@[k]);
    }
    if r.subjects@.len() > 0 {
        lemma_binding_checked_kept(p, a, b, r.element, r.subjects@[0], true);
    }
}

/// Findings kept keep the verification rules that held.
pub proof fn lemma_verification_rules_kept(p: &Project, a: Seq<SemanticDiagnostic>, b: Seq<SemanticDiagnostic>,
    v: Verification)
    requires
        keeps_findings(a, b),
        verification_rules_hold(p, a, v),
    ensures
        verification_rules_hold(p, b, v),
{
    if p.elements@[v.element as int].declared_types@.len() > 1 {
        lemma_keeps_finding(a, b, p.elements@[v.element as int].declared_types@[1].span,
            Code::VerificationCaseTypeCardinality);
    }
    if v.objectives@.len() > 1 {
        lemma_keeps_finding(a, b, p.elements@[v.objectives@[1] as int].span, Code::VerificationObjectiveCardinality);
    }
    if let Some(span) = extra_specialization(p.elements@[v.element as int]) {
        lemma_keeps_finding(a, b, span, Code::UnsupportedMultityping);
    }
    lemma_parents_checked_kept(p, a, b, v.element, false);
    if v.subjects@.len() > 0 {
        lemma_binding_checked_kept(p, a, b, v.element, v.subjects@[0], false);
    }
}

/// The same findings in another order keep the requirement and verification
/// rules that held.
pub proof fn lemma_rules_permuted(p: &Project, a: Seq<SemanticDiagnostic>, b: Seq<SemanticDiagnostic>)
    requires
        a.to_multiset() == b.to_multiset(),
    ensures
        forall|r: Requirement| requirement_rules_hold(p, a, r) ==> #[trigger] requirement_rules_hold(p, b, r),
        forall|v: Verification| verification_rules_hold(p, a, v) ==> #[trigger] verification_rules_hold(p, b, v),
{
    assert forall|r: Requirement| requirement_rules_hold(p, a, r) implies #[trigger] requirement_rules_hold(p, b, r) by {
        lemma_rules_kept(p, a, b, r);
    }
    assert forall|v: Verification| verification_rules_hold(p, a, v) implies #[trigger] verification_rules_hold(p, b, v) by {
        lemma_verification_rules_kept(p, a, b, v);
    }
}

/// No finding appended from `old` to `new` has code `code`.
pub open spec fn adds_without(old: Seq<SemanticDiagnostic>, new: Seq<SemanticDiagnostic>, code: Code) -> bool {
    forall|j: int| old.len() <= j < new.len() ==> (#[trigger] new[j]).code != code
}

/// Every finding appended from `old` to `new` has a code of `codes`.
pub open spec fn adds_within(old: Seq<SemanticDiagnostic>, new: Seq<SemanticDiagnostic>, codes: Set<Code>) -> bool {
    forall|j: int| old.len() <= j < new.len() ==> codes.contains(#[trigger] new[j].code)
}

/// The codes of references that do not resolve uniquely.
pub open spec fn resolution_codes() -> Set<Code> {
    set![Code::UnresolvedReference, Code::AmbiguousReference]
}

/// The codes of following a type chain: resolution, and multi-typing.
pub open spec fn chain_codes() -> Set<Code> {
    resolution_codes().insert(Code::UnsupportedMultityping)
}

/// The codes the requirement rules report.
pub open spec fn requirement_codes() -> Set<Code> {
    chain_codes() + set![
        Code::RequirementTypeCardinality,
        Code::RequirementTypeKind,
        Code::RequirementSpecializationKind,
        Code::RequirementInheritanceCycle,
        Code::RequirementSubjectCardinality,
        Code::RequirementSubjectBinding,
        Code::RequirementPartParameterType,
        Code::RequirementConstraintTypeKind,
        Code::RequirementRequiredMemberKind,
    ]
}

/// The codes the satisfaction rules report.
pub open spec fn satisfaction_codes() -> Set<Code> {
    chain_codes() + set![
        Code::SatisfactionTargetKind,
        Code::SatisfactionSubjectKind,
        Code::SatisfactionSubjectConformance,
    ]
}

/// The codes the verification rules report.
pub open spec fn verification_codes() -> Set<Code> {
    chain_codes() + set![
        Code::VerificationCaseTypeCardinality,
        Code::VerificationCaseTypeKind,
        Code::VerificationCaseSpecializationKind,
        Code::VerificationInheritanceCycle,
        Code::VerificationObjectiveCardinality,
        Code::VerificationSubjectBinding,
        Code::VerificationSubjectConformance,
        Code::VerificationPlacement,
        Code::VerificationTargetKind,
    ]
}

/// `new` follows `old`: same project, invariant kept, earlier findings kept.
pub open spec fn steps(old: &RequirementsValidator, new: &RequirementsValidator) -> bool {
    &&& new.inv()
    &&& new.project == old.project
    &&& extends(old.diagnostics@, new.diagnostics@)
}

pub open spec fn same_finding(d: SemanticDiagnostic, span: Span, code: Code) -> bool {
    d.span == span && d.code == code
}

/// Some finding of `ds` has this span and code.
pub open spec fn has_finding(ds: Seq<SemanticDiagnostic>, span: Span, code: Code) -> bool {
    exists|j: int| 0 <= j < ds.len() && same_finding(#[trigger] ds[j], span, code)
}

impl<'a> RequirementsValidator<'a> {
    /// Records one finding.
    #[verifier::spinoff_prover]
    pub fn push(&mut self, span: Span, code: Code, message: String)
        requires
            old(self).inv(),
            old(self).project.span_ok(span),
            !is_resolution_code(code),
        ensures
            steps(old(self), final(self)),
            adds_within(old(self).diagnostics@, final(self).diagnostics@, set![code]),
            final(self).diagnostics@.len() == old(self).diagnostics@.len() + 1,
            final(self).diagnostics@.last().span == span,
            final(self).diagnostics@.last().code == code,
            final(self).diagnostics@.last().message == message,
    {
        self.diagnostics.push(SemanticDiagnostic { span, code, message });
    }

    /// Records a finding unless one with the same span and code is recorded.
    pub(crate) fn push_resolution_once(&mut self, span: Span, code: Code, message: String)
        requires
            old(self).inv(),
            old(self).project.span_ok(span),
        ensures
            steps(old(self), final(self)),
            adds_within(old(self).diagnostics@, final(self).diagnostics@, set![code]),
            has_finding(old(self).diagnostics@, span, code) ==> final(self).diagnostics@ == old(self).diagnostics@,
            !has_finding(old(self).diagnostics@, span, code) ==> final(self).diagnostics@.len()
                == old(self).diagnostics@.len() + 1 && same_finding(final(self).diagnostics@.last(), span, code),
            has_finding(final(self).diagnostics@, span, code),
    {
        let mut j: usize = 0;
        while j < self.diagnostics.len()
            invariant
                self.inv(),
                self.project == old(self).project,
                self.diagnostics@ == old(self).diagnostics@,
                self.project.span_ok(span),
                j <= self.diagnostics@.len(),
                forall|k: int| 0 <= k < j ==> !same_finding(#[trigger] self.diagnostics@[k], span, code),
            decreases self.diagnostics@.len() - j,
        {
            if self.diagnostics[j].span == span && self.diagnostics[j].code == code {
                assert(same_finding(self.diagnostics@[j as int], span, code));
                return;
            }
            j = j + 1;
        }
        let ghost before = self.diagnostics@;
        let ghost project = self.project;
        proof {
            assert(spans_ok(project, before));
            assert(project.span_ok(span));
        }
        self.diagnostics.push(SemanticDiagnostic { span, code, message });
        proof {
            assert(same_finding(self.diagnostics@[self.diagnostics@.len() - 1], span, code));
            assert forall|a: int, b: int| 0 <= a < b < self.diagnostics@.len() && #[trigger] is_resolution_code(
                self.diagnostics@[a].code) implies !same_finding(#[trigger] self.diagnostics@[b],
                self.diagnostics@[a].span, self.diagnostics@[a].code) by {
                if b == before.len() && a < before.len() {
                    if same_finding(self.diagnostics@[b], self.diagnostics@[a].span, self.diagnostics@[a].code) {
                        assert(same_finding(before[a], span, code));
                        assert(!same_finding(before[a as int], span, code));
                    }
                }
            }
            assert forall|j: int| 0 <= j < self.diagnostics@.len() implies #[trigger] self.project.span_ok(
                self.diagnostics@[j].span) by {
                if j < before.len() {
                    assert(self.diagnostics@[j] == before[j]);
                    assert(project.span_ok(before[j].span));
                } else {
                    assert(self.diagnostics@[j].span == span);
                }
            }
        }
    }

    /// Reports a reference that did not resolve uniquely (once per span and
    /// code) and returns the element it resolved to, if it did.
    pub(crate) fn report_resolution(&mut self, span: Span, text: &String, resolution: Resolution, role: &str) -> (r: Option<ElementId>)
        requires
            old(self).inv(),
            old(self).project.span_ok(span),
            resolution matches Resolution::Found(id) ==> id < old(self).n(),
        ensures
            steps(old(self), final(self)),
            adds_within(old(self).diagnostics@, final(self).diagnostics@, resolution_codes()),
            match resolution {
                Resolution::Found(id) => r == Some(id) && final(self).diagnostics@ == old(self).diagnostics@,
                Resolution::Missing => r is None && has_finding(final(self).diagnostics@, span, Code::UnresolvedReference),
                Resolution::Ambiguous => r is None && has_finding(final(self).diagnostics@, span, Code::AmbiguousReference),
            },
    {
        match resolution {
            Resolution::Found(id) => Some(id),
            Resolution::Missing => {
                let quoted = debug_quoted(text.as_str());
                let message = join3("unresolved ", role, " ");
                self.push_resolution_once(span, Code::UnresolvedReference, message.concat(quoted.as_str()));
                None
            }
            Resolution::Ambiguous => {
                let quoted = debug_quoted(text.as_str());
                let message = join3("ambiguous ", role, " ");
                self.push_resolution_once(span, Code::AmbiguousReference, message.concat(quoted.as_str()));
                None
            }
        }
    }

    /// Reports each failure of a traversed parent relationship.
    pub(crate) fn report_resolution_failures(&mut self, failures: Vec<ResolutionFailure>)
        requires
            old(self).inv(),
            forall|j: int| 0 <= j < failures@.len() ==> #[trigger] old(self).project.span_ok(failures@[j].span),
            forall|j: int| 0 <= j < failures@.len() ==> !((#[trigger] failures@[j]).resolution is Found),
        ensures
            steps(old(self), final(self)),
            adds_within(old(self).diagnostics@, final(self).diagnostics@, resolution_codes()),
            forall|j: int| 0 <= j < failures@.len() ==> has_finding(final(self).diagnostics@,
                (#[trigger] failures@[j]).span, failure_code(failures@[j].resolution)),
            failures@.len() == 0 ==> final(self).diagnostics@ == old(self).diagnostics@,
    {
        let mut k: usize = 0;
        while k < failures.len()
            invariant
                steps(old(self), self),
                adds_within(old(self).diagnostics@, self.diagnostics@, resolution_codes()),
                k <= failures@.len(),
                forall|j: int| 0 <= j < failures@.len() ==> #[trigger] self.project.span_ok(failures@[j].span),
                forall|j: int| 0 <= j < failures@.len() ==> !((#[trigger] failures@[j]).resolution is Found),
                forall|j: int| 0 <= j < k ==> has_finding(self.diagnostics@, (#[trigger] failures@[j]).span,
                    failure_code(failures@[j].resolution)),
                k == 0 ==> self.diagnostics@ == old(self).diagnostics@,
            decreases failures@.len() - k,
        {
            let failure = &failures[k];
            let resolution = match failure.resolution {
                Resolution::Found(_) => Resolution::Missing,
                other => other,
            };
            let ghost before = self.diagnostics@;
            let _ = self.report_resolution(failure.span, &failure.text, resolution, "traversed parent relationship");
            proof {
                assert forall|j: int| 0 <= j < k + 1 implies has_finding(self.diagnostics@,
                    (#[trigger] failures@[j]).span, failure_code(failures@[j].resolution)) by {
                    if j < k {
                        lemma_extends_keeps_finding(before, self.diagnostics@, failures@[j].span,
                            failure_code(failures@[j].resolution));
                    }
                }
            }
            k = k + 1;
        }
    }

    /// Reports what an outcome owes: the failures on its way, and its own
    /// result when that is clean or stands on its own. Only a clean result
    /// counts as resolved.
    pub(crate) fn report_resolution_outcome(&mut self, span: Span, text: &String, outcome: ResolutionOutcome, role: &str) -> (r: Option<ElementId>)
        requires
            old(self).inv(),
            old(self).project.span_ok(span),
            outcome.ok(old(self).project),
        ensures
            steps(old(self), final(self)),
            adds_within(old(self).diagnostics@, final(self).diagnostics@, resolution_codes()),
            r matches Some(id) ==> id < old(self).n() && outcome.resolution == Resolution::Found(id)
                && outcome.failures@.len() == 0,
            outcome.resolution matches Resolution::Found(id) ==> (outcome.failures@.len() == 0 ==> r == Some(id)),
            outcome.failures@.len() == 0 && !(outcome.resolution is Found) ==> has_finding(final(self).diagnostics@, span,
                failure_code(outcome.resolution)),
            forall|j: int| 0 <= j < outcome.failures@.len() ==> has_finding(final(self).diagnostics@,
                (#[trigger] outcome.failures@[j]).span, failure_code(outcome.failures@[j].resolution)),
            r is None ==> resolution_reported(final(self).diagnostics@),
            outcome.resolution is Found && outcome.failures@.len() == 0 ==> final(self).diagnostics@
                == old(self).diagnostics@,
            r is Some ==> final(self).diagnostics@ == old(self).diagnostics@,
    {
        let resolution = outcome.resolution;
        let main_is_proven = outcome.main_is_proven;
        let tainted = outcome.failures.len() != 0;
        let mut failures = outcome.failures;
        let mut reportable: Vec<ResolutionFailure> = Vec::new();
        // a failure on the way is never a found result, whatever it records
        let mut k: usize = 0;
        while k < failures.len()
            invariant
                k <= failures@.len(),
                reportable@.len() == k,
                forall|j: int| 0 <= j < k ==> !((#[trigger] reportable@[j]).resolution is Found),
                forall|j: int| 0 <= j < k ==> #[trigger] reportable@[j].span == failures@[j].span,
                forall|j: int| 0 <= j < k ==> failure_code((#[trigger] reportable@[j]).resolution) == failure_code(
                    failures@[j].resolution),
            decreases failures@.len() - k,
        {
            let resolution = match failures[k].resolution {
                Resolution::Found(_) => Resolution::Missing,
                other => other,
            };
            reportable.push(ResolutionFailure { span: failures[k].span, text: failures[k].text.clone(), resolution });
            k = k + 1;
        }
        let ghost reported = reportable@;
        self.report_resolution_failures(reportable);
        let ghost after_failures = self.diagnostics@;
        proof {
            assert forall|j: int| 0 <= j < failures@.len() implies has_finding(after_failures,
                (#[trigger] failures@[j]).span, failure_code(failures@[j].resolution)) by {
                assert(reported[j].span == failures@[j].span);
                assert(has_finding(after_failures, reported[j].span, failure_code(reported[j].resolution)));
            }
        }
        let r = match resolution {
            Resolution::Found(id) => if !tainted { Some(id) } else { None },
            _ => {
                if !tainted || main_is_proven {
                    self.report_resolution(span, text, resolution, role)
                } else {
                    None
                }
            }
        };
        proof {
            assert forall|j: int| 0 <= j < failures@.len() implies has_finding(self.diagnostics@,
                (#[trigger] failures@[j]).span, failure_code(failures@[j].resolution)) by {
                lemma_extends_keeps_finding(after_failures, self.diagnostics@, failures@[j].span,
                    failure_code(failures@[j].resolution));
            }
            if r is None {
                let (s2, c2) = if tainted {
                    (failures@[0].span, failure_code(failures@[0].resolution))
                } else {
                    (span, failure_code(resolution))
                };
                assert(has_finding(self.diagnostics@, s2, c2));
                let j = choose|j: int| 0 <= j < self.diagnostics@.len() && same_finding(#[trigger] self.diagnostics@[j], s2, c2);
                assert(self.diagnostics@[j].code == c2);
            }
        }
        r
    }

    /// Resolves a reference of the profile's rules and reports it when it
    /// does not resolve uniquely.
    pub(crate) fn resolve_profile_reference(
        &mut self,
        reference: &Reference,
        owner: Option<ElementId>,
        package: Option<ElementId>,
        role: &str,
    ) -> (r: Option<ElementId>)
        requires
            old(self).inv(),
            old(self).project.reference_ok(*reference),
            old(self).project.opt_id_ok(owner),
            old(self).project.opt_id_ok(package),
        ensures
            steps(old(self), final(self)),
            adds_within(old(self).diagnostics@, final(self).diagnostics@, resolution_codes()),
            opt_id_below(r, old(self).n()),
            r matches Some(t) ==> carries_reference_name(old(self).project, *reference, t),
            forall|x: usize| #[trigger] direct_target(old(self).project, *reference, owner, x) ==> r == Some(x)
                && final(self).diagnostics@ == old(self).diagnostics@,
            names_nothing(old(self).project, *reference) ==> r is None,
            r is None ==> resolution_reported(final(self).diagnostics@),
            r is Some ==> final(self).diagnostics@ == old(self).diagnostics@,
    {
        let outcome = self.resolve_reference_outcome(reference, owner, package);
        proof {
            if let Resolution::Found(x) = outcome.resolution {
                assert(carries_reference_name(self.project, *reference, x));
            }
        }
        self.report_resolution_outcome(reference.span, &reference.text, outcome, role)
    }

    /// Resolves a reference made by element `id` from the element's scope.
    pub(crate) fn resolve_for_element(&mut self, reference: &Reference, id: ElementId) -> (r: Option<ElementId>)
        requires
            old(self).inv(),
            id < old(self).n(),
            old(self).project.reference_ok(*reference),
        ensures
            steps(old(self), final(self)),
            adds_within(old(self).diagnostics@, final(self).diagnostics@, resolution_codes()),
            opt_id_below(r, old(self).n()),
            r matches Some(t) ==> carries_reference_name(old(self).project, *reference, t),
            forall|x: usize| #[trigger] direct_target(old(self).project, *reference, old(self).element_at(id).owner, x)
                ==> r == Some(x) && final(self).diagnostics@ == old(self).diagnostics@,
            names_nothing(old(self).project, *reference) ==> r is None,
            r is None ==> resolution_reported(final(self).diagnostics@),
            r is Some ==> final(self).diagnostics@ == old(self).diagnostics@,
    {
        proof { assert(self.project.element_ok(id as int)); }
        let project = self.project;
        let element = &project.elements[id];
        self.resolve_profile_reference(reference, element.owner, element.package, "model reference")
    }
}


/// Whether `parent` fits as a parent of `child`: a declared type of a
/// requirement is a requirement definition and of a verification a
/// verification definition; a specialization has the child's own kind
/// (any requirement usage kind, for a requirement usage).
pub open spec fn fits(child: ElementKind, parent: ElementKind, requirement: bool, typed: bool) -> bool {
    if requirement {
        if typed {
            parent == ElementKind::RequirementDefinition
        } else if kind_is_requirement_usage(child) {
            kind_is_requirement_usage(parent)
        } else {
            parent == ElementKind::RequirementDefinition
        }
    } else {
        if typed {
            parent == ElementKind::VerificationDefinition
        } else if child == ElementKind::VerificationUsage {
            parent == ElementKind::VerificationUsage
        } else {
            parent == ElementKind::VerificationDefinition
        }
    }
}

/// `parents` holds every declared type and specialization of `e` that is a
/// plain name of a member in `e`'s scope and fits as its parent.
pub open spec fn keeps_direct_parents(p: &Project, e: Element, requirement: bool, parents: Seq<ElementId>) -> bool {
    &&& forall|k: int, x: usize| 0 <= k < e.declared_types@.len() && #[trigger] direct_target(p, e.declared_types@[k],
        e.owner, x) && fits(e.kind, p.elements@[x as int].kind, requirement, true) ==> parents.contains(x)
    &&& forall|k: int, x: usize| 0 <= k < e.specializations@.len() && #[trigger] direct_target(p,
        e.specializations@[k], e.owner, x) && fits(e.kind, p.elements@[x as int].kind, requirement, false)
        ==> parents.contains(x)
}

/// Element `start` has one parent reference, a plain name in its own scope
/// that names `start` itself and fits as its parent.
pub open spec fn self_parent(p: &Project, start: ElementId, requirement: bool) -> bool {
    sole_parent(p, start, requirement, start)
}

/// Element `id` has one parent reference, a plain name in its own scope that
/// names `y` and fits as its parent.
pub open spec fn sole_parent(p: &Project, id: ElementId, requirement: bool, y: ElementId) -> bool {
    let e = p.elements@[id as int];
    ||| e.declared_types@.len() == 1 && e.specializations@.len() == 0 && direct_target(p, e.declared_types@[0],
        e.owner, y) && fits(e.kind, p.elements@[y as int].kind, requirement, true)
    ||| e.declared_types@.len() == 0 && e.specializations@.len() == 1 && direct_target(p, e.specializations@[0],
        e.owner, y) && fits(e.kind, p.elements@[y as int].kind, requirement, false)
}

/// Element `e` has no declared type and no specialization.
pub open spec fn parentless(e: Element) -> bool {
    e.declared_types@.len() == 0 && e.specializations@.len() == 0
}

/// `id` declares a requirement with no parents and one subject, plainly typed
/// by `x`.
pub open spec fn requirement_root_subject(p: &Project, id: ElementId, x: usize) -> bool {
    exists|k: int| #![trigger p.requirements@[k]]
        0 <= k < p.requirements@.len() && p.requirements@[k].element == id
        && (forall|j: int| 0 <= j < k ==> p.requirements@[j].element != id)
        && p.requirements@[k].subjects@.len() == 1 && parentless(p.elements@[id as int])
        && plainly_typed(p, p.elements@[p.requirements@[k].subjects@[0] as int], x)
}

/// `id` declares a verification with no parents; its first subject, if it has
/// one, is plainly typed by `x`.
pub open spec fn verification_root(p: &Project, id: ElementId, subject_type: Option<usize>) -> bool {
    exists|k: int| #![trigger p.verifications@[k]]
        0 <= k < p.verifications@.len() && p.verifications@[k].element == id
        && (forall|j: int| 0 <= j < k ==> p.verifications@[j].element != id)
        && parentless(p.elements@[id as int])
        && match subject_type {
            None => p.verifications@[k].subjects@.len() == 0,
            Some(x) => p.verifications@[k].subjects@.len() > 0 && plainly_typed(p,
                p.elements@[p.verifications@[k].subjects@[0] as int], x),
        }
}

/// Element `id` is bound to a feature that is a plain name of `v`, the only
/// member of that name in its scope.
pub open spec fn bound_plainly(p: &Project, id: ElementId, v: usize) -> bool {
    p.elements@[id as int].referenced_feature matches Some(b) && direct_target(p, b, p.elements@[id as int].owner, v)
}

/// Element `e` has one declared type and no specialization, and that type is
/// a plain name of `x`, the only member of that name in `e`'s scope.
pub open spec fn typed_plainly(p: &Project, e: Element, x: usize) -> bool {
    &&& !multiple_parents(e)
    &&& e.declared_types@.len() > 0
    &&& direct_target(p, e.declared_types@[0], e.owner, x)
}

/// Element `e` has no binding and is typed plainly by `x`.
pub open spec fn plainly_typed(p: &Project, e: Element, x: usize) -> bool {
    &&& e.referenced_feature is None
    &&& !multiple_parents(e)
    &&& e.declared_types@.len() > 0
    &&& direct_target(p, e.declared_types@[0], e.owner, x)
}

/// One of the specializations of `actual` is a plain name of `expected`, the
/// only member of that name in `actual`'s scope.
pub open spec fn specializes_directly(p: &Project, actual: ElementId, expected: ElementId) -> bool {
    exists|k: int| 0 <= k < p.elements@[actual as int].specializations@.len() && #[trigger] direct_target(p,
        p.elements@[actual as int].specializations@[k], p.elements@[actual as int].owner, expected as usize)
}

/// `prefix`, the quoted text, then `suffix`.
fn quoted_message(prefix: &str, text: &String, suffix: &str) -> (m: String)
    ensures
        m@ == prefix@ + debug_text(text@) + suffix@,
{
    let quoted = debug_quoted(text.as_str());
    join3(prefix, quoted.as_str(), suffix)
}

/// The first profile check that an import fails, by code, if any.
pub open spec fn import_check(import: Import) -> Option<Code> {
    if import.visibility == ImportVisibility::Missing {
        Some(Code::ImportVisibility)
    } else if import.visibility == ImportVisibility::Protected {
        Some(Code::UnsupportedImport)
    } else if import.scope is None && import.visibility != ImportVisibility::Private {
        Some(Code::ImportVisibility)
    } else if import.all || import.recursive || import.filtered {
        Some(Code::UnsupportedImport)
    } else {
        None
    }
}

/// The import-rule findings of `imports`, in order: for each import that
/// breaks a rule, its span with the code of the first rule it breaks.
pub open spec fn import_findings(imports: Seq<Import>) -> Seq<(Span, Code)>
    decreases imports.len(),
{
    if imports.len() == 0 {
        Seq::empty()
    } else {
        import_findings(imports.drop_last()) + match import_check(imports.last()) {
            Some(code) => seq![(imports.last().span, code)],
            None => Seq::empty(),
        }
    }
}

/// The findings of `ds` other than resolution findings, as span and code, in
/// order.
pub open spec fn rule_findings(ds: Seq<SemanticDiagnostic>) -> Seq<(Span, Code)>
    decreases ds.len(),
{
    if ds.len() == 0 {
        Seq::empty()
    } else {
        rule_findings(ds.drop_last()) + if resolution_codes().contains(ds.last().code) {
            Seq::<(Span, Code)>::empty()
        } else {
            seq![(ds.last().span, ds.last().code)]
        }
    }
}

/// Appending resolution findings adds no rule finding.
pub proof fn lemma_rule_findings_resolution(a: Seq<SemanticDiagnostic>, b: Seq<SemanticDiagnostic>)
    requires
        forall|j: int| 0 <= j < b.len() ==> resolution_codes().contains(#[trigger] b[j].code),
    ensures
        rule_findings(a + b) == rule_findings(a),
    decreases b.len(),
{
    if b.len() > 0 {
        assert((a + b).drop_last() =~= a + b.drop_last());
        assert((a + b).last() == b.last());
        lemma_rule_findings_resolution(a, b.drop_last());
    } else {
        assert(a + b =~= a);
    }
}

/// Appending one finding adds it to the rule findings unless it is a
/// resolution finding.
pub proof fn lemma_rule_findings_push(a: Seq<SemanticDiagnostic>, d: SemanticDiagnostic)
    ensures
        rule_findings(a.push(d)) == rule_findings(a) + if resolution_codes().contains(d.code) {
            Seq::<(Span, Code)>::empty()
        } else {
            seq![(d.span, d.code)]
        },
{
    assert(a.push(d).drop_last() =~= a);
}

/// Findings appended that are all resolution findings leave the rule
/// findings as they were.
pub proof fn lemma_rule_findings_unchanged(a: Seq<SemanticDiagnostic>, b: Seq<SemanticDiagnostic>)
    requires
        extends(a, b),
        adds_within(a, b, resolution_codes()),
    ensures
        rule_findings(b) == rule_findings(a),
{
    let tail = b.subrange(a.len() as int, b.len() as int);
    assert(b =~= a + tail);
    assert forall|j: int| 0 <= j < tail.len() implies resolution_codes().contains(#[trigger] tail[j].code) by {
        assert(tail[j] == b[a.len() + j]);
    }
    lemma_rule_findings_resolution(a, tail);
}

/// `o` is a result that resolving reference `r`, written in the scope of
/// `owner`, may give: a plain name of the only member of that name there
/// gives that member, a name that nothing carries gives nothing, and what is
/// found is an element that carries the reference's name.
pub open spec fn resolution_fits(p: &Project, r: Reference, owner: Option<ElementId>, o: Option<ElementId>) -> bool {
    &&& opt_id_below(o, p.elements@.len())
    &&& (o matches Some(t) ==> carries_reference_name(p, r, t))
    &&& forall|x: usize| #[trigger] direct_target(p, r, owner, x) ==> o == Some(x)
    &&& names_nothing(p, r) ==> o is None
}

/// Each result of `res` fits the reference of `refs` at the same index.
pub open spec fn results_fit(p: &Project, refs: Seq<Reference>, owner: Option<ElementId>, res: Seq<Option<ElementId>>) -> bool {
    &&& res.len() == refs.len()
    &&& forall|k: int| 0 <= k < refs.len() ==> resolution_fits(p, #[trigger] refs[k], owner, res[k])
}

/// The kind finding of reference `r` that resolved to `o`: one at its span
/// when it resolved to an element whose kind is not `good`.
pub open spec fn kind_finding(p: &Project, r: Reference, o: Option<ElementId>, code: Code,
    good: spec_fn(ElementKind) -> bool) -> Seq<(Span, Code)> {
    match o {
        Some(t) => if good(p.elements@[t as int].kind) {
            Seq::empty()
        } else {
            seq![(r.span, code)]
        },
        None => Seq::empty(),
    }
}

/// The kind findings of references `refs` that resolved to `res`, in order.
pub open spec fn kind_findings(p: &Project, refs: Seq<Reference>, res: Seq<Option<ElementId>>, code: Code,
    good: spec_fn(ElementKind) -> bool) -> Seq<(Span, Code)>
    decreases refs.len(),
{
    if refs.len() == 0 {
        Seq::empty()
    } else {
        kind_findings(p, refs.drop_last(), res.drop_last(), code, good) + kind_finding(p, refs.last(), res.last(),
            code, good)
    }
}

pub proof fn lemma_kind_findings_step(p: &Project, refs: Seq<Reference>, res: Seq<Option<ElementId>>, k: int,
    o: Option<ElementId>, code: Code, good: spec_fn(ElementKind) -> bool)
    requires
        0 <= k < refs.len(),
        res.len() == k,
    ensures
        kind_findings(p, refs.take(k + 1), res.push(o), code, good) == kind_findings(p, refs.take(k), res, code, good)
            + kind_finding(p, refs[k], o, code, good),
{
    assert(refs.take(k + 1).drop_last() =~= refs.take(k));
    assert(res.push(o).drop_last() =~= res);
}

/// `rule_findings` distributes over concatenation.
pub proof fn lemma_rule_findings_append(a: Seq<SemanticDiagnostic>, t: Seq<SemanticDiagnostic>)
    ensures
        rule_findings(a + t) == rule_findings(a) + rule_findings(t),
    decreases t.len(),
{
    if t.len() == 0 {
        assert(a + t =~= a);
        assert(rule_findings(a) + rule_findings(t) =~= rule_findings(a));
    } else {
        assert((a + t).drop_last() =~= a + t.drop_last());
        assert((a + t).last() == t.last());
        lemma_rule_findings_append(a, t.drop_last());
        assert(rule_findings(a + t) =~= rule_findings(a) + rule_findings(t));
    }
}

/// Every finding of `fs` has a code of `codes`.
pub open spec fn codes_within(fs: Seq<(Span, Code)>, codes: Set<Code>) -> bool {
    forall|i: int| 0 <= i < fs.len() ==> codes.contains(#[trigger] fs[i].1)
}

pub proof fn lemma_rule_findings_codes(t: Seq<SemanticDiagnostic>, codes: Set<Code>)
    requires
        forall|j: int| 0 <= j < t.len() ==> codes.contains(#[trigger] t[j].code),
    ensures
        codes_within(rule_findings(t), codes.difference(resolution_codes())),
    decreases t.len(),
{
    if t.len() > 0 {
        lemma_rule_findings_codes(t.drop_last(), codes);
        assert(codes.contains(t[t.len() - 1].code));
        let fs = rule_findings(t);
        assert forall|i: int| 0 <= i < fs.len() implies codes.difference(resolution_codes()).contains(
            #[trigger] fs[i].1) by {
            if i < rule_findings(t.drop_last()).len() {
                assert(fs[i] == rule_findings(t.drop_last())[i]);
            }
        }
    }
}

/// Findings appended with codes of `codes` add rule findings of those codes
/// other than resolution codes.
pub proof fn lemma_rule_findings_within(a: Seq<SemanticDiagnostic>, b: Seq<SemanticDiagnostic>, codes: Set<Code>)
    requires
        extends(a, b),
        adds_within(a, b, codes),
    ensures
        rule_findings(b) == rule_findings(a) + rule_findings(b.subrange(a.len() as int, b.len() as int)),
        codes_within(rule_findings(b.subrange(a.len() as int, b.len() as int)), codes.difference(resolution_codes())),
{
    let t = b.subrange(a.len() as int, b.len() as int);
    assert(b =~= a + t);
    lemma_rule_findings_append(a, t);
    assert forall|j: int| 0 <= j < t.len() implies codes.contains(#[trigger] t[j].code) by {
        assert(t[j] == b[a.len() + j]);
    }
    lemma_rule_findings_codes(t, codes);
}

/// What the checks of a satisfying subject rest on, as `(expected, chain
/// invalid, binding invalid, actual, conformance, chain findings)`: the
/// requirement's effective subject type, whether the subject's type chain or
/// its binding target's type chain is invalid, the subject's resolved type,
/// how that type conforms to the expected one, and the findings of checking
/// the two chains.
pub type SubjectResults = (Option<ElementId>, bool, bool, Option<ElementId>, Conformance, Seq<(Span, Code)>);

/// What the results `r` of checking subject `subject` of requirement
/// `requirement` may be: each as the checks that produce it guarantee.
pub open spec fn subject_results(p: &Project, requirement: ElementId, subject: ElementId, r: SubjectResults) -> bool {
    let (expected, chain_invalid, binding_invalid, actual, conformance, chain) = r;
    let e = p.elements@[subject as int];
    kind_is_usage(e.kind) && !kind_is_requirement_usage(e.kind) ==> {
        &&& opt_id_below(expected, p.elements@.len())
        &&& (forall|j: int| 0 <= j < p.requirements@.len() ==> p.requirements@[j].element != requirement)
            ==> expected is None
        &&& forall|x: usize| #[trigger] requirement_root_subject(p, requirement, x) ==> expected == Some(x)
        &&& expected is Some ==> {
            &&& multiple_parents(e) ==> chain_invalid
            &&& parentless(e) ==> !chain_invalid
            &&& (forall|x: usize| #[trigger] typed_plainly(p, e, x) ==> !chain_invalid)
            &&& e.referenced_feature is None ==> !binding_invalid
            &&& (forall|x: usize| e.referenced_feature is Some && #[trigger] direct_target(p,
                e.referenced_feature.unwrap(), e.owner, x) ==> {
                let t = p.elements@[x as int];
                &&& !kind_is_usage(t.kind) ==> binding_invalid
                &&& multiple_parents(t) ==> binding_invalid
                &&& kind_is_usage(t.kind) && parentless(t) ==> !binding_invalid
                &&& forall|w: usize| kind_is_usage(t.kind) && #[trigger] plainly_typed(p, t, w) ==> !binding_invalid
            })
            &&& codes_within(chain, set![Code::UnsupportedMultityping, Code::SatisfactionSubjectKind])
            &&& !chain_invalid && !binding_invalid ==> {
                &&& opt_id_below(actual, p.elements@.len())
                &&& (forall|x: usize| #[trigger] plainly_typed(p, e, x) ==> actual == Some(x))
                &&& e.referenced_feature is None && parentless(e) ==> actual is None
                &&& (forall|v: usize, w: usize| #[trigger] bound_plainly(p, subject, v) && v != subject
                    && #[trigger] plainly_typed(p, p.elements@[v as int], w) ==> actual == Some(w))
                &&& actual matches Some(a) ==> {
                    let x = expected.unwrap();
                    &&& a == x ==> conformance == Conformance::Conforms
                    &&& a != x && p.elements@[a as int].specializations@.len() == 0 ==> conformance
                        == Conformance::DoesNotConform
                    &&& specializes_directly(p, a, x) ==> conformance == Conformance::Conforms
                }
            }
        }
    }
}

/// The rule findings of checking subject `subject`, referenced at `span`,
/// against requirement `requirement`, for the results `r`: a subject that is
/// not a usage, or is a requirement, gets a subject-kind finding and nothing
/// else; otherwise, when the requirement has an effective subject type, the
/// subject's chains are checked, and when both are valid a subject with no
/// resolvable type, or a type that does not conform, gets a conformance
/// finding.
pub open spec fn subject_findings(p: &Project, subject: ElementId, span: Span, r: SubjectResults) -> Seq<(Span, Code)> {
    let (expected, chain_invalid, binding_invalid, actual, conformance, chain) = r;
    let k = p.elements@[subject as int].kind;
    if !(kind_is_usage(k) && !kind_is_requirement_usage(k)) {
        seq![(span, Code::SatisfactionSubjectKind)]
    } else if expected is None {
        Seq::empty()
    } else {
        chain + if chain_invalid || binding_invalid {
            Seq::empty()
        } else if actual is None || conformance == Conformance::DoesNotConform {
            seq![(span, Code::SatisfactionSubjectConformance)]
        } else {
            Seq::empty()
        }
    }
}

/// The requirement that satisfaction `s` targets, for the result `target` of
/// resolving its target reference: its inline requirement, else that result.
pub open spec fn satisfied_requirement(s: Satisfaction, target: Option<ElementId>) -> Option<ElementId> {
    match s.inline_requirement {
        Some(i) => Some(i),
        None => target,
    }
}

/// What the checks of satisfaction `s` may rest on: the result of resolving
/// its target reference, and, when the target is a requirement usage, the
/// result of resolving its satisfying subject and the results of checking
/// that subject.
pub open spec fn satisfaction_results(p: &Project, s: Satisfaction, target: Option<ElementId>,
    subject: Option<ElementId>, checks: SubjectResults) -> bool {
    &&& s.inline_requirement is None && s.requirement is Some ==> resolution_fits(p, s.requirement.unwrap(), s.owner,
        target)
    &&& match satisfied_requirement(s, target) {
        Some(t) => kind_is_requirement_usage(p.elements@[t as int].kind) && s.subject is Some ==> {
            &&& resolution_fits(p, s.subject.unwrap(), s.owner, subject)
            &&& (subject matches Some(y) ==> subject_results(p, t, y, checks))
        },
        None => true,
    }
}

/// The rule findings of satisfaction `s` for those results: a target that is
/// not a requirement usage gets a target-kind finding and nothing else; a
/// requirement-usage target gets the findings of checking its satisfying
/// subject, when it has one that resolved.
pub open spec fn satisfaction_findings(p: &Project, s: Satisfaction, target: Option<ElementId>,
    subject: Option<ElementId>, checks: SubjectResults) -> Seq<(Span, Code)> {
    match satisfied_requirement(s, target) {
        None => Seq::empty(),
        Some(t) => if !kind_is_requirement_usage(p.elements@[t as int].kind) {
            seq![(s.requirement.unwrap().span, Code::SatisfactionTargetKind)]
        } else {
            match (s.subject, subject) {
                (Some(reference), Some(y)) => subject_findings(p, y, reference.span, checks),
                _ => Seq::empty(),
            }
        },
    }
}

/// What checking the subject of verification `v` against requirement
/// `requirement` may conclude, `misfit` being whether it reports them: never
/// for a requirement without a requirement record; for a parentless
/// requirement whose only subject is plainly typed by `z`, always against a
/// parentless verification with no subject, never against one whose first
/// subject is plainly typed by `z`, and always against one whose first
/// subject is plainly typed by another type without specializations.
pub open spec fn conformance_fits(p: &Project, v: ElementId, requirement: ElementId, misfit: bool) -> bool {
    &&& (forall|j: int| 0 <= j < p.requirements@.len() ==> p.requirements@[j].element != requirement) ==> !misfit
    &&& forall|z: usize| #[trigger] requirement_root_subject(p, requirement, z) ==> {
        &&& verification_root(p, v, None) ==> misfit
        &&& forall|x: usize| #[trigger] verification_root(p, v, Some(x)) ==> {
            &&& x == z ==> !misfit
            &&& x != z && p.elements@[x as int].specializations@.len() == 0 ==> misfit
        }
    }
}

/// The verification that a verify declaration placed in an objective
/// belongs to: the objective's owner.
pub open spec fn verifying_case(p: &Project, a: VerifyAssertion) -> ElementId {
    p.elements@[a.owner as int].owner.unwrap()
}

/// The requirement that verify declaration `a` verifies, for the result
/// `target` of resolving its target: its inline requirement, else that result
/// when it is a requirement usage.
pub open spec fn verified_requirement(p: &Project, a: VerifyAssertion, target: Option<ElementId>) -> Option<ElementId> {
    match a.inline_requirement {
        Some(i) => Some(i),
        None => match (a.target, target) {
            (Some(_), Some(t)) => if kind_is_requirement_usage(p.elements@[t as int].kind) {
                Some(t)
            } else {
                None
            },
            _ => None,
        },
    }
}

/// What the checks of verify declaration `a` may rest on: the result of
/// resolving its target, and whether the subject check finds a misfit.
pub open spec fn assertion_results(p: &Project, a: VerifyAssertion, target: Option<ElementId>, misfit: bool) -> bool {
    &&& a.inline_requirement is None && a.target is Some ==> resolution_fits(p, a.target.unwrap(), Some(a.owner),
        target)
    &&& match verified_requirement(p, a, target) {
        Some(r) => placed_in_objective(p, a) ==> conformance_fits(p, verifying_case(p, a), r, misfit),
        None => true,
    }
}

/// The rule findings of verify declaration `a` for those results: a
/// placement finding when it is outside a verification-case objective; a
/// target-kind finding, and nothing more, when its target is not a
/// requirement usage; otherwise, when it is placed, a conformance finding at
/// the target's span (the declaration's for an inline requirement) on a
/// misfit.
pub open spec fn assertion_findings(p: &Project, a: VerifyAssertion, target: Option<ElementId>, misfit: bool) -> Seq<
    (Span, Code),
> {
    let span = match (a.inline_requirement, a.target) {
        (None, Some(r)) => r.span,
        _ => a.span,
    };
    (if placed_in_objective(p, a) {
        Seq::empty()
    } else {
        seq![(a.span, Code::VerificationPlacement)]
    }) + if a.inline_requirement is None && a.target is Some && target is Some && !kind_is_requirement_usage(
        p.elements@[target.unwrap() as int].kind) {
        seq![(a.target.unwrap().span, Code::VerificationTargetKind)]
    } else if verified_requirement(p, a, target) is Some && placed_in_objective(p, a) && misfit {
        seq![(span, Code::VerificationSubjectConformance)]
    } else {
        Seq::empty()
    }
}

/// What a conformance check of `actual` against `expected` may conclude:
/// the same type conforms; another type without specializations does not;
/// a type that plainly specializes `expected` conforms.
pub open spec fn conformance_result(p: &Project, actual: ElementId, expected: ElementId, c: Conformance) -> bool {
    &&& actual == expected ==> c == Conformance::Conforms
    &&& actual != expected && p.elements@[actual as int].specializations@.len() == 0 ==> c
        == Conformance::DoesNotConform
    &&& specializes_directly(p, actual, expected) ==> c == Conformance::Conforms
}

/// What the subject-binding check of a subject rests on, as `(declared,
/// inherited, declared conformance, binding resolved, chain invalid, binding
/// invalid, actual, actual conformance)`: the subject's first declared type,
/// the subject type its owner inherits, how the first conforms to the
/// second, whether its binding resolves, whether its type chain or its
/// binding target's type chain is invalid, its resolved type, and how that
/// conforms to the expected type.
pub type BindingResults = (Option<ElementId>, Option<ElementId>, Conformance, bool, bool, bool, Option<ElementId>,
    Conformance);

/// The type the subject is expected to have: its declared type, else the
/// inherited one.
pub open spec fn expected_subject_type(r: BindingResults) -> Option<ElementId> {
    if r.0 is Some {
        r.0
    } else {
        r.1
    }
}

/// What the results `r` of the subject-binding check of `subject`, the first
/// subject of `owner`, may be, each as the step that produces it guarantees
/// once the check reaches it.
pub open spec fn binding_results(p: &Project, owner: ElementId, subject: ElementId, requirement: bool,
    r: BindingResults) -> bool {
    let (declared, inherited, declared_conformance, bound, chain_invalid, binding_invalid, actual,
        actual_conformance) = r;
    let e = p.elements@[subject as int];
    let o = p.elements@[owner as int];
    !multiple_parents(e) ==> {
        &&& opt_id_below(declared, p.elements@.len())
        &&& e.declared_types@.len() == 0 ==> declared is None
        &&& (forall|x: usize| e.declared_types@.len() > 0 && #[trigger] direct_target(p, e.declared_types@[0], e.owner,
            x) ==> declared == Some(x))
        &&& !(e.declared_types@.len() != 0 && declared is None) ==> {
            &&& opt_id_below(inherited, p.elements@.len())
            &&& requirement && !kind_is_requirement_usage(o.kind) ==> inherited is None
            &&& parentless(o) ==> inherited is None
            &&& (forall|x: usize| #[trigger] inherits_subject_type(p, owner, requirement, x) && (requirement
                ==> kind_is_requirement_usage(o.kind)) ==> inherited == Some(x))
            &&& (declared is Some && inherited is Some ==> conformance_result(p, declared.unwrap(), inherited.unwrap(),
                declared_conformance))
            &&& !(declared is Some && inherited is Some && declared_conformance != Conformance::Conforms)
                && expected_subject_type(r) is Some ==> {
                &&& (forall|x: usize| e.referenced_feature is Some && #[trigger] direct_target(p,
                    e.referenced_feature.unwrap(), e.owner, x) ==> bound)
                &&& e.referenced_feature is None || bound ==> {
                    &&& multiple_parents(e) ==> chain_invalid
                    &&& parentless(e) ==> !chain_invalid
                    &&& (forall|x: usize| #[trigger] typed_plainly(p, e, x) ==> !chain_invalid)
                    &&& e.referenced_feature is None ==> !binding_invalid
                    &&& (forall|x: usize| e.referenced_feature is Some && #[trigger] direct_target(p,
                        e.referenced_feature.unwrap(), e.owner, x) ==> {
                        let t = p.elements@[x as int];
                        &&& !kind_is_usage(t.kind) ==> binding_invalid
                        &&& multiple_parents(t) ==> binding_invalid
                        &&& kind_is_usage(t.kind) && parentless(t) ==> !binding_invalid
                        &&& forall|w: usize| kind_is_usage(t.kind) && #[trigger] plainly_typed(p, t, w)
                            ==> !binding_invalid
                    })
                    &&& !chain_invalid && !binding_invalid ==> {
                        &&& opt_id_below(actual, p.elements@.len())
                        &&& (forall|x: usize| #[trigger] plainly_typed(p, e, x) ==> actual == Some(x))
                        &&& e.referenced_feature is None && parentless(e) ==> actual is None
                        &&& (forall|v: usize, w: usize| #[trigger] bound_plainly(p, subject, v) && v != subject
                            && #[trigger] plainly_typed(p, p.elements@[v as int], w) ==> actual == Some(w))
                        &&& actual is Some ==> conformance_result(p, actual.unwrap(), expected_subject_type(r).unwrap(),
                            actual_conformance)
                    }
                }
            }
        }
    }
}

/// The rule findings of the subject-binding check of `subject` for the
/// results `r`, at most one: a declared type that does not conform to the
/// inherited one is reported at the subject; otherwise, once the expected
/// type is known, the binding resolves and both chains are valid, a subject
/// with no resolvable type, or one that does not conform, is reported at its
/// binding (at the subject when it has none). Nothing is reported where a
/// conformance cannot be decided.
pub open spec fn binding_findings(p: &Project, subject: ElementId, requirement: bool, r: BindingResults) -> Seq<
    (Span, Code),
> {
    let (declared, inherited, declared_conformance, bound, chain_invalid, binding_invalid, actual,
        actual_conformance) = r;
    let e = p.elements@[subject as int];
    let code = binding_code(requirement);
    if multiple_parents(e) || (e.declared_types@.len() != 0 && declared is None) {
        Seq::empty()
    } else if declared is Some && inherited is Some && declared_conformance != Conformance::Conforms {
        if declared_conformance == Conformance::DoesNotConform {
            seq![(e.span, code)]
        } else {
            Seq::empty()
        }
    } else if expected_subject_type(r) is None {
        Seq::empty()
    } else if e.referenced_feature is Some && !bound {
        Seq::empty()
    } else if chain_invalid || binding_invalid {
        Seq::empty()
    } else if actual is Some && actual_conformance != Conformance::DoesNotConform {
        Seq::empty()
    } else {
        seq![(
            match e.referenced_feature {
                Some(b) => b.span,
                None => e.span,
            },
            code,
        )]
    }
}

/// The results the checks of one satisfaction rest on.
pub type SatisfactionResults = (Option<ElementId>, Option<ElementId>, SubjectResults);

/// The rule findings of satisfactions `sats` for results `res`, one
/// satisfaction after another.
pub open spec fn satisfactions_findings(p: &Project, sats: Seq<Satisfaction>, res: Seq<SatisfactionResults>) -> Seq<
    (Span, Code),
>
    decreases sats.len(),
{
    if sats.len() == 0 {
        Seq::empty()
    } else {
        satisfactions_findings(p, sats.drop_last(), res.drop_last()) + satisfaction_findings(p, sats.last(),
            res.last().0, res.last().1, res.last().2)
    }
}

/// Reference `r` is a plain name, in the scope of `owner`, of an element of a
/// `good` kind.
pub open spec fn plainly_good(p: &Project, r: Reference, owner: Option<ElementId>, good: spec_fn(ElementKind) -> bool) -> bool {
    exists|x: usize| #[trigger] direct_target(p, r, owner, x) && good(p.elements@[x as int].kind)
}

/// References that each plainly name an element of a `good` kind add no kind
/// finding, whatever else the results say.
pub proof fn lemma_kind_findings_clean(p: &Project, refs: Seq<Reference>, owner: Option<ElementId>,
    res: Seq<Option<ElementId>>, code: Code, good: spec_fn(ElementKind) -> bool)
    requires
        results_fit(p, refs, owner, res),
        forall|k: int| 0 <= k < refs.len() ==> plainly_good(p, #[trigger] refs[k], owner, good),
    ensures
        kind_findings(p, refs, res, code, good) == Seq::<(Span, Code)>::empty(),
    decreases refs.len(),
{
    if refs.len() > 0 {
        let k = refs.len() - 1;
        assert(plainly_good(p, refs[k], owner, good));
        let x = choose|x: usize| #[trigger] direct_target(p, refs[k], owner, x) && good(p.elements@[x as int].kind);
        assert(resolution_fits(p, refs[k], owner, res[k]));
        assert(res.last() == Some(x));
        assert forall|j: int| 0 <= j < refs.drop_last().len() implies resolution_fits(p,
            #[trigger] refs.drop_last()[j], owner, res.drop_last()[j]) by {
            assert(refs.drop_last()[j] == refs[j]);
            assert(resolution_fits(p, refs[j], owner, res[j]));
        }
        assert forall|j: int| 0 <= j < refs.drop_last().len() implies plainly_good(p, #[trigger] refs.drop_last()[j],
            owner, good) by {
            assert(refs.drop_last()[j] == refs[j]);
        }
        lemma_kind_findings_clean(p, refs.drop_last(), owner, res.drop_last(), code, good);
    }
}

/// An element whose parent references break no rule gets no type or
/// specialization finding: at most one parent reference, which plainly
/// names a parent of a fitting kind that itself has no parent.
pub proof fn lemma_clean_parents_no_findings(p: &Project, id: ElementId, requirement: bool,
    types: Seq<Option<ElementId>>, specializations: Seq<Option<ElementId>>, cyclic: bool, parent: ElementId)
    requires
        parent_results(p, id, requirement, types, specializations, cyclic),
        sole_parent(p, id, requirement, parent),
        parent != id,
        parentless(p.elements@[parent as int]),
    ensures
        parent_findings(p, id, requirement, types, specializations, cyclic) == Seq::<(Span, Code)>::empty(),
{
    let e = p.elements@[id as int];
    assert(!cyclic);
    assert(extra_specialization(e) is None);
    if e.declared_types@.len() == 1 {
        lemma_kind_findings_clean(p, e.declared_types@, e.owner, types, if requirement {
            Code::RequirementTypeKind
        } else {
            Code::VerificationCaseTypeKind
        }, parent_kind_ok(e.kind, requirement, true));
        assert(kind_findings(p, e.specializations@, specializations, if requirement {
            Code::RequirementSpecializationKind
        } else {
            Code::VerificationCaseSpecializationKind
        }, parent_kind_ok(e.kind, requirement, false)) == Seq::<(Span, Code)>::empty());
    } else {
        assert(kind_findings(p, e.declared_types@, types, if requirement {
            Code::RequirementTypeKind
        } else {
            Code::VerificationCaseTypeKind
        }, parent_kind_ok(e.kind, requirement, true)) == Seq::<(Span, Code)>::empty());
        lemma_kind_findings_clean(p, e.specializations@, e.owner, specializations, if requirement {
            Code::RequirementSpecializationKind
        } else {
            Code::VerificationCaseSpecializationKind
        }, parent_kind_ok(e.kind, requirement, false));
    }
    assert(parent_findings(p, id, requirement, types, specializations, cyclic) =~= Seq::<(Span, Code)>::empty());
}

/// A satisfaction whose target plainly names a requirement usage and that
/// names no satisfying subject gets no finding.
pub proof fn lemma_clean_satisfaction_no_findings(p: &Project, s: Satisfaction, target: Option<ElementId>,
    subject: Option<ElementId>, checks: SubjectResults, t: ElementId)
    requires
        satisfaction_results(p, s, target, subject, checks),
        s.inline_requirement is None,
        s.requirement matches Some(r) && direct_target(p, r, s.owner, t),
        kind_is_requirement_usage(p.elements@[t as int].kind),
        s.subject is None,
    ensures
        satisfaction_findings(p, s, target, subject, checks) == Seq::<(Span, Code)>::empty(),
{
    assert(target == Some(t));
}

/// A subject plainly typed, with no binding, by the very type its owner
/// inherits gets no binding finding.
pub proof fn lemma_clean_binding_no_findings(p: &Project, owner: ElementId, subject: ElementId, requirement: bool,
    r: BindingResults, z: ElementId)
    requires
        binding_results(p, owner, subject, requirement, r),
        plainly_typed(p, p.elements@[subject as int], z),
        inherits_subject_type(p, owner, requirement, z),
        requirement ==> kind_is_requirement_usage(p.elements@[owner as int].kind),
    ensures
        binding_findings(p, subject, requirement, r) == Seq::<(Span, Code)>::empty(),
{
    let e = p.elements@[subject as int];
    assert(direct_target(p, e.declared_types@[0], e.owner, z));
    assert(r.0 == Some(z));
    assert(r.1 == Some(z));
    assert(typed_plainly(p, e, z));
}

/// A placed verify declaration whose target plainly names a parentless
/// requirement usage with one subject plainly typed by `z`, inside a
/// parentless verification whose first subject is plainly typed by `z`,
/// gets no finding.
pub proof fn lemma_clean_assertion_no_findings(p: &Project, a: VerifyAssertion, target: Option<ElementId>,
    misfit: bool, t: ElementId, z: ElementId)
    requires
        assertion_results(p, a, target, misfit),
        placed_in_objective(p, a),
        a.inline_requirement is None,
        a.target matches Some(r) && direct_target(p, r, Some(a.owner), t),
        kind_is_requirement_usage(p.elements@[t as int].kind),
        requirement_root_subject(p, t, z),
        verification_root(p, verifying_case(p, a), Some(z)),
    ensures
        assertion_findings(p, a, target, misfit) == Seq::<(Span, Code)>::empty(),
{
    assert(target == Some(t));
    assert(verified_requirement(p, a, target) == Some(t));
    assert(!misfit);
    assert(assertion_findings(p, a, target, misfit) =~= Seq::<(Span, Code)>::empty());
}

/// A reference at position `k` that resolved to an element of a kind that is
/// not `good` has its kind finding among the kind findings of the list.
pub proof fn lemma_kind_findings_has(p: &Project, refs: Seq<Reference>, res: Seq<Option<ElementId>>, code: Code,
    good: spec_fn(ElementKind) -> bool, k: int, t: ElementId)
    requires
        0 <= k < refs.len(),
        res.len() == refs.len(),
        res[k] == Some(t),
        !good(p.elements@[t as int].kind),
    ensures
        kind_findings(p, refs, res, code, good).contains((refs[k].span, code)),
    decreases refs.len(),
{
    let all = kind_findings(p, refs, res, code, good);
    let front = kind_findings(p, refs.drop_last(), res.drop_last(), code, good);
    if k == refs.len() - 1 {
        assert(kind_finding(p, refs.last(), res.last(), code, good) == seq![(refs[k].span, code)]);
        assert(all[front.len() as int] == (refs[k].span, code));
    } else {
        assert(refs.drop_last()[k] == refs[k]);
        assert(res.drop_last()[k] == res[k]);
        lemma_kind_findings_has(p, refs.drop_last(), res.drop_last(), code, good, k, t);
        let w = choose|w: int| 0 <= w < front.len() && front[w] == (refs[k].span, code);
        assert(all[w] == front[w]);
    }
}

/// Every kind finding of a list carries the list's code.
pub proof fn lemma_kind_findings_code(p: &Project, refs: Seq<Reference>, res: Seq<Option<ElementId>>, code: Code,
    good: spec_fn(ElementKind) -> bool)
    ensures
        forall|j: int| 0 <= j < kind_findings(p, refs, res, code, good).len() ==> (#[trigger] kind_findings(p, refs,
            res, code, good)[j]).1 == code,
    decreases refs.len(),
{
    if refs.len() > 0 {
        lemma_kind_findings_code(p, refs.drop_last(), res.drop_last(), code, good);
        let front = kind_findings(p, refs.drop_last(), res.drop_last(), code, good);
        let all = kind_findings(p, refs, res, code, good);
        assert forall|j: int| 0 <= j < all.len() implies (#[trigger] all[j]).1 == code by {
            if j < front.len() {
                assert(all[j] == front[j]);
            }
        }
    }
}

/// The type-cardinality finding comes exactly when an element has more than
/// one declared type, once, first, and at its second declared type.
pub proof fn lemma_type_cardinality_once(p: &Project, id: ElementId, requirement: bool,
    types: Seq<Option<ElementId>>, specializations: Seq<Option<ElementId>>, cyclic: bool)
    ensures
        ({
            let fs = parent_findings(p, id, requirement, types, specializations, cyclic);
            let e = p.elements@[id as int];
            let code = if requirement {
                Code::RequirementTypeCardinality
            } else {
                Code::VerificationCaseTypeCardinality
            };
            &&& e.declared_types@.len() > 1 ==> fs.len() > 0 && fs[0] == (e.declared_types@[1].span, code)
            &&& forall|j: int| 0 <= j < fs.len() && (#[trigger] fs[j]).1 == code ==> j == 0
                && e.declared_types@.len() > 1
        }),
{
    let e = p.elements@[id as int];
    let (cardinality_code, type_code, specialization_code, cycle_code) = if requirement {
        (Code::RequirementTypeCardinality, Code::RequirementTypeKind, Code::RequirementSpecializationKind,
            Code::RequirementInheritanceCycle)
    } else {
        (Code::VerificationCaseTypeCardinality, Code::VerificationCaseTypeKind,
            Code::VerificationCaseSpecializationKind, Code::VerificationInheritanceCycle)
    };
    let card = if e.declared_types@.len() > 1 {
        seq![(e.declared_types@[1].span, cardinality_code)]
    } else {
        Seq::empty()
    };
    let multi = match extra_specialization(e) {
        Some(span) => seq![(span, Code::UnsupportedMultityping)],
        None => Seq::empty(),
    };
    let tk = kind_findings(p, e.declared_types@, types, type_code, parent_kind_ok(e.kind, requirement, true));
    let sk = kind_findings(p, e.specializations@, specializations, specialization_code, parent_kind_ok(e.kind,
        requirement, false));
    let cyc = if cyclic {
        seq![(first_parent_span(e), cycle_code)]
    } else {
        Seq::empty()
    };
    lemma_kind_findings_code(p, e.declared_types@, types, type_code, parent_kind_ok(e.kind, requirement, true));
    lemma_kind_findings_code(p, e.specializations@, specializations, specialization_code, parent_kind_ok(e.kind,
        requirement, false));
    let fs = parent_findings(p, id, requirement, types, specializations, cyclic);
    assert(fs =~= card + multi + tk + sk + cyc);
    assert forall|j: int| 0 <= j < fs.len() && (#[trigger] fs[j]).1 == cardinality_code implies j == 0
        && e.declared_types@.len() > 1 by {
        if j >= card.len() {
            let r = j - card.len();
            if r < multi.len() {
                assert(fs[j] == multi[r]);
            } else if r < multi.len() + tk.len() {
                assert(fs[j] == tk[r - multi.len()]);
            } else if r < multi.len() + tk.len() + sk.len() {
                assert(fs[j] == sk[r - multi.len() - tk.len()]);
            } else {
                assert(fs[j] == cyc[r - multi.len() - tk.len() - sk.len()]);
            }
        }
    }
}

/// An element with no declared type and no specialization gets no type or
/// specialization finding.
pub proof fn lemma_parentless_no_parent_findings(p: &Project, id: ElementId, requirement: bool,
    types: Seq<Option<ElementId>>, specializations: Seq<Option<ElementId>>, cyclic: bool)
    requires
        parent_results(p, id, requirement, types, specializations, cyclic),
        p.elements@[id as int].declared_types@.len() == 0,
        p.elements@[id as int].specializations@.len() == 0,
    ensures
        parent_findings(p, id, requirement, types, specializations, cyclic) == Seq::<(Span, Code)>::empty(),
{
    assert(parentless(p.elements@[id as int]));
    assert(!cyclic);
    assert(parent_findings(p, id, requirement, types, specializations, cyclic) =~= Seq::<(Span, Code)>::empty());
}

/// A verification definition may only specialize verification definitions:
/// each specialization that plainly names an element of any other kind,
/// a verification usage included, is reported as a case specialization-kind
/// finding at that specialization.
pub proof fn lemma_verification_definition_specializes_only_definitions(p: &Project, id: ElementId,
    types: Seq<Option<ElementId>>, specializations: Seq<Option<ElementId>>, cyclic: bool, k: int, x: ElementId)
    requires
        parent_results(p, id, false, types, specializations, cyclic),
        p.elements@[id as int].kind == ElementKind::VerificationDefinition,
        0 <= k < p.elements@[id as int].specializations@.len(),
        direct_target(p, p.elements@[id as int].specializations@[k], p.elements@[id as int].owner, x),
        p.elements@[x as int].kind != ElementKind::VerificationDefinition,
    ensures
        parent_findings(p, id, false, types, specializations, cyclic).contains((
            p.elements@[id as int].specializations@[k].span,
            Code::VerificationCaseSpecializationKind,
        )),
{
    lemma_parent_specialization_reported(p, id, false, types, specializations, cyclic, k, x);
}

/// A verification usage may only specialize verification usages.
pub proof fn lemma_verification_usage_specializes_only_usages(p: &Project, id: ElementId,
    types: Seq<Option<ElementId>>, specializations: Seq<Option<ElementId>>, cyclic: bool, k: int, x: ElementId)
    requires
        parent_results(p, id, false, types, specializations, cyclic),
        p.elements@[id as int].kind == ElementKind::VerificationUsage,
        0 <= k < p.elements@[id as int].specializations@.len(),
        direct_target(p, p.elements@[id as int].specializations@[k], p.elements@[id as int].owner, x),
        p.elements@[x as int].kind != ElementKind::VerificationUsage,
    ensures
        parent_findings(p, id, false, types, specializations, cyclic).contains((
            p.elements@[id as int].specializations@[k].span,
            Code::VerificationCaseSpecializationKind,
        )),
{
    lemma_parent_specialization_reported(p, id, false, types, specializations, cyclic, k, x);
}

/// A verification may only be typed by verification definitions.
pub proof fn lemma_verification_typed_only_by_definitions(p: &Project, id: ElementId,
    types: Seq<Option<ElementId>>, specializations: Seq<Option<ElementId>>, cyclic: bool, k: int, x: ElementId)
    requires
        parent_results(p, id, false, types, specializations, cyclic),
        0 <= k < p.elements@[id as int].declared_types@.len(),
        direct_target(p, p.elements@[id as int].declared_types@[k], p.elements@[id as int].owner, x),
        p.elements@[x as int].kind != ElementKind::VerificationDefinition,
    ensures
        parent_findings(p, id, false, types, specializations, cyclic).contains((
            p.elements@[id as int].declared_types@[k].span,
            Code::VerificationCaseTypeKind,
        )),
{
    lemma_parent_type_reported(p, id, false, types, specializations, cyclic, k, x);
}

/// A requirement may only be typed by requirement definitions.
pub proof fn lemma_requirement_typed_only_by_definitions(p: &Project, id: ElementId,
    types: Seq<Option<ElementId>>, specializations: Seq<Option<ElementId>>, cyclic: bool, k: int, x: ElementId)
    requires
        parent_results(p, id, true, types, specializations, cyclic),
        0 <= k < p.elements@[id as int].declared_types@.len(),
        direct_target(p, p.elements@[id as int].declared_types@[k], p.elements@[id as int].owner, x),
        p.elements@[x as int].kind != ElementKind::RequirementDefinition,
    ensures
        parent_findings(p, id, true, types, specializations, cyclic).contains((
            p.elements@[id as int].declared_types@[k].span,
            Code::RequirementTypeKind,
        )),
{
    lemma_parent_type_reported(p, id, true, types, specializations, cyclic, k, x);
}

/// A requirement definition may only specialize requirement definitions.
pub proof fn lemma_requirement_definition_specializes_only_definitions(p: &Project, id: ElementId,
    types: Seq<Option<ElementId>>, specializations: Seq<Option<ElementId>>, cyclic: bool, k: int, x: ElementId)
    requires
        parent_results(p, id, true, types, specializations, cyclic),
        p.elements@[id as int].kind == ElementKind::RequirementDefinition,
        0 <= k < p.elements@[id as int].specializations@.len(),
        direct_target(p, p.elements@[id as int].specializations@[k], p.elements@[id as int].owner, x),
        p.elements@[x as int].kind != ElementKind::RequirementDefinition,
    ensures
        parent_findings(p, id, true, types, specializations, cyclic).contains((
            p.elements@[id as int].specializations@[k].span,
            Code::RequirementSpecializationKind,
        )),
{
    lemma_parent_specialization_reported(p, id, true, types, specializations, cyclic, k, x);
}

/// A requirement usage or objective may only specialize requirement usages
/// or objectives.
pub proof fn lemma_requirement_usage_specializes_only_usages(p: &Project, id: ElementId,
    types: Seq<Option<ElementId>>, specializations: Seq<Option<ElementId>>, cyclic: bool, k: int, x: ElementId)
    requires
        parent_results(p, id, true, types, specializations, cyclic),
        p.elements@[id as int].kind == ElementKind::RequirementUsage || p.elements@[id as int].kind
            == ElementKind::Objective,
        0 <= k < p.elements@[id as int].specializations@.len(),
        direct_target(p, p.elements@[id as int].specializations@[k], p.elements@[id as int].owner, x),
        p.elements@[x as int].kind != ElementKind::RequirementUsage && p.elements@[x as int].kind
            != ElementKind::Objective,
    ensures
        parent_findings(p, id, true, types, specializations, cyclic).contains((
            p.elements@[id as int].specializations@[k].span,
            Code::RequirementSpecializationKind,
        )),
{
    lemma_parent_specialization_reported(p, id, true, types, specializations, cyclic, k, x);
}

/// A verification definition whose one parent is a specialization plainly
/// naming another verification definition without parents gets no type or
/// specialization finding.
pub proof fn lemma_verification_definition_clean_specialization(p: &Project, id: ElementId,
    types: Seq<Option<ElementId>>, specializations: Seq<Option<ElementId>>, cyclic: bool, x: ElementId)
    requires
        parent_results(p, id, false, types, specializations, cyclic),
        p.elements@[id as int].kind == ElementKind::VerificationDefinition,
        p.elements@[id as int].declared_types@.len() == 0,
        p.elements@[id as int].specializations@.len() == 1,
        direct_target(p, p.elements@[id as int].specializations@[0], p.elements@[id as int].owner, x),
        p.elements@[x as int].kind == ElementKind::VerificationDefinition,
        x != id,
        parentless(p.elements@[x as int]),
    ensures
        parent_findings(p, id, false, types, specializations, cyclic) == Seq::<(Span, Code)>::empty(),
{
    assert(sole_parent(p, id, false, x));
    lemma_clean_parents_no_findings(p, id, false, types, specializations, cyclic, x);
}

proof fn lemma_parent_type_reported(p: &Project, id: ElementId, requirement: bool, types: Seq<Option<ElementId>>,
    specializations: Seq<Option<ElementId>>, cyclic: bool, k: int, x: ElementId)
    requires
        parent_results(p, id, requirement, types, specializations, cyclic),
        0 <= k < p.elements@[id as int].declared_types@.len(),
        direct_target(p, p.elements@[id as int].declared_types@[k], p.elements@[id as int].owner, x),
        !fits(p.elements@[id as int].kind, p.elements@[x as int].kind, requirement, true),
    ensures
        parent_findings(p, id, requirement, types, specializations, cyclic).contains((
            p.elements@[id as int].declared_types@[k].span,
            if requirement { Code::RequirementTypeKind } else { Code::VerificationCaseTypeKind },
        )),
{
    let e = p.elements@[id as int];
    let code = if requirement { Code::RequirementTypeKind } else { Code::VerificationCaseTypeKind };
    assert(resolution_fits(p, e.declared_types@[k], e.owner, types[k]));
    lemma_kind_findings_has(p, e.declared_types@, types, code, parent_kind_ok(e.kind, requirement, true), k, x);
    let kf = kind_findings(p, e.declared_types@, types, code, parent_kind_ok(e.kind, requirement, true));
    let w = choose|w: int| 0 <= w < kf.len() && kf[w] == (e.declared_types@[k].span, code);
    let head = (if e.declared_types@.len() > 1 {
        seq![(e.declared_types@[1].span, if requirement { Code::RequirementTypeCardinality } else {
            Code::VerificationCaseTypeCardinality })]
    } else {
        Seq::empty()
    }) + (match extra_specialization(e) {
        Some(span) => seq![(span, Code::UnsupportedMultityping)],
        None => Seq::empty(),
    });
    let all = parent_findings(p, id, requirement, types, specializations, cyclic);
    assert(all[head.len() + w] == kf[w]);
}

proof fn lemma_parent_specialization_reported(p: &Project, id: ElementId, requirement: bool,
    types: Seq<Option<ElementId>>, specializations: Seq<Option<ElementId>>, cyclic: bool, k: int, x: ElementId)
    requires
        parent_results(p, id, requirement, types, specializations, cyclic),
        0 <= k < p.elements@[id as int].specializations@.len(),
        direct_target(p, p.elements@[id as int].specializations@[k], p.elements@[id as int].owner, x),
        !fits(p.elements@[id as int].kind, p.elements@[x as int].kind, requirement, false),
    ensures
        parent_findings(p, id, requirement, types, specializations, cyclic).contains((
            p.elements@[id as int].specializations@[k].span,
            if requirement { Code::RequirementSpecializationKind } else { Code::VerificationCaseSpecializationKind },
        )),
{
    let e = p.elements@[id as int];
    let code = if requirement {
        Code::RequirementSpecializationKind
    } else {
        Code::VerificationCaseSpecializationKind
    };
    let tcode = if requirement { Code::RequirementTypeKind } else { Code::VerificationCaseTypeKind };
    assert(resolution_fits(p, e.specializations@[k], e.owner, specializations[k]));
    lemma_kind_findings_has(p, e.specializations@, specializations, code, parent_kind_ok(e.kind, requirement, false),
        k, x);
    let kf = kind_findings(p, e.specializations@, specializations, code, parent_kind_ok(e.kind, requirement, false));
    let w = choose|w: int| 0 <= w < kf.len() && kf[w] == (e.specializations@[k].span, code);
    let head = (if e.declared_types@.len() > 1 {
        seq![(e.declared_types@[1].span, if requirement { Code::RequirementTypeCardinality } else {
            Code::VerificationCaseTypeCardinality })]
    } else {
        Seq::empty()
    }) + (match extra_specialization(e) {
        Some(span) => seq![(span, Code::UnsupportedMultityping)],
        None => Seq::empty(),
    }) + kind_findings(p, e.declared_types@, types, tcode, parent_kind_ok(e.kind, requirement, true));
    let all = parent_findings(p, id, requirement, types, specializations, cyclic);
    assert(all[head.len() + w] == kf[w]);
}

/// What following the single fitting parents of element `id` may report:
/// a cycle when its sole parent is itself, never for an element with no
/// parent or with several parent relationships, and never when its sole
/// parent is another element that has no parent.
pub open spec fn cycle_fits(p: &Project, id: ElementId, requirement: bool, cyclic: bool) -> bool {
    let e = p.elements@[id as int];
    &&& self_parent(p, id, requirement) ==> cyclic
    &&& cyclic ==> !parentless(e) && !multiple_parents(e)
    &&& forall|y: ElementId| #[trigger] sole_parent(p, id, requirement, y) && y != id && parentless(
        p.elements@[y as int]) ==> !cyclic
}

/// The results that the type and specialization checks of element `id`
/// rest on: what its declared types and specializations resolved to, and
/// whether its parent chain is cyclic.
pub open spec fn parent_results(p: &Project, id: ElementId, requirement: bool, types: Seq<Option<ElementId>>,
    specializations: Seq<Option<ElementId>>, cyclic: bool) -> bool {
    let e = p.elements@[id as int];
    &&& results_fit(p, e.declared_types@, e.owner, types)
    &&& results_fit(p, e.specializations@, e.owner, specializations)
    &&& cycle_fits(p, id, requirement, cyclic)
}

/// The rule findings of the type and specialization checks of element `id`,
/// in order, for those results: a second declared type, a specialization
/// beside another parent, each declared type and specialization of a kind
/// that does not fit, and a cyclic parent chain.
pub open spec fn parent_findings(p: &Project, id: ElementId, requirement: bool, types: Seq<Option<ElementId>>,
    specializations: Seq<Option<ElementId>>, cyclic: bool) -> Seq<(Span, Code)> {
    let e = p.elements@[id as int];
    let (cardinality_code, type_code, specialization_code, cycle_code) = if requirement {
        (Code::RequirementTypeCardinality, Code::RequirementTypeKind, Code::RequirementSpecializationKind,
            Code::RequirementInheritanceCycle)
    } else {
        (Code::VerificationCaseTypeCardinality, Code::VerificationCaseTypeKind,
            Code::VerificationCaseSpecializationKind, Code::VerificationInheritanceCycle)
    };
    (if e.declared_types@.len() > 1 {
        seq![(e.declared_types@[1].span, cardinality_code)]
    } else {
        Seq::empty()
    }) + (match extra_specialization(e) {
        Some(span) => seq![(span, Code::UnsupportedMultityping)],
        None => Seq::empty(),
    }) + kind_findings(p, e.declared_types@, types, type_code, parent_kind_ok(e.kind, requirement, true))
        + kind_findings(p, e.specializations@, specializations, specialization_code, parent_kind_ok(e.kind,
        requirement, false)) + if cyclic {
        seq![(first_parent_span(e), cycle_code)]
    } else {
        Seq::empty()
    }
}

/// The findings of `parts`, one after another.
pub open spec fn concat_all(parts: Seq<Seq<SemanticDiagnostic>>) -> Seq<SemanticDiagnostic>
    decreases parts.len(),
{
    if parts.len() == 0 {
        Seq::empty()
    } else {
        concat_all(parts.drop_last()) + parts.last()
    }
}

/// The findings `part` recorded for `import`: the one finding of the first
/// rule it breaks, and only that; or, when it breaks none, only findings of
/// resolving its target.
pub open spec fn import_part(import: Import, part: Seq<SemanticDiagnostic>) -> bool {
    match import_check(import) {
        Some(code) => part.len() == 1 && same_finding(part[0], import.span, code),
        None => forall|j: int| 0 <= j < part.len() ==> resolution_codes().contains(#[trigger] part[j].code),
    }
}

impl<'a> RequirementsValidator<'a> {
    /// Checks each import against the profile: explicit visibility, private at
    /// top level, none protected, no `all`, no recursive or filtered
    /// wildcard; the target of every other import must resolve uniquely.
    pub(crate) fn validate_imports(&mut self)
        requires
            old(self).inv(),
        ensures
            steps(old(self), final(self)),
            adds_within(old(self).diagnostics@, final(self).diagnostics@, resolution_codes() + set![Code::ImportVisibility, Code::UnsupportedImport]),
            forall|i: int| 0 <= i < final(self).project.imports@.len()
                ==> (import_check(#[trigger] final(self).project.imports@[i]) matches Some(code)
                    ==> has_finding(final(self).diagnostics@, final(self).project.imports@[i].span, code)),
            rule_findings(final(self).diagnostics@.subrange(old(self).diagnostics@.len() as int,
                final(self).diagnostics@.len() as int)) == import_findings(final(self).project.imports@),
            (forall|i: int| 0 <= i < final(self).project.imports@.len() ==> import_check(
                #[trigger] final(self).project.imports@[i]) is Some) ==> final(self).diagnostics@.len()
                == old(self).diagnostics@.len() + final(self).project.imports@.len(),
            exists|parts: Seq<Seq<SemanticDiagnostic>>| #![trigger concat_all(parts)]
                parts.len() == final(self).project.imports@.len() && final(self).diagnostics@.subrange(
                old(self).diagnostics@.len() as int, final(self).diagnostics@.len() as int) == concat_all(parts)
                && forall|i: int| 0 <= i < parts.len() ==> import_part(final(self).project.imports@[i],
                #[trigger] parts[i]),
    {
        let project = self.project;
        let ghost start = self.diagnostics@.len() as int;
        proof {
            assert(self.diagnostics@.subrange(start, start) =~= Seq::<SemanticDiagnostic>::empty());
            assert(project.imports@.take(0) =~= Seq::<Import>::empty());
        }
        let ghost mut parts: Seq<Seq<SemanticDiagnostic>> = Seq::empty();
        let mut i: usize = 0;
        while i < project.imports.len()
            invariant
                steps(old(self), self),
                adds_within(old(self).diagnostics@, self.diagnostics@, resolution_codes() + set![Code::ImportVisibility, Code::UnsupportedImport]),
                self.project == project,
                i <= project.imports@.len(),
                forall|j: int| 0 <= j < i ==> (import_check(#[trigger] project.imports@[j]) matches Some(code)
                    ==> has_finding(self.diagnostics@, project.imports@[j].span, code)),
                start == old(self).diagnostics@.len(),
                rule_findings(self.diagnostics@.subrange(start, self.diagnostics@.len() as int)) == import_findings(
                    project.imports@.take(i as int)),
                (forall|j: int| 0 <= j < i ==> import_check(#[trigger] project.imports@[j]) is Some)
                    ==> self.diagnostics@.len() == start + i,
                parts.len() == i,
                self.diagnostics@.subrange(start, self.diagnostics@.len() as int) == concat_all(parts),
                forall|j: int| 0 <= j < i ==> import_part(project.imports@[j], #[trigger] parts[j]),
            decreases project.imports@.len() - i,
        {
            let import = &project.imports[i];
            proof { assert(project.import_ok(project.imports@[i as int])); }
            let ghost before = self.diagnostics@;
            if import.visibility == ImportVisibility::Missing {
                self.push(import.span, Code::ImportVisibility,
                    owned("an import requires an explicit public, private, or protected visibility indicator"));
            } else if import.visibility == ImportVisibility::Protected {
                self.push(import.span, Code::UnsupportedImport, owned("protected imports are outside this validation profile"));
            } else if import.scope.is_none() && import.visibility != ImportVisibility::Private {
                self.push(import.span, Code::ImportVisibility, owned("a top-level import must have private visibility"));
            } else if import.all {
                self.push(import.span, Code::UnsupportedImport,
                    owned("imports with the `all` modifier are outside this validation profile"));
            } else if import.recursive || import.filtered {
                self.push(import.span, Code::UnsupportedImport,
                    owned("recursive and filtered wildcard imports are outside this validation profile"));
            } else {
                self.validate_import_target_reference(i);
            }
            proof {
                let now = self.diagnostics@;
                assert(project.imports@.take(i + 1).drop_last() =~= project.imports@.take(i as int));
                assert(project.imports@.take(i + 1).last() == project.imports@[i as int]);
                let added = now.subrange(before.len() as int, now.len() as int);
                assert(now.subrange(start, now.len() as int) =~= before.subrange(start, before.len() as int) + added);
                assert(parts.push(added).drop_last() =~= parts);
                if import_check(project.imports@[i as int]) is None {
                    assert forall|j: int| 0 <= j < added.len() implies resolution_codes().contains(
                        #[trigger] added[j].code) by {
                        assert(added[j] == now[before.len() + j]);
                    }
                } else {
                    assert(added[0] == now[before.len() as int]);
                }
                assert(import_part(project.imports@[i as int], added));
                parts = parts.push(added);
                if import_check(project.imports@[i as int]) is Some {
                    assert(now.len() == before.len() + 1);
                    assert(added =~= seq![now[before.len() as int]]);
                    let whole = before.subrange(start, before.len() as int) + added;
                    assert(whole.drop_last() =~= before.subrange(start, before.len() as int));
                } else {
                    assert forall|j: int| 0 <= j < added.len() implies resolution_codes().contains(#[trigger] added[j].code) by {
                        assert(added[j] == now[before.len() + j]);
                    }
                    lemma_rule_findings_resolution(before.subrange(start, before.len() as int), added);
                }
                if import_check(project.imports@[i as int]) is Some {
                    let last = self.diagnostics@.len() - 1;
                    assert(same_finding(self.diagnostics@[last], project.imports@[i as int].span,
                        import_check(project.imports@[i as int])->0));
                }
                assert forall|j: int| 0 <= j < i + 1 implies (import_check(#[trigger] project.imports@[j]) matches Some(code)
                    ==> has_finding(self.diagnostics@, project.imports@[j].span, code)) by {
                    if j < i {
                        if let Some(code) = import_check(project.imports@[j]) {
                            let w = choose|w: int| 0 <= w < before.len() && same_finding(#[trigger] before[w], project.imports@[j].span, code);
                            assert(self.diagnostics@[w] == before[w]);
                        }
                    }
                }
            }
            i = i + 1;
        }
        proof {
            assert(project.imports@.take(project.imports@.len() as int) =~= project.imports@);
        }
    }

    fn validate_import_target_reference(&mut self, index: usize)
        requires
            old(self).inv(),
            index < old(self).project.imports@.len(),
        ensures
            steps(old(self), final(self)),
            adds_within(old(self).diagnostics@, final(self).diagnostics@, resolution_codes()),
            names_nothing(old(self).project, old(self).project.imports@[index as int].reference)
                ==> resolution_reported(final(self).diagnostics@),
    {
        let project = self.project;
        let import = &project.imports[index];
        proof { assert(project.import_ok(project.imports@[index as int])); }
        let mut state = ResolutionState::new();
        let resolver = self.resolver();
        proof {
            assert(state.members@.no_duplicates());
            assert(state.imports@.no_duplicates());
        }
        let outcome = resolver.resolve_import_target_guarded(index, &mut state);
        proof {
            if let Resolution::Found(x) = outcome.resolution {
                assert(carries_reference_name(project, import.reference, x));
            }
        }
        let _ = self.report_resolution_outcome(import.reference.span, &import.reference.text, outcome, "import target");
    }

    /// Reports a multi-typed element in the given role as outside the profile.
    pub(crate) fn validate_supported_type_cardinality(&mut self, id: ElementId, role: &str)
        requires
            old(self).inv(),
            id < old(self).n(),
        ensures
            steps(old(self), final(self)),
            adds_within(old(self).diagnostics@, final(self).diagnostics@, set![Code::UnsupportedMultityping]),
            unsupported_parent_span(old(self).element_at(id)) matches Some(s) ==> final(self).diagnostics@.len()
                == old(self).diagnostics@.len() + 1 && same_finding(final(self).diagnostics@.last(), s,
                Code::UnsupportedMultityping),
            unsupported_parent_index(old(self).element_at(id)) is None ==> final(self).diagnostics@ == old(self).diagnostics@,
    {
        let project = self.project;
        proof { assert(project.element_ok(id as int)); }
        let element = &project.elements[id];
        let reference = if element.declared_types.len() > 1 {
            Some(&element.declared_types[1])
        } else if element.declared_types.len() != 0 && element.specializations.len() != 0 {
            Some(&element.specializations[0])
        } else if element.specializations.len() > 1 {
            Some(&element.specializations[1])
        } else {
            None
        };
        if let Some(reference) = reference {
            proof {
                assert(project.references_ok(element.declared_types@));
                assert(project.references_ok(element.specializations@));
                if element.declared_types@.len() > 1 {
                    assert(project.reference_ok(element.declared_types@[1]));
                } else if element.declared_types@.len() > 0 && element.specializations@.len() > 0 {
                    assert(project.reference_ok(element.specializations@[0]));
                } else {
                    assert(project.reference_ok(element.specializations@[1]));
                }
            }
            let message = join3("multiple type or specialization parents on a ", role,
                " are outside this validation profile");
            self.push(reference.span, Code::UnsupportedMultityping, message);
        }
    }

    /// Reports specializations beside another parent as outside the profile:
    /// the second specialization, or the first one beside a declared type.
    pub(crate) fn validate_parent_relationship_cardinality(&mut self, id: ElementId, role: &str)
        requires
            old(self).inv(),
            id < old(self).n(),
        ensures
            steps(old(self), final(self)),
            adds_within(old(self).diagnostics@, final(self).diagnostics@, set![Code::UnsupportedMultityping]),
            extra_specialization(old(self).element_at(id)) matches Some(span) ==> final(self).diagnostics@.len()
                == old(self).diagnostics@.len() + 1 && same_finding(final(self).diagnostics@.last(), span,
                Code::UnsupportedMultityping),
            extra_specialization(old(self).element_at(id)) is None ==> final(self).diagnostics@ == old(self).diagnostics@,
    {
        let project = self.project;
        proof { assert(project.element_ok(id as int)); }
        let element = &project.elements[id];
        let specializations = element.specializations.len();
        if specializations != 0 && (element.declared_types.len() != 0 || specializations > 1) {
            let reference = if element.declared_types.len() == 0 {
                &element.specializations[1]
            } else {
                &element.specializations[0]
            };
            proof {
                assert(project.references_ok(element.specializations@));
                if element.declared_types@.len() == 0 {
                    assert(project.reference_ok(element.specializations@[1]));
                } else {
                    assert(project.reference_ok(element.specializations@[0]));
                }
            }
            let message = join3("multiple type or specialization parents on a ", role,
                " are outside this validation profile");
            self.push(reference.span, Code::UnsupportedMultityping, message);
        }
    }

    /// Whether `actual` is `expected` or reaches it through specializations,
    /// reporting the specializations on the way that do not resolve.
    pub(crate) fn is_same_or_specializes(&mut self, actual: ElementId, expected: ElementId, visited: &mut Marks) -> (c: Conformance)
        requires
            old(self).inv(),
            actual < old(self).n(),
            old(visited).bound() == old(self).n(),
        ensures
            steps(old(self), final(self)),
            adds_within(old(self).diagnostics@, final(self).diagnostics@, resolution_codes()),
            final(visited).bound() == old(visited).bound(),
            final(visited).remaining() <= old(visited).remaining(),
            actual == expected ==> c == Conformance::Conforms && final(self).diagnostics@ == old(self).diagnostics@,
            actual != expected && old(visited).contains(actual as int) ==> c == Conformance::DoesNotConform,
            actual != expected && old(self).project.elements@[actual as int].specializations@.len() == 0 ==> c
                == Conformance::DoesNotConform,
            old(self).project.elements@[actual as int].specializations@.len() == 0 ==> final(self).diagnostics@
                == old(self).diagnostics@,
            !old(visited).contains(actual as int) && specializes_directly(old(self).project, actual, expected) ==> c
                == Conformance::Conforms,
        decreases old(visited).remaining(),
    {
        if actual == expected {
            return Conformance::Conforms;
        }
        if !visited.insert(actual) {
            return Conformance::DoesNotConform;
        }
        let project = self.project;
        proof { assert(project.element_ok(actual as int)); }
        let element = &project.elements[actual];
        let mut conforms = false;
        let mut indeterminate = false;
        let mut k: usize = 0;
        while k < element.specializations.len()
            invariant
                steps(old(self), self),
                adds_within(old(self).diagnostics@, self.diagnostics@, resolution_codes()),
                self.project == project,
                actual < project.elements@.len(),
                *element == project.elements@[actual as int],
                project.element_ok(actual as int),
                k <= element.specializations@.len(),
                visited.bound() == project.elements@.len(),
                visited.remaining() < old(visited).remaining(),
                actual != expected,
                k == 0 ==> !conforms && !indeterminate,
                k == 0 ==> self.diagnostics@ == old(self).diagnostics@,
                forall|k2: int| 0 <= k2 < k && #[trigger] direct_target(project, element.specializations@[k2],
                    element.owner, expected as usize) ==> conforms,
            decreases element.specializations@.len() - k,
        {
            assert(project.reference_ok(element.specializations@[k as int]));
            match self.resolve_profile_reference(&element.specializations[k], element.owner, element.package, "specialization parent") {
                Some(parent) => {
                    match self.is_same_or_specializes(parent, expected, visited) {
                        Conformance::Conforms => { conforms = true; }
                        Conformance::DoesNotConform => {}
                        Conformance::Indeterminate => { indeterminate = true; }
                    }
                }
                None => { indeterminate = true; }
            }
            k = k + 1;
        }
        if conforms {
            Conformance::Conforms
        } else if indeterminate {
            Conformance::Indeterminate
        } else {
            Conformance::DoesNotConform
        }
    }

    fn conformance(&mut self, actual: ElementId, expected: ElementId) -> (c: Conformance)
        requires
            old(self).inv(),
            actual < old(self).n(),
        ensures
            steps(old(self), final(self)),
            adds_within(old(self).diagnostics@, final(self).diagnostics@, resolution_codes()),
            actual == expected ==> c == Conformance::Conforms && final(self).diagnostics@ == old(self).diagnostics@,
            actual != expected && old(self).project.elements@[actual as int].specializations@.len() == 0 ==> c
                == Conformance::DoesNotConform && final(self).diagnostics@ == old(self).diagnostics@,
            specializes_directly(old(self).project, actual, expected) ==> c == Conformance::Conforms,
    {
        let mut visited = Marks::new(self.project.elements.len());
        self.is_same_or_specializes(actual, expected, &mut visited)
    }

    /// Follows an element's type chain up through the usages it specializes,
    /// reporting multi-typing and every parent reference that does not resolve.
    pub(crate) fn validate_effective_type_chain(&mut self, id: ElementId, role: &str)
        requires
            old(self).inv(),
            id < old(self).n(),
        ensures
            steps(old(self), final(self)),
            adds_within(old(self).diagnostics@, final(self).diagnostics@, chain_codes()),
            chain_head_checked(old(self).project, final(self).diagnostics@, old(self).element_at(id)),
    {
        let project = self.project;
        let type_role = join2(role, " type");
        let specialization_role = join2(role, " specialization");
        let mut current = id;
        let mut visited = Marks::new(project.elements.len());
        loop
            invariant
                steps(old(self), self),
                adds_within(old(self).diagnostics@, self.diagnostics@, chain_codes()),
                self.project == project,
                current < project.elements@.len(),
                visited.bound() == project.elements@.len(),
                id < project.elements@.len(),
                !visited.contains(id as int) ==> current == id,
                visited.contains(id as int) ==> chain_head_checked(project, self.diagnostics@,
                    project.elements@[id as int]),
            decreases visited.remaining(),
        {
            let ghost start = self.diagnostics@;
            let ghost was_head = !visited.contains(id as int);
            if !visited.insert(current) {
                return;
            }
            self.validate_supported_type_cardinality(current, role);
            let ghost after_cardinality = self.diagnostics@;
            proof {
                assert(project.element_ok(current as int));
                if let Some(sp) = unsupported_parent_span(project.elements@[current as int]) {
                    assert(same_finding(after_cardinality[after_cardinality.len() - 1], sp,
                        Code::UnsupportedMultityping));
                }
            }
            let element = &project.elements[current];
            let mut k: usize = 0;
            while k < element.declared_types.len()
                invariant
                    steps(old(self), self),
                    adds_within(old(self).diagnostics@, self.diagnostics@, chain_codes()),
                    self.project == project,
                    current < project.elements@.len(),
                    *element == project.elements@[current as int],
                    project.element_ok(current as int),
                    k <= element.declared_types@.len(),
                    extends(after_cardinality, self.diagnostics@),
                    (exists|k2: int| 0 <= k2 < k && names_nothing(project, #[trigger] element.declared_types@[k2]))
                        ==> resolution_reported(self.diagnostics@),
                decreases element.declared_types@.len() - k,
            {
                assert(project.reference_ok(element.declared_types@[k as int]));
                let ghost before = self.diagnostics@;
                let _ = self.resolve_profile_reference(&element.declared_types[k], element.owner, element.package, type_role.as_str());
                proof {
                    if resolution_reported(before) {
                        lemma_resolution_reported_kept(before, self.diagnostics@);
                    }
                }
                k = k + 1;
            }
            let ghost after_types = self.diagnostics@;
            let mut next_parent: Option<ElementId> = None;
            let mut k: usize = 0;
            while k < element.specializations.len()
                invariant
                    steps(old(self), self),
                    adds_within(old(self).diagnostics@, self.diagnostics@, chain_codes()),
                    self.project == project,
                    current < project.elements@.len(),
                    *element == project.elements@[current as int],
                    project.element_ok(current as int),
                    k <= element.specializations@.len(),
                    opt_id_below(next_parent, project.elements@.len()),
                    extends(after_types, self.diagnostics@),
                    (exists|k2: int| 0 <= k2 < k && names_nothing(project, #[trigger] element.specializations@[k2]))
                        ==> resolution_reported(self.diagnostics@),
                decreases element.specializations@.len() - k,
            {
                assert(project.reference_ok(element.specializations@[k as int]));
                let ghost before = self.diagnostics@;
                let resolved = self.resolve_profile_reference(&element.specializations[k], element.owner, element.package,
                    specialization_role.as_str());
                proof {
                    if resolution_reported(before) {
                        lemma_resolution_reported_kept(before, self.diagnostics@);
                    }
                }
                if k == 0 {
                    next_parent = resolved;
                }
                k = k + 1;
            }
            proof {
                let e = project.elements@[current as int];
                if let Some(sp) = unsupported_parent_span(e) {
                    lemma_extends_keeps_finding(after_cardinality, self.diagnostics@, sp, Code::UnsupportedMultityping);
                }
                if resolution_reported(after_types) {
                    lemma_resolution_reported_kept(after_types, self.diagnostics@);
                }
                if was_head {
                    assert(chain_head_checked(project, self.diagnostics@, e));
                } else {
                    lemma_chain_head_kept(project, start, self.diagnostics@, project.elements@[id as int]);
                }
            }
            if has_multiple_parent_relationships(element) || element.declared_types.len() != 0 {
                return;
            }
            let parent = match next_parent {
                Some(parent) => parent,
                None => { return; }
            };
            if !project.elements[parent].kind.is_usage() {
                return;
            }
            current = parent;
        }
    }

    /// Checks the feature an element is bound to: it must resolve to a usage,
    /// whose type chain is then followed.
    pub(crate) fn validate_binding_target_types(&mut self, id: ElementId, role: &str, target_kind_code: Code)
        requires
            old(self).inv(),
            !is_resolution_code(target_kind_code),
            id < old(self).n(),
        ensures
            steps(old(self), final(self)),
            adds_within(old(self).diagnostics@, final(self).diagnostics@, chain_codes().insert(target_kind_code)),
            old(self).element_at(id).referenced_feature is None ==> final(self).diagnostics@ == old(self).diagnostics@,
            old(self).element_at(id).referenced_feature matches Some(b) ==> {
                &&& names_nothing(old(self).project, b) ==> resolution_reported(final(self).diagnostics@)
                &&& forall|x: usize| #[trigger] direct_target(old(self).project, b, old(self).element_at(id).owner, x)
                    ==> if kind_is_usage(old(self).project.elements@[x as int].kind) {
                        chain_head_checked(old(self).project, final(self).diagnostics@, old(self).project.elements@[x as int])
                    } else {
                        has_finding(final(self).diagnostics@, b.span, target_kind_code)
                    }
            },
    {
        let project = self.project;
        proof { assert(project.element_ok(id as int)); }
        let element = &project.elements[id];
        let binding = match &element.referenced_feature {
            Some(binding) => binding,
            None => { return; }
        };
        let binding_role = join2(role, " binding");
        let target = match self.resolve_profile_reference(binding, element.owner, element.package, binding_role.as_str()) {
            Some(target) => target,
            None => { return; }
        };
        let target_kind = project.elements[target].kind;
        if !target_kind.is_usage() {
            let message = quoted_message(join2(role, " binding ").as_str(), &binding.text, " resolves to ");
            let message = message.concat(kind_name(target_kind));
            self.push(binding.span, target_kind_code, message.concat(", not a usage"));
            proof {
                assert(same_finding(self.diagnostics@[self.diagnostics@.len() - 1], binding.span, target_kind_code));
            }
            return;
        }
        let bound_role = join2("bound ", role);
        self.validate_effective_type_chain(target, bound_role.as_str());
    }

    /// Checks every declared type of an element resolves, and (when a kind is
    /// required) that it resolves to a constraint definition of that kind.
    pub(crate) fn resolve_declared_types(&mut self, id: ElementId, required_kind: Option<ElementKind>)
        requires
            old(self).inv(),
            id < old(self).n(),
        ensures
            steps(old(self), final(self)),
            adds_within(old(self).diagnostics@, final(self).diagnostics@, resolution_codes().insert(Code::RequirementConstraintTypeKind)),
            forall|k: int| 0 <= k < old(self).element_at(id).declared_types@.len() ==> kind_checked(old(self).project,
                final(self).diagnostics@, #[trigger] old(self).element_at(id).declared_types@[k],
                old(self).element_at(id).owner, Code::RequirementConstraintTypeKind, required_kind_ok(required_kind)),
    {
        let project = self.project;
        proof { assert(project.element_ok(id as int)); }
        let element = &project.elements[id];
        let mut k: usize = 0;
        while k < element.declared_types.len()
            invariant
                steps(old(self), self),
                adds_within(old(self).diagnostics@, self.diagnostics@, resolution_codes().insert(Code::RequirementConstraintTypeKind)),
                self.project == project,
                id < project.elements@.len(),
                *element == project.elements@[id as int],
                project.element_ok(id as int),
                k <= element.declared_types@.len(),
                forall|k2: int| 0 <= k2 < k ==> kind_checked(project, self.diagnostics@,
                    #[trigger] element.declared_types@[k2], element.owner, Code::RequirementConstraintTypeKind,
                    required_kind_ok(required_kind)),
            decreases element.declared_types@.len() - k,
        {
            let reference = &element.declared_types[k];
            assert(project.reference_ok(element.declared_types@[k as int]));
            let ghost before = self.diagnostics@;
            if let Some(target) = self.resolve_for_element(reference, id) {
                if let Some(kind) = required_kind {
                    if project.elements[target].kind != kind {
                        let message = quoted_message("constraint type ", &reference.text,
                            " does not resolve to a constraint definition");
                        self.push(reference.span, Code::RequirementConstraintTypeKind, message);
                        proof {
                            assert(same_finding(self.diagnostics@[self.diagnostics@.len() - 1], reference.span,
                                Code::RequirementConstraintTypeKind));
                        }
                    }
                }
            }
            proof {
                assert forall|k2: int| 0 <= k2 < k + 1 implies kind_checked(project, self.diagnostics@,
                    #[trigger] element.declared_types@[k2], element.owner, Code::RequirementConstraintTypeKind,
                    required_kind_ok(required_kind)) by {
                    if k2 < k {
                        lemma_kind_checked_kept(project, before, self.diagnostics@, element.declared_types@[k2],
                            element.owner, Code::RequirementConstraintTypeKind, required_kind_ok(required_kind));
                    }
                }
            }
            k = k + 1;
        }
    }
}


impl<'a> RequirementsValidator<'a> {
    /// Type and specialization checks of a requirement: at most one declared
    /// type, declared types that are requirement definitions, specializations
    /// of the requirement's own kind, and an acyclic parent chain.
    #[verifier::spinoff_prover]
    #[verifier::rlimit(60)]
    pub(crate) fn validate_requirement_types(&mut self, id: ElementId)
        requires
            old(self).inv(),
            id < old(self).n(),
        ensures
            steps(old(self), final(self)),
            adds_within(old(self).diagnostics@, final(self).diagnostics@, requirement_codes()),
            old(self).element_at(id).declared_types@.len() > 1 ==> final(self).diagnostics@.len()
                > old(self).diagnostics@.len() && final(self).diagnostics@[old(self).diagnostics@.len() as int].code
                == Code::RequirementTypeCardinality && final(self).diagnostics@[old(self).diagnostics@.len() as int].span
                == old(self).element_at(id).declared_types@[1].span,
            extra_specialization(old(self).element_at(id)) matches Some(span) ==> has_finding(
                final(self).diagnostics@, span, Code::UnsupportedMultityping),
            parents_checked(old(self).project, final(self).diagnostics@, id, true),
            parentless(old(self).element_at(id)) ==> final(self).diagnostics@ == old(self).diagnostics@,
            old(self).element_at(id).declared_types@.len() <= 1 ==> adds_without(old(self).diagnostics@,
                final(self).diagnostics@, Code::RequirementTypeCardinality),
            exists|types: Seq<Option<ElementId>>, specializations: Seq<Option<ElementId>>, cyclic: bool|
                #![trigger parent_findings(old(self).project, id, true, types, specializations, cyclic)]
                parent_results(old(self).project, id, true, types, specializations, cyclic) && rule_findings(
                final(self).diagnostics@) == rule_findings(old(self).diagnostics@) + parent_findings(
                old(self).project, id, true, types, specializations, cyclic),
    {
        let project = self.project;
        proof { assert(project.element_ok(id as int)); }
        let element = &project.elements[id];
        let ghost start = self.diagnostics@.len();
        if element.declared_types.len() > 1 {
            proof { assert(project.reference_ok(element.declared_types@[1])); }
            self.push(element.declared_types[1].span, Code::RequirementTypeCardinality,
                owned("a requirement usage may have at most one explicit requirement definition type"));
        }
        let ghost after_cardinality = self.diagnostics@;
        proof {
            if element.declared_types@.len() > 1 {
                lemma_rule_findings_push(old(self).diagnostics@, after_cardinality.last());
                assert(old(self).diagnostics@.push(after_cardinality.last()) =~= after_cardinality);
            }
        }
        self.validate_parent_relationship_cardinality(id, "requirement");
        let ghost after_parent = self.diagnostics@;
        let ghost head = rule_findings(after_parent);
        proof {
            if extra_specialization(*element) is Some {
                lemma_rule_findings_push(after_cardinality, after_parent.last());
                assert(after_cardinality.push(after_parent.last()) =~= after_parent);
            }
            let e = *element;
            assert(head == rule_findings(old(self).diagnostics@) + (if e.declared_types@.len() > 1 {
                seq![(e.declared_types@[1].span, Code::RequirementTypeCardinality)]
            } else {
                Seq::empty()
            }) + (match extra_specialization(e) {
                Some(span) => seq![(span, Code::UnsupportedMultityping)],
                None => Seq::empty(),
            }));
        }
        let ghost mut types: Seq<Option<ElementId>> = Seq::empty();
        proof {
            if parentless(*element) {
                assert(after_parent == old(self).diagnostics@);
            }
        }
        proof {
            if let Some(span) = extra_specialization(project.elements@[id as int]) {
                assert(same_finding(after_parent[after_parent.len() - 1], span, Code::UnsupportedMultityping));
            }
        }
        let mut k: usize = 0;
        while k < element.declared_types.len()
            invariant
                steps(old(self), self),
                adds_within(old(self).diagnostics@, self.diagnostics@, requirement_codes()),
                extends(after_parent, self.diagnostics@),
                parentless(*element) ==> self.diagnostics@ == after_parent,
                element.declared_types@.len() <= 1 ==> adds_without(old(self).diagnostics@, self.diagnostics@,
                    Code::RequirementTypeCardinality),
                self.project == project,
                id < project.elements@.len(),
                *element == project.elements@[id as int],
                project.element_ok(id as int),
                k <= element.declared_types@.len(),
                forall|k2: int| 0 <= k2 < k ==> kind_checked(project, self.diagnostics@,
                    #[trigger] element.declared_types@[k2], element.owner, Code::RequirementTypeKind,
                    parent_kind_ok(element.kind, true, true)),
                types.len() == k,
                forall|k2: int| 0 <= k2 < k ==> resolution_fits(project, #[trigger] element.declared_types@[k2],
                    element.owner, types[k2]),
                rule_findings(self.diagnostics@) == head + kind_findings(project, element.declared_types@.take(k as int),
                    types, Code::RequirementTypeKind, parent_kind_ok(element.kind, true, true)),
            decreases element.declared_types@.len() - k,
        {
            let reference = &element.declared_types[k];
            assert(project.reference_ok(element.declared_types@[k as int]));
            let ghost before = self.diagnostics@;
            let found = self.resolve_for_element(reference, id);
            let ghost mid = self.diagnostics@;
            proof {
                lemma_rule_findings_unchanged(before, mid);
                assert(resolution_fits(project, *reference, element.owner, found));
                lemma_kind_findings_step(project, element.declared_types@, types, k as int, found,
                    Code::RequirementTypeKind, parent_kind_ok(element.kind, true, true));
            }
            if let Some(target) = found {
                let kind = project.elements[target].kind;
                if kind != ElementKind::RequirementDefinition {
                    let message = quoted_message("requirement type ", &reference.text, " resolves to ");
                    let message = message.concat(kind_name(kind));
                    self.push(reference.span, Code::RequirementTypeKind, message.concat(", not a requirement definition"));
                    proof {
                        assert(same_finding(self.diagnostics@[self.diagnostics@.len() - 1], reference.span,
                            Code::RequirementTypeKind));
                        lemma_rule_findings_push(mid, self.diagnostics@.last());
                        assert(mid.push(self.diagnostics@.last()) =~= self.diagnostics@);
                    }
                }
            }
            proof {
                types = types.push(found);
                assert forall|k2: int| 0 <= k2 < k + 1 implies resolution_fits(project,
                    #[trigger] element.declared_types@[k2], element.owner, types[k2]) by {}
            }
            proof {
                assert forall|k2: int| 0 <= k2 < k + 1 implies kind_checked(project, self.diagnostics@,
                    #[trigger] element.declared_types@[k2], element.owner, Code::RequirementTypeKind,
                    parent_kind_ok(element.kind, true, true)) by {
                    if k2 < k {
                        lemma_kind_checked_kept(project, before, self.diagnostics@, element.declared_types@[k2],
                            element.owner, Code::RequirementTypeKind, parent_kind_ok(element.kind, true, true));
                    }
                }
            }
            k = k + 1;
        }
        let usage_specialization = element.kind.is_requirement_usage();
        proof { assert(element.declared_types@.take(element.declared_types@.len() as int) =~= element.declared_types@); }
        let ghost middle = head + kind_findings(project, element.declared_types@, types, Code::RequirementTypeKind,
            parent_kind_ok(element.kind, true, true));
        let ghost mut specializations: Seq<Option<ElementId>> = Seq::empty();
        let mut k: usize = 0;
        while k < element.specializations.len()
            invariant
                steps(old(self), self),
                adds_within(old(self).diagnostics@, self.diagnostics@, requirement_codes()),
                extends(after_parent, self.diagnostics@),
                parentless(*element) ==> self.diagnostics@ == after_parent,
                element.declared_types@.len() <= 1 ==> adds_without(old(self).diagnostics@, self.diagnostics@,
                    Code::RequirementTypeCardinality),
                self.project == project,
                id < project.elements@.len(),
                *element == project.elements@[id as int],
                project.element_ok(id as int),
                k <= element.specializations@.len(),
                forall|k2: int| 0 <= k2 < element.declared_types@.len() ==> kind_checked(project, self.diagnostics@,
                    #[trigger] element.declared_types@[k2], element.owner, Code::RequirementTypeKind,
                    parent_kind_ok(element.kind, true, true)),
                usage_specialization == kind_is_requirement_usage(element.kind),
                forall|k2: int| 0 <= k2 < k ==> kind_checked(project, self.diagnostics@,
                    #[trigger] element.specializations@[k2], element.owner, Code::RequirementSpecializationKind,
                    parent_kind_ok(element.kind, true, false)),
                specializations.len() == k,
                forall|k2: int| 0 <= k2 < k ==> resolution_fits(project, #[trigger] element.specializations@[k2],
                    element.owner, specializations[k2]),
                results_fit(project, element.declared_types@, element.owner, types),
                rule_findings(self.diagnostics@) == middle + kind_findings(project, element.specializations@.take(
                    k as int), specializations, Code::RequirementSpecializationKind, parent_kind_ok(element.kind, true,
                    false)),
            decreases element.specializations@.len() - k,
        {
            let reference = &element.specializations[k];
            assert(project.reference_ok(element.specializations@[k as int]));
            let ghost before = self.diagnostics@;
            let found = self.resolve_for_element(reference, id);
            let ghost mid = self.diagnostics@;
            proof {
                lemma_rule_findings_unchanged(before, mid);
                assert(resolution_fits(project, *reference, element.owner, found));
                lemma_kind_findings_step(project, element.specializations@, specializations, k as int, found,
                    Code::RequirementSpecializationKind, parent_kind_ok(element.kind, true, false));
            }
            if let Some(target) = found {
                let target_kind = project.elements[target].kind;
                let valid_kind = if usage_specialization {
                    target_kind.is_requirement_usage()
                } else {
                    target_kind == ElementKind::RequirementDefinition
                };
                if !valid_kind {
                    let message = quoted_message("requirement specialization ", &reference.text, " resolves to ");
                    let message = message.concat(kind_name(target_kind));
                    let message = message.concat(", not ");
                    let message = if usage_specialization {
                        message.concat("a requirement usage")
                    } else {
                        message.concat("a requirement definition")
                    };
                    self.push(reference.span, Code::RequirementSpecializationKind, message);
                    proof {
                        assert(same_finding(self.diagnostics@[self.diagnostics@.len() - 1], reference.span,
                            Code::RequirementSpecializationKind));
                        lemma_rule_findings_push(mid, self.diagnostics@.last());
                        assert(mid.push(self.diagnostics@.last()) =~= self.diagnostics@);
                    }
                }
            }
            proof {
                specializations = specializations.push(found);
                assert forall|k2: int| 0 <= k2 < k + 1 implies resolution_fits(project,
                    #[trigger] element.specializations@[k2], element.owner, specializations[k2]) by {}
            }
            proof {
                assert forall|k2: int| 0 <= k2 < element.declared_types@.len() implies kind_checked(project,
                    self.diagnostics@, #[trigger] element.declared_types@[k2], element.owner, Code::RequirementTypeKind,
                    parent_kind_ok(element.kind, true, true)) by {
                    lemma_kind_checked_kept(project, before, self.diagnostics@, element.declared_types@[k2],
                        element.owner, Code::RequirementTypeKind, parent_kind_ok(element.kind, true, true));
                }
                assert forall|k2: int| 0 <= k2 < k + 1 implies kind_checked(project, self.diagnostics@,
                    #[trigger] element.specializations@[k2], element.owner, Code::RequirementSpecializationKind,
                    parent_kind_ok(element.kind, true, false)) by {
                    if k2 < k {
                        lemma_kind_checked_kept(project, before, self.diagnostics@, element.specializations@[k2],
                            element.owner, Code::RequirementSpecializationKind, parent_kind_ok(element.kind, true, false));
                    }
                }
            }
            k = k + 1;
        }
        proof { assert(element.specializations@.take(element.specializations@.len() as int) =~= element.specializations@); }
        let ghost before_cycle_check = self.diagnostics@;
        let cyclic = self.requirement_parent_chain_is_cyclic(id);
        if cyclic {
            let reference = if element.declared_types.len() != 0 {
                &element.declared_types[0]
            } else {
                &element.specializations[0]
            };
            proof {
                if element.declared_types@.len() != 0 {
                    assert(project.reference_ok(element.declared_types@[0]));
                } else {
                    assert(project.reference_ok(element.specializations@[0]));
                }
            }
            let ghost before_cycle = self.diagnostics@;
            self.push(reference.span, Code::RequirementInheritanceCycle,
                owned("requirement type and specialization parent chains must be acyclic"));
            proof {
                lemma_rule_findings_push(before_cycle, self.diagnostics@.last());
                assert(before_cycle.push(self.diagnostics@.last()) =~= self.diagnostics@);
                assert(same_finding(self.diagnostics@[self.diagnostics@.len() - 1], reference.span, Code::RequirementInheritanceCycle));
                assert forall|k2: int| 0 <= k2 < element.declared_types@.len() implies kind_checked(project,
                    self.diagnostics@, #[trigger] element.declared_types@[k2], element.owner, Code::RequirementTypeKind,
                    parent_kind_ok(element.kind, true, true)) by {
                    lemma_kind_checked_kept(project, before_cycle, self.diagnostics@, element.declared_types@[k2],
                        element.owner, Code::RequirementTypeKind, parent_kind_ok(element.kind, true, true));
                }
                assert forall|k2: int| 0 <= k2 < element.specializations@.len() implies kind_checked(project,
                    self.diagnostics@, #[trigger] element.specializations@[k2], element.owner, Code::RequirementSpecializationKind,
                    parent_kind_ok(element.kind, true, false)) by {
                    lemma_kind_checked_kept(project, before_cycle, self.diagnostics@, element.specializations@[k2],
                        element.owner, Code::RequirementSpecializationKind, parent_kind_ok(element.kind, true, false));
                }
            }
        }
        proof {
            if let Some(span) = extra_specialization(project.elements@[id as int]) {
                lemma_extends_keeps_finding(after_parent, self.diagnostics@, span, Code::UnsupportedMultityping);
            }
            assert(parent_results(project, id, true, types, specializations, cyclic));
            let e = *element;
            assert(parent_findings(project, id, true, types, specializations, cyclic) =~= (if e.declared_types@.len()
                > 1 {
                seq![(e.declared_types@[1].span, Code::RequirementTypeCardinality)]
            } else {
                Seq::empty()
            }) + (match extra_specialization(e) {
                Some(span) => seq![(span, Code::UnsupportedMultityping)],
                None => Seq::empty(),
            }) + kind_findings(project, e.declared_types@, types, Code::RequirementTypeKind, parent_kind_ok(e.kind,
                true, true)) + kind_findings(project, e.specializations@, specializations,
                Code::RequirementSpecializationKind, parent_kind_ok(e.kind, true, false)) + if cyclic {
                seq![(first_parent_span(e), Code::RequirementInheritanceCycle)]
            } else {
                Seq::empty()
            });
            assert(rule_findings(self.diagnostics@) =~= rule_findings(old(self).diagnostics@) + parent_findings(
                project, id, true, types, specializations, cyclic));
        }
    }

    /// Actor and stakeholder types must resolve to part definitions.
    pub(crate) fn validate_part_parameter(&mut self, id: ElementId, role: &str)
        requires
            old(self).inv(),
            id < old(self).n(),
        ensures
            steps(old(self), final(self)),
            adds_within(old(self).diagnostics@, final(self).diagnostics@, resolution_codes().insert(Code::RequirementPartParameterType)),
            forall|k: int| 0 <= k < old(self).element_at(id).declared_types@.len() ==> kind_checked(old(self).project,
                final(self).diagnostics@, #[trigger] old(self).element_at(id).declared_types@[k],
                old(self).element_at(id).owner, Code::RequirementPartParameterType, part_definition_kind()),
    {
        let project = self.project;
        proof { assert(project.element_ok(id as int)); }
        let parameter = &project.elements[id];
        let mut k: usize = 0;
        while k < parameter.declared_types.len()
            invariant
                steps(old(self), self),
                adds_within(old(self).diagnostics@, self.diagnostics@, resolution_codes().insert(Code::RequirementPartParameterType)),
                self.project == project,
                id < project.elements@.len(),
                *parameter == project.elements@[id as int],
                project.element_ok(id as int),
                k <= parameter.declared_types@.len(),
                forall|k2: int| 0 <= k2 < k ==> kind_checked(project, self.diagnostics@,
                    #[trigger] parameter.declared_types@[k2], parameter.owner, Code::RequirementPartParameterType,
                    part_definition_kind()),
            decreases parameter.declared_types@.len() - k,
        {
            let reference = &parameter.declared_types[k];
            assert(project.reference_ok(parameter.declared_types@[k as int]));
            let ghost before = self.diagnostics@;
            if let Some(target) = self.resolve_for_element(reference, id) {
                if project.elements[target].kind != ElementKind::PartDefinition {
                    let prefix = join3("requirement ", role, " type ");
                    let message = quoted_message(prefix.as_str(), &reference.text, " does not resolve to a part definition");
                    self.push(reference.span, Code::RequirementPartParameterType, message);
                    proof {
                        assert(same_finding(self.diagnostics@[self.diagnostics@.len() - 1], reference.span,
                            Code::RequirementPartParameterType));
                    }
                }
            }
            proof {
                assert forall|k2: int| 0 <= k2 < k + 1 implies kind_checked(project, self.diagnostics@,
                    #[trigger] parameter.declared_types@[k2], parameter.owner, Code::RequirementPartParameterType,
                    part_definition_kind()) by {
                    if k2 < k {
                        lemma_kind_checked_kept(project, before, self.diagnostics@, parameter.declared_types@[k2],
                            parameter.owner, Code::RequirementPartParameterType, part_definition_kind());
                    }
                }
            }
            k = k + 1;
        }
    }

    /// Subject checks of a requirement: at most one explicit subject, each
    /// subject's type chain and binding, actor and stakeholder types, and the
    /// conformance of the subject binding.
    pub(crate) fn validate_subjects(&mut self, index: usize)
        requires
            old(self).inv(),
            index < old(self).project.requirements@.len(),
        ensures
            steps(old(self), final(self)),
            adds_within(old(self).diagnostics@, final(self).diagnostics@, requirement_codes()),
            old(self).project.requirements@[index as int].subjects@.len() > 1 ==> has_finding(
                final(self).diagnostics@,
                old(self).element_at(old(self).project.requirements@[index as int].subjects@[1]).span,
                Code::RequirementSubjectCardinality,
            ),
            old(self).project.requirements@[index as int].subjects@.len() > 0 ==> binding_checked(old(self).project,
                final(self).diagnostics@, old(self).project.requirements@[index as int].element,
                old(self).project.requirements@[index as int].subjects@[0], true),
    {
        let project = self.project;
        let requirement = &project.requirements[index];
        proof { assert(project.requirement_ok(project.requirements@[index as int])); }
        if requirement.subjects.len() > 1 {
            let duplicate = requirement.subjects[1];
            proof { assert(project.element_ok(duplicate as int)); }
            self.push(project.elements[duplicate].span, Code::RequirementSubjectCardinality,
                owned("a requirement may own at most one explicit subject"));
            proof {
                assert(same_finding(self.diagnostics@[self.diagnostics@.len() - 1], project.elements@[duplicate as int].span,
                    Code::RequirementSubjectCardinality));
            }
        }
        let ghost after_cardinality = self.diagnostics@;
        let mut k: usize = 0;
        while k < requirement.subjects.len()
            invariant
                steps(old(self), self),
                adds_within(old(self).diagnostics@, self.diagnostics@, requirement_codes()),
                extends(after_cardinality, self.diagnostics@),
                self.project == project,
                *requirement == project.requirements@[index as int],
                project.requirement_ok(*requirement),
                k <= requirement.subjects@.len(),
            decreases requirement.subjects@.len() - k,
        {
            let subject = requirement.subjects[k];
            self.validate_effective_type_chain(subject, "requirement subject");
            self.validate_binding_target_types(subject, "requirement subject", Code::RequirementSubjectBinding);
            k = k + 1;
        }
        let mut k: usize = 0;
        while k < requirement.actors.len()
            invariant
                steps(old(self), self),
                adds_within(old(self).diagnostics@, self.diagnostics@, requirement_codes()),
                extends(after_cardinality, self.diagnostics@),
                self.project == project,
                *requirement == project.requirements@[index as int],
                project.requirement_ok(*requirement),
                k <= requirement.actors@.len(),
            decreases requirement.actors@.len() - k,
        {
            self.validate_part_parameter(requirement.actors[k], "actor");
            k = k + 1;
        }
        let mut k: usize = 0;
        while k < requirement.stakeholders.len()
            invariant
                steps(old(self), self),
                adds_within(old(self).diagnostics@, self.diagnostics@, requirement_codes()),
                extends(after_cardinality, self.diagnostics@),
                self.project == project,
                *requirement == project.requirements@[index as int],
                project.requirement_ok(*requirement),
                k <= requirement.stakeholders@.len(),
            decreases requirement.stakeholders@.len() - k,
        {
            self.validate_part_parameter(requirement.stakeholders[k], "stakeholder");
            k = k + 1;
        }
        let ghost before_binding = self.diagnostics@;
        self.validate_subject_binding(requirement.element, requirement.subjects.len(), if requirement.subjects.len() != 0 {
            requirement.subjects[0]
        } else {
            0
        }, true);
        proof {
            if requirement.subjects@.len() > 0 {
                lemma_binding_checked_from_call(project, before_binding, self.diagnostics@, requirement.element,
                    requirement.subjects@[0], true);
            }
            if requirement.subjects@.len() > 1 {
                lemma_extends_keeps_finding(after_cardinality, self.diagnostics@,
                    project.elements@[requirement.subjects@[1] as int].span, Code::RequirementSubjectCardinality);
            }
        }
    }

    /// Conformance of the first explicit subject of a requirement (`for_requirement`)
    /// or verification: its declared type against the inherited subject type,
    /// and the type of what it is bound to against the expected type.
    fn validate_subject_binding(&mut self, owner_id: ElementId, subject_count: usize, subject_id: ElementId, for_requirement: bool)
        requires
            old(self).inv(),
            owner_id < old(self).n(),
            subject_count > 0 ==> subject_id < old(self).n(),
        ensures
            steps(old(self), final(self)),
            subject_count == 0 ==> final(self).diagnostics@ == old(self).diagnostics@,
            subject_count > 0 && multiple_parents(old(self).element_at(subject_id)) ==> final(self).diagnostics@
                == old(self).diagnostics@,
            adds_within(old(self).diagnostics@, final(self).diagnostics@, resolution_codes().insert(if for_requirement { Code::RequirementSubjectBinding } else { Code::VerificationSubjectBinding })),
            forall|x: usize, z: usize| subject_count > 0 && (for_requirement ==> kind_is_requirement_usage(
                old(self).project.elements@[owner_id as int].kind)) && #[trigger] inherits_subject_type(old(self).project,
                owner_id, for_requirement, z) && #[trigger] plainly_typed(old(self).project,
                old(self).project.elements@[subject_id as int], x) ==> {
                &&& x == z ==> final(self).diagnostics@ == old(self).diagnostics@
                &&& x != z && old(self).project.elements@[x as int].specializations@.len() == 0 ==> has_finding(
                    final(self).diagnostics@, old(self).project.elements@[subject_id as int].span,
                    if for_requirement { Code::RequirementSubjectBinding } else { Code::VerificationSubjectBinding })
                    && final(self).diagnostics@.len() == old(self).diagnostics@.len() + 1
            },
            forall|d: usize, v: usize, w: usize| subject_count > 0 && inherits_nothing(old(self).project, owner_id,
                for_requirement) && #[trigger] typed_plainly(old(self).project,
                old(self).project.elements@[subject_id as int], d) && #[trigger] bound_plainly(old(self).project,
                subject_id, v) && v != subject_id && kind_is_usage(old(self).project.elements@[v as int].kind)
                && #[trigger] plainly_typed(old(self).project, old(self).project.elements@[v as int], w) ==> {
                &&& w == d ==> final(self).diagnostics@ == old(self).diagnostics@
                &&& w != d && old(self).project.elements@[w as int].specializations@.len() == 0 ==> final(
                    self).diagnostics@.len() == old(self).diagnostics@.len() + 1 && same_finding(
                    final(self).diagnostics@.last(),
                    old(self).project.elements@[subject_id as int].referenced_feature.unwrap().span,
                    if for_requirement { Code::RequirementSubjectBinding } else { Code::VerificationSubjectBinding })
            },
            subject_count > 0 ==> exists|r: BindingResults|
                #![trigger binding_findings(old(self).project, subject_id, for_requirement, r)]
                binding_results(old(self).project, owner_id, subject_id, for_requirement, r) && rule_findings(
                final(self).diagnostics@) == rule_findings(old(self).diagnostics@) + binding_findings(
                old(self).project, subject_id, for_requirement, r),
    {
        if subject_count == 0 {
            return;
        }
        let project = self.project;
        proof { assert(project.element_ok(subject_id as int)); }
        let subject = &project.elements[subject_id];
        let ghost mut r: BindingResults = (None, None, Conformance::Conforms, false, false, false, None,
            Conformance::Conforms);
        if has_multiple_parent_relationships(subject) {
            proof {
                assert(binding_results(project, owner_id, subject_id, for_requirement, r));
                assert(rule_findings(self.diagnostics@) =~= rule_findings(old(self).diagnostics@) + binding_findings(
                    project, subject_id, for_requirement, r));
            }
            return;
        }
        let declared_type = self.first_resolved_type(subject_id);
        proof { r = (declared_type, None, Conformance::Conforms, false, false, false, None, Conformance::Conforms); }
        if subject.declared_types.len() != 0 && declared_type.is_none() {
            proof {
                assert(binding_results(project, owner_id, subject_id, for_requirement, r));
                assert(rule_findings(self.diagnostics@) =~= rule_findings(old(self).diagnostics@) + binding_findings(
                    project, subject_id, for_requirement, r));
            }
            return;
        }
        let inherited_type = if for_requirement {
            if project.elements[owner_id].kind.is_requirement_usage() {
                self.inherited_requirement_subject_type(owner_id)
            } else {
                None
            }
        } else {
            self.inherited_verification_subject_type(owner_id)
        };
        let (binding_code, type_message, binding_message) = if for_requirement {
            (
                Code::RequirementSubjectBinding,
                "requirement subject type does not conform to the definition subject type",
                "requirement subject binding does not conform to the definition subject type",
            )
        } else {
            (
                Code::VerificationSubjectBinding,
                "verification subject type does not conform to the definition subject type",
                "verification subject binding does not conform to the definition subject type",
            )
        };
        proof {
            r = (declared_type, inherited_type, Conformance::Conforms, false, false, false, None, Conformance::Conforms);
            assert(binding_code == self::binding_code(for_requirement));
        }
        let ghost mut current = self.diagnostics@;
        if let (Some(declared), Some(inherited)) = (declared_type, inherited_type) {
            let c1 = self.conformance(declared, inherited);
            proof {
                lemma_rule_findings_unchanged(current, self.diagnostics@);
                current = self.diagnostics@;
                r = (declared_type, inherited_type, c1, false, false, false, None, Conformance::Conforms);
            }
            match c1 {
                Conformance::Conforms => {}
                Conformance::DoesNotConform => {
                    self.push(subject.span, binding_code, owned(type_message));
                    proof {
                        assert(same_finding(self.diagnostics@[self.diagnostics@.len() - 1], subject.span, binding_code));
                        lemma_rule_findings_push(current, self.diagnostics@.last());
                        assert(current.push(self.diagnostics@.last()) =~= self.diagnostics@);
                        assert(binding_results(project, owner_id, subject_id, for_requirement, r));
                        assert(rule_findings(self.diagnostics@) =~= rule_findings(old(self).diagnostics@)
                            + binding_findings(project, subject_id, for_requirement, r));
                    }
                    return;
                }
                Conformance::Indeterminate => {
                    proof {
                        assert(binding_results(project, owner_id, subject_id, for_requirement, r));
                        assert(rule_findings(self.diagnostics@) =~= rule_findings(old(self).diagnostics@)
                            + binding_findings(project, subject_id, for_requirement, r));
                    }
                    return;
                }
            }
        }
        let ghost c1 = r.2;
        let expected_type = match declared_type {
            Some(t) => t,
            None => match inherited_type {
                Some(t) => t,
                None => {
                    proof {
                        assert(binding_results(project, owner_id, subject_id, for_requirement, r));
                        assert(rule_findings(self.diagnostics@) =~= rule_findings(old(self).diagnostics@)
                            + binding_findings(project, subject_id, for_requirement, r));
                    }
                    return;
                }
            },
        };
        proof { assert(expected_subject_type(r) == Some(expected_type)); }
        let mut bound = false;
        if let Some(binding) = &subject.referenced_feature {
            bound = matches!(self.resolve_from(binding, subject_id), Resolution::Found(_));
            proof { r = (declared_type, inherited_type, c1, bound, false, false, None, Conformance::Conforms); }
            if !bound {
                proof {
                    assert(binding_results(project, owner_id, subject_id, for_requirement, r));
                    assert(rule_findings(self.diagnostics@) =~= rule_findings(old(self).diagnostics@)
                        + binding_findings(project, subject_id, for_requirement, r));
                }
                return;
            }
        }
        let chain_invalid = self.effective_type_chain_is_invalid(subject_id);
        let binding_invalid = self.binding_target_type_chain_is_invalid(subject_id);
        proof { r = (declared_type, inherited_type, c1, bound, chain_invalid, binding_invalid, None, Conformance::Conforms); }
        if chain_invalid || binding_invalid {
            proof {
                assert(binding_results(project, owner_id, subject_id, for_requirement, r));
                assert(rule_findings(self.diagnostics@) =~= rule_findings(old(self).diagnostics@)
                    + binding_findings(project, subject_id, for_requirement, r));
            }
            return;
        }
        let actual_type = self.resolved_subject_type(subject_id);
        proof {
            r = (declared_type, inherited_type, c1, bound, chain_invalid, binding_invalid, actual_type,
                Conformance::Conforms);
        }
        if let Some(actual) = actual_type {
            let c2 = self.conformance(actual, expected_type);
            proof {
                lemma_rule_findings_unchanged(current, self.diagnostics@);
                current = self.diagnostics@;
                r = (declared_type, inherited_type, c1, bound, chain_invalid, binding_invalid, actual_type, c2);
            }
            match c2 {
                Conformance::Conforms | Conformance::Indeterminate => {
                    proof {
                        assert(binding_results(project, owner_id, subject_id, for_requirement, r));
                        assert(rule_findings(self.diagnostics@) =~= rule_findings(old(self).diagnostics@)
                            + binding_findings(project, subject_id, for_requirement, r));
                    }
                    return;
                }
                Conformance::DoesNotConform => {}
            }
        }
        let span = match &subject.referenced_feature {
            Some(binding) => binding.span,
            None => subject.span,
        };
        self.push(span, binding_code, owned(binding_message));
        proof {
            lemma_rule_findings_push(current, self.diagnostics@.last());
            assert(current.push(self.diagnostics@.last()) =~= self.diagnostics@);
            assert(binding_results(project, owner_id, subject_id, for_requirement, r));
            assert(rule_findings(self.diagnostics@) =~= rule_findings(old(self).diagnostics@) + binding_findings(
                project, subject_id, for_requirement, r));
        }
    }

    /// Assumed and required constraint members: typed ones must be typed by
    /// constraint definitions, referenced ones must name constraint or
    /// requirement usages.
    pub(crate) fn validate_requirement_members(&mut self, index: usize)
        requires
            old(self).inv(),
            index < old(self).project.requirements@.len(),
        ensures
            steps(old(self), final(self)),
            adds_within(old(self).diagnostics@, final(self).diagnostics@, requirement_codes()),
            forall|k: int| 0 <= k < old(self).project.requirements@[index as int].assumptions@.len() ==> member_checked(
                old(self).project, final(self).diagnostics@, #[trigger] old(self).project.requirements@[index as int].assumptions@[k]),
            forall|k: int| 0 <= k < old(self).project.requirements@[index as int].required_constraints@.len()
                ==> member_checked(old(self).project, final(self).diagnostics@,
                #[trigger] old(self).project.requirements@[index as int].required_constraints@[k]),
    {
        let project = self.project;
        let requirement = &project.requirements[index];
        proof { assert(project.requirement_ok(project.requirements@[index as int])); }
        let mut k: usize = 0;
        while k < requirement.assumptions.len()
            invariant
                steps(old(self), self),
                adds_within(old(self).diagnostics@, self.diagnostics@, requirement_codes()),
                self.project == project,
                *requirement == project.requirements@[index as int],
                project.requirement_ok(*requirement),
                k <= requirement.assumptions@.len(),
                forall|k2: int| 0 <= k2 < k ==> member_checked(project, self.diagnostics@,
                    #[trigger] requirement.assumptions@[k2]),
            decreases requirement.assumptions@.len() - k,
        {
            let ghost before = self.diagnostics@;
            self.validate_requirement_member(requirement.assumptions[k]);
            proof {
                assert forall|k2: int| 0 <= k2 < k + 1 implies member_checked(project, self.diagnostics@,
                    #[trigger] requirement.assumptions@[k2]) by {
                    if k2 < k {
                        lemma_member_checked_kept(project, before, self.diagnostics@, requirement.assumptions@[k2]);
                    }
                }
            }
            k = k + 1;
        }
        let ghost after_assumptions = self.diagnostics@;
        let mut k: usize = 0;
        while k < requirement.required_constraints.len()
            invariant
                steps(old(self), self),
                adds_within(old(self).diagnostics@, self.diagnostics@, requirement_codes()),
                self.project == project,
                *requirement == project.requirements@[index as int],
                project.requirement_ok(*requirement),
                k <= requirement.required_constraints@.len(),
                extends(after_assumptions, self.diagnostics@),
                forall|k2: int| 0 <= k2 < k ==> member_checked(project, self.diagnostics@,
                    #[trigger] requirement.required_constraints@[k2]),
            decreases requirement.required_constraints@.len() - k,
        {
            let ghost before = self.diagnostics@;
            self.validate_requirement_member(requirement.required_constraints[k]);
            proof {
                assert forall|k2: int| 0 <= k2 < k + 1 implies member_checked(project, self.diagnostics@,
                    #[trigger] requirement.required_constraints@[k2]) by {
                    if k2 < k {
                        lemma_member_checked_kept(project, before, self.diagnostics@,
                            requirement.required_constraints@[k2]);
                    }
                }
            }
            k = k + 1;
        }
        proof {
            assert forall|k: int| 0 <= k < requirement.assumptions@.len() implies member_checked(project,
                self.diagnostics@, #[trigger] requirement.assumptions@[k]) by {
                lemma_member_checked_kept(project, after_assumptions, self.diagnostics@, requirement.assumptions@[k]);
            }
        }
    }

    fn validate_requirement_member(&mut self, member: ElementId)
        requires
            old(self).inv(),
            member < old(self).n(),
        ensures
            steps(old(self), final(self)),
            adds_within(old(self).diagnostics@, final(self).diagnostics@, requirement_codes()),
            member_checked(old(self).project, final(self).diagnostics@, member),
    {
        let project = self.project;
        proof { assert(project.element_ok(member as int)); }
        self.resolve_declared_types(member, Some(ElementKind::ConstraintDefinition));
        let ghost after_types = self.diagnostics@;
        let element = &project.elements[member];
        if let Some(reference) = &element.referenced_feature {
            if let Some(target) = self.resolve_for_element(reference, member) {
                let target_kind = project.elements[target].kind;
                if target_kind != ElementKind::ConstraintUsage && !target_kind.is_requirement_usage() {
                    let message = quoted_message("requirement member ", &reference.text, " resolves to ");
                    let message = message.concat(kind_name(target_kind));
                    self.push(reference.span, Code::RequirementRequiredMemberKind,
                        message.concat(", not a constraint or requirement usage"));
                    proof {
                        assert(same_finding(self.diagnostics@[self.diagnostics@.len() - 1], reference.span,
                            Code::RequirementRequiredMemberKind));
                    }
                }
            }
        }
        proof {
            let e = project.elements@[member as int];
            assert forall|k: int| 0 <= k < e.declared_types@.len() implies kind_checked(project, self.diagnostics@,
                #[trigger] e.declared_types@[k], e.owner, Code::RequirementConstraintTypeKind,
                required_kind_ok(Some(ElementKind::ConstraintDefinition))) by {
                lemma_kind_checked_kept(project, after_types, self.diagnostics@, e.declared_types@[k], e.owner,
                    Code::RequirementConstraintTypeKind, required_kind_ok(Some(ElementKind::ConstraintDefinition)));
            }
        }
    }

    /// Runs the requirement checks on every requirement record.
    pub(crate) fn validate_requirement_structure(&mut self)
        requires
            old(self).inv(),
        ensures
            steps(old(self), final(self)),
            adds_within(old(self).diagnostics@, final(self).diagnostics@, requirement_codes()),
            forall|j: int| 0 <= j < final(self).project.requirements@.len() ==> requirement_rules_hold(
                final(self).project, final(self).diagnostics@, #[trigger] final(self).project.requirements@[j]),
    {
        let project = self.project;
        let mut index: usize = 0;
        while index < project.requirements.len()
            invariant
                steps(old(self), self),
                adds_within(old(self).diagnostics@, self.diagnostics@, requirement_codes()),
                self.project == project,
                index <= project.requirements@.len(),
                forall|j: int| 0 <= j < index ==> requirement_rules_hold(project, self.diagnostics@,
                    #[trigger] project.requirements@[j]),
            decreases project.requirements@.len() - index,
        {
            proof { assert(project.requirement_ok(project.requirements@[index as int])); }
            let ghost before = self.diagnostics@;
            let element = project.requirements[index].element;
            self.validate_requirement_types(element);
            let ghost after_types = self.diagnostics@;
            self.validate_subjects(index);
            let ghost after_subjects = self.diagnostics@;
            self.validate_requirement_members(index);
            proof {
                let r = project.requirements@[index as int];
                let e = project.elements@[r.element as int];
                if e.declared_types@.len() > 1 {
                    assert(same_finding(after_types[before.len() as int], e.declared_types@[1].span,
                        Code::RequirementTypeCardinality));
                    assert(has_finding(after_types, e.declared_types@[1].span, Code::RequirementTypeCardinality));
                    lemma_extends_keeps_finding(after_types, self.diagnostics@, e.declared_types@[1].span,
                        Code::RequirementTypeCardinality);
                }
                if r.subjects@.len() > 1 {
                    lemma_extends_keeps_finding(after_subjects, self.diagnostics@,
                        project.elements@[r.subjects@[1] as int].span, Code::RequirementSubjectCardinality);
                }
                if let Some(span) = extra_specialization(e) {
                    lemma_extends_keeps_finding(after_types, self.diagnostics@, span, Code::UnsupportedMultityping);
                }
                lemma_parents_checked_kept(project, after_types, self.diagnostics@, r.element, true);
                if r.subjects@.len() > 0 {
                    lemma_binding_checked_kept(project, after_subjects, self.diagnostics@, r.element, r.subjects@[0], true);
                }
                assert forall|k: int| 0 <= k < r.assumptions@.len() implies member_checked(project, self.diagnostics@,
                    #[trigger] r.assumptions@[k]) by {}
                assert forall|k: int| 0 <= k < r.required_constraints@.len() implies member_checked(project,
                    self.diagnostics@, #[trigger] r.required_constraints@[k]) by {}
                assert(requirement_rules_hold(project, self.diagnostics@, r));
                assert forall|j: int| 0 <= j < index + 1 implies requirement_rules_hold(project, self.diagnostics@,
                    #[trigger] project.requirements@[j]) by {
                    if j < index {
                        lemma_rules_kept(project, before, self.diagnostics@, project.requirements@[j]);
                    }
                }
            }
            index = index + 1;
        }
    }
}


/// Reference `r`, written in the scope of `owner`, is reported with `code` at
/// its span when it is a plain name of the only member of that name there and
/// that member's kind is not `good`.
pub open spec fn kind_checked(p: &Project, ds: Seq<SemanticDiagnostic>, r: Reference, owner: Option<ElementId>,
    code: Code, good: spec_fn(ElementKind) -> bool) -> bool {
    forall|x: usize| #[trigger] direct_target(p, r, owner, x) && !good(p.elements@[x as int].kind) ==> has_finding(
        ds, r.span, code)
}

/// Findings only appended keep a kind check that held.
pub proof fn lemma_kind_checked_kept(p: &Project, a: Seq<SemanticDiagnostic>, b: Seq<SemanticDiagnostic>,
    r: Reference, owner: Option<ElementId>, code: Code, good: spec_fn(ElementKind) -> bool)
    requires
        keeps_findings(a, b),
        kind_checked(p, a, r, owner, code, good),
    ensures
        kind_checked(p, b, r, owner, code, good),
{
    assert forall|x: usize| #[trigger] direct_target(p, r, owner, x) && !good(p.elements@[x as int].kind)
        implies has_finding(b, r.span, code) by {
        lemma_keeps_finding(a, b, r.span, code);
    }
}

/// The kinds that fit as a parent of `child`.
pub open spec fn parent_kind_ok(child: ElementKind, requirement: bool, typed: bool) -> spec_fn(ElementKind) -> bool {
    |k: ElementKind| fits(child, k, requirement, typed)
}

/// The span of the first parent reference of `e`: its first declared type,
/// else its first specialization.
pub open spec fn first_parent_span(e: Element) -> Span {
    if e.declared_types@.len() != 0 { e.declared_types@[0].span } else { e.specializations@[0].span }
}

/// The type and specialization kind checks, and the cycle check, of element
/// `id` hold in `ds`.
pub open spec fn parents_checked(p: &Project, ds: Seq<SemanticDiagnostic>, id: ElementId, requirement: bool) -> bool {
    let e = p.elements@[id as int];
    let (type_code, specialization_code, cycle_code) = if requirement {
        (Code::RequirementTypeKind, Code::RequirementSpecializationKind, Code::RequirementInheritanceCycle)
    } else {
        (Code::VerificationCaseTypeKind, Code::VerificationCaseSpecializationKind, Code::VerificationInheritanceCycle)
    };
    &&& forall|k: int| 0 <= k < e.declared_types@.len() ==> kind_checked(p, ds, #[trigger] e.declared_types@[k],
        e.owner, type_code, parent_kind_ok(e.kind, requirement, true))
    &&& forall|k: int| 0 <= k < e.specializations@.len() ==> kind_checked(p, ds, #[trigger] e.specializations@[k],
        e.owner, specialization_code, parent_kind_ok(e.kind, requirement, false))
    &&& self_parent(p, id, requirement) ==> has_finding(ds, first_parent_span(e), cycle_code)
}

/// Findings only appended keep the parent checks that held.
pub proof fn lemma_parents_checked_kept(p: &Project, a: Seq<SemanticDiagnostic>, b: Seq<SemanticDiagnostic>,
    id: ElementId, requirement: bool)
    requires
        keeps_findings(a, b),
        parents_checked(p, a, id, requirement),
    ensures
        parents_checked(p, b, id, requirement),
{
    let e = p.elements@[id as int];
    let (type_code, specialization_code, cycle_code) = if requirement {
        (Code::RequirementTypeKind, Code::RequirementSpecializationKind, Code::RequirementInheritanceCycle)
    } else {
        (Code::VerificationCaseTypeKind, Code::VerificationCaseSpecializationKind, Code::VerificationInheritanceCycle)
    };
    assert forall|k: int| 0 <= k < e.declared_types@.len() implies kind_checked(p, b, #[trigger] e.declared_types@[k],
        e.owner, type_code, parent_kind_ok(e.kind, requirement, true)) by {
        lemma_kind_checked_kept(p, a, b, e.declared_types@[k], e.owner, type_code, parent_kind_ok(e.kind, requirement, true));
    }
    assert forall|k: int| 0 <= k < e.specializations@.len() implies kind_checked(p, b, #[trigger] e.specializations@[k],
        e.owner, specialization_code, parent_kind_ok(e.kind, requirement, false)) by {
        lemma_kind_checked_kept(p, a, b, e.specializations@[k], e.owner, specialization_code,
            parent_kind_ok(e.kind, requirement, false));
    }
    if self_parent(p, id, requirement) {
        lemma_keeps_finding(a, b, first_parent_span(e), cycle_code);
    }
}

/// The kinds a part parameter's type may have.
pub open spec fn part_definition_kind() -> spec_fn(ElementKind) -> bool {
    |k: ElementKind| k == ElementKind::PartDefinition
}

/// The kinds a declared type may have when `required` names one.
pub open spec fn required_kind_ok(required: Option<ElementKind>) -> spec_fn(ElementKind) -> bool {
    |k: ElementKind| required is None || required == Some(k)
}

/// The kinds a referenced requirement member may have.
pub open spec fn member_kind_ok() -> spec_fn(ElementKind) -> bool {
    |k: ElementKind| k == ElementKind::ConstraintUsage || kind_is_requirement_usage(k)
}

/// The declared types of element `id` are checked to be constraint
/// definitions, and the feature it references to be a constraint or
/// requirement usage.
pub open spec fn member_checked(p: &Project, ds: Seq<SemanticDiagnostic>, id: ElementId) -> bool {
    let e = p.elements@[id as int];
    &&& forall|k: int| 0 <= k < e.declared_types@.len() ==> kind_checked(p, ds, #[trigger] e.declared_types@[k],
        e.owner, Code::RequirementConstraintTypeKind, required_kind_ok(Some(ElementKind::ConstraintDefinition)))
    &&& e.referenced_feature matches Some(r) ==> kind_checked(p, ds, r, e.owner, Code::RequirementRequiredMemberKind,
        member_kind_ok())
}

/// Findings only appended keep the member checks that held.
pub proof fn lemma_member_checked_kept(p: &Project, a: Seq<SemanticDiagnostic>, b: Seq<SemanticDiagnostic>, id: ElementId)
    requires
        keeps_findings(a, b),
        member_checked(p, a, id),
    ensures
        member_checked(p, b, id),
{
    let e = p.elements@[id as int];
    assert forall|k: int| 0 <= k < e.declared_types@.len() implies kind_checked(p, b, #[trigger] e.declared_types@[k],
        e.owner, Code::RequirementConstraintTypeKind, required_kind_ok(Some(ElementKind::ConstraintDefinition))) by {
        lemma_kind_checked_kept(p, a, b, e.declared_types@[k], e.owner, Code::RequirementConstraintTypeKind,
            required_kind_ok(Some(ElementKind::ConstraintDefinition)));
    }
    if let Some(r) = e.referenced_feature {
        lemma_kind_checked_kept(p, a, b, r, e.owner, Code::RequirementRequiredMemberKind, member_kind_ok());
    }
}

/// The code of a reference that resolved to nothing or to more than one
/// element.
pub open spec fn failure_code(r: Resolution) -> Code {
    match r {
        Resolution::Ambiguous => Code::AmbiguousReference,
        _ => Code::UnresolvedReference,
    }
}

/// Some reference is reported as unresolved or ambiguous in `ds`.
pub open spec fn resolution_reported(ds: Seq<SemanticDiagnostic>) -> bool {
    exists|j: int| 0 <= j < ds.len() && (#[trigger] ds[j].code == Code::UnresolvedReference
        || ds[j].code == Code::AmbiguousReference)
}

/// No element carries the last name of reference `r`.
pub open spec fn names_nothing(p: &Project, r: Reference) -> bool {
    forall|x: usize| !#[trigger] carries_reference_name(p, r, x)
}

/// The checks of verify declaration `a` hold in `ds`: outside a
/// verification-case objective it is reported as misplaced, and a target
/// reference that names nothing, or plainly names something other than a
/// requirement usage, is reported.
pub open spec fn assertion_checked(p: &Project, ds: Seq<SemanticDiagnostic>, a: VerifyAssertion) -> bool {
    &&& !placed_in_objective(p, a) ==> has_finding(ds, a.span, Code::VerificationPlacement)
    &&& a.inline_requirement is None ==> (a.target matches Some(r) ==> {
        &&& names_nothing(p, r) ==> resolution_reported(ds)
        &&& kind_checked(p, ds, r, Some(a.owner), Code::VerificationTargetKind, satisfaction_target_ok())
    })
}

/// Findings kept keep the checks of a verify declaration that held.
pub proof fn lemma_assertion_checked_kept(p: &Project, a: Seq<SemanticDiagnostic>, b: Seq<SemanticDiagnostic>,
    x: VerifyAssertion)
    requires
        keeps_findings(a, b),
        assertion_checked(p, a, x),
    ensures
        assertion_checked(p, b, x),
{
    if !placed_in_objective(p, x) {
        lemma_keeps_finding(a, b, x.span, Code::VerificationPlacement);
    }
    if let Some(r) = x.target {
        if x.inline_requirement is None {
            if resolution_reported(a) {
                lemma_resolution_reported_kept(a, b);
            }
            lemma_kind_checked_kept(p, a, b, r, Some(x.owner), Code::VerificationTargetKind, satisfaction_target_ok());
        }
    }
}

/// The kinds a satisfaction target may have.
pub open spec fn satisfaction_target_ok() -> spec_fn(ElementKind) -> bool {
    |k: ElementKind| kind_is_requirement_usage(k)
}

/// The kinds a satisfying subject may have.
pub open spec fn satisfying_subject_ok() -> spec_fn(ElementKind) -> bool {
    |k: ElementKind| kind_is_usage(k) && !kind_is_requirement_usage(k)
}

/// The target of satisfaction `s` is `t`: its inline requirement, or the
/// element its target reference plainly names in its scope.
pub open spec fn satisfaction_target(p: &Project, s: Satisfaction, t: usize) -> bool {
    ||| s.inline_requirement == Some(t)
    ||| s.inline_requirement is None && (s.requirement matches Some(r) && direct_target(p, r, s.owner, t))
}

/// The satisfaction checks of `s` hold in `ds`: a target reference that
/// names nothing is reported, a target that is no requirement usage is
/// reported, and with a requirement usage as target a satisfying subject
/// that is no non-requirement usage is reported.
pub open spec fn satisfaction_checked(p: &Project, ds: Seq<SemanticDiagnostic>, s: Satisfaction) -> bool {
    &&& s.inline_requirement is None ==> (s.requirement matches Some(r) ==> {
        &&& names_nothing(p, r) ==> resolution_reported(ds)
        &&& kind_checked(p, ds, r, s.owner, Code::SatisfactionTargetKind, satisfaction_target_ok())
    })
    &&& forall|t: usize| #[trigger] satisfaction_target(p, s, t) && kind_is_requirement_usage(p.elements@[t as int].kind)
        ==> (s.subject matches Some(sr) ==> kind_checked(p, ds, sr, s.owner, Code::SatisfactionSubjectKind,
        satisfying_subject_ok()))
}

/// Findings only appended keep the satisfaction checks that held.
pub proof fn lemma_satisfaction_checked_kept(p: &Project, a: Seq<SemanticDiagnostic>, b: Seq<SemanticDiagnostic>,
    s: Satisfaction)
    requires
        keeps_findings(a, b),
        satisfaction_checked(p, a, s),
    ensures
        satisfaction_checked(p, b, s),
{
    if let Some(r) = s.requirement {
        if s.inline_requirement is None {
            if resolution_reported(a) {
                lemma_resolution_reported_kept(a, b);
            }
            lemma_kind_checked_kept(p, a, b, r, s.owner, Code::SatisfactionTargetKind, satisfaction_target_ok());
        }
    }
    if let Some(sr) = s.subject {
        assert forall|t: usize| #[trigger] satisfaction_target(p, s, t) && kind_is_requirement_usage(
            p.elements@[t as int].kind) implies kind_checked(p, b, sr, s.owner, Code::SatisfactionSubjectKind,
            satisfying_subject_ok()) by {
            lemma_kind_checked_kept(p, a, b, sr, s.owner, Code::SatisfactionSubjectKind, satisfying_subject_ok());
        }
    }
}

/// `b` keeps the findings of `a`: it appends to them or rearranges them.
pub open spec fn keeps_findings(a: Seq<SemanticDiagnostic>, b: Seq<SemanticDiagnostic>) -> bool {
    extends(a, b) || a.to_multiset() == b.to_multiset()
}

/// A finding of `a` is a finding of every `b` that keeps `a`'s findings.
pub proof fn lemma_keeps_finding(a: Seq<SemanticDiagnostic>, b: Seq<SemanticDiagnostic>, span: Span, code: Code)
    requires
        keeps_findings(a, b),
        has_finding(a, span, code),
    ensures
        has_finding(b, span, code),
{
    if extends(a, b) {
        lemma_extends_keeps_finding(a, b, span, code);
    } else {
        lemma_permutation_keeps_finding(a, b, span, code);
    }
}

/// A finding recorded before stays recorded after more are appended.
pub proof fn lemma_extends_keeps_finding(a: Seq<SemanticDiagnostic>, b: Seq<SemanticDiagnostic>, span: Span, code: Code)
    requires
        extends(a, b),
        has_finding(a, span, code),
    ensures
        has_finding(b, span, code),
{
    let j = choose|j: int| 0 <= j < a.len() && same_finding(#[trigger] a[j], span, code);
    assert(b[j] == a[j]);
}

/// The owner of a verify declaration is an objective directly owned by a
/// verification definition or usage.
pub open spec fn placed_in_objective(p: &Project, a: VerifyAssertion) -> bool {
    &&& p.elements@[a.owner as int].kind == ElementKind::Objective
    &&& p.elements@[a.owner as int].owner matches Some(v)
    &&& v < p.elements@.len()
    &&& (p.elements@[v as int].kind == ElementKind::VerificationDefinition
        || p.elements@[v as int].kind == ElementKind::VerificationUsage)
}

impl<'a> RequirementsValidator<'a> {
    /// Runs the satisfaction checks on every satisfaction record.
    pub(crate) fn validate_satisfactions(&mut self)
        requires
            old(self).inv(),
        ensures
            steps(old(self), final(self)),
            adds_within(old(self).diagnostics@, final(self).diagnostics@, satisfaction_codes()),
            forall|j: int| 0 <= j < old(self).project.satisfactions@.len() ==> satisfaction_checked(old(self).project,
                final(self).diagnostics@, #[trigger] old(self).project.satisfactions@[j]),
            exists|res: Seq<SatisfactionResults>| #![trigger satisfactions_findings(old(self).project,
                old(self).project.satisfactions@, res)]
                res.len() == old(self).project.satisfactions@.len() && (forall|j: int| 0 <= j < res.len()
                ==> satisfaction_results(old(self).project, old(self).project.satisfactions@[j], (#[trigger] res[j]).0,
                res[j].1, res[j].2)) && rule_findings(final(self).diagnostics@) == rule_findings(old(self).diagnostics@)
                + satisfactions_findings(old(self).project, old(self).project.satisfactions@, res),
    {
        let project = self.project;
        let ghost mut res: Seq<SatisfactionResults> = Seq::empty();
        let mut index: usize = 0;
        while index < project.satisfactions.len()
            invariant
                steps(old(self), self),
                adds_within(old(self).diagnostics@, self.diagnostics@, satisfaction_codes()),
                self.project == project,
                index <= project.satisfactions@.len(),
                forall|j: int| 0 <= j < index ==> satisfaction_checked(project, self.diagnostics@,
                    #[trigger] project.satisfactions@[j]),
                res.len() == index,
                forall|j: int| 0 <= j < index ==> satisfaction_results(project, project.satisfactions@[j],
                    (#[trigger] res[j]).0, res[j].1, res[j].2),
                rule_findings(self.diagnostics@) == rule_findings(old(self).diagnostics@) + satisfactions_findings(
                    project, project.satisfactions@.take(index as int), res),
            decreases project.satisfactions@.len() - index,
        {
            let ghost before = self.diagnostics@;
            self.validate_satisfaction(index);
            proof {
                let (t, y, c) = choose|t: Option<ElementId>, y: Option<ElementId>, c: SubjectResults|
                    #![trigger satisfaction_findings(project, project.satisfactions@[index as int], t, y, c)]
                    satisfaction_results(project, project.satisfactions@[index as int], t, y, c) && rule_findings(
                    self.diagnostics@) == rule_findings(before) + satisfaction_findings(project,
                    project.satisfactions@[index as int], t, y, c);
                let old_res = res;
                res = res.push((t, y, c));
                assert(project.satisfactions@.take(index + 1).drop_last() =~= project.satisfactions@.take(
                    index as int));
                assert(res.drop_last() =~= old_res);
                assert(rule_findings(self.diagnostics@) =~= rule_findings(old(self).diagnostics@)
                    + satisfactions_findings(project, project.satisfactions@.take(index + 1), res));
                assert forall|j: int| 0 <= j < index + 1 implies satisfaction_results(project,
                    project.satisfactions@[j], (#[trigger] res[j]).0, res[j].1, res[j].2) by {
                    if j < index {
                        assert(res[j] == old_res[j]);
                    }
                }
                assert forall|j: int| 0 <= j < index + 1 implies satisfaction_checked(project, self.diagnostics@,
                    #[trigger] project.satisfactions@[j]) by {
                    if j < index {
                        lemma_satisfaction_checked_kept(project, before, self.diagnostics@, project.satisfactions@[j]);
                    }
                }
            }
            index = index + 1;
        }
        proof { assert(project.satisfactions@.take(project.satisfactions@.len() as int) =~= project.satisfactions@); }
    }

    /// A satisfaction's target must be a requirement usage; its satisfying
    /// subject, when given, is then checked against the requirement.
    fn validate_satisfaction(&mut self, index: usize)
        requires
            old(self).inv(),
            index < old(self).project.satisfactions@.len(),
        ensures
            steps(old(self), final(self)),
            adds_within(old(self).diagnostics@, final(self).diagnostics@, satisfaction_codes()),
            satisfaction_checked(old(self).project, final(self).diagnostics@, old(self).project.satisfactions@[index as int]),
            ({
                let s = old(self).project.satisfactions@[index as int];
                &&& forall|x: usize| s.inline_requirement is None && s.requirement is Some && #[trigger] direct_target(
                    old(self).project, s.requirement.unwrap(), s.owner, x) && !kind_is_requirement_usage(
                    old(self).project.elements@[x as int].kind) ==> final(self).diagnostics@.len()
                    == old(self).diagnostics@.len() + 1 && same_finding(final(self).diagnostics@.last(),
                    s.requirement.unwrap().span, Code::SatisfactionTargetKind)
                &&& forall|x: usize| #[trigger] satisfaction_target(old(self).project, s, x) && kind_is_requirement_usage(
                    old(self).project.elements@[x as int].kind) && s.subject is None ==> final(self).diagnostics@
                    == old(self).diagnostics@
                &&& forall|x: usize, y: usize| #[trigger] satisfaction_target(old(self).project, s, x)
                    && kind_is_requirement_usage(old(self).project.elements@[x as int].kind) && s.subject is Some
                    && #[trigger] direct_target(old(self).project, s.subject.unwrap(), s.owner, y) && !(kind_is_usage(
                    old(self).project.elements@[y as int].kind) && !kind_is_requirement_usage(
                    old(self).project.elements@[y as int].kind)) ==> final(self).diagnostics@.len()
                    == old(self).diagnostics@.len() + 1
            }),
            exists|target: Option<ElementId>, subject: Option<ElementId>, checks: SubjectResults|
                #![trigger satisfaction_findings(old(self).project, old(self).project.satisfactions@[index as int],
                target, subject, checks)]
                satisfaction_results(old(self).project, old(self).project.satisfactions@[index as int], target,
                subject, checks) && rule_findings(final(self).diagnostics@) == rule_findings(old(self).diagnostics@)
                + satisfaction_findings(old(self).project, old(self).project.satisfactions@[index as int], target,
                subject, checks),
    {
        let project = self.project;
        let satisfaction = &project.satisfactions[index];
        proof { assert(project.satisfaction_ok(project.satisfactions@[index as int])); }
        let ghost mut target: Option<ElementId> = None;
        let ghost mut subject: Option<ElementId> = None;
        let ghost mut checks: SubjectResults = (None, false, false, None, Conformance::Conforms, Seq::empty());
        let requirement_id = match satisfaction.inline_requirement {
            Some(inline) => inline,
            None => {
                let reference = match &satisfaction.requirement {
                    Some(reference) => reference,
                    None => { return; }
                };
                let found = self.resolve_profile_reference(reference, satisfaction.owner, satisfaction.package,
                    "requirement satisfaction target");
                proof {
                    target = found;
                    lemma_rule_findings_unchanged(old(self).diagnostics@, self.diagnostics@);
                }
                match found {
                    Some(id) => id,
                    None => {
                        proof {
                            assert(satisfaction_results(project, *satisfaction, target, subject, checks));
                            assert(rule_findings(self.diagnostics@) =~= rule_findings(old(self).diagnostics@)
                                + satisfaction_findings(project, *satisfaction, target, subject, checks));
                        }
                        return;
                    }
                }
            }
        };
        let ghost after_resolution = self.diagnostics@;
        proof {
            assert(rule_findings(after_resolution) == rule_findings(old(self).diagnostics@));
            assert(satisfied_requirement(*satisfaction, target) == Some(requirement_id));
        }
        let kind = project.elements[requirement_id].kind;
        if !kind.is_requirement_usage() {
            // an inline target is a requirement usage, so this one is a reference
            let reference = match &satisfaction.requirement {
                Some(reference) => reference,
                None => {
                    proof { assert(false); }
                    return;
                }
            };
            let message = quoted_message("satisfaction target ", &reference.text, " resolves to ");
            let message = message.concat(kind_name(kind));
            self.push(reference.span, Code::SatisfactionTargetKind, message.concat(", not a requirement usage"));
            proof {
                assert(same_finding(self.diagnostics@[self.diagnostics@.len() - 1], reference.span,
                    Code::SatisfactionTargetKind));
                lemma_rule_findings_push(after_resolution, self.diagnostics@.last());
                assert(after_resolution.push(self.diagnostics@.last()) =~= self.diagnostics@);
                assert(satisfaction_results(project, *satisfaction, target, subject, checks));
                assert(rule_findings(self.diagnostics@) =~= rule_findings(old(self).diagnostics@)
                    + satisfaction_findings(project, *satisfaction, target, subject, checks));
            }
            return;
        }
        let ghost after_target = self.diagnostics@;
        if let Some(subject_reference) = &satisfaction.subject {
            let found = self.resolve_profile_reference(subject_reference, satisfaction.owner, satisfaction.package,
                "satisfying subject");
            let ghost after_subject = self.diagnostics@;
            proof {
                subject = found;
                lemma_rule_findings_unchanged(after_target, after_subject);
            }
            if let Some(subject_id) = found {
                self.validate_satisfaction_subject(requirement_id, subject_id, subject_reference);
                proof {
                    checks = choose|r: SubjectResults| #![trigger subject_findings(project, subject_id,
                        subject_reference.span, r)] subject_results(project, requirement_id, subject_id, r)
                        && rule_findings(self.diagnostics@) == rule_findings(after_subject) + subject_findings(project,
                        subject_id, subject_reference.span, r);
                }
            }
            proof {
                assert(satisfaction_results(project, *satisfaction, target, subject, checks));
                assert(rule_findings(self.diagnostics@) =~= rule_findings(old(self).diagnostics@)
                    + satisfaction_findings(project, *satisfaction, target, subject, checks));
            }
        } else {
            proof {
                assert(satisfaction_results(project, *satisfaction, target, subject, checks));
                assert(rule_findings(self.diagnostics@) =~= rule_findings(old(self).diagnostics@)
                    + satisfaction_findings(project, *satisfaction, target, subject, checks));
            }
        }
        proof {
            if let Some(r) = project.satisfactions@[index as int].requirement {
                if satisfaction.inline_requirement is None {
                    lemma_kind_checked_kept(project, after_target, self.diagnostics@, r, satisfaction.owner,
                        Code::SatisfactionTargetKind, satisfaction_target_ok());
                }
            }
            assert forall|t: usize| #[trigger] satisfaction_target(project, *satisfaction, t) implies t == requirement_id by {
            }
        }
    }

    /// The satisfying subject must be a usage that is no requirement, typed
    /// by (a specialization of) the requirement's subject type.
    pub(crate) fn validate_satisfaction_subject(&mut self, requirement_id: ElementId, subject_id: ElementId,
        subject_reference: &Reference)
        requires
            old(self).inv(),
            requirement_id < old(self).n(),
            subject_id < old(self).n(),
            old(self).project.reference_ok(*subject_reference),
        ensures
            steps(old(self), final(self)),
            adds_within(old(self).diagnostics@, final(self).diagnostics@, satisfaction_codes()),
            !(kind_is_usage(old(self).element_at(subject_id).kind) && !kind_is_requirement_usage(
                old(self).element_at(subject_id).kind)) ==> has_finding(final(self).diagnostics@,
                subject_reference.span, Code::SatisfactionSubjectKind) && final(self).diagnostics@.len()
                == old(self).diagnostics@.len() + 1,
            exists|r: SubjectResults| #![trigger subject_findings(old(self).project, subject_id, subject_reference.span, r)]
                subject_results(old(self).project, requirement_id, subject_id, r) && rule_findings(
                final(self).diagnostics@) == rule_findings(old(self).diagnostics@) + subject_findings(
                old(self).project, subject_id, subject_reference.span, r),
    {
        let project = self.project;
        let subject_kind = project.elements[subject_id].kind;
        let ghost mut r: SubjectResults = (None, false, false, None, Conformance::Conforms, Seq::empty());
        if !subject_kind.is_usage() || subject_kind.is_requirement_usage() {
            let message = quoted_message("satisfying subject ", &subject_reference.text,
                " must resolve to a non-requirement usage");
            self.push(subject_reference.span, Code::SatisfactionSubjectKind, message);
            proof {
                assert(same_finding(self.diagnostics@[self.diagnostics@.len() - 1], subject_reference.span,
                    Code::SatisfactionSubjectKind));
                lemma_rule_findings_push(old(self).diagnostics@, self.diagnostics@.last());
                assert(old(self).diagnostics@.push(self.diagnostics@.last()) =~= self.diagnostics@);
                assert(subject_results(project, requirement_id, subject_id, r));
                assert(rule_findings(self.diagnostics@) == rule_findings(old(self).diagnostics@) + subject_findings(
                    project, subject_id, subject_reference.span, r));
            }
            return;
        }
        let expected = self.effective_requirement_subject_type(requirement_id);
        proof { r = (expected, false, false, None, Conformance::Conforms, Seq::empty()); }
        let expected_type = match expected {
            Some(t) => t,
            None => {
                proof {
                    assert(subject_results(project, requirement_id, subject_id, r));
                    assert(rule_findings(self.diagnostics@) =~= rule_findings(old(self).diagnostics@) + subject_findings(
                        project, subject_id, subject_reference.span, r));
                }
                return;
            }
        };
        let ghost before_chain = self.diagnostics@;
        self.validate_effective_type_chain(subject_id, "satisfying subject");
        self.validate_binding_target_types(subject_id, "satisfying subject", Code::SatisfactionSubjectKind);
        let ghost after_chain = self.diagnostics@;
        let ghost chain = rule_findings(after_chain.subrange(before_chain.len() as int, after_chain.len() as int));
        proof {
            assert(adds_within(before_chain, after_chain, chain_codes().insert(Code::SatisfactionSubjectKind)));
            lemma_rule_findings_within(before_chain, after_chain, chain_codes().insert(Code::SatisfactionSubjectKind));
            assert forall|i: int| 0 <= i < chain.len() implies set![Code::UnsupportedMultityping,
                Code::SatisfactionSubjectKind].contains(#[trigger] chain[i].1) by {
                assert(chain_codes().insert(Code::SatisfactionSubjectKind).difference(resolution_codes()).contains(
                    chain[i].1));
            }
        }
        let chain_invalid = self.effective_type_chain_is_invalid(subject_id);
        let binding_invalid = self.binding_target_type_chain_is_invalid(subject_id);
        proof { r = (expected, chain_invalid, binding_invalid, None, Conformance::Conforms, chain); }
        if chain_invalid || binding_invalid {
            proof {
                assert(subject_results(project, requirement_id, subject_id, r));
                assert(rule_findings(self.diagnostics@) =~= rule_findings(old(self).diagnostics@) + subject_findings(
                    project, subject_id, subject_reference.span, r));
            }
            return;
        }
        let actual = self.resolved_subject_type(subject_id);
        let actual_type = match actual {
            Some(t) => t,
            None => {
                let message = quoted_message("satisfying subject ", &subject_reference.text,
                    " has no resolvable declared type");
                self.push(subject_reference.span, Code::SatisfactionSubjectConformance, message);
                proof {
                    r = (expected, chain_invalid, binding_invalid, actual, Conformance::Conforms, chain);
                    lemma_rule_findings_push(after_chain, self.diagnostics@.last());
                    assert(after_chain.push(self.diagnostics@.last()) =~= self.diagnostics@);
                    assert(subject_results(project, requirement_id, subject_id, r));
                    assert(rule_findings(self.diagnostics@) =~= rule_findings(old(self).diagnostics@) + subject_findings(
                        project, subject_id, subject_reference.span, r));
                }
                return;
            }
        };
        let c = self.conformance(actual_type, expected_type);
        let ghost after_conformance = self.diagnostics@;
        proof {
            r = (expected, chain_invalid, binding_invalid, actual, c, chain);
            lemma_rule_findings_unchanged(after_chain, after_conformance);
            assert(subject_results(project, requirement_id, subject_id, r));
        }
        match c {
            Conformance::Conforms | Conformance::Indeterminate => {
                proof {
                    assert(rule_findings(self.diagnostics@) =~= rule_findings(old(self).diagnostics@) + subject_findings(
                        project, subject_id, subject_reference.span, r));
                }
            }
            Conformance::DoesNotConform => {
                let message = quoted_message("satisfying subject ", &subject_reference.text,
                    " is not typed by the requirement subject type");
                self.push(subject_reference.span, Code::SatisfactionSubjectConformance, message);
                proof {
                    lemma_rule_findings_push(after_conformance, self.diagnostics@.last());
                    assert(after_conformance.push(self.diagnostics@.last()) =~= self.diagnostics@);
                    assert(rule_findings(self.diagnostics@) =~= rule_findings(old(self).diagnostics@) + subject_findings(
                        project, subject_id, subject_reference.span, r));
                }
            }
        }
    }

    /// Runs the verification checks on every verification record, then on
    /// every verify declaration.
    pub(crate) fn validate_verifications(&mut self)
        requires
            old(self).inv(),
        ensures
            steps(old(self), final(self)),
            adds_within(old(self).diagnostics@, final(self).diagnostics@, verification_codes()),
            forall|j: int| 0 <= j < final(self).project.verifications@.len() ==> verification_rules_hold(
                final(self).project, final(self).diagnostics@, #[trigger] final(self).project.verifications@[j]),
            forall|i: int| 0 <= i < final(self).project.verify_assertions@.len()
                && !placed_in_objective(final(self).project, #[trigger] final(self).project.verify_assertions@[i])
                ==> has_finding(final(self).diagnostics@, final(self).project.verify_assertions@[i].span,
                Code::VerificationPlacement),
            forall|i: int| 0 <= i < final(self).project.verify_assertions@.len() ==> assertion_checked(
                final(self).project, final(self).diagnostics@, #[trigger] final(self).project.verify_assertions@[i]),
    {
        let project = self.project;
        let mut index: usize = 0;
        while index < project.verifications.len()
            invariant
                steps(old(self), self),
                adds_within(old(self).diagnostics@, self.diagnostics@, verification_codes()),
                self.project == project,
                index <= project.verifications@.len(),
                forall|j: int| 0 <= j < index ==> verification_rules_hold(project, self.diagnostics@,
                    #[trigger] project.verifications@[j]),
            decreases project.verifications@.len() - index,
        {
            let ghost before = self.diagnostics@;
            self.validate_verification(index);
            proof {
                assert forall|j: int| 0 <= j < index + 1 implies verification_rules_hold(project, self.diagnostics@,
                    #[trigger] project.verifications@[j]) by {
                    if j < index {
                        lemma_verification_rules_kept(project, before, self.diagnostics@, project.verifications@[j]);
                    }
                }
            }
            index = index + 1;
        }
        let ghost after_verifications = self.diagnostics@;
        let mut index: usize = 0;
        while index < project.verify_assertions.len()
            invariant
                steps(old(self), self),
                adds_within(old(self).diagnostics@, self.diagnostics@, verification_codes()),
                self.project == project,
                index <= project.verify_assertions@.len(),
                forall|i: int| 0 <= i < index && !placed_in_objective(project, #[trigger] project.verify_assertions@[i])
                    ==> has_finding(self.diagnostics@, project.verify_assertions@[i].span, Code::VerificationPlacement),
                forall|i: int| 0 <= i < index ==> assertion_checked(project, self.diagnostics@,
                    #[trigger] project.verify_assertions@[i]),
                extends(after_verifications, self.diagnostics@),
            decreases project.verify_assertions@.len() - index,
        {
            let ghost before = self.diagnostics@;
            self.validate_verify_assertion(index);
            proof {
                assert forall|i: int| 0 <= i < index + 1 && !placed_in_objective(project,
                    #[trigger] project.verify_assertions@[i]) implies has_finding(self.diagnostics@,
                    project.verify_assertions@[i].span, Code::VerificationPlacement) by {
                    if i < index {
                        lemma_extends_keeps_finding(before, self.diagnostics@, project.verify_assertions@[i].span,
                            Code::VerificationPlacement);
                    }
                }
                assert forall|i: int| 0 <= i < index + 1 implies assertion_checked(project, self.diagnostics@,
                    #[trigger] project.verify_assertions@[i]) by {
                    if i < index {
                        lemma_assertion_checked_kept(project, before, self.diagnostics@, project.verify_assertions@[i]);
                    }
                }
            }
            index = index + 1;
        }
        proof {
            assert forall|j: int| 0 <= j < project.verifications@.len() implies verification_rules_hold(project,
                self.diagnostics@, #[trigger] project.verifications@[j]) by {
                lemma_verification_rules_kept(project, after_verifications, self.diagnostics@, project.verifications@[j]);
            }
        }
    }

    /// Checks of one verification: its types, at most one objective, the type
    /// chain and binding of each subject, and the subject binding.
    pub(crate) fn validate_verification(&mut self, index: usize)
        requires
            old(self).inv(),
            index < old(self).project.verifications@.len(),
        ensures
            steps(old(self), final(self)),
            adds_within(old(self).diagnostics@, final(self).diagnostics@, verification_codes()),
            verification_rules_hold(old(self).project, final(self).diagnostics@,
                old(self).project.verifications@[index as int]),
    {
        let project = self.project;
        let verification = &project.verifications[index];
        proof { assert(project.verification_ok(project.verifications@[index as int])); }
        let ghost before_types = self.diagnostics@;
        self.validate_verification_types(verification.element);
        let ghost after_types = self.diagnostics@;
        proof {
            let e = project.elements@[verification.element as int];
            if e.declared_types@.len() > 1 {
                assert(same_finding(after_types[before_types.len() as int], e.declared_types@[1].span,
                    Code::VerificationCaseTypeCardinality));
            }
        }
        if verification.objectives.len() > 1 {
            let duplicate = verification.objectives[1];
            proof { assert(project.element_ok(duplicate as int)); }
            self.push(project.elements[duplicate].span, Code::VerificationObjectiveCardinality,
                owned("a verification case may own at most one objective"));
            proof {
                assert(same_finding(self.diagnostics@[self.diagnostics@.len() - 1], project.elements@[duplicate as int].span,
                    Code::VerificationObjectiveCardinality));
            }
        }
        let ghost after_cardinality = self.diagnostics@;
        let mut k: usize = 0;
        while k < verification.subjects.len()
            invariant
                steps(old(self), self),
                adds_within(old(self).diagnostics@, self.diagnostics@, verification_codes()),
                extends(after_cardinality, self.diagnostics@),
                self.project == project,
                *verification == project.verifications@[index as int],
                project.verification_ok(*verification),
                k <= verification.subjects@.len(),
            decreases verification.subjects@.len() - k,
        {
            let subject = verification.subjects[k];
            self.validate_effective_type_chain(subject, "verification subject");
            self.validate_binding_target_types(subject, "verification subject", Code::VerificationSubjectBinding);
            k = k + 1;
        }
        let first_subject = if verification.subjects.len() != 0 { verification.subjects[0] } else { 0 };
        let ghost before_binding = self.diagnostics@;
        self.validate_subject_binding(verification.element, verification.subjects.len(), first_subject, false);
        proof {
            if verification.subjects@.len() > 0 {
                lemma_binding_checked_from_call(project, before_binding, self.diagnostics@, verification.element,
                    verification.subjects@[0], false);
            }
            if verification.objectives@.len() > 1 {
                lemma_extends_keeps_finding(after_cardinality, self.diagnostics@,
                    project.elements@[verification.objectives@[1] as int].span, Code::VerificationObjectiveCardinality);
            }
            let e = project.elements@[verification.element as int];
            if e.declared_types@.len() > 1 {
                assert(has_finding(after_types, e.declared_types@[1].span, Code::VerificationCaseTypeCardinality));
                lemma_extends_keeps_finding(after_types, self.diagnostics@, e.declared_types@[1].span,
                    Code::VerificationCaseTypeCardinality);
            }
            if let Some(span) = extra_specialization(e) {
                lemma_extends_keeps_finding(after_types, self.diagnostics@, span, Code::UnsupportedMultityping);
            }
            lemma_parents_checked_kept(project, after_types, self.diagnostics@, verification.element, false);
        }
    }

    /// Type and specialization checks of a verification: at most one declared
    /// type, declared types that are verification definitions, specializations
    /// of the verification's own kind, and an acyclic parent chain.
    #[verifier::spinoff_prover]
    #[verifier::rlimit(60)]
    pub(crate) fn validate_verification_types(&mut self, id: ElementId)
        requires
            old(self).inv(),
            id < old(self).n(),
        ensures
            steps(old(self), final(self)),
            adds_within(old(self).diagnostics@, final(self).diagnostics@, verification_codes()),
            old(self).element_at(id).declared_types@.len() > 1 ==> final(self).diagnostics@.len()
                > old(self).diagnostics@.len() && final(self).diagnostics@[old(self).diagnostics@.len() as int].code
                == Code::VerificationCaseTypeCardinality && final(self).diagnostics@[old(self).diagnostics@.len() as int].span
                == old(self).element_at(id).declared_types@[1].span,
            extra_specialization(old(self).element_at(id)) matches Some(span) ==> has_finding(
                final(self).diagnostics@, span, Code::UnsupportedMultityping),
            parents_checked(old(self).project, final(self).diagnostics@, id, false),
            parentless(old(self).element_at(id)) ==> final(self).diagnostics@ == old(self).diagnostics@,
            old(self).element_at(id).declared_types@.len() <= 1 ==> adds_without(old(self).diagnostics@,
                final(self).diagnostics@, Code::VerificationCaseTypeCardinality),
            exists|types: Seq<Option<ElementId>>, specializations: Seq<Option<ElementId>>, cyclic: bool|
                #![trigger parent_findings(old(self).project, id, false, types, specializations, cyclic)]
                parent_results(old(self).project, id, false, types, specializations, cyclic) && rule_findings(
                final(self).diagnostics@) == rule_findings(old(self).diagnostics@) + parent_findings(
                old(self).project, id, false, types, specializations, cyclic),
    {
        let project = self.project;
        proof { assert(project.element_ok(id as int)); }
        let element = &project.elements[id];
        if element.declared_types.len() > 1 {
            proof { assert(project.reference_ok(element.declared_types@[1])); }
            self.push(element.declared_types[1].span, Code::VerificationCaseTypeCardinality,
                owned("a verification usage may have at most one explicit verification definition type"));
        }
        let ghost after_cardinality = self.diagnostics@;
        proof {
            if element.declared_types@.len() > 1 {
                lemma_rule_findings_push(old(self).diagnostics@, after_cardinality.last());
                assert(old(self).diagnostics@.push(after_cardinality.last()) =~= after_cardinality);
            }
        }
        self.validate_parent_relationship_cardinality(id, "verification");
        let ghost after_parent = self.diagnostics@;
        let ghost head = rule_findings(after_parent);
        proof {
            if extra_specialization(*element) is Some {
                lemma_rule_findings_push(after_cardinality, after_parent.last());
                assert(after_cardinality.push(after_parent.last()) =~= after_parent);
            }
            let e = *element;
            assert(head == rule_findings(old(self).diagnostics@) + (if e.declared_types@.len() > 1 {
                seq![(e.declared_types@[1].span, Code::VerificationCaseTypeCardinality)]
            } else {
                Seq::empty()
            }) + (match extra_specialization(e) {
                Some(span) => seq![(span, Code::UnsupportedMultityping)],
                None => Seq::empty(),
            }));
        }
        let ghost mut types: Seq<Option<ElementId>> = Seq::empty();
        proof {
            if parentless(*element) {
                assert(after_parent == old(self).diagnostics@);
            }
        }
        proof {
            if let Some(span) = extra_specialization(project.elements@[id as int]) {
                assert(same_finding(after_parent[after_parent.len() - 1], span, Code::UnsupportedMultityping));
            }
        }
        let mut k: usize = 0;
        while k < element.declared_types.len()
            invariant
                steps(old(self), self),
                adds_within(old(self).diagnostics@, self.diagnostics@, verification_codes()),
                extends(after_parent, self.diagnostics@),
                parentless(*element) ==> self.diagnostics@ == after_parent,
                element.declared_types@.len() <= 1 ==> adds_without(old(self).diagnostics@, self.diagnostics@,
                    Code::VerificationCaseTypeCardinality),
                self.project == project,
                id < project.elements@.len(),
                *element == project.elements@[id as int],
                project.element_ok(id as int),
                k <= element.declared_types@.len(),
                forall|k2: int| 0 <= k2 < k ==> kind_checked(project, self.diagnostics@,
                    #[trigger] element.declared_types@[k2], element.owner, Code::VerificationCaseTypeKind,
                    parent_kind_ok(element.kind, false, true)),
                types.len() == k,
                forall|k2: int| 0 <= k2 < k ==> resolution_fits(project, #[trigger] element.declared_types@[k2],
                    element.owner, types[k2]),
                rule_findings(self.diagnostics@) == head + kind_findings(project, element.declared_types@.take(k as int),
                    types, Code::VerificationCaseTypeKind, parent_kind_ok(element.kind, false, true)),
            decreases element.declared_types@.len() - k,
        {
            let reference = &element.declared_types[k];
            assert(project.reference_ok(element.declared_types@[k as int]));
            let ghost before = self.diagnostics@;
            let found = self.resolve_for_element(reference, id);
            let ghost mid = self.diagnostics@;
            proof {
                lemma_rule_findings_unchanged(before, mid);
                assert(resolution_fits(project, *reference, element.owner, found));
                lemma_kind_findings_step(project, element.declared_types@, types, k as int, found,
                    Code::VerificationCaseTypeKind, parent_kind_ok(element.kind, false, true));
            }
            if let Some(target) = found {
                let kind = project.elements[target].kind;
                if kind != ElementKind::VerificationDefinition {
                    let message = quoted_message("verification type ", &reference.text, " resolves to ");
                    let message = message.concat(kind_name(kind));
                    self.push(reference.span, Code::VerificationCaseTypeKind,
                        message.concat(", not a verification definition"));
                    proof {
                        assert(same_finding(self.diagnostics@[self.diagnostics@.len() - 1], reference.span,
                            Code::VerificationCaseTypeKind));
                        lemma_rule_findings_push(mid, self.diagnostics@.last());
                        assert(mid.push(self.diagnostics@.last()) =~= self.diagnostics@);
                    }
                }
            }
            proof {
                types = types.push(found);
                assert forall|k2: int| 0 <= k2 < k + 1 implies resolution_fits(project,
                    #[trigger] element.declared_types@[k2], element.owner, types[k2]) by {}
            }
            proof {
                assert forall|k2: int| 0 <= k2 < k + 1 implies kind_checked(project, self.diagnostics@,
                    #[trigger] element.declared_types@[k2], element.owner, Code::VerificationCaseTypeKind,
                    parent_kind_ok(element.kind, false, true)) by {
                    if k2 < k {
                        lemma_kind_checked_kept(project, before, self.diagnostics@, element.declared_types@[k2],
                            element.owner, Code::VerificationCaseTypeKind, parent_kind_ok(element.kind, false, true));
                    }
                }
            }
            k = k + 1;
        }
        let specialization_kind = if element.kind == ElementKind::VerificationUsage {
            ElementKind::VerificationUsage
        } else {
            ElementKind::VerificationDefinition
        };
        proof { assert(element.declared_types@.take(element.declared_types@.len() as int) =~= element.declared_types@); }
        let ghost middle = head + kind_findings(project, element.declared_types@, types, Code::VerificationCaseTypeKind,
            parent_kind_ok(element.kind, false, true));
        let ghost mut specializations: Seq<Option<ElementId>> = Seq::empty();
        let mut k: usize = 0;
        while k < element.specializations.len()
            invariant
                steps(old(self), self),
                adds_within(old(self).diagnostics@, self.diagnostics@, verification_codes()),
                extends(after_parent, self.diagnostics@),
                parentless(*element) ==> self.diagnostics@ == after_parent,
                element.declared_types@.len() <= 1 ==> adds_without(old(self).diagnostics@, self.diagnostics@,
                    Code::VerificationCaseTypeCardinality),
                self.project == project,
                id < project.elements@.len(),
                *element == project.elements@[id as int],
                project.element_ok(id as int),
                k <= element.specializations@.len(),
                forall|k2: int| 0 <= k2 < element.declared_types@.len() ==> kind_checked(project, self.diagnostics@,
                    #[trigger] element.declared_types@[k2], element.owner, Code::VerificationCaseTypeKind,
                    parent_kind_ok(element.kind, false, true)),
                specialization_kind == (if element.kind == ElementKind::VerificationUsage {
                    ElementKind::VerificationUsage
                } else {
                    ElementKind::VerificationDefinition
                }),
                forall|k2: int| 0 <= k2 < k ==> kind_checked(project, self.diagnostics@,
                    #[trigger] element.specializations@[k2], element.owner, Code::VerificationCaseSpecializationKind,
                    parent_kind_ok(element.kind, false, false)),
                specializations.len() == k,
                forall|k2: int| 0 <= k2 < k ==> resolution_fits(project, #[trigger] element.specializations@[k2],
                    element.owner, specializations[k2]),
                results_fit(project, element.declared_types@, element.owner, types),
                rule_findings(self.diagnostics@) == middle + kind_findings(project, element.specializations@.take(
                    k as int), specializations, Code::VerificationCaseSpecializationKind, parent_kind_ok(element.kind,
                    false, false)),
            decreases element.specializations@.len() - k,
        {
            let reference = &element.specializations[k];
            assert(project.reference_ok(element.specializations@[k as int]));
            let ghost before = self.diagnostics@;
            let found = self.resolve_for_element(reference, id);
            let ghost mid = self.diagnostics@;
            proof {
                lemma_rule_findings_unchanged(before, mid);
                assert(resolution_fits(project, *reference, element.owner, found));
                lemma_kind_findings_step(project, element.specializations@, specializations, k as int, found,
                    Code::VerificationCaseSpecializationKind, parent_kind_ok(element.kind, false, false));
            }
            if let Some(target) = found {
                let target_kind = project.elements[target].kind;
                if target_kind != specialization_kind {
                    let message = quoted_message("verification specialization ", &reference.text, " resolves to ");
                    let message = message.concat(kind_name(target_kind));
                    let message = message.concat(", not ");
                    self.push(reference.span, Code::VerificationCaseSpecializationKind,
                        message.concat(kind_name(specialization_kind)));
                    proof {
                        assert(same_finding(self.diagnostics@[self.diagnostics@.len() - 1], reference.span,
                            Code::VerificationCaseSpecializationKind));
                        lemma_rule_findings_push(mid, self.diagnostics@.last());
                        assert(mid.push(self.diagnostics@.last()) =~= self.diagnostics@);
                    }
                }
            }
            proof {
                specializations = specializations.push(found);
                assert forall|k2: int| 0 <= k2 < k + 1 implies resolution_fits(project,
                    #[trigger] element.specializations@[k2], element.owner, specializations[k2]) by {}
            }
            proof {
                assert forall|k2: int| 0 <= k2 < element.declared_types@.len() implies kind_checked(project,
                    self.diagnostics@, #[trigger] element.declared_types@[k2], element.owner, Code::VerificationCaseTypeKind,
                    parent_kind_ok(element.kind, false, true)) by {
                    lemma_kind_checked_kept(project, before, self.diagnostics@, element.declared_types@[k2],
                        element.owner, Code::VerificationCaseTypeKind, parent_kind_ok(element.kind, false, true));
                }
                assert forall|k2: int| 0 <= k2 < k + 1 implies kind_checked(project, self.diagnostics@,
                    #[trigger] element.specializations@[k2], element.owner, Code::VerificationCaseSpecializationKind,
                    parent_kind_ok(element.kind, false, false)) by {
                    if k2 < k {
                        lemma_kind_checked_kept(project, before, self.diagnostics@, element.specializations@[k2],
                            element.owner, Code::VerificationCaseSpecializationKind, parent_kind_ok(element.kind, false, false));
                    }
                }
            }
            k = k + 1;
        }
        proof { assert(element.specializations@.take(element.specializations@.len() as int) =~= element.specializations@); }
        let cyclic = self.verification_parent_chain_is_cyclic(id);
        if cyclic {
            let reference = if element.declared_types.len() != 0 {
                &element.declared_types[0]
            } else {
                &element.specializations[0]
            };
            proof {
                if element.declared_types@.len() != 0 {
                    assert(project.reference_ok(element.declared_types@[0]));
                } else {
                    assert(project.reference_ok(element.specializations@[0]));
                }
            }
            let ghost before_cycle = self.diagnostics@;
            self.push(reference.span, Code::VerificationInheritanceCycle,
                owned("verification type and specialization parent chains must be acyclic"));
            proof {
                lemma_rule_findings_push(before_cycle, self.diagnostics@.last());
                assert(before_cycle.push(self.diagnostics@.last()) =~= self.diagnostics@);
                assert(same_finding(self.diagnostics@[self.diagnostics@.len() - 1], reference.span, Code::VerificationInheritanceCycle));
                assert forall|k2: int| 0 <= k2 < element.declared_types@.len() implies kind_checked(project,
                    self.diagnostics@, #[trigger] element.declared_types@[k2], element.owner, Code::VerificationCaseTypeKind,
                    parent_kind_ok(element.kind, false, true)) by {
                    lemma_kind_checked_kept(project, before_cycle, self.diagnostics@, element.declared_types@[k2],
                        element.owner, Code::VerificationCaseTypeKind, parent_kind_ok(element.kind, false, true));
                }
                assert forall|k2: int| 0 <= k2 < element.specializations@.len() implies kind_checked(project,
                    self.diagnostics@, #[trigger] element.specializations@[k2], element.owner, Code::VerificationCaseSpecializationKind,
                    parent_kind_ok(element.kind, false, false)) by {
                    lemma_kind_checked_kept(project, before_cycle, self.diagnostics@, element.specializations@[k2],
                        element.owner, Code::VerificationCaseSpecializationKind, parent_kind_ok(element.kind, false, false));
                }
            }
        }
        proof {
            if let Some(span) = extra_specialization(project.elements@[id as int]) {
                lemma_extends_keeps_finding(after_parent, self.diagnostics@, span, Code::UnsupportedMultityping);
            }
            assert(parent_results(project, id, false, types, specializations, cyclic));
            let e = *element;
            assert(parent_findings(project, id, false, types, specializations, cyclic) =~= (if e.declared_types@.len()
                > 1 {
                seq![(e.declared_types@[1].span, Code::VerificationCaseTypeCardinality)]
            } else {
                Seq::empty()
            }) + (match extra_specialization(e) {
                Some(span) => seq![(span, Code::UnsupportedMultityping)],
                None => Seq::empty(),
            }) + kind_findings(project, e.declared_types@, types, Code::VerificationCaseTypeKind, parent_kind_ok(
                e.kind, false, true)) + kind_findings(project, e.specializations@, specializations,
                Code::VerificationCaseSpecializationKind, parent_kind_ok(e.kind, false, false)) + if cyclic {
                seq![(first_parent_span(e), Code::VerificationInheritanceCycle)]
            } else {
                Seq::empty()
            });
            assert(rule_findings(self.diagnostics@) =~= rule_findings(old(self).diagnostics@) + parent_findings(
                project, id, false, types, specializations, cyclic));
        }
    }

    /// Checks one verify declaration: it must stand in a verification-case
    /// objective, its target must be a requirement usage, and the verified
    /// requirement's subject must fit the verification's subject.
    pub(crate) fn validate_verify_assertion(&mut self, index: usize)
        requires
            old(self).inv(),
            index < old(self).project.verify_assertions@.len(),
        ensures
            steps(old(self), final(self)),
            adds_within(old(self).diagnostics@, final(self).diagnostics@, verification_codes()),
            assertion_checked(old(self).project, final(self).diagnostics@, old(self).project.verify_assertions@[index as int]),
            placed_in_objective(old(self).project, old(self).project.verify_assertions@[index as int]) ==> forall|j: int|
                old(self).diagnostics@.len() <= j < final(self).diagnostics@.len() ==> (#[trigger] final(self).diagnostics@[j]).code
                != Code::VerificationPlacement,
            exists|target: Option<ElementId>, misfit: bool|
                #![trigger assertion_findings(old(self).project, old(self).project.verify_assertions@[index as int],
                target, misfit)]
                assertion_results(old(self).project, old(self).project.verify_assertions@[index as int], target, misfit)
                && rule_findings(final(self).diagnostics@) == rule_findings(old(self).diagnostics@) + assertion_findings(
                old(self).project, old(self).project.verify_assertions@[index as int], target, misfit),
    {
        let project = self.project;
        let assertion = &project.verify_assertions[index];
        proof { assert(project.assertion_ok(project.verify_assertions@[index as int])); }
        let verification = self.verification_owner(assertion);
        if verification.is_none() {
            self.push(assertion.span, Code::VerificationPlacement,
                owned("a requirement verification must be inside a verification-case objective"));
            proof {
                assert(same_finding(self.diagnostics@[self.diagnostics@.len() - 1], assertion.span,
                    Code::VerificationPlacement));
                lemma_rule_findings_push(old(self).diagnostics@, self.diagnostics@.last());
                assert(old(self).diagnostics@.push(self.diagnostics@.last()) =~= self.diagnostics@);
            }
        }
        let ghost after_placement = self.diagnostics@;
        let ghost placement = if placed_in_objective(project, *assertion) {
            Seq::<(Span, Code)>::empty()
        } else {
            seq![(assertion.span, Code::VerificationPlacement)]
        };
        proof {
            assert(rule_findings(after_placement) =~= rule_findings(old(self).diagnostics@) + placement);
        }
        let ghost mut resolved: Option<ElementId> = None;
        let ghost mut misfit = false;
        let (requirement, span) = match assertion.inline_requirement {
            Some(inline) => (Some(inline), assertion.span),
            None => match &assertion.target {
                Some(reference) => {
                    let target = self.resolve_profile_reference(reference, Some(assertion.owner), assertion.package,
                        "verified requirement target");
                    let ghost after_resolution = self.diagnostics@;
                    proof {
                        resolved = target;
                        lemma_rule_findings_unchanged(after_placement, after_resolution);
                    }
                    let target = match target {
                        Some(target) => {
                            let kind = project.elements[target].kind;
                            if kind.is_requirement_usage() {
                                Some(target)
                            } else {
                                let message = quoted_message("verification target ", &reference.text, " resolves to ");
                                let message = message.concat(kind_name(kind));
                                self.push(reference.span, Code::VerificationTargetKind,
                                    message.concat(", not a requirement usage"));
                                proof {
                                    assert(same_finding(self.diagnostics@[self.diagnostics@.len() - 1], reference.span,
                                        Code::VerificationTargetKind));
                                    lemma_rule_findings_push(after_resolution, self.diagnostics@.last());
                                    assert(after_resolution.push(self.diagnostics@.last()) =~= self.diagnostics@);
                                }
                                None
                            }
                        }
                        None => None,
                    };
                    (target, reference.span)
                }
                None => (None, assertion.span),
            },
        };
        let ghost after_target = self.diagnostics@;
        proof {
            assert(requirement == verified_requirement(project, *assertion, resolved));
            let a = *assertion;
            if a.inline_requirement is None && a.target is Some && resolved is Some && !kind_is_requirement_usage(
                project.elements@[resolved.unwrap() as int].kind) {
                assert(rule_findings(after_target) =~= rule_findings(old(self).diagnostics@) + placement + seq![
                    (a.target.unwrap().span, Code::VerificationTargetKind)]);
            } else {
                assert(rule_findings(after_target) =~= rule_findings(old(self).diagnostics@) + placement);
            }
        }
        if let (Some(verification), Some(requirement)) = (verification, requirement) {
            self.validate_verification_subject_conformance(verification, requirement, span);
            proof {
                misfit = choose|m: bool| conformance_fits(project, verification, requirement, m) && #[trigger]
                    rule_findings(self.diagnostics@) == rule_findings(after_target) + if m {
                    seq![(span, Code::VerificationSubjectConformance)]
                } else {
                    Seq::<(Span, Code)>::empty()
                };
            }
        }
        proof {
            assert(assertion_results(project, *assertion, resolved, misfit));
            assert(rule_findings(self.diagnostics@) =~= rule_findings(old(self).diagnostics@) + assertion_findings(
                project, *assertion, resolved, misfit));
        }
        proof {
            if !placed_in_objective(project, project.verify_assertions@[index as int]) {
                lemma_extends_keeps_finding(after_placement, self.diagnostics@, assertion.span, Code::VerificationPlacement);
            }
            if let Some(r) = project.verify_assertions@[index as int].target {
                if assertion.inline_requirement is None {
                    if resolution_reported(after_target) {
                        lemma_resolution_reported_kept(after_target, self.diagnostics@);
                    }
                    lemma_kind_checked_kept(project, after_target, self.diagnostics@, r, Some(assertion.owner),
                        Code::VerificationTargetKind, satisfaction_target_ok());
                }
            }
        }
    }

    /// The verification's subject type must be (a specialization of) the
    /// verified requirement's subject type.
    pub(crate) fn validate_verification_subject_conformance(&mut self, verification: ElementId, requirement: ElementId, span: Span)
        requires
            old(self).inv(),
            verification < old(self).n(),
            requirement < old(self).n(),
            old(self).project.span_ok(span),
        ensures
            steps(old(self), final(self)),
            adds_within(old(self).diagnostics@, final(self).diagnostics@, resolution_codes().insert(
                Code::VerificationSubjectConformance)),
            (forall|j: int| 0 <= j < old(self).project.requirements@.len() ==> old(self).project.requirements@[j].element
                != requirement) ==> final(self).diagnostics@ == old(self).diagnostics@,
            forall|z: usize| #[trigger] requirement_root_subject(old(self).project, requirement, z) ==> {
                &&& verification_root(old(self).project, verification, None) ==> has_finding(final(self).diagnostics@,
                    span, Code::VerificationSubjectConformance)
                &&& forall|x: usize| #[trigger] verification_root(old(self).project, verification, Some(x)) ==> {
                    &&& x == z ==> final(self).diagnostics@ == old(self).diagnostics@
                    &&& x != z && old(self).project.elements@[x as int].specializations@.len() == 0 ==> has_finding(
                        final(self).diagnostics@, span, Code::VerificationSubjectConformance)
                }
            },
            exists|misfit: bool| conformance_fits(old(self).project, verification, requirement, misfit) && #[trigger]
                rule_findings(final(self).diagnostics@) == rule_findings(old(self).diagnostics@) + if misfit {
                seq![(span, Code::VerificationSubjectConformance)]
            } else {
                Seq::<(Span, Code)>::empty()
            },
    {
        let expected_type = match self.effective_requirement_subject_type(requirement) {
            Some(t) => t,
            None => {
                proof {
                    assert(conformance_fits(self.project, verification, requirement, false));
                    assert(rule_findings(self.diagnostics@) =~= rule_findings(old(self).diagnostics@)
                        + Seq::<(Span, Code)>::empty());
                }
                return;
            }
        };
        let actual_type = match self.effective_verification_subject_type_outcome(verification) {
            SubjectTypeOutcome::Resolved(t) => t,
            SubjectTypeOutcome::Invalid => {
                proof {
                    assert(conformance_fits(self.project, verification, requirement, false));
                    assert(rule_findings(self.diagnostics@) =~= rule_findings(old(self).diagnostics@)
                        + Seq::<(Span, Code)>::empty());
                }
                return;
            }
            SubjectTypeOutcome::Missing => {
                self.push(span, Code::VerificationSubjectConformance,
                    owned("verification case has no resolvable subject type for the verified requirement"));
                proof {
                    assert(same_finding(self.diagnostics@[self.diagnostics@.len() - 1], span,
                        Code::VerificationSubjectConformance));
                    lemma_rule_findings_push(old(self).diagnostics@, self.diagnostics@.last());
                    assert(old(self).diagnostics@.push(self.diagnostics@.last()) =~= self.diagnostics@);
                    assert(conformance_fits(self.project, verification, requirement, true));
                }
                return;
            }
        };
        let ghost before_conformance = self.diagnostics@;
        let c = self.conformance(actual_type, expected_type);
        let ghost after_conformance = self.diagnostics@;
        proof { lemma_rule_findings_unchanged(before_conformance, after_conformance); }
        match c {
            Conformance::Conforms | Conformance::Indeterminate => {
                proof {
                    assert(conformance_fits(self.project, verification, requirement, false));
                    assert(rule_findings(self.diagnostics@) =~= rule_findings(old(self).diagnostics@)
                        + Seq::<(Span, Code)>::empty());
                }
            }
            Conformance::DoesNotConform => {
                self.push(span, Code::VerificationSubjectConformance,
                    owned("verification case subject does not conform to the verified requirement subject"));
                proof {
                    assert(same_finding(self.diagnostics@[self.diagnostics@.len() - 1], span,
                        Code::VerificationSubjectConformance));
                    lemma_rule_findings_push(after_conformance, self.diagnostics@.last());
                    assert(after_conformance.push(self.diagnostics@.last()) =~= self.diagnostics@);
                    assert(conformance_fits(self.project, verification, requirement, true));
                }
            }
        }
    }
}


/// The order in which semantic findings are reported: by source path, then
/// start byte, then code, then message.
pub open spec fn finding_before(p: &Project, x: SemanticDiagnostic, y: SemanticDiagnostic) -> bool {
    let px = p.sources@[x.span.source as int].path@;
    let py = p.sources@[y.span.source as int].path@;
    let cx = code_text(x.code);
    let cy = code_text(y.code);
    ||| text_less(px, py)
    ||| px == py && x.span.start.byte < y.span.start.byte
    ||| px == py && x.span.start.byte == y.span.start.byte && text_less(cx, cy)
    ||| px == py && x.span.start.byte == y.span.start.byte && cx == cy && text_less(x.message@, y.message@)
}

/// No finding comes after a later one.
pub open spec fn findings_sorted(p: &Project, ds: Seq<SemanticDiagnostic>) -> bool {
    forall|i: int, j: int| 0 <= i < j < ds.len() ==> !finding_before(p, #[trigger] ds[j], #[trigger] ds[i])
}

pub proof fn lemma_finding_before_transitive(p: &Project, x: SemanticDiagnostic, y: SemanticDiagnostic, z: SemanticDiagnostic)
    requires
        finding_before(p, x, y),
        finding_before(p, y, z),
    ensures
        finding_before(p, x, z),
{
    let px = p.sources@[x.span.source as int].path@;
    let py = p.sources@[y.span.source as int].path@;
    let pz = p.sources@[z.span.source as int].path@;
    if text_less(px, py) && text_less(py, pz) {
        lemma_text_less_transitive(px, py, pz);
    }
    if text_less(code_text(x.code), code_text(y.code)) && text_less(code_text(y.code), code_text(z.code)) {
        lemma_text_less_transitive(code_text(x.code), code_text(y.code), code_text(z.code));
    }
    if text_less(x.message@, y.message@) && text_less(y.message@, z.message@) {
        lemma_text_less_transitive(x.message@, y.message@, z.message@);
    }
}

pub proof fn lemma_finding_before_irreflexive(p: &Project, x: SemanticDiagnostic)
    ensures
        !finding_before(p, x, x),
{
    lemma_text_less_irreflexive(p.sources@[x.span.source as int].path@);
    lemma_text_less_irreflexive(code_text(x.code));
    lemma_text_less_irreflexive(x.message@);
}

/// Findings with the same elements hold the same findings.
pub proof fn lemma_permutation_keeps_finding(a: Seq<SemanticDiagnostic>, b: Seq<SemanticDiagnostic>, span: Span, code: Code)
    requires
        a.to_multiset() == b.to_multiset(),
        has_finding(a, span, code),
    ensures
        has_finding(b, span, code),
{
    broadcast use vstd::seq_lib::group_to_multiset_ensures;
    let j = choose|j: int| 0 <= j < a.len() && same_finding(#[trigger] a[j], span, code);
    let x = a[j];
    assert(a.contains(x));
    assert(a.to_multiset().count(x) > 0);
    assert(b.to_multiset().count(x) > 0);
    assert(b.contains(x));
    let k = choose|k: int| 0 <= k < b.len() && b[k] == x;
    assert(same_finding(b[k], span, code));
}

/// Whether finding `x` is reported before finding `y`.
pub fn finding_is_before(p: &Project, x: &SemanticDiagnostic, y: &SemanticDiagnostic) -> (r: bool)
    requires
        p.span_ok(x.span),
        p.span_ok(y.span),
    ensures
        r == finding_before(p, *x, *y),
{
    let px = p.sources[x.span.source].path.as_str();
    let py = p.sources[y.span.source].path.as_str();
    if text_before(px, py) {
        return true;
    }
    if !same_text(px, py) {
        return false;
    }
    if x.span.start.byte != y.span.start.byte {
        return x.span.start.byte < y.span.start.byte;
    }
    let cx = x.code.as_str();
    let cy = y.code.as_str();
    if text_before(cx, cy) {
        return true;
    }
    if !same_text(cx, cy) {
        return false;
    }
    text_before(x.message.as_str(), y.message.as_str())
}

/// Neither finding comes before the other.
pub open spec fn same_rank(p: &Project, x: SemanticDiagnostic, y: SemanticDiagnostic) -> bool {
    !finding_before(p, x, y) && !finding_before(p, y, x)
}

/// Findings of the same rank come before the same findings.
pub proof fn lemma_same_rank_before(p: &Project, x: SemanticDiagnostic, y: SemanticDiagnostic, z: SemanticDiagnostic)
    requires
        same_rank(p, x, y),
    ensures
        finding_before(p, x, z) == finding_before(p, y, z),
{
    let px = p.sources@[x.span.source as int].path@;
    let py = p.sources@[y.span.source as int].path@;
    if px != py {
        lemma_text_less_total(px, py);
    }
    if code_text(x.code) != code_text(y.code) {
        lemma_text_less_total(code_text(x.code), code_text(y.code));
    }
    if x.message@ != y.message@ {
        lemma_text_less_total(x.message@, y.message@);
    }
}

/// `r` holds the findings of `orig` rearranged by `idx`: finding `k` of `r`
/// is finding `idx[k]` of `orig`, no index comes twice, and findings of the
/// same rank keep the order they had.
pub open spec fn stable_arrangement(p: &Project, orig: Seq<SemanticDiagnostic>, r: Seq<SemanticDiagnostic>, idx: Seq<int>) -> bool {
    &&& idx.len() == r.len()
    &&& forall|k: int| 0 <= k < r.len() ==> 0 <= #[trigger] idx[k] < orig.len() && r[k] == orig[idx[k]]
    &&& forall|a: int, b: int| 0 <= a < b < r.len() ==> #[trigger] idx[a] != #[trigger] idx[b]
    &&& forall|a: int, b: int| 0 <= a < b < r.len() && same_rank(p, #[trigger] r[a], #[trigger] r[b]) ==> idx[a] < idx[b]
}

/// Sorts findings into report order, keeping findings of equal rank in the
/// order they came.
#[verifier::spinoff_prover]
pub fn sort_findings(p: &Project, findings: Vec<SemanticDiagnostic>) -> (r: Vec<SemanticDiagnostic>)
    requires
        spans_ok(p, findings@),
    ensures
        r@.to_multiset() == findings@.to_multiset(),
        findings_sorted(p, r@),
        spans_ok(p, r@),
        r@.len() == findings@.len(),
        exists|idx: Seq<int>| stable_arrangement(p, findings@, r@, idx),
{
    broadcast use vstd::seq_lib::group_to_multiset_ensures;
    broadcast use vstd::multiset::group_multiset_axioms;
    let ghost original = findings@;
    let mut rest = findings;
    let mut sorted: Vec<SemanticDiagnostic> = Vec::new();
    let ghost mut idx: Seq<int> = Seq::empty();
    assert(sorted@.to_multiset() =~= vstd::multiset::Multiset::empty());
    while rest.len() > 0
        invariant
            sorted@.to_multiset().add(rest@.to_multiset()) == original.to_multiset(),
            findings_sorted(p, sorted@),
            spans_ok(p, sorted@),
            spans_ok(p, rest@),
            sorted@.len() + rest@.len() == original.len(),
            rest@ == original.skip(sorted@.len() as int),
            stable_arrangement(p, original, sorted@, idx),
            forall|k: int| 0 <= k < idx.len() ==> #[trigger] idx[k] < sorted@.len(),
        decreases rest@.len(),
    {
        let ghost rest_before = rest@;
        let ghost m = sorted@.len() as int;
        let d = rest.remove(0);
        assert(p.span_ok(d.span)) by { assert(rest_before[0] == d); }
        assert(spans_ok(p, rest@)) by {
            assert forall|j: int| 0 <= j < rest@.len() implies #[trigger] p.span_ok(rest@[j].span) by {
                assert(rest@[j] == rest_before[j + 1]);
            }
        }
        let mut pos: usize = 0;
        while pos < sorted.len()
            invariant
                pos <= sorted@.len(),
                spans_ok(p, sorted@),
                p.span_ok(d.span),
                forall|k: int| 0 <= k < pos ==> !finding_before(p, d, #[trigger] sorted@[k]),
            ensures
                pos <= sorted@.len(),
                forall|k: int| 0 <= k < pos ==> !finding_before(p, d, #[trigger] sorted@[k]),
                pos < sorted@.len() ==> finding_before(p, d, sorted@[pos as int]),
            decreases sorted@.len() - pos,
        {
            if finding_is_before(p, &d, &sorted[pos]) {
                break;
            }
            pos = pos + 1;
        }
        let ghost s = sorted@;
        proof {
            assert(pos < s.len() ==> finding_before(p, d, s[pos as int]));
        }
        sorted.insert(pos, d);
        proof {
            assert(sorted@ == s.insert(pos as int, d));
            assert forall|i: int, j: int| 0 <= i < j < sorted@.len() implies !finding_before(p,
                #[trigger] sorted@[j], #[trigger] sorted@[i]) by {
                if i == pos {
                    // sorted@[j] == s[j - 1], which does not come before s[pos]
                    if finding_before(p, sorted@[j], d) {
                        lemma_finding_before_transitive(p, sorted@[j], d, s[pos as int]);
                        if j - 1 == pos {
                            lemma_finding_before_irreflexive(p, s[pos as int]);
                        } else {
                            assert(sorted@[j] == s[j - 1]);
                        }
                    }
                } else if j == pos {
                    assert(sorted@[i] == s[i]);
                } else {
                    let si = if i < pos { i } else { i - 1 };
                    let sj = if j < pos { j } else { j - 1 };
                    assert(sorted@[i] == s[si]);
                    assert(sorted@[j] == s[sj]);
                }
            }
            assert forall|j: int| 0 <= j < sorted@.len() implies #[trigger] p.span_ok(sorted@[j].span) by {
                if j < pos {
                    assert(sorted@[j] == s[j]);
                } else if j > pos {
                    assert(sorted@[j] == s[j - 1]);
                }
            }
            assert(rest@ == rest_before.remove(0));
            assert(rest_before.contains(d)) by { assert(rest_before[0] == d); }
            vstd::seq_lib::to_multiset_contains(rest_before, d);
            vstd::seq_lib::to_multiset_remove(rest_before, 0);
            vstd::seq_lib::to_multiset_insert(s, pos as int, d);
            assert(rest_before.to_multiset().count(d) > 0);
            assert(rest@.to_multiset() == rest_before.to_multiset().remove(d));
            assert(sorted@.to_multiset() == s.to_multiset().insert(d));
            assert(sorted@.to_multiset().add(rest@.to_multiset()) =~= s.to_multiset().add(rest_before.to_multiset()));
            let old_idx = idx;
            assert(d == original[m]) by { assert(rest_before[0] == original[m]); }
            idx = old_idx.insert(pos as int, m);
            assert(rest@ =~= original.skip(sorted@.len() as int));
            assert forall|k: int| 0 <= k < sorted@.len() implies 0 <= #[trigger] idx[k] < original.len()
                && sorted@[k] == original[idx[k]] by {
                if k < pos {
                    assert(idx[k] == old_idx[k] && sorted@[k] == s[k]);
                } else if k > pos {
                    assert(idx[k] == old_idx[k - 1] && sorted@[k] == s[k - 1]);
                }
            }
            assert forall|k: int| 0 <= k < idx.len() implies #[trigger] idx[k] < sorted@.len() by {
                if k < pos {
                    assert(idx[k] == old_idx[k]);
                } else if k > pos {
                    assert(idx[k] == old_idx[k - 1]);
                }
            }
            assert forall|a: int, b: int| 0 <= a < b < sorted@.len() implies #[trigger] idx[a] != #[trigger] idx[b] by {
                let oa = if a < pos { a } else { a - 1 };
                let ob = if b < pos { b } else { b - 1 };
                if a != pos && b != pos {
                    assert(idx[a] == old_idx[oa] && idx[b] == old_idx[ob]);
                } else if a == pos {
                    assert(idx[b] == old_idx[ob]);
                } else {
                    assert(idx[a] == old_idx[oa]);
                }
            }
            assert forall|a: int, b: int| 0 <= a < b < sorted@.len() && same_rank(p, #[trigger] sorted@[a],
                #[trigger] sorted@[b]) implies idx[a] < idx[b] by {
                let oa = if a < pos { a } else { a - 1 };
                let ob = if b < pos { b } else { b - 1 };
                if a != pos && b != pos {
                    assert(idx[a] == old_idx[oa] && idx[b] == old_idx[ob]);
                    assert(sorted@[a] == s[oa] && sorted@[b] == s[ob]);
                } else if b == pos {
                    assert(idx[a] == old_idx[oa]);
                } else {
                    // the new finding comes before s[pos], so no later finding shares its rank
                    assert(sorted@[b] == s[ob]);
                    lemma_same_rank_before(p, d, s[ob], s[pos as int]);
                    if ob == pos {
                        lemma_finding_before_irreflexive(p, s[pos as int]);
                    }
                    assert(false);
                }
            }
        }
    }
    assert(rest@.to_multiset() =~= vstd::multiset::Multiset::empty());
    assert(sorted@.to_multiset().add(rest@.to_multiset()) =~= sorted@.to_multiset());
    sorted
}

/// Finding `j` of `ds` reports profile issue `issue`: its span, code and
/// message.
pub open spec fn reports_issue_at(ds: Seq<SemanticDiagnostic>, issue: ProfileIssue, j: int) -> bool {
    &&& ds[j].span == issue.span
    &&& ds[j].code == issue.code
    &&& ds[j].message@ == issue.message@
}

/// Some finding of `ds` reports profile issue `issue` with its message.
pub open spec fn reports_issue(ds: Seq<SemanticDiagnostic>, issue: ProfileIssue) -> bool {
    exists|j: int| 0 <= j < ds.len() && #[trigger] reports_issue_at(ds, issue, j)
}

impl<'a> RequirementsValidator<'a> {
    /// Runs the whole profile: the lowering's own findings, then the import,
    /// requirement, satisfaction and verification rules; returns every
    /// finding in report order.
    pub fn validate(self) -> (ds: Vec<SemanticDiagnostic>)
        requires
            self.inv(),
        ensures
            spans_ok(self.project, ds@),
            findings_sorted(self.project, ds@),
            forall|j: int| 0 <= j < self.diagnostics@.len() ==> has_finding(ds@, (#[trigger] self.diagnostics@[j]).span,
                self.diagnostics@[j].code),
            forall|i: int| 0 <= i < self.project.profile_issues@.len() ==> has_finding(ds@,
                (#[trigger] self.project.profile_issues@[i]).span, self.project.profile_issues@[i].code),
            forall|i: int| 0 <= i < self.project.profile_issues@.len() ==> reports_issue(ds@,
                #[trigger] self.project.profile_issues@[i]),
            resolutions_unique(ds@),
            forall|i: int| 0 <= i < self.project.imports@.len() ==> (import_check(#[trigger] self.project.imports@[i])
                matches Some(code) ==> has_finding(ds@, self.project.imports@[i].span, code)),
            forall|i: int| 0 <= i < self.project.verify_assertions@.len() && !placed_in_objective(self.project,
                #[trigger] self.project.verify_assertions@[i]) ==> has_finding(ds@,
                self.project.verify_assertions@[i].span, Code::VerificationPlacement),
            forall|j: int| 0 <= j < self.project.requirements@.len() ==> requirement_rules_hold(self.project, ds@,
                #[trigger] self.project.requirements@[j]),
            forall|j: int| 0 <= j < self.project.verifications@.len() ==> verification_rules_hold(self.project, ds@,
                #[trigger] self.project.verifications@[j]),
            forall|j: int| 0 <= j < self.project.satisfactions@.len() ==> satisfaction_checked(self.project, ds@,
                #[trigger] self.project.satisfactions@[j]),
            forall|j: int| 0 <= j < self.project.verify_assertions@.len() ==> assertion_checked(self.project, ds@,
                #[trigger] self.project.verify_assertions@[j]),
    {
        let ghost initial = self.diagnostics@;
        let mut validator = self;
        let project = validator.project;
        let mut k: usize = 0;
        while k < project.profile_issues.len()
            invariant
                validator.inv(),
                validator.project == project,
                extends(initial, validator.diagnostics@),
                k <= project.profile_issues@.len(),
                forall|i: int| 0 <= i < k ==> has_finding(validator.diagnostics@,
                    (#[trigger] project.profile_issues@[i]).span, project.profile_issues@[i].code),
                forall|i: int| 0 <= i < k ==> reports_issue(validator.diagnostics@, #[trigger] project.profile_issues@[i]),
            decreases project.profile_issues@.len() - k,
        {
            let issue = &project.profile_issues[k];
            assert(project.span_ok(project.profile_issues@[k as int].span));
            let ghost before = validator.diagnostics@;
            validator.push(issue.span, issue.code, issue.message.clone());
            proof {
                assert(validator.diagnostics@.last().message@ == issue.message@);
                assert forall|i: int| 0 <= i < k + 1 implies reports_issue(validator.diagnostics@,
                    #[trigger] project.profile_issues@[i]) by {
                    if i < k {
                        let j = choose|j: int| 0 <= j < before.len() && reports_issue_at(before, project.profile_issues@[i], j);
                        assert(validator.diagnostics@[j] == before[j]);
                        assert(reports_issue_at(validator.diagnostics@, project.profile_issues@[i], j));
                    } else {
                        assert(reports_issue_at(validator.diagnostics@, project.profile_issues@[i],
                            validator.diagnostics@.len() - 1));
                    }
                }
                assert(same_finding(validator.diagnostics@[validator.diagnostics@.len() - 1], issue.span, issue.code));
                assert forall|i: int| 0 <= i < k + 1 implies has_finding(validator.diagnostics@,
                    (#[trigger] project.profile_issues@[i]).span, project.profile_issues@[i].code) by {
                    if i < k {
                        lemma_extends_keeps_finding(before, validator.diagnostics@, project.profile_issues@[i].span,
                            project.profile_issues@[i].code);
                    }
                }
            }
            k = k + 1;
        }
        let ghost after_issues = validator.diagnostics@;
        validator.validate_imports();
        let ghost after_imports = validator.diagnostics@;
        validator.validate_requirement_structure();
        let ghost after_requirements = validator.diagnostics@;
        validator.validate_satisfactions();
        let ghost before_verifications = validator.diagnostics@;
        validator.validate_verifications();
        let ghost unsorted = validator.diagnostics@;
        proof { assert(resolutions_unique(unsorted)); }
        let sorted = sort_findings(project, validator.diagnostics);
        proof {
            let idx = choose|idx: Seq<int>| stable_arrangement(project, unsorted, sorted@, idx);
            assert forall|a: int, b: int| 0 <= a < b < sorted@.len() && #[trigger] is_resolution_code(sorted@[a].code)
                implies !same_finding(#[trigger] sorted@[b], sorted@[a].span, sorted@[a].code) by {
                let (x, y) = if idx[a] < idx[b] { (idx[a], idx[b]) } else { (idx[b], idx[a]) };
                assert(idx[a] != idx[b]);
                assert(sorted@[a] == unsorted[idx[a]]);
                assert(sorted@[b] == unsorted[idx[b]]);
                if same_finding(sorted@[b], sorted@[a].span, sorted@[a].code) {
                    assert(is_resolution_code(unsorted[x].code));
                    assert(same_finding(unsorted[y], unsorted[x].span, unsorted[x].code));
                }
            }
            assert forall|i: int| 0 <= i < project.profile_issues@.len() implies reports_issue(sorted@,
                #[trigger] project.profile_issues@[i]) by {
                let j = choose|j: int| 0 <= j < after_issues.len() && reports_issue_at(after_issues,
                    project.profile_issues@[i], j);
                assert(unsorted[j] == after_issues[j]);
                assert(unsorted.to_multiset().count(unsorted[j]) > 0) by {
                    broadcast use vstd::seq_lib::group_to_multiset_ensures;
                    assert(unsorted.contains(unsorted[j]));
                }
                assert(sorted@.contains(unsorted[j])) by {
                    broadcast use vstd::seq_lib::group_to_multiset_ensures;
                }
                let w = choose|w: int| 0 <= w < sorted@.len() && sorted@[w] == unsorted[j];
                assert(reports_issue_at(sorted@, project.profile_issues@[i], w));
            }
            assert forall|j: int| 0 <= j < initial.len() implies has_finding(sorted@, (#[trigger] initial[j]).span,
                initial[j].code) by {
                assert(same_finding(unsorted[j], initial[j].span, initial[j].code));
                lemma_permutation_keeps_finding(unsorted, sorted@, initial[j].span, initial[j].code);
            }
            assert forall|i: int| 0 <= i < project.profile_issues@.len() implies has_finding(sorted@,
                (#[trigger] project.profile_issues@[i]).span, project.profile_issues@[i].code) by {
                lemma_extends_keeps_finding(after_issues, unsorted, project.profile_issues@[i].span,
                    project.profile_issues@[i].code);
                lemma_permutation_keeps_finding(unsorted, sorted@, project.profile_issues@[i].span,
                    project.profile_issues@[i].code);
            }
            assert forall|i: int| 0 <= i < project.imports@.len() implies (import_check(#[trigger] project.imports@[i])
                matches Some(code) ==> has_finding(sorted@, project.imports@[i].span, code)) by {
                if let Some(code) = import_check(project.imports@[i]) {
                    lemma_extends_keeps_finding(after_imports, unsorted, project.imports@[i].span, code);
                    lemma_permutation_keeps_finding(unsorted, sorted@, project.imports@[i].span, code);
                }
            }
            assert forall|i: int| 0 <= i < project.verify_assertions@.len() && !placed_in_objective(project,
                #[trigger] project.verify_assertions@[i]) implies has_finding(sorted@, project.verify_assertions@[i].span,
                Code::VerificationPlacement) by {
                lemma_permutation_keeps_finding(unsorted, sorted@, project.verify_assertions@[i].span,
                    Code::VerificationPlacement);
            }
            lemma_rules_permuted(project, unsorted, sorted@);
            assert forall|j: int| 0 <= j < project.satisfactions@.len() implies satisfaction_checked(project, sorted@,
                #[trigger] project.satisfactions@[j]) by {
                lemma_satisfaction_checked_kept(project, before_verifications, unsorted, project.satisfactions@[j]);
                lemma_satisfaction_checked_kept(project, unsorted, sorted@, project.satisfactions@[j]);
            }
            assert forall|j: int| 0 <= j < project.verify_assertions@.len() implies assertion_checked(project, sorted@,
                #[trigger] project.verify_assertions@[j]) by {
                lemma_assertion_checked_kept(project, unsorted, sorted@, project.verify_assertions@[j]);
            }
            assert forall|j: int| 0 <= j < project.requirements@.len() implies requirement_rules_hold(project, sorted@,
                #[trigger] project.requirements@[j]) by {
                lemma_rules_kept(project, after_requirements, unsorted, project.requirements@[j]);
            }
        }
        sorted
    }
}

/// Runs the requirements structure profile on a project.
pub fn validate_project(project: &Project) -> (ds: Vec<SemanticDiagnostic>)
    requires
        project.wf(),
    ensures
        spans_ok(project, ds@),
        findings_sorted(project, ds@),
        forall|i: int| 0 <= i < project.profile_issues@.len() ==> has_finding(ds@,
            (#[trigger] project.profile_issues@[i]).span, project.profile_issues@[i].code),
        forall|i: int| 0 <= i < project.profile_issues@.len() ==> reports_issue(ds@,
            #[trigger] project.profile_issues@[i]),
        resolutions_unique(ds@),
        forall|i: int| 0 <= i < project.imports@.len() ==> (import_check(#[trigger] project.imports@[i])
            matches Some(code) ==> has_finding(ds@, project.imports@[i].span, code)),
        forall|i: int| 0 <= i < project.verify_assertions@.len() && !placed_in_objective(project,
            #[trigger] project.verify_assertions@[i]) ==> has_finding(ds@, project.verify_assertions@[i].span,
            Code::VerificationPlacement),
        forall|j: int| 0 <= j < project.requirements@.len() ==> requirement_rules_hold(project, ds@,
            #[trigger] project.requirements@[j]),
        forall|j: int| 0 <= j < project.verifications@.len() ==> verification_rules_hold(project, ds@,
            #[trigger] project.verifications@[j]),
        forall|j: int| 0 <= j < project.satisfactions@.len() ==> satisfaction_checked(project, ds@,
            #[trigger] project.satisfactions@[j]),
        forall|j: int| 0 <= j < project.verify_assertions@.len() ==> assertion_checked(project, ds@,
            #[trigger] project.verify_assertions@[j]),
{
    RequirementsValidator::new(project).validate()
}
} // verus!
