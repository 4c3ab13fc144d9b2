//! Growing a project while keeping it well formed: interning names, adding
//! sources, elements and records, and the frame facts that carry the
//! project's invariant across each step.

use vstd::prelude::*;
use crate::project::{
    is_resolution_code,
    kind_is_requirement_usage, Element, ElementId, Import, ProfileIssue, Project, Reference, Requirement,
    Satisfaction, Source, Verification, VerifyAssertion,
};
use crate::strings::same_text;

verus! {

/// `b` starts with `a`.
pub open spec fn extends_seq<A>(a: Seq<A>, b: Seq<A>) -> bool {
    a.len() <= b.len() && forall|k: int| 0 <= k < a.len() ==> #[trigger] b[k] == a[k]
}

/// `new` is `old` grown: the same sources, more names, elements, imports,
/// satisfactions, verify declarations and profile findings after the old
/// ones, and more requirement and verification records with the old ones
/// still about the same elements.
pub open spec fn grows(old: &Project, new: &Project) -> bool {
    &&& new.sources == old.sources
    &&& extends_seq(old.names@, new.names@)
    &&& extends_seq(old.elements@, new.elements@)
    &&& extends_seq(old.imports@, new.imports@)
    &&& extends_seq(old.satisfactions@, new.satisfactions@)
    &&& extends_seq(old.verify_assertions@, new.verify_assertions@)
    &&& extends_seq(old.profile_issues@, new.profile_issues@)
    &&& old.requirements@.len() <= new.requirements@.len()
    &&& forall|j: int| 0 <= j < old.requirements@.len() ==> (#[trigger] new.requirements@[j]).element
        == old.requirements@[j].element
    &&& old.verifications@.len() <= new.verifications@.len()
    &&& forall|j: int| 0 <= j < old.verifications@.len() ==> (#[trigger] new.verifications@[j]).element
        == old.verifications@[j].element
}

/// `new` differs from `old` at most in its name table.
pub open spec fn same_records(old: &Project, new: &Project) -> bool {
    &&& new.sources == old.sources
    &&& new.elements == old.elements
    &&& new.imports == old.imports
    &&& new.requirements == old.requirements
    &&& new.verifications == old.verifications
    &&& new.satisfactions == old.satisfactions
    &&& new.verify_assertions == old.verify_assertions
    &&& new.profile_issues == old.profile_issues
}

/// The names of `p` are distinct.
pub open spec fn names_distinct(names: Seq<String>) -> bool {
    forall|a: int, b: int| 0 <= a < b < names.len() ==> (#[trigger] names[a])@ != (#[trigger] names[b])@
}

impl Project {
    /// A project with nothing in it.
    pub fn empty() -> (p: Project)
        ensures
            p.wf(),
            p.sources@.len() == 0,
            p.names@.len() == 0,
            p.elements@.len() == 0,
            p.imports@.len() == 0,
            p.requirements@.len() == 0,
            p.verifications@.len() == 0,
            p.satisfactions@.len() == 0,
            p.verify_assertions@.len() == 0,
            p.profile_issues@.len() == 0,
    {
        Project {
            sources: Vec::new(),
            names: Vec::new(),
            elements: Vec::new(),
            imports: Vec::new(),
            requirements: Vec::new(),
            verifications: Vec::new(),
            satisfactions: Vec::new(),
            verify_assertions: Vec::new(),
            profile_issues: Vec::new(),
        }
    }
}

/// What holds in `old` about names and spans holds in `new` when `new` has
/// the old names and at least the old sources.
pub proof fn lemma_reference_kept(old: &Project, new: &Project, r: Reference)
    requires
        extends_seq(old.names@, new.names@),
        old.sources@.len() <= new.sources@.len(),
        old.reference_ok(r),
    ensures
        new.reference_ok(r),
{
    assert forall|j: int| 0 <= j < r.names@.len() implies new.name_is(#[trigger] r.names@[j], r.segments@[j]@) by {
        assert(old.name_is(r.names@[j], r.segments@[j]@));
        assert(new.names@[r.names@[j] as int] == old.names@[r.names@[j] as int]);
    }
}

pub proof fn lemma_references_kept(old: &Project, new: &Project, rs: Seq<Reference>)
    requires
        extends_seq(old.names@, new.names@),
        old.sources@.len() <= new.sources@.len(),
        old.references_ok(rs),
    ensures
        new.references_ok(rs),
{
    assert forall|j: int| 0 <= j < rs.len() implies new.reference_ok(#[trigger] rs[j]) by {
        lemma_reference_kept(old, new, rs[j]);
    }
}

pub proof fn lemma_opt_reference_kept(old: &Project, new: &Project, r: Option<Reference>)
    requires
        extends_seq(old.names@, new.names@),
        old.sources@.len() <= new.sources@.len(),
        old.opt_reference_ok(r),
    ensures
        new.opt_reference_ok(r),
{
    if let Some(x) = r {
        lemma_reference_kept(old, new, x);
    }
}

pub proof fn lemma_element_kept(old: &Project, new: &Project, e: Element, i: int)
    requires
        extends_seq(old.names@, new.names@),
        old.sources@.len() <= new.sources@.len(),
        old.element_valid(e, i),
    ensures
        new.element_valid(e, i),
{
    lemma_references_kept(old, new, e.declared_types@);
    lemma_references_kept(old, new, e.specializations@);
    lemma_opt_reference_kept(old, new, e.referenced_feature);
    if let (Some(k), Some(t)) = (e.name_id, e.name) {
        assert(new.names@[k as int] == old.names@[k as int]);
    }
    if let (Some(k), Some(t)) = (e.short_name_id, e.short_name) {
        assert(new.names@[k as int] == old.names@[k as int]);
    }
}

/// The project stays well formed when only its name table and sources grow.
pub proof fn lemma_wf_names_sources_grow(old: &Project, new: &Project)
    requires
        old.wf(),
        extends_seq(old.names@, new.names@),
        names_distinct(new.names@),
        extends_seq(old.sources@, new.sources@),
        forall|s: int| 0 <= s < new.sources@.len() ==> (#[trigger] new.sources@[s]).id == s,
        new.elements == old.elements,
        new.imports == old.imports,
        new.requirements == old.requirements,
        new.verifications == old.verifications,
        new.satisfactions == old.satisfactions,
        new.verify_assertions == old.verify_assertions,
        new.profile_issues == old.profile_issues,
    ensures
        new.wf(),
{
    assert forall|i: int| 0 <= i < new.elements@.len() implies #[trigger] new.element_ok(i) by {
        assert(old.element_ok(i));
        lemma_element_kept(old, new, new.elements@[i], i);
    }
    assert forall|i: int| 0 <= i < new.imports@.len() implies #[trigger] new.import_ok(new.imports@[i]) by {
        assert(old.import_ok(old.imports@[i]));
        lemma_reference_kept(old, new, new.imports@[i].reference);
    }
    assert forall|i: int| 0 <= i < new.satisfactions@.len() implies #[trigger] new.satisfaction_ok(
        new.satisfactions@[i]) by {
        assert(old.satisfaction_ok(old.satisfactions@[i]));
        lemma_opt_reference_kept(old, new, new.satisfactions@[i].requirement);
        lemma_opt_reference_kept(old, new, new.satisfactions@[i].subject);
    }
    assert forall|i: int| 0 <= i < new.verify_assertions@.len() implies #[trigger] new.assertion_ok(
        new.verify_assertions@[i]) by {
        assert(old.assertion_ok(old.verify_assertions@[i]));
        lemma_opt_reference_kept(old, new, new.verify_assertions@[i].target);
    }
    assert forall|i: int| 0 <= i < new.requirements@.len() implies #[trigger] new.requirement_ok(
        new.requirements@[i]) by {
        assert(old.requirement_ok(old.requirements@[i]));
    }
    assert forall|i: int| 0 <= i < new.verifications@.len() implies #[trigger] new.verification_ok(
        new.verifications@[i]) by {
        assert(old.verification_ok(old.verifications@[i]));
    }
    assert forall|i: int| 0 <= i < new.profile_issues@.len() implies #[trigger] new.span_ok(
        new.profile_issues@[i].span) by {
        assert(old.span_ok(old.profile_issues@[i].span));
    }
}

/// The index of `text` in the name table, adding it when it is new.
pub(crate) fn intern_name(p: &mut Project, text: &String) -> (k: usize)
    requires
        old(p).wf(),
    ensures
        final(p).wf(),
        grows(old(p), final(p)),
        same_records(old(p), final(p)),
        final(p).name_is(k, text@),
{
    let mut k: usize = 0;
    while k < p.names.len()
        invariant
            p.wf(),
            k <= p.names@.len(),
            forall|j: int| 0 <= j < k ==> (#[trigger] p.names@[j])@ != text@,
        decreases p.names@.len() - k,
    {
        if same_text(p.names[k].as_str(), text.as_str()) {
            return k;
        }
        k = k + 1;
    }
    let ghost before = *p;
    p.names.push(text.clone());
    proof {
        assert(names_distinct(p.names@)) by {
            assert forall|a: int, b: int| 0 <= a < b < p.names@.len() implies (#[trigger] p.names@[a])@
                != (#[trigger] p.names@[b])@ by {
                if b < before.names@.len() {
                    assert(before.names@[a] == p.names@[a] && before.names@[b] == p.names@[b]);
                } else {
                    assert(p.names@[a] == before.names@[a]);
                }
            }
        }
        lemma_wf_names_sources_grow(&before, p);
    }
    k
}

/// Adds a source with the next number.
pub(crate) fn add_source(p: &mut Project, path: String) -> (id: usize)
    requires
        old(p).wf(),
    ensures
        final(p).wf(),
        id == old(p).sources@.len(),
        final(p).sources@ == old(p).sources@.push(Source { id, path }),
        final(p).names == old(p).names,
        final(p).elements == old(p).elements,
        final(p).imports == old(p).imports,
        final(p).requirements == old(p).requirements,
        final(p).verifications == old(p).verifications,
        final(p).satisfactions == old(p).satisfactions,
        final(p).verify_assertions == old(p).verify_assertions,
        final(p).profile_issues == old(p).profile_issues,
{
    let ghost before = *p;
    let id = p.sources.len();
    p.sources.push(Source { id, path });
    proof {
        lemma_wf_names_sources_grow(&before, p);
    }
    id
}

/// Adds an element at the next index.
pub(crate) fn push_element(p: &mut Project, e: Element)
    requires
        old(p).wf(),
        old(p).element_valid(e, old(p).elements@.len() as int),
    ensures
        final(p).wf(),
        grows(old(p), final(p)),
        final(p).elements@ == old(p).elements@.push(e),
        final(p).requirements == old(p).requirements,
        final(p).verifications == old(p).verifications,
        final(p).names == old(p).names,
        final(p).satisfactions == old(p).satisfactions,
        final(p).verify_assertions == old(p).verify_assertions,
        final(p).imports == old(p).imports,
        final(p).profile_issues == old(p).profile_issues,
{
    let ghost before = *p;
    p.elements.push(e);
    proof {
        assert forall|i: int| 0 <= i < p.elements@.len() implies #[trigger] p.element_ok(i) by {
            if i < before.elements@.len() {
                assert(before.element_ok(i));
                assert(p.elements@[i] == before.elements@[i]);
            }
        }
        assert forall|i: int| 0 <= i < p.satisfactions@.len() implies #[trigger] p.satisfaction_ok(
            p.satisfactions@[i]) by {
            assert(before.satisfaction_ok(before.satisfactions@[i]));
            if let Some(x) = p.satisfactions@[i].inline_requirement {
                assert(p.elements@[x as int] == before.elements@[x as int]);
            }
        }
        assert forall|i: int| 0 <= i < p.verify_assertions@.len() implies #[trigger] p.assertion_ok(
            p.verify_assertions@[i]) by {
            assert(before.assertion_ok(before.verify_assertions@[i]));
            if let Some(x) = p.verify_assertions@[i].inline_requirement {
                assert(p.elements@[x as int] == before.elements@[x as int]);
            }
        }
        assert forall|i: int| 0 <= i < p.imports@.len() implies #[trigger] p.import_ok(p.imports@[i]) by {
            assert(before.import_ok(before.imports@[i]));
        }
        assert forall|i: int| 0 <= i < p.requirements@.len() implies #[trigger] p.requirement_ok(
            p.requirements@[i]) by {
            assert(before.requirement_ok(before.requirements@[i]));
        }
        assert forall|i: int| 0 <= i < p.verifications@.len() implies #[trigger] p.verification_ok(
            p.verifications@[i]) by {
            assert(before.verification_ok(before.verifications@[i]));
        }
        assert forall|i: int| 0 <= i < p.profile_issues@.len() implies #[trigger] p.span_ok(
            p.profile_issues@[i].span) by {
            assert(before.span_ok(before.profile_issues@[i].span));
        }
    }
}

/// Two projects with the same sources, names and elements judge every record
/// alike.
pub proof fn lemma_same_base(a: &Project, b: &Project)
    requires
        a.sources == b.sources,
        a.names == b.names,
        a.elements == b.elements,
    ensures
        forall|x: Import| #[trigger] b.import_ok(x) == a.import_ok(x),
        forall|x: Satisfaction| #[trigger] b.satisfaction_ok(x) == a.satisfaction_ok(x),
        forall|x: VerifyAssertion| #[trigger] b.assertion_ok(x) == a.assertion_ok(x),
        forall|x: Requirement| #[trigger] b.requirement_ok(x) == a.requirement_ok(x),
        forall|x: Verification| #[trigger] b.verification_ok(x) == a.verification_ok(x),
        forall|x: crate::project::Span| #[trigger] b.span_ok(x) == a.span_ok(x),
        forall|i: int| #[trigger] b.element_ok(i) == a.element_ok(i),
{
}

/// Adds a profile finding.
pub(crate) fn push_profile_issue(p: &mut Project, issue: ProfileIssue)
    requires
        old(p).wf(),
        old(p).span_ok(issue.span),
        !is_resolution_code(issue.code),
    ensures
        final(p).wf(),
        grows(old(p), final(p)),
        final(p).profile_issues@ == old(p).profile_issues@.push(issue),
        final(p).elements == old(p).elements,
        final(p).requirements == old(p).requirements,
        final(p).verifications == old(p).verifications,
        final(p).names == old(p).names,
        final(p).satisfactions == old(p).satisfactions,
        final(p).verify_assertions == old(p).verify_assertions,
        final(p).imports == old(p).imports,
{
    let ghost before = *p;
    p.profile_issues.push(issue);
    proof {
        lemma_same_base(&before, p);
        assert forall|i: int| 0 <= i < p.profile_issues@.len() implies #[trigger] p.span_ok(
            p.profile_issues@[i].span) by {
            if i < before.profile_issues@.len() {
                assert(p.profile_issues@[i] == before.profile_issues@[i]);
                assert(before.span_ok(before.profile_issues@[i].span));
            }
        }
        assert forall|i: int| 0 <= i < p.profile_issues@.len() implies !is_resolution_code(
            (#[trigger] p.profile_issues@[i]).code) by {
            if i < before.profile_issues@.len() {
                assert(p.profile_issues@[i] == before.profile_issues@[i]);
            }
        }
    }
}

/// Adds an import.
pub(crate) fn push_import(p: &mut Project, import: Import)
    requires
        old(p).wf(),
        old(p).import_ok(import),
    ensures
        final(p).wf(),
        grows(old(p), final(p)),
        final(p).imports@ == old(p).imports@.push(import),
        final(p).elements == old(p).elements,
        final(p).requirements == old(p).requirements,
        final(p).verifications == old(p).verifications,
{
    let ghost before = *p;
    p.imports.push(import);
    proof {
        lemma_same_base(&before, p);
        assert forall|i: int| 0 <= i < p.imports@.len() implies #[trigger] p.import_ok(p.imports@[i]) by {
            if i < before.imports@.len() {
                assert(p.imports@[i] == before.imports@[i]);
                assert(before.import_ok(before.imports@[i]));
            }
        }
    }
}

/// Adds a satisfaction.
pub(crate) fn push_satisfaction(p: &mut Project, satisfaction: Satisfaction)
    requires
        old(p).wf(),
        old(p).satisfaction_ok(satisfaction),
    ensures
        final(p).wf(),
        grows(old(p), final(p)),
        final(p).satisfactions@ == old(p).satisfactions@.push(satisfaction),
        final(p).elements == old(p).elements,
        final(p).requirements == old(p).requirements,
        final(p).verifications == old(p).verifications,
{
    let ghost before = *p;
    p.satisfactions.push(satisfaction);
    proof {
        lemma_same_base(&before, p);
        assert forall|i: int| 0 <= i < p.satisfactions@.len() implies #[trigger] p.satisfaction_ok(
            p.satisfactions@[i]) by {
            if i < before.satisfactions@.len() {
                assert(p.satisfactions@[i] == before.satisfactions@[i]);
                assert(before.satisfaction_ok(before.satisfactions@[i]));
            }
        }
    }
}

/// Adds a verify declaration.
pub(crate) fn push_verify_assertion(p: &mut Project, assertion: VerifyAssertion)
    requires
        old(p).wf(),
        old(p).assertion_ok(assertion),
    ensures
        final(p).wf(),
        grows(old(p), final(p)),
        final(p).verify_assertions@ == old(p).verify_assertions@.push(assertion),
        final(p).elements == old(p).elements,
        final(p).requirements == old(p).requirements,
        final(p).verifications == old(p).verifications,
{
    let ghost before = *p;
    p.verify_assertions.push(assertion);
    proof {
        lemma_same_base(&before, p);
        assert forall|i: int| 0 <= i < p.verify_assertions@.len() implies #[trigger] p.assertion_ok(
            p.verify_assertions@[i]) by {
            if i < before.verify_assertions@.len() {
                assert(p.verify_assertions@[i] == before.verify_assertions@[i]);
                assert(before.assertion_ok(before.verify_assertions@[i]));
            }
        }
    }
}

/// An empty requirement record for element `element`.
pub open spec fn fresh_requirement(r: Requirement, element: ElementId) -> bool {
    &&& r.element == element
    &&& r.subjects@.len() == 0 && r.actors@.len() == 0 && r.stakeholders@.len() == 0
    &&& r.assumptions@.len() == 0 && r.required_constraints@.len() == 0 && r.nested_requirements@.len() == 0
}

/// Adds an empty requirement record for an element.
pub(crate) fn push_requirement_record(p: &mut Project, element: ElementId)
    requires
        old(p).wf(),
        element < old(p).elements@.len(),
    ensures
        final(p).wf(),
        grows(old(p), final(p)),
        final(p).requirements@.len() == old(p).requirements@.len() + 1,
        forall|j: int| 0 <= j < old(p).requirements@.len() ==> #[trigger] final(p).requirements@[j]
            == old(p).requirements@[j],
        fresh_requirement(final(p).requirements@.last(), element),
        final(p).elements == old(p).elements,
        final(p).verifications == old(p).verifications,
        final(p).satisfactions == old(p).satisfactions,
        final(p).imports == old(p).imports,
        final(p).profile_issues == old(p).profile_issues,
        final(p).verify_assertions == old(p).verify_assertions,
{
    let ghost before = *p;
    p.requirements.push(Requirement {
        element,
        subjects: Vec::new(),
        actors: Vec::new(),
        stakeholders: Vec::new(),
        assumptions: Vec::new(),
        required_constraints: Vec::new(),
        nested_requirements: Vec::new(),
    });
    proof {
        lemma_same_base(&before, p);
        assert forall|i: int| 0 <= i < p.requirements@.len() implies #[trigger] p.requirement_ok(
            p.requirements@[i]) by {
            if i < before.requirements@.len() {
                assert(p.requirements@[i] == before.requirements@[i]);
                assert(before.requirement_ok(before.requirements@[i]));
            }
        }
    }
}

/// Adds an empty verification record for an element.
pub(crate) fn push_verification_record(p: &mut Project, element: ElementId)
    requires
        old(p).wf(),
        element < old(p).elements@.len(),
    ensures
        final(p).wf(),
        grows(old(p), final(p)),
        final(p).verifications@.len() == old(p).verifications@.len() + 1,
        forall|j: int| 0 <= j < old(p).verifications@.len() ==> #[trigger] final(p).verifications@[j]
            == old(p).verifications@[j],
        final(p).verifications@.last().element == element,
        final(p).verifications@.last().subjects@.len() == 0,
        final(p).verifications@.last().objectives@.len() == 0,
        final(p).imports == old(p).imports,
        final(p).satisfactions == old(p).satisfactions,
        final(p).verify_assertions == old(p).verify_assertions,
        final(p).profile_issues == old(p).profile_issues,
        final(p).elements == old(p).elements,
        final(p).requirements == old(p).requirements,
{
    let ghost before = *p;
    p.verifications.push(Verification { element, subjects: Vec::new(), objectives: Vec::new() });
    proof {
        lemma_same_base(&before, p);
        assert forall|i: int| 0 <= i < p.verifications@.len() implies #[trigger] p.verification_ok(
            p.verifications@[i]) by {
            if i < before.verifications@.len() {
                assert(p.verifications@[i] == before.verifications@[i]);
                assert(before.verification_ok(before.verifications@[i]));
            }
        }
    }
}

/// The lists of a requirement record that members are added to.
#[derive(Clone, Copy, PartialEq, Eq, Structural)]
pub enum RequirementList {
    Subjects,
    Actors,
    Stakeholders,
    Assumptions,
    RequiredConstraints,
    NestedRequirements,
}

pub open spec fn requirement_list(r: Requirement, list: RequirementList) -> Seq<ElementId> {
    match list {
        RequirementList::Subjects => r.subjects@,
        RequirementList::Actors => r.actors@,
        RequirementList::Stakeholders => r.stakeholders@,
        RequirementList::Assumptions => r.assumptions@,
        RequirementList::RequiredConstraints => r.required_constraints@,
        RequirementList::NestedRequirements => r.nested_requirements@,
    }
}

/// The first requirement record about element `element`.
pub(crate) fn requirement_record(p: &Project, element: ElementId) -> (r: Option<usize>)
    ensures
        match r {
            Some(j) => j < p.requirements@.len() && p.requirements@[j as int].element == element
                && forall|k: int| 0 <= k < j ==> (#[trigger] p.requirements@[k]).element != element,
            None => forall|k: int| 0 <= k < p.requirements@.len() ==> (#[trigger] p.requirements@[k]).element
                != element,
        },
{
    let mut j: usize = 0;
    while j < p.requirements.len()
        invariant
            j <= p.requirements@.len(),
            forall|k: int| 0 <= k < j ==> (#[trigger] p.requirements@[k]).element != element,
        decreases p.requirements@.len() - j,
    {
        if p.requirements[j].element == element {
            return Some(j);
        }
        j = j + 1;
    }
    None
}

/// The first verification record about element `element`.
pub(crate) fn verification_record(p: &Project, element: ElementId) -> (r: Option<usize>)
    ensures
        match r {
            Some(j) => j < p.verifications@.len() && p.verifications@[j as int].element == element
                && forall|k: int| 0 <= k < j ==> (#[trigger] p.verifications@[k]).element != element,
            None => forall|k: int| 0 <= k < p.verifications@.len() ==> (#[trigger] p.verifications@[k]).element
                != element,
        },
{
    let mut j: usize = 0;
    while j < p.verifications.len()
        invariant
            j <= p.verifications@.len(),
            forall|k: int| 0 <= k < j ==> (#[trigger] p.verifications@[k]).element != element,
        decreases p.verifications@.len() - j,
    {
        if p.verifications[j].element == element {
            return Some(j);
        }
        j = j + 1;
    }
    None
}

/// Adds `member` to one list of the first requirement record about
/// `element`, when there is one.
pub(crate) fn add_to_requirement(p: &mut Project, element: ElementId, list: RequirementList, member: ElementId)
    requires
        old(p).wf(),
        member < old(p).elements@.len(),
    ensures
        final(p).wf(),
        grows(old(p), final(p)),
        final(p).imports == old(p).imports,
        final(p).satisfactions == old(p).satisfactions,
        final(p).verify_assertions == old(p).verify_assertions,
        final(p).profile_issues == old(p).profile_issues,
        final(p).elements == old(p).elements,
        final(p).verifications == old(p).verifications,
        final(p).requirements@.len() == old(p).requirements@.len(),
        match requirement_record_index(old(p), element) {
            Some(j) => requirement_list(final(p).requirements@[j], list) == requirement_list(
                old(p).requirements@[j], list).push(member) && forall|k: int| 0 <= k < old(p).requirements@.len()
                && k != j ==> #[trigger] final(p).requirements@[k] == old(p).requirements@[k],
            None => final(p).requirements == old(p).requirements,
        },
{
    let j = match requirement_record(p, element) {
        Some(j) => j,
        None => { return; }
    };
    let ghost before = *p;
    let mut record = Requirement {
        element: 0,
        subjects: Vec::new(),
        actors: Vec::new(),
        stakeholders: Vec::new(),
        assumptions: Vec::new(),
        required_constraints: Vec::new(),
        nested_requirements: Vec::new(),
    };
    std::mem::swap(&mut record, &mut p.requirements[j]);
    match list {
        RequirementList::Subjects => record.subjects.push(member),
        RequirementList::Actors => record.actors.push(member),
        RequirementList::Stakeholders => record.stakeholders.push(member),
        RequirementList::Assumptions => record.assumptions.push(member),
        RequirementList::RequiredConstraints => record.required_constraints.push(member),
        RequirementList::NestedRequirements => record.nested_requirements.push(member),
    }
    std::mem::swap(&mut record, &mut p.requirements[j]);
    proof {
        assert(p.elements == before.elements && p.names == before.names && p.sources == before.sources);
        assert(p.satisfactions == before.satisfactions && p.verify_assertions == before.verify_assertions);
        assert(p.imports == before.imports && p.verifications == before.verifications);
        assert(p.profile_issues == before.profile_issues);
        lemma_same_base(&before, p);
        assert(before.requirement_ok(before.requirements@[j as int]));
        assert forall|i: int| 0 <= i < p.requirements@.len() implies #[trigger] p.requirement_ok(
            p.requirements@[i]) by {
            if i != j {
                assert(before.requirement_ok(before.requirements@[i]));
                assert(p.requirements@[i] == before.requirements@[i]);
            }
        }
    }
}

/// The index of the first requirement record about `element`.
pub open spec fn requirement_record_index(p: &Project, element: ElementId) -> Option<int> {
    if exists|k: int| 0 <= k < p.requirements@.len() && (#[trigger] p.requirements@[k]).element == element {
        Some(choose|k: int| 0 <= k < p.requirements@.len() && (#[trigger] p.requirements@[k]).element == element
            && forall|l: int| 0 <= l < k ==> (#[trigger] p.requirements@[l]).element != element)
    } else {
        None
    }
}

/// The other list of a verification record.
pub open spec fn other_list(list: VerificationList) -> VerificationList {
    match list {
        VerificationList::Subjects => VerificationList::Objectives,
        VerificationList::Objectives => VerificationList::Subjects,
    }
}

/// The index of the first verification record about `element`.
pub open spec fn verification_record_index(p: &Project, element: ElementId) -> Option<int> {
    if exists|k: int| 0 <= k < p.verifications@.len() && (#[trigger] p.verifications@[k]).element == element {
        Some(choose|k: int| 0 <= k < p.verifications@.len() && (#[trigger] p.verifications@[k]).element == element
            && forall|l: int| 0 <= l < k ==> (#[trigger] p.verifications@[l]).element != element)
    } else {
        None
    }
}

/// One list of a verification record.
pub open spec fn verification_list(v: Verification, list: VerificationList) -> Seq<ElementId> {
    match list {
        VerificationList::Subjects => v.subjects@,
        VerificationList::Objectives => v.objectives@,
    }
}

/// The lists of a verification record that members are added to.
#[derive(Clone, Copy, PartialEq, Eq, Structural)]
pub enum VerificationList {
    Subjects,
    Objectives,
}

/// Adds `member` to one list of the first verification record about
/// `element`, when there is one.
pub(crate) fn add_to_verification(p: &mut Project, element: ElementId, list: VerificationList, member: ElementId)
    requires
        old(p).wf(),
        member < old(p).elements@.len(),
    ensures
        final(p).wf(),
        grows(old(p), final(p)),
        final(p).imports == old(p).imports,
        final(p).satisfactions == old(p).satisfactions,
        final(p).verify_assertions == old(p).verify_assertions,
        final(p).profile_issues == old(p).profile_issues,
        final(p).elements == old(p).elements,
        final(p).requirements == old(p).requirements,
        final(p).verifications@.len() == old(p).verifications@.len(),
        match verification_record_index(old(p), element) {
            Some(j) => verification_list(final(p).verifications@[j], list) == verification_list(
                old(p).verifications@[j], list).push(member) && verification_list(final(p).verifications@[j],
                other_list(list)) == verification_list(old(p).verifications@[j], other_list(list))
                && final(p).verifications@[j].element == old(p).verifications@[j].element
                && forall|k: int| 0 <= k < old(p).verifications@.len() && k != j
                ==> #[trigger] final(p).verifications@[k] == old(p).verifications@[k],
            None => final(p).verifications == old(p).verifications,
        },
{
    let j = match verification_record(p, element) {
        Some(j) => j,
        None => {
            proof {
                assert(!exists|k: int| 0 <= k < p.verifications@.len() && (#[trigger] p.verifications@[k]).element
                    == element);
            }
            return;
        }
    };
    proof {
        assert(0 <= j < p.verifications@.len() && p.verifications@[j as int].element == element
            && forall|l: int| 0 <= l < j ==> (#[trigger] p.verifications@[l]).element != element);
        let c = choose|k: int| 0 <= k < p.verifications@.len() && (#[trigger] p.verifications@[k]).element == element
            && forall|l: int| 0 <= l < k ==> (#[trigger] p.verifications@[l]).element != element;
        if c < j {
            assert(p.verifications@[c].element != element);
        } else if c > j {
            assert(p.verifications@[j as int].element != element);
        }
        assert(verification_record_index(p, element) == Some(j as int));
    }
    let ghost before = *p;
    let mut record = Verification { element: 0, subjects: Vec::new(), objectives: Vec::new() };
    std::mem::swap(&mut record, &mut p.verifications[j]);
    match list {
        VerificationList::Subjects => record.subjects.push(member),
        VerificationList::Objectives => record.objectives.push(member),
    }
    std::mem::swap(&mut record, &mut p.verifications[j]);
    proof {
        assert(p.elements == before.elements && p.names == before.names && p.sources == before.sources);
        assert(p.satisfactions == before.satisfactions && p.verify_assertions == before.verify_assertions);
        assert(p.imports == before.imports && p.requirements == before.requirements);
        assert(p.profile_issues == before.profile_issues);
        lemma_same_base(&before, p);
        assert(before.verification_ok(before.verifications@[j as int]));
        assert forall|i: int| 0 <= i < p.verifications@.len() implies #[trigger] p.verification_ok(
            p.verifications@[i]) by {
            if i != j {
                assert(before.verification_ok(before.verifications@[i]));
                assert(p.verifications@[i] == before.verifications@[i]);
            }
        }
    }
}

} // verus!
