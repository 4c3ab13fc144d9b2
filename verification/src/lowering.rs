//! The constructs of the requirements profile, lowered from a syntax tree
//! into elements and records of the project, each in the ownership context
//! of the construct around it.

use vstd::prelude::*;
use crate::check::{normalized, normalized_path, CheckError};
use crate::growth::{
    extends_seq,
    add_source, add_to_requirement, add_to_verification, fresh_requirement, grows, intern_name,
    lemma_opt_reference_kept, push_element, push_import, push_profile_issue, push_requirement_record,
    push_satisfaction, push_verification_record, push_verify_assertion, RequirementList, VerificationList,
};
use crate::lower::{
    declaration_types, docs_of, doc_bodies, documentation, element_names, element_names_of, lowered,
    model_reference, node_span, opt_view, parameter_binding, reference_of, references_at, span_at,
    specialization_reference_nodes, specialization_types, text_at, type_reference_nodes,
};
use crate::project::{
    kind_is_requirement_usage, Code, Element, ElementId, ElementKind, Import, ImportVisibility, ProfileIssue,
    Project, Reference, Satisfaction, SourceId, VerifyAssertion,
};
use crate::queries::{
    descendant, direct_child, direct_children, element_kind, find_below, first_named, has_direct_token, has_token,
    kind_at, owns_member_body, owns_members, element_kind_of,
};
use crate::strings::{join2, owned, same_text};
use crate::syntax::{parse_source, parsed_tree, sysml_parser, SyntaxTree};

verus! {

/// Where a construct stands: its owner, its package, and the requirement,
/// verification and objective it is lowered in, when it is.
#[derive(Clone, Copy)]
pub struct Context {
    pub owner: Option<ElementId>,
    pub package: Option<ElementId>,
    pub requirement: Option<ElementId>,
    pub verification: Option<ElementId>,
    pub objective: Option<ElementId>,
}

/// The context at the top of a source: nothing around.
pub open spec fn top_context() -> Context {
    Context { owner: None, package: None, requirement: None, verification: None, objective: None }
}

impl Context {
    /// The context at the top of a source: nothing around.
    pub fn top() -> (c: Context)
        ensures
            c.owner is None && c.package is None && c.requirement is None && c.verification is None
                && c.objective is None,
            c == top_context(),
    {
        Context { owner: None, package: None, requirement: None, verification: None, objective: None }
    }

    /// The context inside element `id`: it owns what follows, which is in no
    /// requirement, verification or objective.
    pub fn inside(self, id: ElementId) -> (c: Context)
        ensures
            c.owner == Some(id) && c.package == self.package && c.requirement is None && c.verification is None
                && c.objective is None,
    {
        Context { owner: Some(id), package: self.package, requirement: None, verification: None, objective: None }
    }
}

/// Every element a context names exists.
pub open spec fn context_ok(p: &Project, c: Context) -> bool {
    &&& p.opt_id_ok(c.owner)
    &&& p.opt_id_ok(c.package)
    &&& p.opt_id_ok(c.requirement)
    &&& p.opt_id_ok(c.verification)
    &&& p.opt_id_ok(c.objective)
}

/// What can be lowered: a well-formed tree and project, a source of the
/// project, and a context inside it.
pub open spec fn can_lower(t: &SyntaxTree, i: int, source: SourceId, c: Context, p: &Project) -> bool {
    &&& t.wf()
    &&& 0 <= i < t.nodes@.len()
    &&& p.wf()
    &&& source < p.sources@.len()
    &&& context_ok(p, c)
}

/// The visibility node of node `i` when it says `private` or `protected`.
pub open spec fn hidden_visibility(t: &SyntaxTree, i: int) -> Option<usize> {
    match first_named(t, i, "visibility"@) {
        Some(v) => if text_at(t, v as int) == "private"@ || text_at(t, v as int) == "protected"@ {
            Some(v)
        } else {
            None
        },
        None => None,
    }
}

/// `e` is the element declared at node `i` of kind `kind` in context `c`,
/// bound to `bound`.
pub open spec fn element_from(
    t: &SyntaxTree,
    i: int,
    source: SourceId,
    kind: ElementKind,
    c: Context,
    bound: Option<Reference>,
    e: Element,
) -> bool {
    &&& e.kind == kind
    &&& e.owner == c.owner
    &&& e.package == c.package
    &&& e.span == span_at(t, i, source)
    &&& (opt_view(e.short_name), opt_view(e.name)) == element_names_of(t, i)
    &&& references_at(t, type_reference_nodes(t, i), source, e.declared_types@)
    &&& references_at(t, specialization_reference_nodes(t, i), source, e.specializations@)
    &&& docs_of(t, doc_bodies(t, i, i), source, e.documentation@)
    &&& e.referenced_feature == bound
}

/// Adds the element declared at node `i`, reporting a `private` or
/// `protected` visibility on it as outside the profile.
pub(crate) fn add_element(
    t: &SyntaxTree,
    i: usize,
    source: SourceId,
    kind: ElementKind,
    c: Context,
    bound: Option<Reference>,
    p: &mut Project,
) -> (id: ElementId)
    requires
        can_lower(t, i as int, source, c, old(p)),
        old(p).opt_reference_ok(bound),
    ensures
        lowered(old(p), final(p)),
        id == old(p).elements@.len(),
        final(p).elements@.len() == id + 1,
        element_from(t, i as int, source, kind, c, bound, final(p).elements@[id as int]),
        final(p).requirements == old(p).requirements,
        final(p).verifications == old(p).verifications,
        final(p).imports == old(p).imports,
        final(p).satisfactions == old(p).satisfactions,
        final(p).verify_assertions == old(p).verify_assertions,
        match hidden_visibility(t, i as int) {
            Some(v) => final(p).profile_issues@ == old(p).profile_issues@.push(ProfileIssue {
                span: span_at(t, v as int, source),
                code: Code::UnsupportedVisibility,
                message: final(p).profile_issues@.last().message,
            }),
            None => final(p).profile_issues == old(p).profile_issues,
        },
{
    let ghost start = *p;
    if let Some(v) = direct_child(t, i, "visibility") {
        let text = t.nodes[v].text.as_str();
        if same_text(text, "private") || same_text(text, "protected") {
            let span = node_span(t, v, source);
            push_profile_issue(p, ProfileIssue {
                span,
                code: Code::UnsupportedVisibility,
                message: owned(
                    "private and protected visibility on non-import memberships is outside this validation profile",
                ),
            });
        }
    }
    let ghost after_issue = *p;
    let id = p.elements.len();
    let (short_name, name) = element_names(t, i);
    let name_id = match &name {
        Some(n) => Some(intern_name(p, n)),
        None => None,
    };
    let ghost after_name = *p;
    let short_name_id = match &short_name {
        Some(n) => Some(intern_name(p, n)),
        None => None,
    };
    proof {
        if let Some(k) = name_id {
            assert(p.names@[k as int] == after_name.names@[k as int]);
        }
    }
    let ghost before_types = *p;
    let declared_types = declaration_types(t, i, source, p);
    let ghost after_types = *p;
    let specializations = specialization_types(t, i, source, p);
    let docs = documentation(t, i, source);
    let span = node_span(t, i, source);
    proof {
        crate::growth::lemma_references_kept(&after_types, p, declared_types@);
        lemma_opt_reference_kept(&start, p, bound);
        if let Some(k) = name_id {
            assert(p.names@[k as int] == after_name.names@[k as int]);
        }
        if let Some(k) = short_name_id {
            assert(p.names@[k as int] == before_types.names@[k as int]);
        }
    }
    let element = Element {
        id,
        kind,
        name,
        short_name,
        name_id,
        short_name_id,
        owner: c.owner,
        package: c.package,
        span,
        declared_types,
        specializations,
        documentation: docs,
        referenced_feature: bound,
    };
    push_element(p, element);
    id
}

/// The visibility written on an import.
pub open spec fn import_visibility(t: &SyntaxTree, i: int) -> ImportVisibility {
    match first_named(t, i, "visibility"@) {
        Some(v) => if text_at(t, v as int) == "private"@ {
            ImportVisibility::Private
        } else if text_at(t, v as int) == "protected"@ {
            ImportVisibility::Protected
        } else if text_at(t, v as int) == "public"@ {
            ImportVisibility::Public
        } else {
            ImportVisibility::Missing
        },
        None => ImportVisibility::Missing,
    }
}

/// The node an import refers through: its wildcard import, else its
/// qualified name, else its name.
pub open spec fn import_reference_node(t: &SyntaxTree, i: int) -> Option<usize> {
    match find_below(t, i, "wildcard_import"@) {
        Some(w) => Some(w),
        None => match find_below(t, i, "qualified_name"@) {
            Some(q) => Some(q),
            None => find_below(t, i, "name"@),
        },
    }
}

/// `x` is the import written at node `i` in context `c`, referring through node `r`.
pub open spec fn import_from(t: &SyntaxTree, i: int, source: SourceId, c: Context, r: int, x: Import) -> bool {
    let wildcard = find_below(t, i, "wildcard_import"@);
    &&& x.scope == c.owner
    &&& x.visibility == import_visibility(t, i)
    &&& reference_of(t, r, source, x.reference)
    &&& x.all == has_token(t, i, "all"@)
    &&& x.wildcard == wildcard is Some
    &&& x.recursive == (wildcard matches Some(w) && has_token(t, w as int, "**"@))
    &&& x.filtered == (wildcard matches Some(w) && has_token(t, w as int, "["@))
    &&& x.span == span_at(t, i, source)
}

/// Lowers an import: one import record, when the import names anything.
pub(crate) fn lower_import(t: &SyntaxTree, i: usize, source: SourceId, c: Context, p: &mut Project)
    requires
        can_lower(t, i as int, source, c, old(p)),
    ensures
        lowered(old(p), final(p)),
        final(p).elements == old(p).elements,
        match import_reference_node(t, i as int) {
            Some(r) => final(p).imports@.len() == old(p).imports@.len() + 1 && import_from(t, i as int, source, c,
                r as int, final(p).imports@.last()),
            None => final(p).imports == old(p).imports,
        },
{
    let visibility = match direct_child(t, i, "visibility") {
        Some(v) => {
            let text = t.nodes[v].text.as_str();
            if same_text(text, "private") {
                ImportVisibility::Private
            } else if same_text(text, "protected") {
                ImportVisibility::Protected
            } else if same_text(text, "public") {
                ImportVisibility::Public
            } else {
                ImportVisibility::Missing
            }
        }
        None => ImportVisibility::Missing,
    };
    let all = has_direct_token(t, i, "all");
    let wildcard_node = descendant(t, i, "wildcard_import");
    let wildcard = wildcard_node.is_some();
    let recursive = match wildcard_node {
        Some(w) => has_direct_token(t, w, "**"),
        None => false,
    };
    let filtered = match wildcard_node {
        Some(w) => has_direct_token(t, w, "["),
        None => false,
    };
    let reference_node = match wildcard_node {
        Some(w) => Some(w),
        None => match descendant(t, i, "qualified_name") {
            Some(q) => Some(q),
            None => descendant(t, i, "name"),
        },
    };
    if let Some(r) = reference_node {
        let reference = model_reference(t, r, source, p);
        let span = node_span(t, i, source);
        push_import(p, Import { scope: c.owner, visibility, reference, all, wildcard, recursive, filtered, span });
    }
}


/// `e` is an element of kind `kind` for node `i` in context `c`.
pub open spec fn element_head(t: &SyntaxTree, i: int, source: SourceId, kind: ElementKind, c: Context, e: Element) -> bool {
    e.kind == kind && e.owner == c.owner && e.package == c.package && e.span == span_at(t, i, source)
}

/// The element added by a lowering step stays at its index afterwards.
pub open spec fn adds_element(old: &Project, new: &Project) -> bool {
    new.elements@.len() > old.elements@.len()
}

/// Adds the element of a requirement definition or usage (objectives
/// included) with an empty requirement record, and records it as nested in
/// the requirement that directly owns it.
pub(crate) fn add_requirement_element(t: &SyntaxTree, i: usize, source: SourceId, kind: ElementKind, c: Context, p: &mut Project) -> (id: ElementId)
    requires
        can_lower(t, i as int, source, c, old(p)),
        kind == ElementKind::RequirementDefinition || kind_is_requirement_usage(kind),
    ensures
        lowered(old(p), final(p)),
        id == old(p).elements@.len(),
        final(p).elements@.len() == id + 1,
        element_from(t, i as int, source, kind, c, None, final(p).elements@[id as int]),
        final(p).requirements@.len() == old(p).requirements@.len() + 1,
        fresh_requirement(final(p).requirements@.last(), id),
        final(p).verifications == old(p).verifications,
        final(p).imports == old(p).imports,
        final(p).satisfactions == old(p).satisfactions,
        final(p).verify_assertions == old(p).verify_assertions,
{
    let id = add_element(t, i, source, kind, c, None, p);
    if let Some(parent) = c.requirement {
        if c.owner == Some(parent) {
            add_to_requirement(p, parent, RequirementList::NestedRequirements, id);
        }
    }
    push_requirement_record(p, id);
    id
}

/// Lowers a requirement definition or usage and its members.
pub(crate) fn lower_requirement(t: &SyntaxTree, i: usize, source: SourceId, kind: ElementKind, c: Context, p: &mut Project)
    requires
        can_lower(t, i as int, source, c, old(p)),
        kind == ElementKind::RequirementDefinition || kind == ElementKind::RequirementUsage,
    ensures
        lowered(old(p), final(p)),
        adds_element(old(p), final(p)),
        element_from(t, i as int, source, kind, c, None, final(p).elements@[old(p).elements@.len() as int]),
        final(p).requirements@.len() > old(p).requirements@.len(),
        final(p).requirements@[old(p).requirements@.len() as int].element == old(p).elements@.len(),
    decreases t.nodes@.len() - i, 1int,
{
    let id = add_requirement_element(t, i, source, kind, c, p);
    let next = Context { owner: Some(id), package: c.package, requirement: Some(id), verification: None, objective: None };
    lower_children(t, i, source, next, p);
}

/// Lowers a verification definition or usage: its element, an empty
/// verification record, and its members.
pub(crate) fn lower_verification(t: &SyntaxTree, i: usize, source: SourceId, kind: ElementKind, c: Context, p: &mut Project)
    requires
        can_lower(t, i as int, source, c, old(p)),
        kind == ElementKind::VerificationDefinition || kind == ElementKind::VerificationUsage,
    ensures
        lowered(old(p), final(p)),
        adds_element(old(p), final(p)),
        element_from(t, i as int, source, kind, c, None, final(p).elements@[old(p).elements@.len() as int]),
        final(p).verifications@.len() > old(p).verifications@.len(),
        final(p).verifications@[old(p).verifications@.len() as int].element == old(p).elements@.len(),
    decreases t.nodes@.len() - i, 1int,
{
    let id = add_element(t, i, source, kind, c, None, p);
    push_verification_record(p, id);
    let next = Context { owner: Some(id), package: c.package, requirement: None, verification: Some(id), objective: None };
    lower_children(t, i, source, next, p);
}

/// Lowers an objective: a requirement usage of its own, recorded as an
/// objective of the verification that directly owns it, with its members.
pub(crate) fn lower_objective(t: &SyntaxTree, i: usize, source: SourceId, c: Context, p: &mut Project)
    requires
        can_lower(t, i as int, source, c, old(p)),
    ensures
        lowered(old(p), final(p)),
        adds_element(old(p), final(p)),
        element_from(t, i as int, source, ElementKind::Objective, c, None,
            final(p).elements@[old(p).elements@.len() as int]),
        final(p).requirements@.len() > old(p).requirements@.len(),
        final(p).requirements@[old(p).requirements@.len() as int].element == old(p).elements@.len(),
    decreases t.nodes@.len() - i, 1int,
{
    let id = add_requirement_element(t, i, source, ElementKind::Objective, c, p);
    if let Some(verification) = c.verification {
        if c.owner == Some(verification) {
            add_to_verification(p, verification, VerificationList::Objectives, id);
        }
    }
    let next = Context {
        owner: Some(id),
        package: c.package,
        requirement: Some(id),
        verification: c.verification,
        objective: Some(id),
    };
    lower_children(t, i, source, next, p);
}

/// Lowers a subject, actor or stakeholder: an element bound to the feature
/// its value names, recorded with the requirement (and, for a subject, the
/// verification outside any objective) that directly owns it.
pub(crate) fn lower_parameter(t: &SyntaxTree, i: usize, source: SourceId, kind: ElementKind, c: Context, p: &mut Project)
    requires
        can_lower(t, i as int, source, c, old(p)),
        kind == ElementKind::Subject || kind == ElementKind::Actor || kind == ElementKind::Stakeholder,
    ensures
        lowered(old(p), final(p)),
        adds_element(old(p), final(p)),
        element_from(t, i as int, source, kind, c, final(p).elements@[old(p).elements@.len() as int].referenced_feature,
            final(p).elements@[old(p).elements@.len() as int]),
        match crate::lower::binding_node(t, i as int) {
            Some(b) => crate::lower::chain_result(t, b as int, source,
                final(p).elements@[old(p).elements@.len() as int].referenced_feature),
            None => final(p).elements@[old(p).elements@.len() as int].referenced_feature is None,
        },
    decreases t.nodes@.len() - i, 1int,
{
    let bound = parameter_binding(t, i, source, p);
    let id = add_element(t, i, source, kind, c, bound, p);
    if let Some(requirement) = c.requirement {
        if c.owner == Some(requirement) {
            let list = if kind == ElementKind::Subject {
                RequirementList::Subjects
            } else if kind == ElementKind::Actor {
                RequirementList::Actors
            } else {
                RequirementList::Stakeholders
            };
            add_to_requirement(p, requirement, list, id);
        }
    }
    if kind == ElementKind::Subject {
        if let Some(verification) = c.verification {
            if c.owner == Some(verification) && c.objective.is_none() {
                add_to_verification(p, verification, VerificationList::Subjects, id);
            }
        }
    }
    lower_children(t, i, source, c.inside(id), p);
}

/// The feature an assumed or required constraint member names.
pub open spec fn member_reference_node(t: &SyntaxTree, i: int) -> Option<usize> {
    match first_named(t, i, "feature_chain"@) {
        Some(x) => Some(x),
        None => first_named(t, i, "qualified_name"@),
    }
}

/// Lowers an assumed (`assumption`) or required constraint member: a
/// constraint usage bound to the feature it names, recorded with the
/// requirement that directly owns it.
pub(crate) fn lower_constraint_member(t: &SyntaxTree, i: usize, source: SourceId, c: Context, assumption: bool, p: &mut Project)
    requires
        can_lower(t, i as int, source, c, old(p)),
    ensures
        lowered(old(p), final(p)),
        adds_element(old(p), final(p)),
        element_from(t, i as int, source, ElementKind::ConstraintUsage, c,
            final(p).elements@[old(p).elements@.len() as int].referenced_feature,
            final(p).elements@[old(p).elements@.len() as int]),
        match member_reference_node(t, i as int) {
            Some(r) => final(p).elements@[old(p).elements@.len() as int].referenced_feature matches Some(x)
                && reference_of(t, r as int, source, x),
            None => final(p).elements@[old(p).elements@.len() as int].referenced_feature is None,
        },
    decreases t.nodes@.len() - i, 1int,
{
    let node = match direct_child(t, i, "feature_chain") {
        Some(x) => Some(x),
        None => direct_child(t, i, "qualified_name"),
    };
    let bound = match node {
        Some(x) => Some(model_reference(t, x, source, p)),
        None => None,
    };
    let id = add_element(t, i, source, ElementKind::ConstraintUsage, c, bound, p);
    if let Some(requirement) = c.requirement {
        if c.owner == Some(requirement) {
            let list = if assumption { RequirementList::Assumptions } else { RequirementList::RequiredConstraints };
            add_to_requirement(p, requirement, list, id);
        }
    }
    lower_children(t, i, source, c.inside(id), p);
}

/// Lowers a package and its members.
pub(crate) fn lower_package(t: &SyntaxTree, i: usize, source: SourceId, c: Context, p: &mut Project)
    requires
        can_lower(t, i as int, source, c, old(p)),
    ensures
        lowered(old(p), final(p)),
        adds_element(old(p), final(p)),
        element_from(t, i as int, source, ElementKind::Package, c, None, final(p).elements@[old(p).elements@.len() as int]),
    decreases t.nodes@.len() - i, 1int,
{
    let id = add_element(t, i, source, ElementKind::Package, c, None, p);
    let next = Context { owner: Some(id), package: Some(id), requirement: None, verification: None, objective: None };
    lower_children(t, i, source, next, p);
}

/// Lowers a plain element of the given kind and its members.
pub(crate) fn lower_element(t: &SyntaxTree, i: usize, source: SourceId, kind: ElementKind, c: Context, p: &mut Project)
    requires
        can_lower(t, i as int, source, c, old(p)),
    ensures
        lowered(old(p), final(p)),
        adds_element(old(p), final(p)),
        element_from(t, i as int, source, kind, c, None, final(p).elements@[old(p).elements@.len() as int]),
    decreases t.nodes@.len() - i, 1int,
{
    let id = add_element(t, i, source, kind, c, None, p);
    lower_children(t, i, source, c.inside(id), p);
}

/// The node a satisfaction's subject is written at: the feature chain of an
/// inline satisfaction; otherwise the first feature chain after a qualified
/// requirement name, or the second feature chain.
pub open spec fn satisfaction_subject_node(t: &SyntaxTree, i: int) -> Option<usize> {
    let chains = crate::queries::named_children(t, i, "feature_chain"@);
    if first_named(t, i, "usage_declaration"@) is Some {
        first_named(t, i, "feature_chain"@)
    } else if first_named(t, i, "qualified_name"@) is Some {
        if chains.len() > 0 { Some(chains[0]) } else { None }
    } else if chains.len() > 1 {
        Some(chains[1])
    } else {
        None
    }
}

/// The node a referenced satisfaction's requirement is written at.
pub open spec fn satisfaction_target_node(t: &SyntaxTree, i: int) -> Option<usize> {
    match first_named(t, i, "qualified_name"@) {
        Some(x) => Some(x),
        None => first_named(t, i, "feature_chain"@),
    }
}

/// `x` is the satisfaction written at node `i` in context `c`, apart from
/// its requirement.
pub open spec fn satisfaction_from(t: &SyntaxTree, i: int, source: SourceId, c: Context, x: Satisfaction) -> bool {
    &&& x.package == c.package
    &&& x.owner == c.owner
    &&& x.explicitly_asserted == (kind_at(t, i) == "assert_statement"@)
    &&& x.negated == has_token(t, i, "not"@)
    &&& x.span == span_at(t, i, source)
    &&& match satisfaction_subject_node(t, i) {
        Some(s) => x.subject matches Some(r) && reference_of(t, s as int, source, r),
        None => x.subject is None,
    }
}

/// Lowers a satisfaction. An inline one declares a requirement usage of its
/// own, lowered with its members; a referenced one names its requirement, and
/// a body on it is reported as outside the profile.
pub(crate) fn lower_satisfaction(t: &SyntaxTree, i: usize, source: SourceId, c: Context, p: &mut Project)
    requires
        can_lower(t, i as int, source, c, old(p)),
    ensures
        lowered(old(p), final(p)),
        first_named(t, i as int, "usage_declaration"@) is Some ==> {
            &&& adds_element(old(p), final(p))
            &&& element_from(t, i as int, source, ElementKind::RequirementUsage, c, None,
                final(p).elements@[old(p).elements@.len() as int])
            &&& final(p).satisfactions@.len() > old(p).satisfactions@.len()
            &&& satisfaction_from(t, i as int, source, c, final(p).satisfactions@[old(p).satisfactions@.len() as int])
            &&& final(p).satisfactions@[old(p).satisfactions@.len() as int].requirement is None
            &&& final(p).satisfactions@[old(p).satisfactions@.len() as int].inline_requirement
                == Some(old(p).elements@.len() as usize)
        },
        first_named(t, i as int, "usage_declaration"@) is None ==> match satisfaction_target_node(t, i as int) {
            Some(r) => {
                &&& final(p).satisfactions@.len() == old(p).satisfactions@.len() + 1
                &&& satisfaction_from(t, i as int, source, c, final(p).satisfactions@.last())
                &&& final(p).satisfactions@.last().inline_requirement is None
                &&& final(p).satisfactions@.last().requirement matches Some(x) && reference_of(t, r as int, source, x)
            },
            None => final(p).satisfactions == old(p).satisfactions,
        },
        first_named(t, i as int, "usage_declaration"@) is None && has_token(t, i as int, "{"@) ==> {
            &&& final(p).profile_issues@.len() > old(p).profile_issues@.len()
            &&& final(p).profile_issues@[old(p).profile_issues@.len() as int].span == span_at(t, i as int, source)
            &&& final(p).profile_issues@[old(p).profile_issues@.len() as int].code == Code::UnsupportedRelationshipBody
        },
    decreases t.nodes@.len() - i, 1int,
{
    let explicitly_asserted = same_text(t.nodes[i].kind.as_str(), "assert_statement");
    let negated = has_direct_token(t, i, "not");
    let inline = direct_child(t, i, "usage_declaration").is_some();
    if !inline && has_direct_token(t, i, "{") {
        let span = node_span(t, i, source);
        push_profile_issue(p, ProfileIssue {
            span,
            code: Code::UnsupportedRelationshipBody,
            message: owned("bodies on referenced satisfaction usages are outside this validation profile"),
        });
    }
    if inline {
        let requirement = add_requirement_element(t, i, source, ElementKind::RequirementUsage, c, p);
        let subject = match direct_child(t, i, "feature_chain") {
            Some(x) => Some(model_reference(t, x, source, p)),
            None => None,
        };
        let span = node_span(t, i, source);
        push_satisfaction(p, Satisfaction {
            package: c.package,
            owner: c.owner,
            requirement: None,
            inline_requirement: Some(requirement),
            subject,
            explicitly_asserted,
            negated,
            span,
        });
        let next = Context {
            owner: Some(requirement),
            package: c.package,
            requirement: Some(requirement),
            verification: None,
            objective: None,
        };
        lower_children(t, i, source, next, p);
        return;
    }
    let qualified = direct_child(t, i, "qualified_name");
    let target = match qualified {
        Some(x) => Some(x),
        None => direct_child(t, i, "feature_chain"),
    };
    let chains = direct_children(t, i, "feature_chain");
    let subject_node = if qualified.is_some() {
        if chains.len() > 0 { Some(chains[0]) } else { None }
    } else if chains.len() > 1 {
        Some(chains[1])
    } else {
        None
    };
    if let Some(r) = target {
        let requirement = model_reference(t, r, source, p);
        let ghost after_requirement = *p;
        let subject = match subject_node {
            Some(x) => Some(model_reference(t, x, source, p)),
            None => None,
        };
        proof {
            lemma_opt_reference_kept(&after_requirement, p, Some(requirement));
        }
        let span = node_span(t, i, source);
        push_satisfaction(p, Satisfaction {
            package: c.package,
            owner: c.owner,
            requirement: Some(requirement),
            inline_requirement: None,
            subject,
            explicitly_asserted,
            negated,
            span,
        });
    }
}

/// The node a verify declaration names its requirement at, unless it
/// declares one inline.
pub open spec fn verify_target_node(t: &SyntaxTree, i: int) -> Option<usize> {
    if has_token(t, i, "requirement"@) {
        None
    } else {
        match first_named(t, i, "feature_chain"@) {
            Some(x) => Some(x),
            None => first_named(t, i, "qualified_name"@),
        }
    }
}

/// Lowers a verify declaration: an inline requirement usage when it declares
/// one, and a verify record for the objective (or else the owner) it stands
/// in; a body on a referenced one is reported as outside the profile.
pub(crate) fn lower_verify(t: &SyntaxTree, i: usize, source: SourceId, c: Context, p: &mut Project)
    requires
        can_lower(t, i as int, source, c, old(p)),
    ensures
        lowered(old(p), final(p)),
        has_token(t, i as int, "requirement"@) ==> adds_element(old(p), final(p)) && element_from(t, i as int,
            source, ElementKind::RequirementUsage, c, None, final(p).elements@[old(p).elements@.len() as int]),
        match (match c.objective { Some(o) => Some(o), None => c.owner }) {
            Some(owner) => {
                &&& final(p).verify_assertions@.len() == old(p).verify_assertions@.len() + 1
                &&& final(p).verify_assertions@.last().owner == owner
                &&& final(p).verify_assertions@.last().package == c.package
                &&& final(p).verify_assertions@.last().span == span_at(t, i as int, source)
                &&& final(p).verify_assertions@.last().inline_requirement == if has_token(t, i as int, "requirement"@) {
                    Some(old(p).elements@.len() as usize)
                } else {
                    None
                }
                &&& match verify_target_node(t, i as int) {
                    Some(r) => final(p).verify_assertions@.last().target matches Some(x) && reference_of(t, r as int,
                        source, x),
                    None => final(p).verify_assertions@.last().target is None,
                }
            },
            None => final(p).verify_assertions == old(p).verify_assertions,
        },
        first_named(t, i as int, "feature_chain"@) is Some && has_token(t, i as int, "{"@) ==> {
            &&& final(p).profile_issues@.len() > old(p).profile_issues@.len()
            &&& final(p).profile_issues@[old(p).profile_issues@.len() as int].span == span_at(t, i as int, source)
            &&& final(p).profile_issues@[old(p).profile_issues@.len() as int].code == Code::UnsupportedRelationshipBody
        },
{
    let chain = direct_child(t, i, "feature_chain");
    if chain.is_some() && has_direct_token(t, i, "{") {
        let span = node_span(t, i, source);
        push_profile_issue(p, ProfileIssue {
            span,
            code: Code::UnsupportedRelationshipBody,
            message: owned("bodies on referenced verification usages are outside this validation profile"),
        });
    }
    let inline = has_direct_token(t, i, "requirement");
    let inline_requirement = if inline {
        Some(add_requirement_element(t, i, source, ElementKind::RequirementUsage, c, p))
    } else {
        None
    };
    let target_node = if inline {
        None
    } else {
        match chain {
            Some(x) => Some(x),
            None => direct_child(t, i, "qualified_name"),
        }
    };
    let owner = match c.objective {
        Some(o) => Some(o),
        None => c.owner,
    };
    if let Some(owner) = owner {
        let target = match target_node {
            Some(x) => Some(model_reference(t, x, source, p)),
            None => None,
        };
        let span = node_span(t, i, source);
        push_verify_assertion(p, VerifyAssertion { owner, package: c.package, target, inline_requirement, span });
    }
}

/// Lowers a construct outside the profile that owns a member body: a generic
/// usage that owns the members, so none of them is taken as a member of an
/// enclosing requirement, verification or objective.
pub(crate) fn lower_unmodeled_owner(t: &SyntaxTree, i: usize, source: SourceId, c: Context, p: &mut Project)
    requires
        can_lower(t, i as int, source, c, old(p)),
    ensures
        lowered(old(p), final(p)),
        adds_element(old(p), final(p)),
        element_from(t, i as int, source, ElementKind::GenericUsage, c, None,
            final(p).elements@[old(p).elements@.len() as int]),
    decreases t.nodes@.len() - i, 1int,
{
    let id = add_element(t, i, source, ElementKind::GenericUsage, c, None, p);
    lower_children(t, i, source, c.inside(id), p);
}

/// What the lowering makes of a node, by its grammar kind.
#[derive(Clone, Copy, PartialEq, Eq, Structural)]
pub enum Construct {
    Package,
    Import,
    Requirement(ElementKind),
    Verification(ElementKind),
    Objective,
    Parameter(ElementKind),
    ConstraintMember(bool),
    Satisfaction,
    Verify,
    Element(ElementKind),
    Owner,
    Transparent,
}

/// What the lowering makes of node `i`.
pub open spec fn construct_of(t: &SyntaxTree, i: int) -> Construct {
    let k = kind_at(t, i);
    if k == "package_definition"@ || k == "library_package"@ {
        Construct::Package
    } else if k == "import_statement"@ {
        Construct::Import
    } else if k == "requirement_definition"@ {
        Construct::Requirement(ElementKind::RequirementDefinition)
    } else if k == "requirement_usage"@ {
        Construct::Requirement(ElementKind::RequirementUsage)
    } else if k == "verification_definition"@ {
        Construct::Verification(ElementKind::VerificationDefinition)
    } else if k == "verification_usage"@ {
        Construct::Verification(ElementKind::VerificationUsage)
    } else if k == "objective_usage"@ {
        Construct::Objective
    } else if k == "subject_statement"@ {
        Construct::Parameter(ElementKind::Subject)
    } else if k == "actor_usage"@ {
        Construct::Parameter(ElementKind::Actor)
    } else if k == "stakeholder_usage"@ {
        Construct::Parameter(ElementKind::Stakeholder)
    } else if k == "assume_statement"@ {
        Construct::ConstraintMember(true)
    } else if k == "require_statement"@ {
        Construct::ConstraintMember(false)
    } else if k == "satisfy_statement"@ || (k == "assert_statement"@ && has_token(t, i, "satisfy"@)) {
        Construct::Satisfaction
    } else if k == "verify_statement"@ {
        Construct::Verify
    } else if k == "shorthand_attribute"@ && has_token(t, i, ":>"@) {
        Construct::Element(ElementKind::GenericUsage)
    } else if element_kind_of(k) is Some {
        Construct::Element(element_kind_of(k)->0)
    } else if owns_members(t, i) {
        Construct::Owner
    } else {
        Construct::Transparent
    }
}

/// What the lowering makes of node `i`.
pub fn construct(t: &SyntaxTree, i: usize) -> (r: Construct)
    requires
        t.wf(),
        i < t.nodes@.len(),
    ensures
        r == construct_of(t, i as int),
{
    let k = t.nodes[i].kind.as_str();
    if same_text(k, "package_definition") || same_text(k, "library_package") {
        Construct::Package
    } else if same_text(k, "import_statement") {
        Construct::Import
    } else if same_text(k, "requirement_definition") {
        Construct::Requirement(ElementKind::RequirementDefinition)
    } else if same_text(k, "requirement_usage") {
        Construct::Requirement(ElementKind::RequirementUsage)
    } else if same_text(k, "verification_definition") {
        Construct::Verification(ElementKind::VerificationDefinition)
    } else if same_text(k, "verification_usage") {
        Construct::Verification(ElementKind::VerificationUsage)
    } else if same_text(k, "objective_usage") {
        Construct::Objective
    } else if same_text(k, "subject_statement") {
        Construct::Parameter(ElementKind::Subject)
    } else if same_text(k, "actor_usage") {
        Construct::Parameter(ElementKind::Actor)
    } else if same_text(k, "stakeholder_usage") {
        Construct::Parameter(ElementKind::Stakeholder)
    } else if same_text(k, "assume_statement") {
        Construct::ConstraintMember(true)
    } else if same_text(k, "require_statement") {
        Construct::ConstraintMember(false)
    } else if same_text(k, "satisfy_statement") || (same_text(k, "assert_statement") && has_direct_token(t, i, "satisfy")) {
        Construct::Satisfaction
    } else if same_text(k, "verify_statement") {
        Construct::Verify
    } else if same_text(k, "shorthand_attribute") && has_direct_token(t, i, ":>") {
        Construct::Element(ElementKind::GenericUsage)
    } else if let Some(kind) = element_kind(k) {
        Construct::Element(kind)
    } else if owns_member_body(t, i) {
        Construct::Owner
    } else {
        Construct::Transparent
    }
}

/// The kind of the element a construct declares, for those that declare one
/// in every case.
pub open spec fn declared_kind(c: Construct) -> Option<ElementKind> {
    match c {
        Construct::Package => Some(ElementKind::Package),
        Construct::Requirement(k) => Some(k),
        Construct::Verification(k) => Some(k),
        Construct::Objective => Some(ElementKind::Objective),
        Construct::Parameter(k) => Some(k),
        Construct::ConstraintMember(_) => Some(ElementKind::ConstraintUsage),
        Construct::Element(k) => Some(k),
        Construct::Owner => Some(ElementKind::GenericUsage),
        _ => None,
    }
}

/// Lowers node `i` by what it is; a node outside every construct is
/// transparent, and its named children are lowered in its context.
pub(crate) fn lower_node(t: &SyntaxTree, i: usize, source: SourceId, c: Context, p: &mut Project)
    requires
        can_lower(t, i as int, source, c, old(p)),
    ensures
        lowered(old(p), final(p)),
        declared_kind(construct_of(t, i as int)) matches Some(k) ==> adds_element(old(p), final(p)) && element_head(t,
            i as int, source, k, c, final(p).elements@[old(p).elements@.len() as int]),
    decreases t.nodes@.len() - i, 2int,
{
    match construct(t, i) {
        Construct::Package => lower_package(t, i, source, c, p),
        Construct::Import => lower_import(t, i, source, c, p),
        Construct::Requirement(kind) => lower_requirement(t, i, source, kind, c, p),
        Construct::Verification(kind) => lower_verification(t, i, source, kind, c, p),
        Construct::Objective => lower_objective(t, i, source, c, p),
        Construct::Parameter(kind) => lower_parameter(t, i, source, kind, c, p),
        Construct::ConstraintMember(assumption) => lower_constraint_member(t, i, source, c, assumption, p),
        Construct::Satisfaction => lower_satisfaction(t, i, source, c, p),
        Construct::Verify => lower_verify(t, i, source, c, p),
        Construct::Element(kind) => lower_element(t, i, source, kind, c, p),
        Construct::Owner => lower_unmodeled_owner(t, i, source, c, p),
        Construct::Transparent => lower_children(t, i, source, c, p),
    }
}

/// Node `child`, when it declares an element of some kind, was lowered to an
/// element of that kind in context `c`, among `elems` from index `from` on.
pub open spec fn child_lowered(t: &SyntaxTree, child: int, source: SourceId, c: Context, from: int, elems: Seq<Element>) -> bool {
    declared_kind(construct_of(t, child)) matches Some(k) ==> exists|e: int| 0 <= from <= e < elems.len()
        && element_head(t, child, source, k, c, #[trigger] elems[e])
}

/// An element lowered stays lowered as elements are appended.
pub proof fn lemma_child_lowered_kept(t: &SyntaxTree, child: int, source: SourceId, c: Context, from: int,
    a: Seq<Element>, b: Seq<Element>)
    requires
        extends_seq(a, b),
        child_lowered(t, child, source, c, from, a),
    ensures
        child_lowered(t, child, source, c, from, b),
{
    if let Some(k) = declared_kind(construct_of(t, child)) {
        let e = choose|e: int| 0 <= from <= e < a.len() && element_head(t, child, source, k, c, #[trigger] a[e]);
        assert(b[e] == a[e]);
    }
}

/// Lowers the named children of node `i`, in order, in context `c`.
pub(crate) fn lower_children(t: &SyntaxTree, i: usize, source: SourceId, c: Context, p: &mut Project)
    requires
        can_lower(t, i as int, source, c, old(p)),
    ensures
        lowered(old(p), final(p)),
        forall|j: int| 0 <= j < t.nodes@[i as int].children@.len() && t.nodes@[t.nodes@[i as int].children@[j] as int].named
            ==> child_lowered(t, #[trigger] t.nodes@[i as int].children@[j] as int, source, c,
            old(p).elements@.len() as int, final(p).elements@),
    decreases t.nodes@.len() - i, 0int,
{
    let ghost start = *p;
    let node = &t.nodes[i];
    let mut k: usize = 0;
    while k < node.children.len()
        invariant
            t.wf(),
            i < t.nodes@.len(),
            *node == t.nodes@[i as int],
            k <= node.children@.len(),
            p.wf(),
            grows(&start, p),
            source < p.sources@.len(),
            context_ok(p, c),
            forall|j: int| 0 <= j < k && t.nodes@[node.children@[j] as int].named ==> child_lowered(t,
                #[trigger] node.children@[j] as int, source, c, start.elements@.len() as int, p.elements@),
        decreases node.children@.len() - k,
    {
        let child = node.children[k];
        assert(i < child < t.nodes@.len()) by { assert(child == t.nodes@[i as int].children@[k as int]); }
        let ghost before = p.elements@;
        if t.nodes[child].named {
            lower_node(t, child, source, c, p);
        }
        proof {
            assert forall|j: int| 0 <= j < k + 1 && t.nodes@[node.children@[j] as int].named implies child_lowered(&t,
                #[trigger] node.children@[j] as int, source, c, start.elements@.len() as int, p.elements@) by {
                if j < k {
                    lemma_child_lowered_kept(t, node.children@[j] as int, source, c, start.elements@.len() as int,
                        before, p.elements@);
                } else if let Some(kd) = declared_kind(construct_of(t, child as int)) {
                    let e = before.len() as int;
                    assert(element_head(t, child as int, source, kd, c, p.elements@[e]));
                }
            }
        }
        k = k + 1;
    }
}


/// Each named top-level node of the SysML parse of `text` that declares an
/// element is lowered to an element of `p` of its kind, at the top of source
/// `k`.
pub open spec fn lowers_source_top(p: &Project, k: int, text: Seq<char>) -> bool {
    exists|t: SyntaxTree| #[trigger] parsed_tree(t, text) && t.wf() && forall|j: int| 0 <= j < t.nodes@[0].children@.len()
        && t.nodes@[t.nodes@[0].children@[j] as int].named ==> child_lowered(&t, #[trigger] t.nodes@[0].children@[j] as int,
        k as SourceId, top_context(), 0, p.elements@)
}

/// `p` is a well-formed project lowered from `sources`: one source for each,
/// in order, each path written with forward slashes, each source's top-level
/// declarations lowered.
pub open spec fn lowered_from(p: &Project, sources: Seq<(String, String)>) -> bool {
    &&& p.wf()
    &&& p.sources@.len() == sources.len()
    &&& forall|k: int| 0 <= k < sources.len() ==> (#[trigger] p.sources@[k]).path@ == normalized(sources[k].0@)
    &&& forall|k: int| 0 <= k < sources.len() ==> #[trigger] lowers_source_top(p, k, sources[k].1@)
}

/// A child lowered among the elements from some index on is lowered among
/// them all.
pub proof fn lemma_child_lowered_from_start(t: &SyntaxTree, child: int, source: SourceId, c: Context, from: int,
    elems: Seq<Element>)
    requires
        0 <= from,
        child_lowered(t, child, source, c, from, elems),
    ensures
        child_lowered(t, child, source, c, 0, elems),
{
    if let Some(k) = declared_kind(construct_of(t, child)) {
        let e = choose|e: int| 0 <= from <= e < elems.len() && element_head(t, child, source, k, c, #[trigger] elems[e]);
        assert(0 <= 0 <= e < elems.len() && element_head(t, child, source, k, c, elems[e]));
    }
}

impl Project {
    /// The project lowered from `(path, text)` sources, numbered in the order
    /// given (the inputs as discovered, sorted by path), each path written
    /// with forward slashes. The parser is always set up, so this succeeds.
    pub fn from_sources(sources: &Vec<(String, String)>) -> (r: Result<Project, CheckError>)
        ensures
            r is Ok,
            r matches Ok(p) ==> lowered_from(&p, sources@),
    {
        let mut parser = match sysml_parser() {
            Ok(parser) => parser,
            Err(message) => { return Err(CheckError::ParserInitialization(message)); }
        };
        let mut project = Project::empty();
        let mut k: usize = 0;
        while k < sources.len()
            invariant
                k <= sources@.len(),
                project.wf(),
                project.sources@.len() == k,
                forall|j: int| 0 <= j < k ==> (#[trigger] project.sources@[j]).path@ == normalized(sources@[j].0@),
                forall|j: int| 0 <= j < k ==> #[trigger] lowers_source_top(&project, j, sources@[j].1@),
            decreases sources@.len() - k,
        {
            let tree = parse_source(&mut parser, sources[k].1.as_str());
            let ghost before = project.sources@;
            let ghost before_elements = project.elements@;
            let ghost old_project = project;
            let source = add_source(&mut project, normalized_path(sources[k].0.as_str()));
            let ghost with_source = project.sources@;
            let ghost start = project.elements@.len() as int;
            lower_children(&tree, 0, source, Context::top(), &mut project);
            proof {
                assert(extends_seq(before_elements, project.elements@));
                assert forall|j: int| 0 <= j < k + 1 implies #[trigger] lowers_source_top(&project, j, sources@[j].1@) by {
                    if j < k {
                        assert(lowers_source_top(&old_project, j, sources@[j].1@));
                        assert(old_project.elements@ == before_elements);
                        let t = choose|t: SyntaxTree| #[trigger] parsed_tree(t, sources@[j].1@) && t.wf() && forall|c: int|
                            0 <= c < t.nodes@[0].children@.len() && t.nodes@[t.nodes@[0].children@[c] as int].named
                            ==> child_lowered(&t, #[trigger] t.nodes@[0].children@[c] as int, j as SourceId, top_context(), 0,
                            before_elements);
                        assert forall|c: int| 0 <= c < t.nodes@[0].children@.len()
                            && t.nodes@[t.nodes@[0].children@[c] as int].named implies child_lowered(&t,
                            #[trigger] t.nodes@[0].children@[c] as int, j as SourceId, top_context(), 0, project.elements@) by {
                            lemma_child_lowered_kept(&t, t.nodes@[0].children@[c] as int, j as SourceId, top_context(), 0,
                                before_elements, project.elements@);
                        }
                    } else {
                        assert forall|c: int| 0 <= c < tree.nodes@[0].children@.len()
                            && tree.nodes@[tree.nodes@[0].children@[c] as int].named implies child_lowered(&tree,
                            #[trigger] tree.nodes@[0].children@[c] as int, j as SourceId, top_context(), 0, project.elements@) by {
                            lemma_child_lowered_from_start(&tree, tree.nodes@[0].children@[c] as int, j as SourceId,
                                top_context(), start, project.elements@);
                        }
                        assert(parsed_tree(tree, sources@[j].1@));
                    }
                }
                assert forall|j: int| 0 <= j < k + 1 implies (#[trigger] project.sources@[j]).path@ == normalized(
                    sources@[j].0@) by {
                    assert(project.sources@[j] == with_source[j]);
                    if j < k {
                        assert(with_source[j] == before[j]);
                    }
                }
            }
            k = k + 1;
        }
        Ok(project)
    }
}

} // verus!
