//! Lowering a SysML syntax tree into the project model: the references,
//! names, types and documentation written at a node, and the elements and
//! records that each construct becomes.

use vstd::prelude::*;
use crate::canonical::{
    canonical_name, canonical_name_text, canonical_short_name, canonical_short_name_text,
    canonical_string_literal, canonical_string_literal_text, comment_text, comment_text_of, without_wildcard,
    without_wildcard_text,
};
use crate::growth::{extends_seq, grows, intern_name, same_records};
use crate::project::{Documentation, Position, Project, Reference, ReferenceForm, SourceId, Span};
use crate::queries::{
    child_at, child_count, collect_nodes, collected, direct_child, direct_children, first_named, has_direct_token, has_token, kind_at,
    named_child_list, named_children, named_kids, owns_documentation, owns_independent_documentation,
};
use crate::strings::{owned, same_text};
use crate::syntax::SyntaxTree;

verus! {

/// The source text kept at node `i`.
pub open spec fn text_at(t: &SyntaxTree, i: int) -> Seq<char> {
    t.nodes@[i].text@
}

/// The span of node `i` in source `source`, with one-based lines and columns.
pub open spec fn span_at(t: &SyntaxTree, i: int, source: SourceId) -> Span {
    let n = t.nodes@[i];
    Span {
        source,
        start: Position { byte: n.start_byte, line: (n.start_row + 1) as usize, column: (n.start_column + 1) as usize },
        end: Position { byte: n.end_byte, line: (n.end_row + 1) as usize, column: (n.end_column + 1) as usize },
    }
}

/// The span of node `i`.
pub fn node_span(t: &SyntaxTree, i: usize, source: SourceId) -> (s: Span)
    requires
        t.wf(),
        i < t.nodes@.len(),
    ensures
        s == span_at(t, i as int, source),
        s.start.line >= 1 && s.start.column >= 1 && s.end.line >= 1 && s.end.column >= 1,
{
    let n = &t.nodes[i];
    assert(t.nodes@[i as int].positions_bounded());
    Span {
        source,
        start: Position { byte: n.start_byte, line: n.start_row + 1, column: n.start_column + 1 },
        end: Position { byte: n.end_byte, line: n.end_row + 1, column: n.end_column + 1 },
    }
}

/// The segments of the reference written at node `i`: its names, each in
/// canonical form, or (with no name below it) its whole text without a
/// trailing `::*`.
pub open spec fn reference_segments(t: &SyntaxTree, i: int) -> Seq<Seq<char>> {
    let names = collected(t, i, "name"@, "name"@);
    if names.len() > 0 {
        Seq::new(names.len(), |j: int| canonical_name(text_at(t, names[j] as int)))
    } else {
        seq![canonical_name(without_wildcard(text_at(t, i)))]
    }
}

/// A feature chain is written with dots, anything else as a qualified name.
pub open spec fn form_at(t: &SyntaxTree, i: int) -> ReferenceForm {
    if kind_at(t, i) == "feature_chain"@ {
        ReferenceForm::FeatureChain
    } else {
        ReferenceForm::Qualified
    }
}

pub open spec fn separator(form: ReferenceForm) -> Seq<char> {
    match form {
        ReferenceForm::Qualified => "::"@,
        ReferenceForm::FeatureChain => "."@,
    }
}

/// The segments joined by the separator.
pub open spec fn joined(segments: Seq<Seq<char>>, sep: Seq<char>) -> Seq<char>
    decreases segments.len(),
{
    if segments.len() == 0 {
        Seq::empty()
    } else if segments.len() == 1 {
        segments[0]
    } else {
        joined(segments.drop_last(), sep) + sep + segments.last()
    }
}

pub open spec fn segment_texts(r: Reference) -> Seq<Seq<char>> {
    r.segments@.map_values(|s: String| s@)
}

/// `r` is the reference written at node `i` of source `source`.
pub open spec fn reference_of(t: &SyntaxTree, i: int, source: SourceId, r: Reference) -> bool {
    &&& segment_texts(r) == reference_segments(t, i)
    &&& r.form == form_at(t, i)
    &&& r.text@ == joined(reference_segments(t, i), separator(form_at(t, i)))
    &&& r.span == span_at(t, i, source)
}

/// What a lowering step may do to the project: grow it, keeping it well
/// formed.
pub open spec fn lowered(old: &Project, new: &Project) -> bool {
    &&& new.wf()
    &&& grows(old, new)
}

/// The segments joined by `sep`.
pub fn join_segments(segments: &Vec<String>, sep: &str) -> (r: String)
    ensures
        r@ == joined(segments@.map_values(|s: String| s@), sep@),
{
    let ghost views = segments@.map_values(|s: String| s@);
    if segments.len() == 0 {
        return String::new();
    }
    let mut r = segments[0].clone();
    proof {
        assert(views.take(1).len() == 1);
        assert(joined(views.take(1), sep@) == views[0]);
    }
    let mut k: usize = 1;
    while k < segments.len()
        invariant
            views == segments@.map_values(|s: String| s@),
            1 <= k <= segments@.len(),
            r@ == joined(views.take(k as int), sep@),
        decreases segments@.len() - k,
    {
        proof {
            assert(views.take(k + 1).drop_last() =~= views.take(k as int));
            assert(views.take(k + 1).last() == views[k as int]);
        }
        r = r.concat(sep);
        r = r.concat(segments[k].as_str());
        k = k + 1;
    }
    proof {
        assert(views.take(k as int) =~= views);
    }
    r
}

/// The reference written at node `i`, its segments interned in the project.
pub(crate) fn model_reference(t: &SyntaxTree, i: usize, source: SourceId, p: &mut Project) -> (r: Reference)
    requires
        t.wf(),
        i < t.nodes@.len(),
        old(p).wf(),
        source < old(p).sources@.len(),
    ensures
        lowered(old(p), final(p)),
        same_records(old(p), final(p)),
        final(p).reference_ok(r),
        reference_of(t, i as int, source, r),
{
    let ghost start = *p;
    let mut name_nodes: Vec<usize> = Vec::new();
    collect_nodes(t, i, "name", "name", &mut name_nodes);
    proof {
        assert(name_nodes@ =~= collected(t, i as int, "name"@, "name"@));
    }
    let ghost expected = reference_segments(t, i as int);
    let mut segments: Vec<String> = Vec::new();
    let mut names: Vec<usize> = Vec::new();
    let mut k: usize = 0;
    while k < name_nodes.len()
        invariant
            t.wf(),
            i < t.nodes@.len(),
            name_nodes@ == collected(t, i as int, "name"@, "name"@),
            forall|j: int| 0 <= j < name_nodes@.len() ==> i <= #[trigger] name_nodes@[j] < t.nodes@.len(),
            k <= name_nodes@.len(),
            p.wf(),
            grows(&start, p),
            same_records(&start, p),
            source < p.sources@.len(),
            segments@.len() == k,
            names@.len() == k,
            forall|j: int| 0 <= j < k ==> (#[trigger] segments@[j])@ == canonical_name(
                text_at(t, name_nodes@[j] as int)),
            forall|j: int| 0 <= j < k ==> p.name_is(#[trigger] names@[j], segments@[j]@),
        decreases name_nodes@.len() - k,
    {
        let c = name_nodes[k];
        let segment = canonical_name_text(t.nodes[c].text.as_str());
        let ghost before = *p;
        let id = intern_name(p, &segment);
        proof {
            assert forall|j: int| 0 <= j < k implies p.name_is(#[trigger] names@[j], segments@[j]@) by {
                assert(before.name_is(names@[j], segments@[j]@));
                assert(p.names@[names@[j] as int] == before.names@[names@[j] as int]);
            }
        }
        segments.push(segment);
        names.push(id);
        k = k + 1;
    }
    if segments.len() == 0 {
        let fallback = without_wildcard_text(t.nodes[i].text.as_str());
        let segment = canonical_name_text(fallback.as_str());
        let id = intern_name(p, &segment);
        segments.push(segment);
        names.push(id);
    }
    proof {
        assert(segments@.map_values(|s: String| s@) =~= expected);
    }
    let form = if same_text(t.nodes[i].kind.as_str(), "feature_chain") {
        ReferenceForm::FeatureChain
    } else {
        ReferenceForm::Qualified
    };
    let sep = match form {
        ReferenceForm::Qualified => "::",
        ReferenceForm::FeatureChain => ".",
    };
    let text = join_segments(&segments, sep);
    let span = node_span(t, i, source);
    let r = Reference { text, segments, names, form, span };
    proof {
        assert(segment_texts(r) == expected);
        assert forall|j: int| 0 <= j < r.names@.len() implies p.name_is(#[trigger] r.names@[j], r.segments@[j]@) by {}
    }
    r
}


/// The segments and text of a pure chain of names written at node `i`: a
/// qualified name or feature chain, or a member access `base.name` whose base
/// is one.
pub open spec fn chain_of(t: &SyntaxTree, i: int) -> Option<(Seq<Seq<char>>, Seq<char>)>
    decreases t.nodes@.len() - i,
{
    if !(0 <= i < t.nodes@.len()) {
        None
    } else if kind_at(t, i) == "feature_chain"@ || kind_at(t, i) == "qualified_name"@ {
        Some((reference_segments(t, i), joined(reference_segments(t, i), separator(form_at(t, i)))))
    } else if kind_at(t, i) != "feature_chain_expression"@ {
        None
    } else {
        let kids = named_kids(t, i);
        if kids.len() != 2 || kind_at(t, kids[1] as int) != "name"@ || !(i < kids[0] < t.nodes@.len()) {
            None
        } else {
            match chain_of(t, kids[0] as int) {
                Some(c) => {
                    let m = canonical_name(text_at(t, kids[1] as int));
                    Some((c.0.push(m), c.1 + "."@ + m))
                },
                None => None,
            }
        }
    }
}

/// `r` is the pure chain written at node `i`, or there is none and `r` is
/// `None`.
pub open spec fn chain_result(t: &SyntaxTree, i: int, source: SourceId, r: Option<Reference>) -> bool {
    match r {
        Some(x) => chain_of(t, i) == Some((segment_texts(x), x.text@)) && x.span == span_at(t, i, source),
        None => chain_of(t, i) is None,
    }
}

/// The reference written as a pure chain of names at node `i`, if it is one.
pub(crate) fn pure_reference(t: &SyntaxTree, i: usize, source: SourceId, p: &mut Project) -> (r: Option<Reference>)
    requires
        t.wf(),
        i < t.nodes@.len(),
        old(p).wf(),
        source < old(p).sources@.len(),
    ensures
        lowered(old(p), final(p)),
        same_records(old(p), final(p)),
        final(p).opt_reference_ok(r),
        chain_result(t, i as int, source, r),
    decreases t.nodes@.len() - i,
{
    let kind = t.nodes[i].kind.as_str();
    if same_text(kind, "feature_chain") || same_text(kind, "qualified_name") {
        let r = model_reference(t, i, source, p);
        return Some(r);
    }
    if !same_text(kind, "feature_chain_expression") {
        return None;
    }
    let kids = named_child_list(t, i);
    if kids.len() != 2 || !same_text(t.nodes[kids[1]].kind.as_str(), "name") {
        return None;
    }
    let ghost start = *p;
    let mut reference = match pure_reference(t, kids[0], source, p) {
        Some(r) => r,
        None => { return None; }
    };
    let member = canonical_name_text(t.nodes[kids[1]].text.as_str());
    let ghost before = *p;
    let id = intern_name(p, &member);
    proof {
        crate::growth::lemma_reference_kept(&before, p, reference);
    }
    let text = reference.text.concat(".");
    reference.text = text.concat(member.as_str());
    let ghost old_segments = reference.segments@;
    reference.segments.push(member);
    reference.names.push(id);
    reference.form = ReferenceForm::FeatureChain;
    reference.span = node_span(t, i, source);
    proof {
        assert(segment_texts(reference) =~= old_segments.map_values(|s: String| s@).push(
            canonical_name(text_at(t, kids@[1] as int))));
        assert forall|j: int| 0 <= j < reference.names@.len() implies p.name_is(#[trigger] reference.names@[j],
            reference.segments@[j]@) by {}
    }
    Some(reference)
}

/// The declaration of a definition or usage at node `i`.
pub open spec fn declaration_of(t: &SyntaxTree, i: int) -> Option<usize> {
    match first_named(t, i, "usage_declaration"@) {
        Some(d) => Some(d),
        None => match first_named(t, i, "definition_declaration"@) {
            Some(d) => Some(d),
            None => match match first_named(t, i, "usage"@) {
                Some(u) => first_named(t, u as int, "usage_declaration"@),
                None => None,
            } {
                Some(d) => Some(d),
                None => match first_named(t, i, "definition"@) {
                    Some(u) => first_named(t, u as int, "definition_declaration"@),
                    None => None,
                },
            },
        },
    }
}

/// The declaration node of node `i`.
pub fn declaration(t: &SyntaxTree, i: usize) -> (r: Option<usize>)
    requires
        t.wf(),
        i < t.nodes@.len(),
    ensures
        r == declaration_of(t, i as int),
        r matches Some(d) ==> i < d < t.nodes@.len(),
{
    if let Some(d) = direct_child(t, i, "usage_declaration") {
        return Some(d);
    }
    if let Some(d) = direct_child(t, i, "definition_declaration") {
        return Some(d);
    }
    if let Some(u) = direct_child(t, i, "usage") {
        if let Some(d) = direct_child(t, u, "usage_declaration") {
            return Some(d);
        }
    }
    match direct_child(t, i, "definition") {
        Some(u) => direct_child(t, u, "definition_declaration"),
        None => None,
    }
}

/// The node of the feature a parameter is bound to: a chain or expression in
/// the value part of its declaration.
pub open spec fn binding_node(t: &SyntaxTree, i: int) -> Option<usize> {
    match declaration_of(t, i) {
        None => None,
        Some(d) => match first_named(t, d as int, "value_part"@) {
            None => None,
            Some(v) => match first_named(t, v as int, "feature_chain"@) {
                Some(x) => Some(x),
                None => match first_named(t, v as int, "qualified_name"@) {
                    Some(x) => Some(x),
                    None => first_named(t, v as int, "feature_chain_expression"@),
                },
            },
        },
    }
}

/// The feature a subject, actor or stakeholder is bound to, when its value
/// is a pure chain of names.
pub(crate) fn parameter_binding(t: &SyntaxTree, i: usize, source: SourceId, p: &mut Project) -> (r: Option<Reference>)
    requires
        t.wf(),
        i < t.nodes@.len(),
        old(p).wf(),
        source < old(p).sources@.len(),
    ensures
        lowered(old(p), final(p)),
        same_records(old(p), final(p)),
        final(p).opt_reference_ok(r),
        match binding_node(t, i as int) {
            Some(b) => chain_result(t, b as int, source, r),
            None => r is None,
        },
{
    let d = match declaration(t, i) {
        Some(d) => d,
        None => { return None; }
    };
    let v = match direct_child(t, d, "value_part") {
        Some(v) => v,
        None => { return None; }
    };
    let b = match direct_child(t, v, "feature_chain") {
        Some(x) => x,
        None => match direct_child(t, v, "qualified_name") {
            Some(x) => x,
            None => match direct_child(t, v, "feature_chain_expression") {
                Some(x) => x,
                None => { return None; }
            },
        },
    };
    pure_reference(t, b, source, p)
}

pub open spec fn opt_view(o: Option<String>) -> Option<Seq<char>> {
    match o {
        Some(s) => Some(s@),
        None => None,
    }
}

/// The short name and name declared by an identification node.
pub open spec fn identification_of(t: &SyntaxTree, x: int) -> (Option<Seq<char>>, Option<Seq<char>>) {
    let names = named_children(t, x, "name"@);
    let explicit_id = has_token(t, x, "id"@);
    let short = match first_named(t, x, "short_name"@) {
        Some(s) => Some(canonical_short_name(text_at(t, s as int))),
        None => match first_named(t, x, "string_literal"@) {
            Some(s) => Some(canonical_string_literal(text_at(t, s as int))),
            None => if explicit_id && names.len() > 0 {
                Some(canonical_name(text_at(t, names[0] as int)))
            } else {
                None
            },
        },
    };
    let name = if explicit_id {
        let index: int = if first_named(t, x, "string_literal"@) is None { 1 } else { 0 };
        if index < names.len() {
            Some(canonical_name(text_at(t, names[index] as int)))
        } else {
            None
        }
    } else if names.len() > 0 {
        Some(canonical_name(text_at(t, names.last() as int)))
    } else {
        None
    };
    (short, name)
}

/// The short name and name declared by an identification node.
pub(crate) fn identification_names(t: &SyntaxTree, x: usize) -> (r: (Option<String>, Option<String>))
    requires
        t.wf(),
        x < t.nodes@.len(),
    ensures
        (opt_view(r.0), opt_view(r.1)) == identification_of(t, x as int),
{
    let names = direct_children(t, x, "name");
    let explicit_id = has_direct_token(t, x, "id");
    let literal = direct_child(t, x, "string_literal");
    let short = match direct_child(t, x, "short_name") {
        Some(s) => Some(canonical_short_name_text(t.nodes[s].text.as_str())),
        None => match literal {
            Some(s) => Some(canonical_string_literal_text(t.nodes[s].text.as_str())),
            None => if explicit_id && names.len() > 0 {
                Some(canonical_name_text(t.nodes[names[0]].text.as_str()))
            } else {
                None
            },
        },
    };
    let name = if explicit_id {
        let index: usize = if literal.is_none() { 1 } else { 0 };
        if index < names.len() {
            Some(canonical_name_text(t.nodes[names[index]].text.as_str()))
        } else {
            None
        }
    } else if names.len() > 0 {
        Some(canonical_name_text(t.nodes[names[names.len() - 1]].text.as_str()))
    } else {
        None
    };
    (short, name)
}

/// The identification node of the element at node `i`: that of its
/// declaration, else its own.
pub open spec fn identification_node(t: &SyntaxTree, i: int) -> Option<usize> {
    match match declaration_of(t, i) {
        Some(d) => first_named(t, d as int, "identification"@),
        None => None,
    } {
        Some(x) => Some(x),
        None => first_named(t, i, "identification"@),
    }
}

/// The short name and name of the element declared at node `i`; a shorthand
/// attribute has only its written name.
pub open spec fn element_names_of(t: &SyntaxTree, i: int) -> (Option<Seq<char>>, Option<Seq<char>>) {
    if kind_at(t, i) == "shorthand_attribute"@ {
        (None, match first_named(t, i, "name"@) {
            Some(n) => Some(canonical_name(text_at(t, n as int))),
            None => None,
        })
    } else {
        match identification_node(t, i) {
            Some(x) => identification_of(t, x as int),
            None => (None, None),
        }
    }
}

/// The short name and name of the element declared at node `i`.
pub(crate) fn element_names(t: &SyntaxTree, i: usize) -> (r: (Option<String>, Option<String>))
    requires
        t.wf(),
        i < t.nodes@.len(),
    ensures
        (opt_view(r.0), opt_view(r.1)) == element_names_of(t, i as int),
{
    if same_text(t.nodes[i].kind.as_str(), "shorthand_attribute") {
        let name = match direct_child(t, i, "name") {
            Some(n) => Some(canonical_name_text(t.nodes[n].text.as_str())),
            None => None,
        };
        return (None, name);
    }
    let from_declaration = match declaration(t, i) {
        Some(d) => direct_child(t, d, "identification"),
        None => None,
    };
    let identification = match from_declaration {
        Some(x) => Some(x),
        None => direct_child(t, i, "identification"),
    };
    match identification {
        Some(x) => identification_names(t, x),
        None => (None, None),
    }
}

/// `rs` are the references written at `nodes`, in order.
pub open spec fn references_at(t: &SyntaxTree, nodes: Seq<usize>, source: SourceId, rs: Seq<Reference>) -> bool {
    &&& rs.len() == nodes.len()
    &&& forall|j: int| 0 <= j < rs.len() ==> reference_of(t, #[trigger] nodes[j] as int, source, rs[j])
}

/// The references written at the given nodes.
pub(crate) fn references_for(t: &SyntaxTree, nodes: &Vec<usize>, source: SourceId, p: &mut Project) -> (r: Vec<Reference>)
    requires
        t.wf(),
        forall|j: int| 0 <= j < nodes@.len() ==> #[trigger] nodes@[j] < t.nodes@.len(),
        old(p).wf(),
        source < old(p).sources@.len(),
    ensures
        lowered(old(p), final(p)),
        same_records(old(p), final(p)),
        final(p).references_ok(r@),
        references_at(t, nodes@, source, r@),
{
    let ghost start = *p;
    let mut r: Vec<Reference> = Vec::new();
    let mut k: usize = 0;
    while k < nodes.len()
        invariant
            t.wf(),
            forall|j: int| 0 <= j < nodes@.len() ==> #[trigger] nodes@[j] < t.nodes@.len(),
            k <= nodes@.len(),
            p.wf(),
            grows(&start, p),
            same_records(&start, p),
            source < p.sources@.len(),
            r@.len() == k,
            p.references_ok(r@),
            forall|j: int| 0 <= j < k ==> reference_of(t, #[trigger] nodes@[j] as int, source, r@[j]),
        decreases nodes@.len() - k,
    {
        let ghost before = *p;
        let reference = model_reference(t, nodes[k], source, p);
        proof {
            crate::growth::lemma_references_kept(&before, p, r@);
        }
        r.push(reference);
        proof {
            assert forall|j: int| 0 <= j < r@.len() implies p.reference_ok(#[trigger] r@[j]) by {
                if j < k {
                    assert(before.references_ok(r@.drop_last()));
                }
            }
        }
        k = k + 1;
    }
    r
}

/// The type references of the element at node `i`: the qualified names in
/// the typing part of its declaration (or of the node itself).
pub open spec fn type_reference_nodes(t: &SyntaxTree, i: int) -> Seq<usize> {
    let root = match declaration_of(t, i) {
        Some(d) => d as int,
        None => i,
    };
    match first_named(t, root, "typing_part"@) {
        Some(typing) => collected(t, typing as int, "qualified_name"@, "qualified_name"@),
        None => Seq::empty(),
    }
}

/// The declared types of the element at node `i`.
pub(crate) fn declaration_types(t: &SyntaxTree, i: usize, source: SourceId, p: &mut Project) -> (r: Vec<Reference>)
    requires
        t.wf(),
        i < t.nodes@.len(),
        old(p).wf(),
        source < old(p).sources@.len(),
    ensures
        lowered(old(p), final(p)),
        same_records(old(p), final(p)),
        final(p).references_ok(r@),
        references_at(t, type_reference_nodes(t, i as int), source, r@),
{
    let root = match declaration(t, i) {
        Some(d) => d,
        None => i,
    };
    let mut nodes: Vec<usize> = Vec::new();
    if let Some(typing) = direct_child(t, root, "typing_part") {
        collect_nodes(t, typing, "qualified_name", "qualified_name", &mut nodes);
    }
    proof {
        assert(nodes@ =~= type_reference_nodes(t, i as int));
    }
    references_for(t, &nodes, source, p)
}

/// The specialization part of the element at node `i`, when it has one
/// directly (a shorthand `:>` attribute counts its qualified name).
pub open spec fn specialization_node(t: &SyntaxTree, i: int) -> Option<usize> {
    match first_named(t, i, "definition_specialization"@) {
        Some(s) => Some(s),
        None => match first_named(t, i, "specialization_part"@) {
            Some(s) => Some(s),
            None => if kind_at(t, i) == "shorthand_attribute"@ && has_token(t, i, ":>"@) {
                first_named(t, i, "qualified_name"@)
            } else {
                None
            },
        },
    }
}

/// The reference nodes below each of the given nodes, in order.
pub open spec fn references_below(t: &SyntaxTree, parts: Seq<usize>) -> Seq<usize>
    decreases parts.len(),
{
    if parts.len() == 0 {
        Seq::empty()
    } else {
        references_below(t, parts.drop_last()) + collected(t, parts.last() as int, "qualified_name"@,
            "feature_chain"@)
    }
}

/// The specialization references of the element at node `i`: those below its
/// own specialization part, else those below each specialization part of its
/// declaration.
pub open spec fn specialization_reference_nodes(t: &SyntaxTree, i: int) -> Seq<usize> {
    match specialization_node(t, i) {
        Some(s) => collected(t, s as int, "qualified_name"@, "feature_chain"@),
        None => match declaration_of(t, i) {
            Some(d) => references_below(t, collected(t, d as int, "specialization_part"@, "specialization_part"@)),
            None => Seq::empty(),
        },
    }
}

/// The specializations of the element at node `i`.
pub(crate) fn specialization_types(t: &SyntaxTree, i: usize, source: SourceId, p: &mut Project) -> (r: Vec<Reference>)
    requires
        t.wf(),
        i < t.nodes@.len(),
        old(p).wf(),
        source < old(p).sources@.len(),
    ensures
        lowered(old(p), final(p)),
        same_records(old(p), final(p)),
        final(p).references_ok(r@),
        references_at(t, specialization_reference_nodes(t, i as int), source, r@),
{
    let own = match direct_child(t, i, "definition_specialization") {
        Some(s) => Some(s),
        None => match direct_child(t, i, "specialization_part") {
            Some(s) => Some(s),
            None => if same_text(t.nodes[i].kind.as_str(), "shorthand_attribute") && has_direct_token(t, i, ":>") {
                direct_child(t, i, "qualified_name")
            } else {
                None
            },
        },
    };
    let mut nodes: Vec<usize> = Vec::new();
    match own {
        Some(s) => {
            collect_nodes(t, s, "qualified_name", "feature_chain", &mut nodes);
            proof { assert(nodes@ =~= specialization_reference_nodes(t, i as int)); }
        }
        None => {
            if let Some(d) = declaration(t, i) {
                let mut parts: Vec<usize> = Vec::new();
                collect_nodes(t, d, "specialization_part", "specialization_part", &mut parts);
                proof { assert(parts@ =~= collected(t, d as int, "specialization_part"@, "specialization_part"@)); }
                let mut k: usize = 0;
                while k < parts.len()
                    invariant
                        t.wf(),
                        k <= parts@.len(),
                        forall|j: int| 0 <= j < parts@.len() ==> #[trigger] parts@[j] < t.nodes@.len(),
                        nodes@ == references_below(t, parts@.take(k as int)),
                        forall|j: int| 0 <= j < nodes@.len() ==> #[trigger] nodes@[j] < t.nodes@.len(),
                    decreases parts@.len() - k,
                {
                    let ghost before = nodes@;
                    collect_nodes(t, parts[k], "qualified_name", "feature_chain", &mut nodes);
                    proof {
                        assert(parts@.take(k + 1).drop_last() =~= parts@.take(k as int));
                        assert forall|j: int| 0 <= j < nodes@.len() implies #[trigger] nodes@[j] < t.nodes@.len() by {
                            if j < before.len() {
                                assert(nodes@[j] == before[j]);
                            }
                        }
                    }
                    k = k + 1;
                }
                proof { assert(parts@.take(k as int) =~= parts@); }
            } else {
                proof { assert(nodes@ =~= specialization_reference_nodes(t, i as int)); }
            }
        }
    }
    references_for(t, &nodes, source, p)
}


/// The comment bodies whose documentation belongs to the element at `root`,
/// found from node `i` down through named children: a `doc` comment counts
/// with its body, and a construct that keeps its own documentation is not
/// searched.
pub open spec fn doc_bodies(t: &SyntaxTree, root: int, i: int) -> Seq<usize>
    decreases t.nodes@.len() - i, 1int, 0int,
{
    if !(0 <= i < t.nodes@.len()) {
        Seq::empty()
    } else if i != root && owns_documentation(t, i) {
        Seq::empty()
    } else if kind_at(t, i) == "documentation"@ {
        match first_named(t, i, "block_comment_body"@) {
            Some(b) => seq![b],
            None => Seq::empty(),
        }
    } else {
        doc_children(t, root, i, child_count(t, i))
    }
}

/// `doc_bodies` below the first `k` named children of node `i`.
pub open spec fn doc_children(t: &SyntaxTree, root: int, i: int, k: int) -> Seq<usize>
    decreases t.nodes@.len() - i, 0int, k,
{
    if !(0 <= i < t.nodes@.len()) || k <= 0 || k > child_count(t, i) {
        Seq::empty()
    } else {
        let c = child_at(t, i, k - 1);
        doc_children(t, root, i, k - 1) + if t.nodes@[c].named && i < c < t.nodes@.len() {
            doc_bodies(t, root, c)
        } else {
            Seq::empty()
        }
    }
}

/// `d` is the documentation of the comment body at node `b`.
pub open spec fn doc_is(t: &SyntaxTree, b: int, source: SourceId, d: Documentation) -> bool {
    d.text@ == comment_text(text_at(t, b)) && d.span == span_at(t, b, source)
}

/// `docs` are the documentation of the comment bodies `bodies`, in order.
pub open spec fn docs_of(t: &SyntaxTree, bodies: Seq<usize>, source: SourceId, docs: Seq<Documentation>) -> bool {
    &&& docs.len() == bodies.len()
    &&& forall|j: int| 0 <= j < docs.len() ==> doc_is(t, #[trigger] bodies[j] as int, source, docs[j])
}

/// Appends the documentation of the element at `root` found from node `i`.
fn collect_documentation(t: &SyntaxTree, root: usize, i: usize, source: SourceId, out: &mut Vec<Documentation>)
    requires
        t.wf(),
        i < t.nodes@.len(),
    ensures
        extends_seq(old(out)@, final(out)@),
        docs_of(t, doc_bodies(t, root as int, i as int), source, final(out)@.skip(old(out)@.len() as int)),
    decreases t.nodes@.len() - i,
{
    let ghost start = out@;
    if i != root && owns_independent_documentation(t, i) {
        proof { assert(out@.skip(start.len() as int) =~= Seq::<Documentation>::empty()); }
        return;
    }
    if same_text(t.nodes[i].kind.as_str(), "documentation") {
        if let Some(body) = direct_child(t, i, "block_comment_body") {
            let text = comment_text_of(t.nodes[body].text.as_str());
            let span = node_span(t, body, source);
            out.push(Documentation { text, span });
        }
        proof { assert(out@.skip(start.len() as int).len() == doc_bodies(t, root as int, i as int).len()); }
        return;
    }
    let node = &t.nodes[i];
    let mut k: usize = 0;
    while k < node.children.len()
        invariant
            t.wf(),
            i < t.nodes@.len(),
            *node == t.nodes@[i as int],
            !(i != root && owns_documentation(t, i as int)),
            kind_at(t, i as int) != "documentation"@,
            k <= node.children@.len(),
            extends_seq(start, out@),
            docs_of(t, doc_children(t, root as int, i as int, k as int), source, out@.skip(start.len() as int)),
        decreases node.children@.len() - k,
    {
        let c = node.children[k];
        assert(i < c < t.nodes@.len()) by { assert(c == t.nodes@[i as int].children@[k as int]); }
        let ghost before = out@;
        if t.nodes[c].named {
            collect_documentation(t, root, c, source, out);
        }
        proof {
            let prev = doc_children(t, root as int, i as int, k as int);
            let added = if t.nodes@[c as int].named { doc_bodies(t, root as int, c as int) } else { Seq::empty() };
            assert(doc_children(t, root as int, i as int, k + 1) =~= prev + added);
            assert(out@.skip(start.len() as int) =~= before.skip(start.len() as int) + out@.skip(before.len() as int));
            if !t.nodes@[c as int].named {
                assert(out@ == before);
            }
        }
        k = k + 1;
    }
}

/// The documentation written for the element at node `i`.
pub(crate) fn documentation(t: &SyntaxTree, i: usize, source: SourceId) -> (r: Vec<Documentation>)
    requires
        t.wf(),
        i < t.nodes@.len(),
    ensures
        docs_of(t, doc_bodies(t, i as int, i as int), source, r@),
{
    let mut r: Vec<Documentation> = Vec::new();
    collect_documentation(t, i, i, source, &mut r);
    proof { assert(r@.skip(0) =~= r@); }
    r
}

} // verus!
