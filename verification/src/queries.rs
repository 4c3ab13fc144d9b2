//! Queries over syntax trees: children and descendants of a kind, tokens,
//! and the grammar facts the lowering decides on.

use vstd::prelude::*;
use crate::canonical::{ends_with_text, has_suffix};
use crate::project::ElementKind;
use crate::strings::same_text;
use crate::syntax::SyntaxTree;

verus! {

pub open spec fn kind_at(t: &SyntaxTree, i: int) -> Seq<char> {
    t.nodes@[i].kind@
}

pub open spec fn child_at(t: &SyntaxTree, i: int, k: int) -> int {
    t.nodes@[i].children@[k] as int
}

pub open spec fn child_count(t: &SyntaxTree, i: int) -> int {
    t.nodes@[i].children@.len() as int
}

/// Node `c` is a named node of the given kind.
pub open spec fn named_of(t: &SyntaxTree, c: int, kind: Seq<char>) -> bool {
    t.nodes@[c].named && t.nodes@[c].kind@ == kind
}

/// The first named child of node `i` of the given kind, among its children
/// from the `k`-th on.
pub open spec fn first_named_from(t: &SyntaxTree, i: int, kind: Seq<char>, k: int) -> Option<usize>
    decreases child_count(t, i) - k,
{
    if k < 0 || k >= child_count(t, i) {
        None
    } else if named_of(t, child_at(t, i, k), kind) {
        Some(t.nodes@[i].children@[k])
    } else {
        first_named_from(t, i, kind, k + 1)
    }
}

/// The first named child of node `i` of the given kind.
pub open spec fn first_named(t: &SyntaxTree, i: int, kind: Seq<char>) -> Option<usize> {
    first_named_from(t, i, kind, 0)
}

/// The named children of node `i` of the given kind among its first `k`
/// children, in order.
pub open spec fn named_children_upto(t: &SyntaxTree, i: int, kind: Seq<char>, k: int) -> Seq<usize>
    decreases k,
{
    if k <= 0 || k > child_count(t, i) {
        Seq::empty()
    } else {
        let c = t.nodes@[i].children@[k - 1];
        named_children_upto(t, i, kind, k - 1) + if named_of(t, c as int, kind) {
            seq![c]
        } else {
            Seq::empty()
        }
    }
}

/// The named children of node `i` of the given kind, in order.
pub open spec fn named_children(t: &SyntaxTree, i: int, kind: Seq<char>) -> Seq<usize> {
    named_children_upto(t, i, kind, child_count(t, i))
}

/// Some child of node `i`, named or not, is of the given kind (a token).
pub open spec fn has_token(t: &SyntaxTree, i: int, token: Seq<char>) -> bool {
    exists|k: int| 0 <= k < child_count(t, i) && #[trigger] kind_at(t, child_at(t, i, k)) == token
}

/// The first node in preorder, from `i` down through named children, of the
/// given kind.
pub open spec fn find_below(t: &SyntaxTree, i: int, kind: Seq<char>) -> Option<usize>
    decreases t.nodes@.len() - i, 1int, 0int,
{
    if !(0 <= i < t.nodes@.len()) {
        None
    } else if kind_at(t, i) == kind {
        Some(i as usize)
    } else {
        find_in_children(t, i, kind, 0)
    }
}

/// `find_below` over the named children of `i` from the `k`-th on.
pub open spec fn find_in_children(t: &SyntaxTree, i: int, kind: Seq<char>, k: int) -> Option<usize>
    decreases t.nodes@.len() - i, 0int, child_count(t, i) - k,
{
    if !(0 <= i < t.nodes@.len()) || k < 0 || k >= child_count(t, i) {
        None
    } else {
        let c = child_at(t, i, k);
        if t.nodes@[c].named && i < c < t.nodes@.len() {
            match find_below(t, c, kind) {
                Some(d) => Some(d),
                None => find_in_children(t, i, kind, k + 1),
            }
        } else {
            find_in_children(t, i, kind, k + 1)
        }
    }
}

/// The topmost nodes of kind `a` or `b`, from `i` down through named
/// children, in preorder: a match is not searched further.
pub open spec fn collected(t: &SyntaxTree, i: int, a: Seq<char>, b: Seq<char>) -> Seq<usize>
    decreases t.nodes@.len() - i, 1int, 0int,
{
    if !(0 <= i < t.nodes@.len()) {
        Seq::empty()
    } else if kind_at(t, i) == a || kind_at(t, i) == b {
        seq![i as usize]
    } else {
        collected_children(t, i, a, b, child_count(t, i))
    }
}

/// `collected` over the first `k` named children of `i`.
pub open spec fn collected_children(t: &SyntaxTree, i: int, a: Seq<char>, b: Seq<char>, k: int) -> Seq<usize>
    decreases t.nodes@.len() - i, 0int, k,
{
    if !(0 <= i < t.nodes@.len()) || k <= 0 || k > child_count(t, i) {
        Seq::empty()
    } else {
        let c = child_at(t, i, k - 1);
        collected_children(t, i, a, b, k - 1) + if t.nodes@[c].named && i < c < t.nodes@.len() {
            collected(t, c, a, b)
        } else {
            Seq::empty()
        }
    }
}

/// The element kind that a grammar kind lowers to, for the kinds that become
/// plain elements.
pub open spec fn element_kind_of(kind: Seq<char>) -> Option<ElementKind> {
    if kind == "part_definition"@ {
        Some(ElementKind::PartDefinition)
    } else if kind == "part_usage"@ {
        Some(ElementKind::PartUsage)
    } else if kind == "constraint_definition"@ {
        Some(ElementKind::ConstraintDefinition)
    } else if kind == "constraint_usage"@ {
        Some(ElementKind::ConstraintUsage)
    } else if has_suffix(kind, "_definition"@) {
        Some(ElementKind::GenericDefinition)
    } else if has_suffix(kind, "_usage"@) {
        Some(ElementKind::GenericUsage)
    } else {
        None
    }
}

/// The body kinds whose braces open a member body.
pub open spec fn is_body_kind(kind: Seq<char>) -> bool {
    kind == "action_body"@ || kind == "constraint_body"@ || kind == "definition_body"@
        || kind == "package_body"@ || kind == "requirement_body"@ || kind == "state_body"@
        || kind == "structural_body"@ || kind == "usage_body"@
}

/// The control constructs that own a braced member body.
pub open spec fn is_control_kind(kind: Seq<char>) -> bool {
    kind == "then_if_block"@ || kind == "if_else_block"@ || kind == "control_node"@
        || kind == "then_succession"@ || kind == "for_loop"@ || kind == "while_loop"@
        || kind == "loop_until"@
}

/// Node `i` owns a member body: a named body child with braces, or braces of
/// its own on a statement or control construct.
pub open spec fn owns_members(t: &SyntaxTree, i: int) -> bool {
    ||| exists|k: int| 0 <= k < child_count(t, i) && #[trigger] body_child(t, child_at(t, i, k))
    ||| has_token(t, i, "{"@) && (has_suffix(kind_at(t, i), "_statement"@) || is_control_kind(kind_at(t, i)))
}

pub open spec fn body_child(t: &SyntaxTree, c: int) -> bool {
    t.nodes@[c].named && is_body_kind(kind_at(t, c)) && has_token(t, c, "{"@)
}

/// The constructs whose documentation is their own, not their owner's.
pub open spec fn is_documented_kind(kind: Seq<char>) -> bool {
    kind == "requirement_definition"@ || kind == "requirement_usage"@ || kind == "verification_definition"@
        || kind == "verification_usage"@ || kind == "objective_usage"@ || kind == "satisfy_statement"@
        || kind == "verify_statement"@ || kind == "package_definition"@ || kind == "library_package"@
        || kind == "subject_statement"@ || kind == "actor_usage"@ || kind == "stakeholder_usage"@
        || kind == "assume_statement"@ || kind == "require_statement"@ || kind == "perform_statement"@
}

/// Node `i` keeps the documentation written inside it to itself.
pub open spec fn owns_documentation(t: &SyntaxTree, i: int) -> bool {
    ||| is_documented_kind(kind_at(t, i))
    ||| has_suffix(kind_at(t, i), "_statement"@)
    ||| element_kind_of(kind_at(t, i)) is Some
    ||| owns_members(t, i)
}

/// The first named child of node `i` of the given kind.
pub(crate) fn direct_child(t: &SyntaxTree, i: usize, kind: &str) -> (r: Option<usize>)
    requires
        t.wf(),
        i < t.nodes@.len(),
    ensures
        r == first_named(t, i as int, kind@),
        r matches Some(c) ==> i < c < t.nodes@.len() && named_of(t, c as int, kind@),
{
    let node = &t.nodes[i];
    let mut k: usize = 0;
    while k < node.children.len()
        invariant
            t.wf(),
            i < t.nodes@.len(),
            *node == t.nodes@[i as int],
            k <= node.children@.len(),
            first_named_from(t, i as int, kind@, k as int) == first_named(t, i as int, kind@),
        decreases node.children@.len() - k,
    {
        let c = node.children[k];
        assert(i < c < t.nodes@.len()) by { assert(c == t.nodes@[i as int].children@[k as int]); }
        if t.nodes[c].named && same_text(t.nodes[c].kind.as_str(), kind) {
            return Some(c);
        }
        k = k + 1;
    }
    None
}

/// The named children of node `i` of the given kind, in order.
pub(crate) fn direct_children(t: &SyntaxTree, i: usize, kind: &str) -> (r: Vec<usize>)
    requires
        t.wf(),
        i < t.nodes@.len(),
    ensures
        r@ == named_children(t, i as int, kind@),
        forall|j: int| 0 <= j < r@.len() ==> i < #[trigger] r@[j] < t.nodes@.len() && named_of(t, r@[j] as int, kind@),
{
    let node = &t.nodes[i];
    let mut r: Vec<usize> = Vec::new();
    let mut k: usize = 0;
    while k < node.children.len()
        invariant
            t.wf(),
            i < t.nodes@.len(),
            *node == t.nodes@[i as int],
            k <= node.children@.len(),
            r@ == named_children_upto(t, i as int, kind@, k as int),
            forall|j: int| 0 <= j < r@.len() ==> i < #[trigger] r@[j] < t.nodes@.len() && named_of(t, r@[j] as int, kind@),
        decreases node.children@.len() - k,
    {
        let c = node.children[k];
        assert(i < c < t.nodes@.len()) by { assert(c == t.nodes@[i as int].children@[k as int]); }
        if t.nodes[c].named && same_text(t.nodes[c].kind.as_str(), kind) {
            r.push(c);
        }
        proof {
            assert(named_children_upto(t, i as int, kind@, k + 1) =~= named_children_upto(t, i as int, kind@, k as int)
                + if named_of(t, c as int, kind@) { seq![c] } else { Seq::<usize>::empty() });
        }
        k = k + 1;
    }
    r
}

/// Whether some child of node `i`, named or not, is the given token.
pub(crate) fn has_direct_token(t: &SyntaxTree, i: usize, token: &str) -> (b: bool)
    requires
        t.wf(),
        i < t.nodes@.len(),
    ensures
        b == has_token(t, i as int, token@),
{
    let node = &t.nodes[i];
    let mut k: usize = 0;
    while k < node.children.len()
        invariant
            t.wf(),
            i < t.nodes@.len(),
            *node == t.nodes@[i as int],
            k <= node.children@.len(),
            forall|j: int| 0 <= j < k ==> #[trigger] kind_at(t, child_at(t, i as int, j)) != token@,
        decreases node.children@.len() - k,
    {
        let c = node.children[k];
        assert(c < t.nodes@.len()) by { assert(c == t.nodes@[i as int].children@[k as int]); }
        if same_text(t.nodes[c].kind.as_str(), token) {
            assert(kind_at(t, child_at(t, i as int, k as int)) == token@);
            return true;
        }
        k = k + 1;
    }
    false
}

/// The first node in preorder, from `i` down through named children, of the
/// given kind.
pub(crate) fn descendant(t: &SyntaxTree, i: usize, kind: &str) -> (r: Option<usize>)
    requires
        t.wf(),
        i < t.nodes@.len(),
    ensures
        r == find_below(t, i as int, kind@),
        r matches Some(d) ==> i <= d < t.nodes@.len(),
    decreases t.nodes@.len() - i,
{
    if same_text(t.nodes[i].kind.as_str(), kind) {
        return Some(i);
    }
    let node = &t.nodes[i];
    let mut k: usize = 0;
    while k < node.children.len()
        invariant
            t.wf(),
            i < t.nodes@.len(),
            *node == t.nodes@[i as int],
            kind_at(t, i as int) != kind@,
            k <= node.children@.len(),
            find_in_children(t, i as int, kind@, k as int) == find_below(t, i as int, kind@),
        decreases node.children@.len() - k,
    {
        let c = node.children[k];
        assert(i < c < t.nodes@.len()) by { assert(c == t.nodes@[i as int].children@[k as int]); }
        if t.nodes[c].named {
            if let Some(d) = descendant(t, c, kind) {
                return Some(d);
            }
        }
        k = k + 1;
    }
    None
}

/// Appends the topmost nodes of kind `a` or `b` below node `i`, in preorder.
pub(crate) fn collect_nodes(t: &SyntaxTree, i: usize, a: &str, b: &str, out: &mut Vec<usize>)
    requires
        t.wf(),
        i < t.nodes@.len(),
    ensures
        final(out)@ == old(out)@ + collected(t, i as int, a@, b@),
        forall|j: int| old(out)@.len() <= j < final(out)@.len() ==> i <= #[trigger] final(out)@[j] < t.nodes@.len(),
    decreases t.nodes@.len() - i,
{
    let ghost start = out@;
    if same_text(t.nodes[i].kind.as_str(), a) || same_text(t.nodes[i].kind.as_str(), b) {
        out.push(i);
        proof { assert(out@ =~= start + collected(t, i as int, a@, b@)); }
        return;
    }
    let node = &t.nodes[i];
    let mut k: usize = 0;
    while k < node.children.len()
        invariant
            t.wf(),
            i < t.nodes@.len(),
            *node == t.nodes@[i as int],
            kind_at(t, i as int) != a@ && kind_at(t, i as int) != b@,
            k <= node.children@.len(),
            out@ == start + collected_children(t, i as int, a@, b@, k as int),
            forall|j: int| start.len() <= j < out@.len() ==> i <= #[trigger] out@[j] < t.nodes@.len(),
        decreases node.children@.len() - k,
    {
        let c = node.children[k];
        assert(i < c < t.nodes@.len()) by { assert(c == t.nodes@[i as int].children@[k as int]); }
        if t.nodes[c].named {
            collect_nodes(t, c, a, b, out);
        }
        proof {
            assert(out@ =~= start + collected_children(t, i as int, a@, b@, k + 1));
        }
        k = k + 1;
    }
}

/// The element kind that a grammar kind lowers to, if it becomes a plain element.
pub fn element_kind(kind: &str) -> (r: Option<ElementKind>)
    ensures
        r == element_kind_of(kind@),
{
    if same_text(kind, "part_definition") {
        Some(ElementKind::PartDefinition)
    } else if same_text(kind, "part_usage") {
        Some(ElementKind::PartUsage)
    } else if same_text(kind, "constraint_definition") {
        Some(ElementKind::ConstraintDefinition)
    } else if same_text(kind, "constraint_usage") {
        Some(ElementKind::ConstraintUsage)
    } else if ends_with_text(kind, "_definition") {
        Some(ElementKind::GenericDefinition)
    } else if ends_with_text(kind, "_usage") {
        Some(ElementKind::GenericUsage)
    } else {
        None
    }
}

fn body_kind(kind: &str) -> (b: bool)
    ensures
        b == is_body_kind(kind@),
{
    same_text(kind, "action_body") || same_text(kind, "constraint_body") || same_text(kind, "definition_body")
        || same_text(kind, "package_body") || same_text(kind, "requirement_body") || same_text(kind, "state_body")
        || same_text(kind, "structural_body") || same_text(kind, "usage_body")
}

fn control_kind(kind: &str) -> (b: bool)
    ensures
        b == is_control_kind(kind@),
{
    same_text(kind, "then_if_block") || same_text(kind, "if_else_block") || same_text(kind, "control_node")
        || same_text(kind, "then_succession") || same_text(kind, "for_loop") || same_text(kind, "while_loop")
        || same_text(kind, "loop_until")
}

fn documented_kind(kind: &str) -> (b: bool)
    ensures
        b == is_documented_kind(kind@),
{
    same_text(kind, "requirement_definition") || same_text(kind, "requirement_usage")
        || same_text(kind, "verification_definition") || same_text(kind, "verification_usage")
        || same_text(kind, "objective_usage") || same_text(kind, "satisfy_statement")
        || same_text(kind, "verify_statement") || same_text(kind, "package_definition")
        || same_text(kind, "library_package") || same_text(kind, "subject_statement")
        || same_text(kind, "actor_usage") || same_text(kind, "stakeholder_usage")
        || same_text(kind, "assume_statement") || same_text(kind, "require_statement")
        || same_text(kind, "perform_statement")
}

/// Whether node `i` owns a member body.
pub(crate) fn owns_member_body(t: &SyntaxTree, i: usize) -> (b: bool)
    requires
        t.wf(),
        i < t.nodes@.len(),
    ensures
        b == owns_members(t, i as int),
{
    let node = &t.nodes[i];
    let mut k: usize = 0;
    while k < node.children.len()
        invariant
            t.wf(),
            i < t.nodes@.len(),
            *node == t.nodes@[i as int],
            k <= node.children@.len(),
            forall|j: int| 0 <= j < k ==> !#[trigger] body_child(t, child_at(t, i as int, j)),
        decreases node.children@.len() - k,
    {
        let c = node.children[k];
        assert(i < c < t.nodes@.len()) by { assert(c == t.nodes@[i as int].children@[k as int]); }
        if t.nodes[c].named && body_kind(t.nodes[c].kind.as_str()) && has_direct_token(t, c, "{") {
            assert(body_child(t, child_at(t, i as int, k as int)));
            return true;
        }
        k = k + 1;
    }
    let kind = node.kind.as_str();
    has_direct_token(t, i, "{") && (ends_with_text(kind, "_statement") || control_kind(kind))
}

/// Whether node `i` keeps the documentation written inside it to itself.
pub(crate) fn owns_independent_documentation(t: &SyntaxTree, i: usize) -> (b: bool)
    requires
        t.wf(),
        i < t.nodes@.len(),
    ensures
        b == owns_documentation(t, i as int),
{
    let kind = t.nodes[i].kind.as_str();
    documented_kind(kind) || ends_with_text(kind, "_statement") || element_kind(kind).is_some()
        || owns_member_body(t, i)
}


/// The named children of node `i` among its first `k` children, in order.
pub open spec fn named_kids_upto(t: &SyntaxTree, i: int, k: int) -> Seq<usize>
    decreases k,
{
    if k <= 0 || k > child_count(t, i) {
        Seq::empty()
    } else {
        let c = t.nodes@[i].children@[k - 1];
        named_kids_upto(t, i, k - 1) + if t.nodes@[c as int].named {
            seq![c]
        } else {
            Seq::empty()
        }
    }
}

/// The named children of node `i`, in order.
pub open spec fn named_kids(t: &SyntaxTree, i: int) -> Seq<usize> {
    named_kids_upto(t, i, child_count(t, i))
}

/// The named children of node `i`, in order.
pub(crate) fn named_child_list(t: &SyntaxTree, i: usize) -> (r: Vec<usize>)
    requires
        t.wf(),
        i < t.nodes@.len(),
    ensures
        r@ == named_kids(t, i as int),
        forall|j: int| 0 <= j < r@.len() ==> i < #[trigger] r@[j] < t.nodes@.len(),
{
    let node = &t.nodes[i];
    let mut r: Vec<usize> = Vec::new();
    let mut k: usize = 0;
    while k < node.children.len()
        invariant
            t.wf(),
            i < t.nodes@.len(),
            *node == t.nodes@[i as int],
            k <= node.children@.len(),
            r@ == named_kids_upto(t, i as int, k as int),
            forall|j: int| 0 <= j < r@.len() ==> i < #[trigger] r@[j] < t.nodes@.len(),
        decreases node.children@.len() - k,
    {
        let c = node.children[k];
        assert(i < c < t.nodes@.len()) by { assert(c == t.nodes@[i as int].children@[k as int]); }
        if t.nodes[c].named {
            r.push(c);
        }
        proof {
            assert(named_kids_upto(t, i as int, k + 1) =~= named_kids_upto(t, i as int, k as int)
                + if t.nodes@[c as int].named { seq![c] } else { Seq::<usize>::empty() });
        }
        k = k + 1;
    }
    r
}
} // verus!
