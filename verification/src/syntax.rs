//! The syntax frontend. tree-sitter parses the text; the library reads the
//! resulting tree into plain records (`SyntaxTree`), on which the syntax
//! findings and the lowering into the project model are computed.

use vstd::prelude::*;
use vstd::string::StringSliceAdditionalSpecFns;
use tree_sitter::{LanguageError, Parser, Tree};
use crate::strings::{owned, same_text};

verus! {

#[verifier::external_type_specification]
#[verifier::external_body]
pub struct ExParser(Parser);

#[verifier::external_type_specification]
#[verifier::external_body]
pub struct ExTree(Tree);

#[verifier::external_type_specification]
#[verifier::external_body]
pub struct ExLanguageError(LanguageError);

pub assume_specification [ Parser::new ]() -> Parser;

/// `Parser::set_language` with the grammar of `tree_sitter_sysml`. That
/// grammar is generated with language ABI version 14, and tree-sitter 0.25
/// accepts versions 13 to 15, so the call succeeds.
#[verifier::external_body]
fn set_sysml_language(parser: &mut Parser) -> (r: Result<(), LanguageError>)
    ensures
        r is Ok,
{
    parser.set_language(&tree_sitter_sysml::LANGUAGE.into())
}

/// A tree-sitter parser with the SysML grammar set; `sysml_parser` is the
/// only way to make one.
pub struct SysmlParser {
    parser: Parser,
}

/// A tree-sitter parse of a text, kept with that text; `parse_text` is the
/// only way to make one, so `tree` is always the parse of `text`.
pub struct ParsedSource {
    tree: Tree,
    text: String,
}

/// What tree-sitter reports of one node: its grammar symbol, flags, byte
/// range, zero-based start and end points, and depth below the root.
pub struct RawNode {
    pub kind: String,
    pub named: bool,
    pub error: bool,
    pub missing: bool,
    pub start_byte: usize,
    pub end_byte: usize,
    pub start_row: usize,
    pub start_column: usize,
    pub end_row: usize,
    pub end_column: usize,
    pub depth: usize,
}

/// The number of nodes (the root included) of the SysML parse of `text`.
pub uninterp spec fn parsed_node_count(text: Seq<char>) -> nat;

/// Node `index`, in preorder from the root, of the SysML parse of `text`.
pub uninterp spec fn parsed_node(text: Seq<char>, index: int) -> RawNode;

/// The text that `str::get` finds between two byte offsets of `text`.
pub uninterp spec fn text_slice(text: Seq<char>, start: int, end: int) -> Option<Seq<char>>;

/// `Parser::parse` on a whole source text, with no earlier tree to reuse.
/// tree-sitter returns no tree only when no language is set or a timeout or
/// cancellation flag (neither of which this library sets) stops the parse; a
/// `SysmlParser` always has its language set, so a tree comes back.
#[verifier::external_body]
fn parse_text(parser: &mut SysmlParser, source: &str) -> (r: Option<ParsedSource>)
    ensures
        r is Some,
        r matches Some(parsed) ==> parsed.text@ == source@,
{
    match parser.parser.parse(source, None) {
        Some(tree) => Some(ParsedSource { tree, text: source.to_string() }),
        None => None,
    }
}

/// `Node::descendant_count` of the root of a parse: the number of its nodes,
/// which tree-sitter counts with one for the root itself.
#[verifier::external_body]
fn node_count(parsed: &ParsedSource) -> (n: usize)
    ensures
        n == parsed_node_count(parsed.text@),
        n >= 1,
{
    parsed.tree.root_node().descendant_count()
}

/// Node `index` of a parse in preorder: a `TreeCursor` moved there from the
/// root with `goto_descendant`, and what `Node` reports of it.
#[verifier::external_body]
fn node_at(parsed: &ParsedSource, index: usize) -> (r: RawNode)
    requires
        index < parsed_node_count(parsed.text@),
    ensures
        r == parsed_node(parsed.text@, index as int),
{
    let mut cursor = parsed.tree.root_node().walk();
    cursor.goto_descendant(index);
    let node = cursor.node();
    let (start, end) = (node.start_position(), node.end_position());
    RawNode {
        kind: node.kind().to_string(), named: node.is_named(), error: node.is_error(), missing: node.is_missing(),
        start_byte: node.start_byte(), end_byte: node.end_byte(), start_row: start.row,
        start_column: start.column, end_row: end.row, end_column: end.column, depth: cursor.depth() as usize,
    }
}

/// `LanguageError`'s `Display` text.
#[verifier::external_body]
fn language_error_text(error: &LanguageError) -> String {
    error.to_string()
}

/// `str::get` with a byte range: the text between two byte offsets when both
/// lie on character boundaries within the string.
#[verifier::external_body]
fn byte_range_text(source: &str, start: usize, end: usize) -> (r: Option<&str>)
    ensures
        r matches Some(t) ==> start <= end <= source.spec_bytes().len() && t.spec_bytes()
            == source.spec_bytes().subrange(start as int, end as int),
        match r {
            Some(t) => Some(t@),
            None => None,
        } == text_slice(source@, start as int, end as int),
{
    source.get(start..end)
}

/// One node of a syntax tree. Nodes are numbered in preorder from 0 (the
/// root); `children` lists the numbers of the node's children in order.
pub struct SyntaxNode {
    /// The grammar symbol, or the token text of an anonymous node.
    pub kind: String,
    pub named: bool,
    pub error: bool,
    pub missing: bool,
    pub start_byte: usize,
    pub end_byte: usize,
    /// Zero-based rows and byte columns.
    pub start_row: usize,
    pub start_column: usize,
    pub end_row: usize,
    pub end_column: usize,
    /// The node's source text, kept for the token kinds that the lowering reads.
    pub text: String,
    pub depth: usize,
    pub children: Vec<usize>,
}

pub struct SyntaxTree {
    pub nodes: Vec<SyntaxNode>,
}

impl SyntaxTree {
    /// Node 0 is the root, each child is numbered after its parent and below
    /// the node count, siblings are numbered in increasing order, and every
    /// position can be made one-based without overflow.
    pub open spec fn wf(&self) -> bool {
        &&& self.nodes@.len() > 0
        &&& forall|i: int, k: int| 0 <= i < self.nodes@.len() && 0 <= k < self.nodes@[i].children@.len()
            ==> i < #[trigger] self.nodes@[i].children@[k] < self.nodes@.len()
        &&& forall|i: int, k: int, l: int| 0 <= i < self.nodes@.len() && 0 <= k < l < self.nodes@[i].children@.len()
            ==> #[trigger] self.nodes@[i].children@[k] < #[trigger] self.nodes@[i].children@[l]
        &&& forall|i: int| 0 <= i < self.nodes@.len() ==> #[trigger] self.nodes@[i].positions_bounded()
    }
}

impl SyntaxNode {
    pub open spec fn positions_bounded(&self) -> bool {
        self.start_row < usize::MAX && self.start_column < usize::MAX && self.end_row < usize::MAX
            && self.end_column < usize::MAX
    }
}

/// The token and name kinds whose source text the lowering reads.
pub open spec fn keeps_text(kind: Seq<char>) -> bool {
    kind == "visibility"@ || kind == "name"@ || kind == "short_name"@ || kind == "string_literal"@
        || kind == "block_comment_body"@ || kind == "qualified_name"@ || kind == "feature_chain"@
        || kind == "wildcard_import"@
}

fn kind_keeps_text(kind: &str) -> (b: bool)
    ensures
        b == keeps_text(kind@),
{
    same_text(kind, "visibility") || same_text(kind, "name") || same_text(kind, "short_name")
        || same_text(kind, "string_literal") || same_text(kind, "block_comment_body")
        || same_text(kind, "qualified_name") || same_text(kind, "feature_chain")
        || same_text(kind, "wildcard_import")
}

/// A tree-sitter parser loaded with the SysML grammar; setting the grammar
/// cannot fail.
pub fn sysml_parser() -> (r: Result<SysmlParser, String>)
    ensures
        r is Ok,
{
    let mut parser = Parser::new();
    match set_sysml_language(&mut parser) {
        Ok(()) => Ok(SysmlParser { parser }),
        Err(error) => Err(language_error_text(&error)),
    }
}

/// A zero-based position, kept below the largest value so that it can be
/// made one-based; the largest value stands for any it replaces.
pub open spec fn clamped(v: usize) -> usize {
    if v == usize::MAX { (usize::MAX - 1) as usize } else { v }
}

fn clamp(v: usize) -> (r: usize)
    ensures
        r == clamped(v),
{
    if v == usize::MAX { usize::MAX - 1 } else { v }
}

/// The source text a node keeps: that of a named node of a token kind the
/// lowering reads (nothing where the byte range is not one `str::get`
/// accepts), else nothing.
pub open spec fn kept_text(text: Seq<char>, raw: RawNode) -> Seq<char> {
    if raw.named && keeps_text(raw.kind@) {
        match text_slice(text, raw.start_byte as int, raw.end_byte as int) {
            Some(t) => t,
            None => Seq::empty(),
        }
    } else {
        Seq::empty()
    }
}

/// `n` records node `index` of the parse of `text`, apart from its children.
pub open spec fn records_node(n: SyntaxNode, text: Seq<char>, index: int) -> bool {
    let raw = parsed_node(text, index);
    &&& n.kind@ == raw.kind@
    &&& n.named == raw.named && n.error == raw.error && n.missing == raw.missing
    &&& n.start_byte == raw.start_byte && n.end_byte == raw.end_byte
    &&& n.start_row == clamped(raw.start_row) && n.start_column == clamped(raw.start_column)
    &&& n.end_row == clamped(raw.end_row) && n.end_column == clamped(raw.end_column)
    &&& n.text@ == kept_text(text, raw)
    &&& n.depth == (if index == 0 { 0 } else { raw.depth })
}

/// `a` and `b` agree on everything but their children.
pub open spec fn same_record(a: SyntaxNode, b: SyntaxNode) -> bool {
    &&& a.kind == b.kind && a.named == b.named && a.error == b.error && a.missing == b.missing
    &&& a.start_byte == b.start_byte && a.end_byte == b.end_byte
    &&& a.start_row == b.start_row && a.start_column == b.start_column
    &&& a.end_row == b.end_row && a.end_column == b.end_column
    &&& a.text == b.text && a.depth == b.depth
}

/// The depths of a sequence of nodes.
pub open spec fn depths(nodes: Seq<SyntaxNode>) -> Seq<usize> {
    nodes.map_values(|n: SyntaxNode| n.depth)
}

/// In preorder depths `ds`, node `k` is the parent of node `j`: the nearest
/// earlier node above it, or the root when no node after the root is.
pub open spec fn is_parent(ds: Seq<usize>, j: int, k: int) -> bool {
    &&& 0 <= k < j
    &&& (k == 0 || ds[k] < ds[j])
    &&& forall|m: int| k < m < j && m >= 1 ==> ds[m] >= ds[j]
}

/// `t` is the tree of the SysML parse of `text`: its nodes record the parse's
/// nodes in preorder, and each node's children are the nodes whose parent
/// it is, in order.
pub open spec fn parsed_tree(t: SyntaxTree, text: Seq<char>) -> bool {
    &&& t.nodes@.len() == parsed_node_count(text)
    &&& forall|i: int| 0 <= i < t.nodes@.len() ==> records_node(#[trigger] t.nodes@[i], text, i)
    &&& forall|i: int, c: usize| 0 <= i < t.nodes@.len() ==> (#[trigger] t.nodes@[i].children@.contains(c)
        <==> (1 <= c < t.nodes@.len() && is_parent(depths(t.nodes@), c as int, i)))
}

/// Reads the nodes of a parse in preorder, with their depths below the root,
/// their kinds, flags and positions, and the text of token kinds.
fn read_nodes(parsed: &ParsedSource) -> (v: Vec<SyntaxNode>)
    ensures
        v@.len() == parsed_node_count(parsed.text@),
        v@.len() > 0 && v@[0].depth == 0,
        forall|i: int| 0 <= i < v@.len() ==> (#[trigger] v@[i]).positions_bounded()
            && v@[i].children@.len() == 0
            && (v@[i].text@.len() > 0 ==> keeps_text(v@[i].kind@))
            && records_node(v@[i], parsed.text@, i),
{
    let count = node_count(parsed);
    let source = parsed.text.as_str();
    let mut nodes: Vec<SyntaxNode> = Vec::new();
    let mut index: usize = 0;
    while index < count
        invariant
            1 <= count,
            count == parsed_node_count(parsed.text@),
            source@ == parsed.text@,
            index <= count,
            nodes@.len() == index,
            index > 0 ==> nodes@[0].depth == 0,
            forall|i: int| 0 <= i < nodes@.len() ==> (#[trigger] nodes@[i]).positions_bounded()
                && nodes@[i].children@.len() == 0
                && (nodes@[i].text@.len() > 0 ==> keeps_text(nodes@[i].kind@))
                && records_node(nodes@[i], parsed.text@, i),
        decreases count - index,
    {
        let raw = node_at(parsed, index);
        let depth = if index == 0 { 0 } else { raw.depth };
        let text = if raw.named && kind_keeps_text(raw.kind.as_str()) {
            match byte_range_text(source, raw.start_byte, raw.end_byte) {
                Some(text) => owned(text),
                None => String::new(),
            }
        } else {
            String::new()
        };
        let record = SyntaxNode {
            kind: raw.kind,
            named: raw.named,
            error: raw.error,
            missing: raw.missing,
            start_byte: raw.start_byte,
            end_byte: raw.end_byte,
            start_row: clamp(raw.start_row),
            start_column: clamp(raw.start_column),
            end_row: clamp(raw.end_row),
            end_column: clamp(raw.end_column),
            text,
            depth,
            children: Vec::new(),
        };
        proof {
            assert(records_node(record, parsed.text@, index as int));
        }
        nodes.push(record);
        index = index + 1;
    }
    nodes
}

/// Links preorder nodes with depths into a tree: each node becomes a child of
/// the nearest earlier node above it (the root when there is none).
pub fn link_nodes(nodes: Vec<SyntaxNode>) -> (tree: SyntaxTree)
    requires
        nodes@.len() > 0,
        forall|i: int| 0 <= i < nodes@.len() ==> (#[trigger] nodes@[i]).positions_bounded()
            && nodes@[i].children@.len() == 0,
    ensures
        tree.wf(),
        tree.nodes@.len() == nodes@.len(),
        forall|i: int| 0 <= i < nodes@.len() ==> same_record(#[trigger] tree.nodes@[i], nodes@[i]),
        forall|i: int, c: usize| 0 <= i < nodes@.len() ==> (#[trigger] tree.nodes@[i].children@.contains(c)
            <==> (1 <= c < nodes@.len() && is_parent(depths(nodes@), c as int, i))),
{
    let mut nodes = nodes;
    let n = nodes.len();
    let ghost original = nodes@;
    let ghost ds = depths(original);
    let mut parents: Vec<usize> = Vec::new();
    parents.push(0);
    let mut j: usize = 1;
    while j < n
        invariant
            1 <= j <= n == nodes@.len() == original.len(),
            ds == depths(original),
            parents@.len() == j,
            forall|m: int| 1 <= m < j ==> is_parent(ds, m, #[trigger] parents@[m] as int),
            forall|i: int| 0 <= i < n ==> same_record(#[trigger] nodes@[i], original[i])
                && nodes@[i].positions_bounded(),
            forall|i: int, k: int| 0 <= i < n && 0 <= k < nodes@[i].children@.len()
                ==> i < #[trigger] nodes@[i].children@[k] < j,
            forall|i: int, k: int, l: int| 0 <= i < n && 0 <= k < l < nodes@[i].children@.len()
                ==> #[trigger] nodes@[i].children@[k] < #[trigger] nodes@[i].children@[l],
            forall|i: int, c: usize| 0 <= i < n ==> (#[trigger] nodes@[i].children@.contains(c)
                <==> (1 <= c < j && is_parent(ds, c as int, i))),
        decreases n - j,
    {
        let depth = nodes[j].depth;
        proof { assert(ds[j as int] == depth); }
        let mut k: usize = j - 1;
        while k != 0 && nodes[k].depth >= depth
            invariant
                1 <= j < n == nodes@.len() == original.len(),
                ds == depths(original),
                depth == ds[j as int],
                k < j,
                parents@.len() == j,
                forall|m: int| 1 <= m < j ==> is_parent(ds, m, #[trigger] parents@[m] as int),
                forall|i: int| 0 <= i < n ==> same_record(#[trigger] nodes@[i], original[i]),
                forall|m: int| k < m < j && m >= 1 ==> ds[m] >= ds[j as int],
            decreases k,
        {
            proof {
                assert(same_record(nodes@[k as int], original[k as int]));
                assert(ds[k as int] == nodes@[k as int].depth);
                assert(is_parent(ds, k as int, parents@[k as int] as int));
            }
            k = parents[k];
        }
        proof {
            if k != 0 {
                assert(same_record(nodes@[k as int], original[k as int]));
                assert(ds[k as int] == nodes@[k as int].depth);
            }
            assert(is_parent(ds, j as int, k as int));
            assert forall|i: int| 0 <= i < j && is_parent(ds, j as int, i) implies i == k by {
                if i < k {
                    assert(ds[k as int] >= ds[j as int]);
                } else if k < i {
                    assert(ds[i] >= ds[j as int]);
                }
            }
        }
        let mut record = SyntaxNode {
            kind: String::new(),
            named: false,
            error: false,
            missing: false,
            start_byte: 0,
            end_byte: 0,
            start_row: 0,
            start_column: 0,
            end_row: 0,
            end_column: 0,
            text: String::new(),
            depth: 0,
            children: Vec::new(),
        };
        let ghost before = nodes@;
        std::mem::swap(&mut record, &mut nodes[k]);
        record.children.push(j);
        std::mem::swap(&mut record, &mut nodes[k]);
        proof {
            assert(nodes@[k as int].children@ == before[k as int].children@.push(j));
            assert forall|i: int| 0 <= i < n && i != k implies #[trigger] nodes@[i] == before[i] by {}
            assert(same_record(nodes@[k as int], original[k as int])) by {
                assert(same_record(before[k as int], original[k as int]));
            }
            assert forall|i: int, c: usize| 0 <= i < n implies (#[trigger] nodes@[i].children@.contains(c)
                <==> (1 <= c < j + 1 && is_parent(ds, c as int, i))) by {
                if i == k {
                    if nodes@[i].children@.contains(c) && c != j {
                        let w = choose|w: int| 0 <= w < nodes@[i].children@.len() && nodes@[i].children@[w] == c;
                        assert(before[i].children@[w] == c);
                        assert(before[i].children@.contains(c));
                    }
                    if 1 <= c < j && is_parent(ds, c as int, i) {
                        assert(before[i].children@.contains(c));
                        let w = choose|w: int| 0 <= w < before[i].children@.len() && before[i].children@[w] == c;
                        assert(nodes@[i].children@[w] == c);
                    }
                    if c == j {
                        assert(nodes@[i].children@[nodes@[i].children@.len() - 1] == j);
                    }
                } else {
                    assert(nodes@[i] == before[i]);
                    if c == j {
                        assert(!before[i].children@.contains(j)) by {
                            if before[i].children@.contains(j) {
                                let w = choose|w: int| 0 <= w < before[i].children@.len() && before[i].children@[w] == j;
                            }
                        }
                    }
                }
            }
        }
        parents.push(k);
        proof {
            assert forall|m: int| 1 <= m < j + 1 implies is_parent(ds, m, #[trigger] parents@[m] as int) by {
            }
        }
        j = j + 1;
    }
    proof {
        assert(depths(nodes@) =~= ds) by {
            assert forall|i: int| 0 <= i < n implies depths(nodes@)[i] == ds[i] by {
                assert(same_record(nodes@[i], original[i]));
            }
        }
    }
    SyntaxTree { nodes }
}

/// Parses `source` with `parser` and reads the result into a syntax tree.
pub fn parse_source(parser: &mut SysmlParser, source: &str) -> (tree: SyntaxTree)
    ensures
        tree.wf(),
        parsed_tree(tree, source@),
{
    let parsed = parse_text(parser, source).unwrap();
    let nodes = read_nodes(&parsed);
    let ghost read = nodes@;
    let tree = link_nodes(nodes);
    proof {
        assert forall|i: int| 0 <= i < tree.nodes@.len() implies records_node(#[trigger] tree.nodes@[i], source@, i) by {
            assert(same_record(tree.nodes@[i], read[i]));
            assert(records_node(read[i], parsed.text@, i));
        }
        assert(depths(tree.nodes@) =~= depths(read)) by {
            assert forall|i: int| 0 <= i < read.len() implies depths(tree.nodes@)[i] == depths(read)[i] by {
                assert(same_record(tree.nodes@[i], read[i]));
            }
        }
    }
    tree
}

} // verus!
