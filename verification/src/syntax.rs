//! The external incremental parser, consumed through a narrow edit/parse
//! interface. A syntax tree is opaque; the one fact the engine relies on is
//! the byte span its root covers, named by [`tree_span_bytes`].

use vstd::prelude::*;

use crate::buffer::str_eq;
use crate::codec::bytes_of;

verus! {

#[verifier::external_type_specification]
#[verifier::external_body]
pub struct ExParser(tree_sitter::Parser);

#[verifier::external_type_specification]
#[verifier::external_body]
pub struct ExTree(tree_sitter::Tree);

#[verifier::external_type_specification]
#[verifier::external_body]
pub struct ExNode<'a>(tree_sitter::Node<'a>);

/// The total byte span of a tree: the byte length of the text it was parsed
/// from, as reported by its root node.
pub uninterp spec fn tree_span_bytes(t: tree_sitter::Tree) -> int;

/// The kind name of a syntax node, as the grammar defines it.
pub uninterp spec fn node_kind_of(n: tree_sitter::Node) -> Seq<char>;

/// The parent link of a syntax node: its parent node, or `None` at the root.
pub uninterp spec fn node_parent_of(n: tree_sitter::Node) -> Option<tree_sitter::Node>;

/// Relies on tree-sitter's `Parser::new`.
#[verifier::external_body]
pub(crate) fn parser_new() -> (p: tree_sitter::Parser) {
    tree_sitter::Parser::new()
}

/// Relies on tree-sitter's `Parser::set_language` with the bundled CQL
/// grammar. The load always succeeds: `set_language` fails only on a
/// grammar ABI version outside 13..=15, and the bundled grammar declares
/// ABI version 15, so a mismatch would be a packaging defect that cannot
/// arise in this build.
#[verifier::external_body]
pub(crate) fn parser_set_cql_language(p: &mut tree_sitter::Parser) -> (ok: bool)
    ensures
        ok,
{
    p.set_language(&tttx_tree_sitter_cql::LANGUAGE.into()).is_ok()
}

/// Relies on tree-sitter's `Parser::parse`: when it returns a tree, that
/// tree is a parse of the whole given text, so its root spans exactly the
/// text's bytes. It may return `None` (no language set, or parsing was
/// interrupted), whatever the input.
#[verifier::external_body]
pub(crate) fn parser_parse(
    p: &mut tree_sitter::Parser,
    text: &str,
    old_tree: Option<&tree_sitter::Tree>,
) -> (r: Option<tree_sitter::Tree>)
    ensures
        match r {
            Some(t) => tree_span_bytes(t) == bytes_of(text@),
            None => true,
        },
{
    p.parse(text, old_tree)
}

/// Relies on tree-sitter's `Tree::edit`: marks the tree with a completed
/// buffer edit (start, old end and new end, each as a document byte offset
/// and a row/column pair) so a later parse can reuse unaffected subtrees.
#[verifier::external_body]
pub(crate) fn tree_edit(t: &mut tree_sitter::Tree, d: &crate::document::EditDescriptor) {
    t.edit(&tree_sitter::InputEdit {
        start_byte: d.start_byte,
        old_end_byte: d.old_end_byte,
        new_end_byte: d.new_end_byte,
        start_position: tree_sitter::Point { row: d.start_row, column: d.start_col },
        old_end_position: tree_sitter::Point { row: d.old_end_row, column: d.old_end_col },
        new_end_position: tree_sitter::Point { row: d.new_end_row, column: d.new_end_col },
    })
}

/// Relies on tree-sitter's `Tree::root_node` and `Node::end_byte`: the root
/// of a parse spans the text from byte 0, so its end byte is the tree's span.
#[verifier::external_body]
pub(crate) fn tree_span(t: &tree_sitter::Tree) -> (n: usize)
    ensures
        n as int == tree_span_bytes(*t),
{
    t.root_node().end_byte()
}

/// Relies on tree-sitter's `Node::kind`: the node's kind name.
#[verifier::external_body]
pub(crate) fn node_kind(n: &tree_sitter::Node) -> (k: String)
    ensures
        k@ == node_kind_of(*n),
{
    n.kind().to_string()
}

/// Relies on tree-sitter's `Node::parent`: the node's parent link.
#[verifier::external_body]
pub(crate) fn node_parent<'a>(n: &tree_sitter::Node<'a>) -> (p: Option<tree_sitter::Node<'a>>)
    ensures
        p == node_parent_of(*n),
{
    n.parent()
}

/// Whether a node kind name is the one the engine walks for: a statement
/// node or an error marker.
pub fn is_statement_or_error_kind(kind: &str) -> (r: bool)
    ensures
        r <==> (kind@ == "statement"@ || kind@ == "ERROR"@),
{
    if str_eq(kind, "statement") {
        true
    } else {
        str_eq(kind, "ERROR")
    }
}

/// Whether a node's kind is one the walk looks for: a statement node or an
/// error marker.
pub open spec fn is_target_kind(n: tree_sitter::Node) -> bool {
    node_kind_of(n) == "statement"@ || node_kind_of(n) == "ERROR"@
}

/// The outcome of walking the parent links upward from `n` for at most
/// `fuel` steps: the nearest ancestor-or-self whose kind is `statement` or
/// `ERROR` (so `Some` exactly when such a node exists within the bound),
/// and `None` once the root is passed.
pub open spec fn walk_outcome(n: tree_sitter::Node, fuel: nat) -> Option<tree_sitter::Node>
    decreases fuel,
{
    if is_target_kind(n) {
        Some(n)
    } else if fuel == 0 {
        None
    } else {
        match node_parent_of(n) {
            Some(p) => walk_outcome(p, (fuel - 1) as nat),
            None => None,
        }
    }
}

/// Walk up the tree's parent links starting from `node` and return the
/// nearest ancestor-or-self whose kind is `statement` or `ERROR`, or
/// `None` if neither is found before the root is passed. The walk carries
/// a step bound far beyond any tree depth that fits in memory, so the
/// bound is never the reason the search stops in practice.
pub fn find_statement_or_error<'a>(node: tree_sitter::Node<'a>) -> (r: Option<
    tree_sitter::Node<'a>,
>)
    ensures
        r == walk_outcome(node, usize::MAX as nat),
        (r matches Some(n) ==> node_kind_of(n) == "statement"@ || node_kind_of(n) == "ERROR"@),
{
    let mut cur = node;
    let mut fuel: usize = usize::MAX;
    loop
        invariant
            walk_outcome(node, usize::MAX as nat) == walk_outcome(cur, fuel as nat),
        decreases fuel,
    {
        let kind = node_kind(&cur);
        if is_statement_or_error_kind(kind.as_str()) {
            return Some(cur);
        }
        if fuel == 0 {
            return None;
        }
        match node_parent(&cur) {
            Some(parent) => {
                cur = parent;
            },
            None => {
                return None;
            },
        }
        fuel = fuel - 1;
    }
}

} // verus!
