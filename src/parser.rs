//! The parsing library, `tree_sitter`, and the grammars it is given.
use vstd::prelude::*;
use crate::syntax::SerializableRange;

verus! {

#[verifier::external_type_specification]
#[verifier::external_body]
pub struct ExLanguage(tree_sitter::Language);

#[verifier::external_type_specification]
#[verifier::external_body]
pub struct ExParser(tree_sitter::Parser);

#[verifier::external_type_specification]
#[verifier::external_body]
pub struct ExTree(tree_sitter::Tree);

#[verifier::external_type_specification]
#[verifier::external_body]
pub struct ExNode<'a>(tree_sitter::Node<'a>);

pub assume_specification[ tree_sitter_cpp::language ]() -> tree_sitter::Language;

pub assume_specification[ tree_sitter_c_sharp::language ]() -> tree_sitter::Language;

pub assume_specification[ tree_sitter_javascript::language ]() -> tree_sitter::Language;

pub assume_specification[ tree_sitter_python::language ]() -> tree_sitter::Language;

pub assume_specification[ tree_sitter_rust::language ]() -> tree_sitter::Language;

pub assume_specification[ tree_sitter_typescript::language_typescript ]() -> tree_sitter::Language;

pub assume_specification[ tree_sitter_typescript::language_tsx ]() -> tree_sitter::Language;

pub assume_specification[ tree_sitter::Parser::new ]() -> tree_sitter::Parser;

/// Relies on `Parser::set_language`: binds the grammar, and reports whether
/// the grammar's version is one that the library can use.
#[verifier::external_body]
pub(crate) fn bind_grammar(parser: &mut tree_sitter::Parser, grammar: tree_sitter::Language) -> (ok: bool)
{
    parser.set_language(grammar).is_ok()
}

/// Relies on `Parser::parse`: a fresh tree for all of `source`, or `None` when
/// no grammar is bound (or a timeout or cancellation, neither of which is set).
#[verifier::external_body]
pub(crate) fn run_parser(parser: &mut tree_sitter::Parser, source: &str) -> (t: Option<tree_sitter::Tree>)
{
    parser.parse(source, None)
}

/// Relies on `Tree::root_node`.
#[verifier::external_body]
pub(crate) fn root_node<'a>(tree: &'a tree_sitter::Tree) -> (n: tree_sitter::Node<'a>)
{
    tree.root_node()
}

/// Relies on `Node::kind`: the grammar's name for the node's kind.
#[verifier::external_body]
pub(crate) fn node_kind(node: &tree_sitter::Node) -> (k: String)
{
    node.kind().to_string()
}

/// Relies on `Node::is_named`: whether the node stands for a named rule of the
/// grammar rather than a literal token.
#[verifier::external_body]
pub(crate) fn node_is_named(node: &tree_sitter::Node) -> (b: bool)
{
    node.is_named()
}

/// Relies on `Node::range`: its start and end points, rows and columns
/// counted from zero.
#[verifier::external_body]
pub(crate) fn node_range(node: &tree_sitter::Node) -> (r: SerializableRange)
{
    let r = node.range();
    SerializableRange {
        start_row: r.start_point.row,
        start_col: r.start_point.column,
        end_row: r.end_point.row,
        end_col: r.end_point.column,
    }
}

/// Relies on `Node::child_count`.
#[verifier::external_body]
pub(crate) fn node_child_count(node: &tree_sitter::Node) -> (n: usize)
{
    node.child_count()
}

/// Relies on `Node::child`: the child at index `i`, if there is one.
#[verifier::external_body]
pub(crate) fn node_child<'a>(node: &tree_sitter::Node<'a>, i: usize) -> (c: Option<tree_sitter::Node<'a>>)
{
    node.child(i)
}

} // verus!
