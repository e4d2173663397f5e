//! The calls into tree-sitter and its grammars.
//!
//! Parsing a source with a grammar gives the same tree every time, so what
//! the library reads of it, the top-level children of the root (kind and
//! byte range of each), is named per grammar (`c_top_level`, ...). The names
//! are not spelled out: what tree-sitter parses is the grammar's business.
use vstd::prelude::*;

use tree_sitter::{LanguageError, Parser};

use crate::segments::{nodes_in_order, SyntaxNode};
use crate::text::byte_len;

verus! {

#[verifier::external_type_specification]
#[verifier::external_body]
pub struct ExLanguageError(LanguageError);

/// The top-level children of the root of the tree that tree-sitter's
/// C grammar (`tree_sitter_c::LANGUAGE`) parses from `source`: for each
/// child index, the child's kind and byte range (`None` where `Node::child`
/// returns none).
pub uninterp spec fn c_top_level(source: Seq<char>) -> Seq<Option<SyntaxNode>>;

/// Makes a `Parser`, sets the C grammar (`Parser::set_language`, which
/// fails when the grammar's ABI version is not one this tree-sitter accepts),
/// parses `source` (`Parser::parse`, no earlier tree) and reads the root's
/// children (`Node::child_count`, `Node::child`, `Node::kind`,
/// `Node::start_byte`, `Node::end_byte`). The contract claims that the
/// children are `c_top_level(source)`, and that once the grammar is set
/// the parse gives a tree, as `Parser::parse` documents (it returns none only
/// when no language is set). It also claims that setting the grammar
/// succeeds: `set_language` fails only for a grammar whose ABI version lies
/// outside 13 to 15, or that has no lexer, and this grammar's generated
/// parser is of ABI version 14 or 15 and has one. Last, it claims that the
/// children come in source order without overlapping, for a source whose
/// byte offsets fit the `u32` that tree-sitter counts them in: `Node::child`
/// walks the children in order (`ts_node_child_iterator_next` in
/// `src/node.c`), each child starting at the end of the one before plus its
/// padding and ending at its start plus its size (`ts_node_end_byte`).
#[verifier::external_body]
pub(crate) fn parse_c_top_level(source: &str) -> (r: Result<
    Option<Vec<Option<SyntaxNode>>>,
    LanguageError,
>)
    ensures
        r matches Ok(Some(_)),
        r matches Ok(Some(v)) ==> v@ == c_top_level(source@),
        r matches Ok(Some(v)) ==> (byte_len(source@) <= u32::MAX ==> nodes_in_order(v@)),
{
    let mut parser = Parser::new();
    parser.set_language(&tree_sitter_c::LANGUAGE.into())?;
    Ok(parser.parse(source, None).map(|tree| {
        let root = tree.root_node();
        (0..root.child_count()).map(|i| root.child(i).map(|n| SyntaxNode {
            kind: n.kind().to_string(),
            start_byte: n.start_byte(),
            end_byte: n.end_byte(),
        })).collect()
    }))
}

/// The top-level children of the root of the tree that tree-sitter's
/// C++ grammar (`tree_sitter_cpp::LANGUAGE`) parses from `source`: for each
/// child index, the child's kind and byte range (`None` where `Node::child`
/// returns none).
pub uninterp spec fn cpp_top_level(source: Seq<char>) -> Seq<Option<SyntaxNode>>;

/// Makes a `Parser`, sets the C++ grammar (`Parser::set_language`, which
/// fails when the grammar's ABI version is not one this tree-sitter accepts),
/// parses `source` (`Parser::parse`, no earlier tree) and reads the root's
/// children (`Node::child_count`, `Node::child`, `Node::kind`,
/// `Node::start_byte`, `Node::end_byte`). The contract claims that the
/// children are `cpp_top_level(source)`, and that once the grammar is set
/// the parse gives a tree, as `Parser::parse` documents (it returns none only
/// when no language is set). It also claims that setting the grammar
/// succeeds: `set_language` fails only for a grammar whose ABI version lies
/// outside 13 to 15, or that has no lexer, and this grammar's generated
/// parser is of ABI version 14 or 15 and has one. Last, it claims that the
/// children come in source order without overlapping, for a source whose
/// byte offsets fit the `u32` that tree-sitter counts them in: `Node::child`
/// walks the children in order (`ts_node_child_iterator_next` in
/// `src/node.c`), each child starting at the end of the one before plus its
/// padding and ending at its start plus its size (`ts_node_end_byte`).
#[verifier::external_body]
pub(crate) fn parse_cpp_top_level(source: &str) -> (r: Result<
    Option<Vec<Option<SyntaxNode>>>,
    LanguageError,
>)
    ensures
        r matches Ok(Some(_)),
        r matches Ok(Some(v)) ==> v@ == cpp_top_level(source@),
        r matches Ok(Some(v)) ==> (byte_len(source@) <= u32::MAX ==> nodes_in_order(v@)),
{
    let mut parser = Parser::new();
    parser.set_language(&tree_sitter_cpp::LANGUAGE.into())?;
    Ok(parser.parse(source, None).map(|tree| {
        let root = tree.root_node();
        (0..root.child_count()).map(|i| root.child(i).map(|n| SyntaxNode {
            kind: n.kind().to_string(),
            start_byte: n.start_byte(),
            end_byte: n.end_byte(),
        })).collect()
    }))
}

/// The top-level children of the root of the tree that tree-sitter's
/// Python grammar (`tree_sitter_python::LANGUAGE`) parses from `source`: for each
/// child index, the child's kind and byte range (`None` where `Node::child`
/// returns none).
pub uninterp spec fn python_top_level(source: Seq<char>) -> Seq<Option<SyntaxNode>>;

/// Makes a `Parser`, sets the Python grammar (`Parser::set_language`, which
/// fails when the grammar's ABI version is not one this tree-sitter accepts),
/// parses `source` (`Parser::parse`, no earlier tree) and reads the root's
/// children (`Node::child_count`, `Node::child`, `Node::kind`,
/// `Node::start_byte`, `Node::end_byte`). The contract claims that the
/// children are `python_top_level(source)`, and that once the grammar is set
/// the parse gives a tree, as `Parser::parse` documents (it returns none only
/// when no language is set). It also claims that setting the grammar
/// succeeds: `set_language` fails only for a grammar whose ABI version lies
/// outside 13 to 15, or that has no lexer, and this grammar's generated
/// parser is of ABI version 14 or 15 and has one. Last, it claims that the
/// children come in source order without overlapping, for a source whose
/// byte offsets fit the `u32` that tree-sitter counts them in: `Node::child`
/// walks the children in order (`ts_node_child_iterator_next` in
/// `src/node.c`), each child starting at the end of the one before plus its
/// padding and ending at its start plus its size (`ts_node_end_byte`).
#[verifier::external_body]
pub(crate) fn parse_python_top_level(source: &str) -> (r: Result<
    Option<Vec<Option<SyntaxNode>>>,
    LanguageError,
>)
    ensures
        r matches Ok(Some(_)),
        r matches Ok(Some(v)) ==> v@ == python_top_level(source@),
        r matches Ok(Some(v)) ==> (byte_len(source@) <= u32::MAX ==> nodes_in_order(v@)),
{
    let mut parser = Parser::new();
    parser.set_language(&tree_sitter_python::LANGUAGE.into())?;
    Ok(parser.parse(source, None).map(|tree| {
        let root = tree.root_node();
        (0..root.child_count()).map(|i| root.child(i).map(|n| SyntaxNode {
            kind: n.kind().to_string(),
            start_byte: n.start_byte(),
            end_byte: n.end_byte(),
        })).collect()
    }))
}

/// The top-level children of the root of the tree that tree-sitter's
/// JavaScript grammar (`tree_sitter_javascript::LANGUAGE`) parses from `source`: for each
/// child index, the child's kind and byte range (`None` where `Node::child`
/// returns none).
pub uninterp spec fn javascript_top_level(source: Seq<char>) -> Seq<Option<SyntaxNode>>;

/// Makes a `Parser`, sets the JavaScript grammar (`Parser::set_language`, which
/// fails when the grammar's ABI version is not one this tree-sitter accepts),
/// parses `source` (`Parser::parse`, no earlier tree) and reads the root's
/// children (`Node::child_count`, `Node::child`, `Node::kind`,
/// `Node::start_byte`, `Node::end_byte`). The contract claims that the
/// children are `javascript_top_level(source)`, and that once the grammar is set
/// the parse gives a tree, as `Parser::parse` documents (it returns none only
/// when no language is set). It also claims that setting the grammar
/// succeeds: `set_language` fails only for a grammar whose ABI version lies
/// outside 13 to 15, or that has no lexer, and this grammar's generated
/// parser is of ABI version 14 or 15 and has one. Last, it claims that the
/// children come in source order without overlapping, for a source whose
/// byte offsets fit the `u32` that tree-sitter counts them in: `Node::child`
/// walks the children in order (`ts_node_child_iterator_next` in
/// `src/node.c`), each child starting at the end of the one before plus its
/// padding and ending at its start plus its size (`ts_node_end_byte`).
#[verifier::external_body]
pub(crate) fn parse_javascript_top_level(source: &str) -> (r: Result<
    Option<Vec<Option<SyntaxNode>>>,
    LanguageError,
>)
    ensures
        r matches Ok(Some(_)),
        r matches Ok(Some(v)) ==> v@ == javascript_top_level(source@),
        r matches Ok(Some(v)) ==> (byte_len(source@) <= u32::MAX ==> nodes_in_order(v@)),
{
    let mut parser = Parser::new();
    parser.set_language(&tree_sitter_javascript::LANGUAGE.into())?;
    Ok(parser.parse(source, None).map(|tree| {
        let root = tree.root_node();
        (0..root.child_count()).map(|i| root.child(i).map(|n| SyntaxNode {
            kind: n.kind().to_string(),
            start_byte: n.start_byte(),
            end_byte: n.end_byte(),
        })).collect()
    }))
}

/// The top-level children of the root of the tree that tree-sitter's
/// Rust grammar (`tree_sitter_rust::LANGUAGE`) parses from `source`: for each
/// child index, the child's kind and byte range (`None` where `Node::child`
/// returns none).
pub uninterp spec fn rust_top_level(source: Seq<char>) -> Seq<Option<SyntaxNode>>;

/// Makes a `Parser`, sets the Rust grammar (`Parser::set_language`, which
/// fails when the grammar's ABI version is not one this tree-sitter accepts),
/// parses `source` (`Parser::parse`, no earlier tree) and reads the root's
/// children (`Node::child_count`, `Node::child`, `Node::kind`,
/// `Node::start_byte`, `Node::end_byte`). The contract claims that the
/// children are `rust_top_level(source)`, and that once the grammar is set
/// the parse gives a tree, as `Parser::parse` documents (it returns none only
/// when no language is set). It also claims that setting the grammar
/// succeeds: `set_language` fails only for a grammar whose ABI version lies
/// outside 13 to 15, or that has no lexer, and this grammar's generated
/// parser is of ABI version 14 or 15 and has one. Last, it claims that the
/// children come in source order without overlapping, for a source whose
/// byte offsets fit the `u32` that tree-sitter counts them in: `Node::child`
/// walks the children in order (`ts_node_child_iterator_next` in
/// `src/node.c`), each child starting at the end of the one before plus its
/// padding and ending at its start plus its size (`ts_node_end_byte`).
#[verifier::external_body]
pub(crate) fn parse_rust_top_level(source: &str) -> (r: Result<
    Option<Vec<Option<SyntaxNode>>>,
    LanguageError,
>)
    ensures
        r matches Ok(Some(_)),
        r matches Ok(Some(v)) ==> v@ == rust_top_level(source@),
        r matches Ok(Some(v)) ==> (byte_len(source@) <= u32::MAX ==> nodes_in_order(v@)),
{
    let mut parser = Parser::new();
    parser.set_language(&tree_sitter_rust::LANGUAGE.into())?;
    Ok(parser.parse(source, None).map(|tree| {
        let root = tree.root_node();
        (0..root.child_count()).map(|i| root.child(i).map(|n| SyntaxNode {
            kind: n.kind().to_string(),
            start_byte: n.start_byte(),
            end_byte: n.end_byte(),
        })).collect()
    }))
}

/// The text of a `LanguageError` (its `Display`).
#[verifier::external_body]
pub(crate) fn language_error_message(error: &LanguageError) -> String {
    format!("{}", error)
}

} // verus!
