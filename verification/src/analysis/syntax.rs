//! The syntax tree of a Rust source text as plain values: what the
//! tree-sitter Rust grammar reports of each node that the analysis reads.
use vstd::prelude::*;

use crate::engine::decode_utf8_text;
use tree_sitter::Parser;
use tree_sitter_rust::LANGUAGE;
use vstd::string::StringSliceAdditionalSpecFns;
use vstd::utf8::{decode_utf8, encode_utf8, valid_utf8};

verus! {

/// A node of tree-sitter's syntax tree as plain values: its grammar kind,
/// the rows where it starts and ends, the byte offsets where it starts and
/// ends, and its children in order.
pub struct RawSyntax(pub String, pub usize, pub usize, pub usize, pub usize, pub Vec<RawSyntax>);

pub struct RawView {
    pub kind: Seq<char>,
    pub start_row: usize,
    pub end_row: usize,
    pub start_byte: usize,
    pub end_byte: usize,
    pub children: Seq<RawView>,
}

pub open spec fn raw_view(n: RawSyntax) -> RawView
    decreases n,
{
    RawView {
        kind: n.0@,
        start_row: n.1,
        end_row: n.2,
        start_byte: n.3,
        end_byte: n.4,
        children: raw_views(n.5@),
    }
}

pub open spec fn raw_views(v: Seq<RawSyntax>) -> Seq<RawView>
    decreases v,
{
    if v.len() == 0 {
        seq![]
    } else {
        raw_views(v.drop_last()).push(raw_view(v.last()))
    }
}

/// The syntax tree that the tree-sitter Rust grammar gives a text.
pub uninterp spec fn rust_syntax(text: Seq<char>) -> RawView;

/// Parses a text with the tree-sitter Rust grammar (`Parser::new`,
/// `Parser::set_language` with `tree_sitter_rust::LANGUAGE`, `Parser::parse`
/// without an old tree) and copies the tree out with its `TreeCursor`.
/// Trusted: the grammar is accepted (its version is one that this
/// tree-sitter reads), the parse gives a tree (no timeout or cancel flag is
/// set), and the copy is `rust_syntax` of the text.
#[verifier::external_body]
fn parse_rust(text: &str) -> (r: Option<RawSyntax>)
    ensures
        r is Some,
        r matches Some(t) ==> raw_view(t) == rust_syntax(text@),
{
    let mut parser = Parser::new();
    parser.set_language(&LANGUAGE.into()).ok()?;
    let tree = parser.parse(text, None)?;
    let (mut cursor, mut open) = (tree.walk(), Vec::new());
    loop {
        let n = cursor.node();
        open.push(RawSyntax(n.kind().into(), n.start_position().row, n.end_position().row, n.start_byte(), n.end_byte(), Vec::new()));
        let mut down = cursor.goto_first_child();
        while !down {
            let done = open.pop()?;
            let Some(parent) = open.last_mut() else { return Some(done) };
            parent.5.push(done);
            down = cursor.goto_next_sibling() || !cursor.goto_parent();
        }
    }
}

/// A node of a syntax tree: its grammar kind, the rows it spans, its text
/// when it is a name, and its children in order.
pub struct SyntaxNode {
    pub kind: String,
    pub start_row: usize,
    pub end_row: usize,
    /// For an `identifier` or `type_identifier` node, its text (`None` when
    /// its bytes are not UTF-8); `None` for other kinds.
    pub name: Option<String>,
    pub children: Vec<SyntaxNode>,
}

pub struct SyntaxView {
    pub kind: Seq<char>,
    pub start_row: usize,
    pub end_row: usize,
    pub name: Option<Seq<char>>,
    pub children: Seq<SyntaxView>,
}

pub open spec fn syntax_view(n: SyntaxNode) -> SyntaxView
    decreases n,
{
    SyntaxView {
        kind: n.kind@,
        start_row: n.start_row,
        end_row: n.end_row,
        name: match n.name {
            Some(s) => Some(s@),
            None => None,
        },
        children: syntax_views(n.children@),
    }
}

pub open spec fn syntax_views(v: Seq<SyntaxNode>) -> Seq<SyntaxView>
    decreases v,
{
    if v.len() == 0 {
        seq![]
    } else {
        syntax_views(v.drop_last()).push(syntax_view(v.last()))
    }
}

/// Whether a text equals a literal.
pub fn text_is(s: &str, lit: &str) -> (r: bool)
    ensures
        r == (s@ == lit@),
{
    let a = crate::text::chars_of(s);
    let b = crate::text::chars_of(lit);
    crate::text::chars_equal(a.as_slice(), b.as_slice())
}

/// Kinds of nodes whose text is a name.
pub open spec fn is_name_kind(kind: Seq<char>) -> bool {
    kind == "identifier"@ || kind == "type_identifier"@
}

/// The name a node of some kind spanning the bytes `start..end` carries:
/// for an identifier or type identifier, its text when those bytes lie in
/// the source and are UTF-8.
pub open spec fn name_in(kind: Seq<char>, bytes: Seq<u8>, start: usize, end: usize) -> Option<Seq<char>> {
    if is_name_kind(kind) && start <= end <= bytes.len() && valid_utf8(
        bytes.subrange(start as int, end as int),
    ) {
        Some(decode_utf8(bytes.subrange(start as int, end as int)))
    } else {
        None
    }
}

/// The plain tree of a raw tree read against the UTF-8 bytes of its source.
pub open spec fn plain_of(r: RawView, bytes: Seq<u8>) -> SyntaxView
    decreases r,
{
    SyntaxView {
        kind: r.kind,
        start_row: r.start_row,
        end_row: r.end_row,
        name: name_in(r.kind, bytes, r.start_byte, r.end_byte),
        children: plain_all(r.children, bytes),
    }
}

pub open spec fn plain_all(v: Seq<RawView>, bytes: Seq<u8>) -> Seq<SyntaxView>
    decreases v,
{
    if v.len() == 0 {
        seq![]
    } else {
        plain_all(v.drop_last(), bytes).push(plain_of(v.last(), bytes))
    }
}

/// The syntax tree of a Rust source text, with the names read from it.
pub open spec fn rust_tree(text: Seq<char>) -> SyntaxView {
    plain_of(rust_syntax(text), encode_utf8(text))
}

/// The text of the bytes `start..end` of the source, as
/// `tree_sitter::Node::utf8_text` reads it; `None` when they are not UTF-8
/// or not within the source.
fn source_text(source: &str, start: usize, end: usize) -> (r: Option<String>)
    ensures
        r is Some <==> (start <= end <= source.spec_bytes().len() && valid_utf8(
            source.spec_bytes().subrange(start as int, end as int),
        )),
        r matches Some(t) ==> t@ == decode_utf8(source.spec_bytes().subrange(start as int, end as int)),
{
    let bytes = source.as_bytes();
    if start <= end && end <= bytes.len() {
        let slice = vstd::slice::slice_subrange(bytes, start, end);
        assert(slice@ =~= source.spec_bytes().subrange(start as int, end as int));
        decode_utf8_text(slice)
    } else {
        None
    }
}

/// The plain form of a raw node and of its descendants, names read from
/// the source.
fn plain_node(raw: &RawSyntax, source: &str) -> (r: SyntaxNode)
    ensures
        syntax_view(r) == plain_of(raw_view(*raw), source.spec_bytes()),
    decreases raw,
{
    let ghost bytes = source.spec_bytes();
    let is_name = text_is(raw.0.as_str(), "identifier") || text_is(raw.0.as_str(), "type_identifier");
    let name = if is_name {
        source_text(source, raw.3, raw.4)
    } else {
        None
    };
    let mut children: Vec<SyntaxNode> = Vec::new();
    let mut i: usize = 0;
    assert(raw.5@.take(0) =~= seq![]);
    while i < raw.5.len()
        invariant
            i <= raw.5@.len(),
            bytes == source.spec_bytes(),
            syntax_views(children@) == plain_all(raw_views(raw.5@.take(i as int)), bytes),
        decreases raw.5@.len() - i,
    {
        assert(decreases_to!(*raw => raw.5@[i as int]));
        let c = plain_node(&raw.5[i], source);
        let ghost before = children@;
        children.push(c);
        proof {
            assert(children@.drop_last() =~= before);
            let done = raw.5@.take(i as int);
            assert(raw.5@.take(i + 1).drop_last() =~= done);
            let rv = raw_views(done);
            let next = rv.push(raw_view(raw.5@[i as int]));
            assert(raw_views(raw.5@.take(i + 1)) == next);
            assert(next.drop_last() =~= rv);
            assert(plain_all(next, bytes) == plain_all(rv, bytes).push(plain_of(raw_view(raw.5@[i as int]), bytes)));
        }
        i = i + 1;
    }
    assert(raw.5@.take(i as int) =~= raw.5@);
    SyntaxNode { kind: raw.0.clone(), start_row: raw.1, end_row: raw.2, name, children }
}

/// A source text with its syntax tree.
pub struct ParsedSource {
    pub root: SyntaxNode,
    pub source: String,
}

impl ParsedSource {
    /// Parses a Rust source text with the tree-sitter Rust grammar.
    pub fn parse(source: String) -> (r: Option<ParsedSource>)
        ensures
            r matches Some(p) && p.source@ == source@ && syntax_view(p.root) == rust_tree(source@),
    {
        match parse_rust(source.as_str()) {
            Some(raw) => {
                let root = plain_node(&raw, source.as_str());
                Some(ParsedSource { root, source })
            },
            None => None,
        }
    }
}

} // verus!
