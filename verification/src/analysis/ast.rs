//! What the analysis reads of a syntax tree: the functions, bindings and
//! parameters it declares, and how they relate.
use vstd::prelude::*;

use crate::analysis::syntax::{is_name_kind, syntax_view, syntax_views, text_is, ParsedSource, SyntaxNode};
use crate::analysis::types::FlowNodeType;
use crate::text::{
    begins_with1, begins_with2, char_seqs, chars_of, has_prefix, split_lines, starts_with,
    text_lines,
};

verus! {

/// A named item found in a syntax tree.
pub struct ExtractedNode {
    pub name: String,
    pub node_type: FlowNodeType,
    pub start_row: usize,
    pub end_row: usize,
}

pub struct ExtractedView {
    pub name: Seq<char>,
    pub node_type: FlowNodeType,
    pub start_row: usize,
    pub end_row: usize,
}

impl View for ExtractedNode {
    type V = ExtractedView;

    open spec fn view(&self) -> ExtractedView {
        ExtractedView {
            name: self.name@,
            node_type: self.node_type,
            start_row: self.start_row,
            end_row: self.end_row,
        }
    }
}

pub open spec fn extracted_views(v: Seq<ExtractedNode>) -> Seq<ExtractedView> {
    v.map_values(|n: ExtractedNode| n@)
}

/// An end of an extracted edge: the item that starts at a row, or the
/// output of the function that starts at a row.
#[derive(Clone, Copy, Debug, PartialEq, Eq, Structural)]
pub enum EdgeEndpoint {
    Row(usize),
    Output(usize),
}

/// A relation between two extracted items.
#[derive(Clone, Copy, Debug, PartialEq, Eq, Structural)]
pub struct ExtractedEdge {
    pub source: EdgeEndpoint,
    pub target: EdgeEndpoint,
}

pub open spec fn name_text(n: SyntaxNode) -> Option<Seq<char>> {
    match n.name {
        Some(s) => Some(s@),
        None => None,
    }
}

/// The name of an item: the text of its first child that is an identifier
/// or a type identifier.
pub open spec fn child_name(cs: Seq<SyntaxNode>) -> Option<Seq<char>>
    decreases cs.len(),
{
    if cs.len() == 0 {
        None
    } else if is_name_kind(cs[0].kind@) {
        name_text(cs[0])
    } else {
        child_name(cs.drop_first())
    }
}

/// The first identifier among some nodes, with its text.
pub open spec fn identifier_child(cs: Seq<SyntaxNode>) -> Option<Option<Seq<char>>>
    decreases cs.len(),
{
    if cs.len() == 0 {
        None
    } else if cs[0].kind@ == "identifier"@ {
        Some(name_text(cs[0]))
    } else {
        identifier_child(cs.drop_first())
    }
}

/// The name a binding introduces: its first child that is an identifier, or
/// the first identifier inside a `let_pattern` child, whichever comes first.
pub open spec fn binding_name(cs: Seq<SyntaxNode>) -> Option<Seq<char>>
    decreases cs.len(),
{
    if cs.len() == 0 {
        None
    } else if cs[0].kind@ == "identifier"@ {
        name_text(cs[0])
    } else if cs[0].kind@ == "let_pattern"@ && identifier_child(cs[0].children@) is Some {
        identifier_child(cs[0].children@).unwrap()
    } else {
        binding_name(cs.drop_first())
    }
}

pub open spec fn is_function_kind(k: Seq<char>) -> bool {
    k == "function_item"@ || k == "impl_item"@ || k == "trait_item"@
}

pub open spec fn is_binding_kind(k: Seq<char>) -> bool {
    k == "let_declaration"@ || k == "let_mut_pattern"@ || k == "field_declaration"@
}

pub open spec fn is_input_kind(k: Seq<char>) -> bool {
    k == "function_signature"@ || k == "parameter"@
}

pub open spec fn item_of(name: Option<Seq<char>>, t: FlowNodeType, n: SyntaxNode) -> Seq<ExtractedView> {
    match name {
        Some(s) => seq![ExtractedView { name: s, node_type: t, start_row: n.start_row, end_row: n.end_row }],
        None => seq![],
    }
}

/// The item a node declares, if any: functions, impls and traits by their
/// name, bindings and fields by the name they bind, signatures and
/// parameters by their name.
pub open spec fn node_items(n: SyntaxNode) -> Seq<ExtractedView> {
    let k = n.kind@;
    if is_function_kind(k) {
        item_of(child_name(n.children@), FlowNodeType::Function, n)
    } else if is_binding_kind(k) {
        item_of(binding_name(n.children@), FlowNodeType::Variable, n)
    } else if is_input_kind(k) {
        item_of(child_name(n.children@), FlowNodeType::Input, n)
    } else {
        seq![]
    }
}

/// The items of a tree in preorder.
pub open spec fn outline(n: SyntaxNode) -> Seq<ExtractedView>
    decreases n,
{
    node_items(n) + outline_all(n.children@)
}

/// The items of some trees, one after the other.
pub open spec fn outline_all(cs: Seq<SyntaxNode>) -> Seq<ExtractedView>
    decreases cs,
{
    if cs.len() == 0 {
        seq![]
    } else {
        outline_all(cs.drop_last()) + outline(cs.last())
    }
}

proof fn lemma_syntax_views_index(v: Seq<SyntaxNode>)
    ensures
        syntax_views(v).len() == v.len(),
        forall|i: int| 0 <= i < v.len() ==> #[trigger] syntax_views(v)[i] == syntax_view(v[i]),
    decreases v.len(),
{
    if v.len() > 0 {
        lemma_syntax_views_index(v.drop_last());
        assert forall|i: int| 0 <= i < v.len() implies #[trigger] syntax_views(v)[i] == syntax_view(v[i]) by {
            if i < v.len() - 1 {
                assert(v.drop_last()[i] == v[i]);
            }
        }
    }
}

/// Two lists of nodes that read the same, node by node.
pub open spec fn same_views(a: Seq<SyntaxNode>, b: Seq<SyntaxNode>) -> bool {
    &&& a.len() == b.len()
    &&& forall|i: int| 0 <= i < a.len() ==> #[trigger] syntax_view(a[i]) == syntax_view(b[i])
}

proof fn lemma_children_same(a: SyntaxNode, b: SyntaxNode)
    requires
        syntax_view(a) == syntax_view(b),
    ensures
        same_views(a.children@, b.children@),
        a.kind@ == b.kind@,
        name_text(a) == name_text(b),
        a.start_row == b.start_row,
        a.end_row == b.end_row,
{
    lemma_syntax_views_index(a.children@);
    lemma_syntax_views_index(b.children@);
    assert forall|i: int| 0 <= i < a.children@.len() implies #[trigger] syntax_view(a.children@[i]) == syntax_view(
        b.children@[i],
    ) by {
        assert(syntax_views(a.children@)[i] == syntax_views(b.children@)[i]);
    }
}

proof fn lemma_drop_first_same(a: Seq<SyntaxNode>, b: Seq<SyntaxNode>)
    requires
        same_views(a, b),
        a.len() > 0,
    ensures
        same_views(a.drop_first(), b.drop_first()),
        syntax_view(a[0]) == syntax_view(b[0]),
{
    assert forall|i: int| 0 <= i < a.drop_first().len() implies #[trigger] syntax_view(a.drop_first()[i])
        == syntax_view(b.drop_first()[i]) by {
        assert(syntax_view(a[i + 1]) == syntax_view(b[i + 1]));
    }
}

proof fn lemma_child_name_same(a: Seq<SyntaxNode>, b: Seq<SyntaxNode>)
    requires
        same_views(a, b),
    ensures
        child_name(a) == child_name(b),
    decreases a.len(),
{
    if a.len() > 0 {
        lemma_drop_first_same(a, b);
        lemma_children_same(a[0], b[0]);
        lemma_child_name_same(a.drop_first(), b.drop_first());
    }
}

proof fn lemma_identifier_child_same(a: Seq<SyntaxNode>, b: Seq<SyntaxNode>)
    requires
        same_views(a, b),
    ensures
        identifier_child(a) == identifier_child(b),
    decreases a.len(),
{
    if a.len() > 0 {
        lemma_drop_first_same(a, b);
        lemma_children_same(a[0], b[0]);
        lemma_identifier_child_same(a.drop_first(), b.drop_first());
    }
}

proof fn lemma_binding_name_same(a: Seq<SyntaxNode>, b: Seq<SyntaxNode>)
    requires
        same_views(a, b),
    ensures
        binding_name(a) == binding_name(b),
    decreases a.len(),
{
    if a.len() > 0 {
        lemma_drop_first_same(a, b);
        lemma_children_same(a[0], b[0]);
        lemma_identifier_child_same(a[0].children@, b[0].children@);
        lemma_binding_name_same(a.drop_first(), b.drop_first());
    }
}

/// The items of a syntax tree depend only on what its nodes read: two trees
/// that read the same have the same items.
pub proof fn lemma_outline_same(a: SyntaxNode, b: SyntaxNode)
    requires
        syntax_view(a) == syntax_view(b),
    ensures
        outline(a) == outline(b),
    decreases a,
{
    lemma_children_same(a, b);
    lemma_child_name_same(a.children@, b.children@);
    lemma_binding_name_same(a.children@, b.children@);
    assert(node_items(a) == node_items(b));
    lemma_outline_all_same(a.children@, b.children@);
}

proof fn lemma_outline_all_same(a: Seq<SyntaxNode>, b: Seq<SyntaxNode>)
    requires
        same_views(a, b),
    ensures
        outline_all(a) == outline_all(b),
    decreases a,
{
    if a.len() > 0 {
        assert(syntax_view(a[a.len() - 1]) == syntax_view(b[a.len() - 1]));
        lemma_outline_same(a.last(), b.last());
        assert forall|i: int| 0 <= i < a.drop_last().len() implies #[trigger] syntax_view(a.drop_last()[i])
            == syntax_view(b.drop_last()[i]) by {
            assert(syntax_view(a[i]) == syntax_view(b[i]));
        }
        lemma_outline_all_same(a.drop_last(), b.drop_last());
    }
}

fn is_name_node(n: &SyntaxNode) -> (r: bool)
    ensures
        r == is_name_kind(n.kind@),
{
    text_is(n.kind.as_str(), "identifier") || text_is(n.kind.as_str(), "type_identifier")
}

fn name_of(n: &SyntaxNode) -> (r: Option<String>)
    ensures
        match r {
            Some(s) => name_text(*n) == Some(s@),
            None => name_text(*n) is None,
        },
{
    match &n.name {
        Some(s) => Some(s.clone()),
        None => None,
    }
}

fn extract_name(cs: &Vec<SyntaxNode>) -> (r: Option<String>)
    ensures
        match r {
            Some(s) => child_name(cs@) == Some(s@),
            None => child_name(cs@) is None,
        },
{
    let mut i: usize = 0;
    assert(cs@.skip(0) =~= cs@);
    while i < cs.len()
        invariant
            i <= cs.len(),
            child_name(cs@) == child_name(cs@.skip(i as int)),
        decreases cs.len() - i,
    {
        let ghost rest = cs@.skip(i as int);
        assert(rest[0] == cs@[i as int]);
        assert(rest.drop_first() =~= cs@.skip(i + 1));
        if is_name_node(&cs[i]) {
            return name_of(&cs[i]);
        }
        i = i + 1;
    }
    None
}

fn identifier_in(cs: &Vec<SyntaxNode>) -> (r: Option<Option<String>>)
    ensures
        match r {
            Some(Some(s)) => identifier_child(cs@) == Some(Some(s@)),
            Some(None) => identifier_child(cs@) == Some(None::<Seq<char>>),
            None => identifier_child(cs@) is None,
        },
{
    let mut i: usize = 0;
    assert(cs@.skip(0) =~= cs@);
    while i < cs.len()
        invariant
            i <= cs.len(),
            identifier_child(cs@) == identifier_child(cs@.skip(i as int)),
        decreases cs.len() - i,
    {
        let ghost rest = cs@.skip(i as int);
        assert(rest[0] == cs@[i as int]);
        assert(rest.drop_first() =~= cs@.skip(i + 1));
        if text_is(cs[i].kind.as_str(), "identifier") {
            return Some(name_of(&cs[i]));
        }
        i = i + 1;
    }
    None
}

fn extract_binding_name(cs: &Vec<SyntaxNode>) -> (r: Option<String>)
    ensures
        match r {
            Some(s) => binding_name(cs@) == Some(s@),
            None => binding_name(cs@) is None,
        },
{
    let mut i: usize = 0;
    assert(cs@.skip(0) =~= cs@);
    while i < cs.len()
        invariant
            i <= cs.len(),
            binding_name(cs@) == binding_name(cs@.skip(i as int)),
        decreases cs.len() - i,
    {
        let ghost rest = cs@.skip(i as int);
        assert(rest[0] == cs@[i as int]);
        assert(rest.drop_first() =~= cs@.skip(i + 1));
        let child = &cs[i];
        if text_is(child.kind.as_str(), "identifier") {
            return name_of(child);
        }
        if text_is(child.kind.as_str(), "let_pattern") {
            match identifier_in(&child.children) {
                Some(found) => {
                    return found;
                },
                None => {},
            }
        }
        i = i + 1;
    }
    None
}

fn push_item(
    out: &mut Vec<ExtractedNode>,
    name: Option<String>,
    t: FlowNodeType,
    n: &SyntaxNode,
)
    ensures
        extracted_views(final(out)@) == extracted_views(old(out)@) + item_of(
            match name {
                Some(s) => Some(s@),
                None => None,
            },
            t,
            *n,
        ),
{
    let ghost before = out@;
    match name {
        Some(s) => {
            let ghost sv = s@;
            out.push(ExtractedNode { name: s, node_type: t, start_row: n.start_row, end_row: n.end_row });
            assert(extracted_views(out@) =~= extracted_views(before) + item_of(Some(sv), t, *n));
        },
        None => {
            assert(extracted_views(out@) =~= extracted_views(before) + item_of(None, t, *n));
        },
    }
}

fn push_node_items(out: &mut Vec<ExtractedNode>, n: &SyntaxNode)
    ensures
        extracted_views(final(out)@) == extracted_views(old(out)@) + node_items(*n),
{
    let k = n.kind.as_str();
    if text_is(k, "function_item") || text_is(k, "impl_item") || text_is(k, "trait_item") {
        push_item(out, extract_name(&n.children), FlowNodeType::Function, n);
    } else if text_is(k, "let_declaration") || text_is(k, "let_mut_pattern") || text_is(
        k,
        "field_declaration",
    ) {
        push_item(out, extract_binding_name(&n.children), FlowNodeType::Variable, n);
    } else if text_is(k, "function_signature") || text_is(k, "parameter") {
        push_item(out, extract_name(&n.children), FlowNodeType::Input, n);
    } else {
        assert(extracted_views(out@) =~= extracted_views(out@) + node_items(*n));
    }
}

fn collect_outline(out: &mut Vec<ExtractedNode>, n: &SyntaxNode)
    ensures
        extracted_views(final(out)@) == extracted_views(old(out)@) + outline(*n),
    decreases n,
{
    push_node_items(out, n);
    let ghost start = extracted_views(out@);
    let mut i: usize = 0;
    assert(n.children@.take(0) =~= seq![]);
    while i < n.children.len()
        invariant
            i <= n.children@.len(),
            extracted_views(out@) == start + outline_all(n.children@.take(i as int)),
        decreases n.children@.len() - i,
    {
        assert(decreases_to!(*n => n.children@[i as int]));
        collect_outline(out, &n.children[i]);
        assert(n.children@.take(i + 1).drop_last() =~= n.children@.take(i as int));
        i = i + 1;
    }
    assert(n.children@.take(i as int) =~= n.children@);
}

impl ParsedSource {
    /// The items of the syntax tree in preorder.
    pub fn extract_nodes(&self) -> (r: Vec<ExtractedNode>)
        ensures
            extracted_views(r@) == outline(self.root),
    {
        let mut nodes: Vec<ExtractedNode> = Vec::new();
        collect_outline(&mut nodes, &self.root);
        assert(extracted_views(nodes@) =~= seq![] + outline(self.root));
        nodes
    }
}

/// The items of one kind, in order.
pub open spec fn of_type(nodes: Seq<ExtractedView>, t: FlowNodeType) -> Seq<ExtractedView>
    decreases nodes.len(),
{
    if nodes.len() == 0 {
        seq![]
    } else {
        let r = of_type(nodes.drop_last(), t);
        if nodes.last().node_type == t {
            r.push(nodes.last())
        } else {
            r
        }
    }
}

pub open spec fn row_edge(source: usize, target: usize) -> ExtractedEdge {
    ExtractedEdge { source: EdgeEndpoint::Row(source), target: EdgeEndpoint::Row(target) }
}

/// A function's rows enclose those of a binding.
pub open spec fn encloses(f: ExtractedView, v: ExtractedView) -> bool {
    v.start_row >= f.start_row && v.end_row <= f.end_row
}

/// An edge from each function (in order) that encloses a binding to it.
pub open spec fn enclosing_edges(v: ExtractedView, funcs: Seq<ExtractedView>) -> Seq<ExtractedEdge>
    decreases funcs.len(),
{
    if funcs.len() == 0 {
        seq![]
    } else {
        let f = funcs.last();
        enclosing_edges(v, funcs.drop_last()) + if encloses(f, v) {
            seq![row_edge(f.start_row, v.start_row)]
        } else {
            seq![]
        }
    }
}

/// The enclosing edges of each binding, binding by binding.
pub open spec fn containment_edges(vars: Seq<ExtractedView>, funcs: Seq<ExtractedView>) -> Seq<
    ExtractedEdge,
>
    decreases vars.len(),
{
    if vars.len() == 0 {
        seq![]
    } else {
        containment_edges(vars.drop_last(), funcs) + enclosing_edges(vars.last(), funcs)
    }
}

/// The first position from `p` on where `pat` occurs in `line`.
pub open spec fn search_from(line: Seq<char>, pat: Seq<char>, p: int) -> Option<int>
    decreases line.len() + 1 - p,
{
    if p < 0 || p > line.len() {
        None
    } else if has_prefix(line.skip(p), pat) {
        Some(p)
    } else {
        search_from(line, pat, p + 1)
    }
}

/// A line refers to a name when, after the first occurrence of the name,
/// it ends or goes on with `(`, `::`, `.`, `<` or a space.
pub open spec fn line_references(line: Seq<char>, name: Seq<char>) -> bool {
    match search_from(line, name, 0) {
        None => false,
        Some(p) => {
            let after = line.skip(p + name.len());
            ||| after.len() == 0
            ||| has_prefix(after, seq!['('])
            ||| has_prefix(after, seq![':', ':'])
            ||| has_prefix(after, seq!['.'])
            ||| has_prefix(after, seq!['<'])
            ||| has_prefix(after, seq![' '])
        },
    }
}

/// The last of the lines of a function that the source has (one past its
/// last row, or the number of lines).
pub open spec fn body_end(caller: ExtractedView, lines: Seq<Seq<char>>) -> int {
    if caller.end_row + 1 < lines.len() {
        caller.end_row + 1
    } else {
        lines.len() as int
    }
}

/// Some line of a function, from its first row to its last one that the
/// source has, refers to the name of another.
pub open spec fn references(lines: Seq<Seq<char>>, caller: ExtractedView, callee: ExtractedView) -> bool {
    exists|r: int|
        caller.start_row <= r < body_end(caller, lines) && #[trigger] line_references(
            lines[r],
            callee.name,
        )
}

/// An edge from a function to each other function (in order, one that
/// starts at another row) that it refers to.
pub open spec fn callee_edges(
    caller: ExtractedView,
    funcs: Seq<ExtractedView>,
    lines: Seq<Seq<char>>,
) -> Seq<ExtractedEdge>
    decreases funcs.len(),
{
    if funcs.len() == 0 {
        seq![]
    } else {
        let f = funcs.last();
        callee_edges(caller, funcs.drop_last(), lines) + if caller.start_row != f.start_row
            && references(lines, caller, f) {
            seq![row_edge(caller.start_row, f.start_row)]
        } else {
            seq![]
        }
    }
}

/// The callee edges of each function, function by function.
pub open spec fn call_edges(
    callers: Seq<ExtractedView>,
    funcs: Seq<ExtractedView>,
    lines: Seq<Seq<char>>,
) -> Seq<ExtractedEdge>
    decreases callers.len(),
{
    if callers.len() == 0 {
        seq![]
    } else {
        call_edges(callers.drop_last(), funcs, lines) + callee_edges(callers.last(), funcs, lines)
    }
}

/// The edges of a source's items: from each function to the bindings it
/// encloses, then from each function to the functions it refers to.
pub open spec fn extracted_edges_of(nodes: Seq<ExtractedView>, source: Seq<char>) -> Seq<ExtractedEdge> {
    let funcs = of_type(nodes, FlowNodeType::Function);
    let vars = of_type(nodes, FlowNodeType::Variable);
    containment_edges(vars, funcs) + call_edges(funcs, funcs, text_lines(source))
}

fn nodes_of_type(nodes: &[ExtractedNode], t: FlowNodeType) -> (r: Vec<ExtractedNode>)
    ensures
        extracted_views(r@) == of_type(extracted_views(nodes@), t),
{
    let ghost all = extracted_views(nodes@);
    let mut r: Vec<ExtractedNode> = Vec::new();
    let mut i: usize = 0;
    while i < nodes.len()
        invariant
            i <= nodes.len(),
            all == extracted_views(nodes@),
            extracted_views(r@) == of_type(all.take(i as int), t),
        decreases nodes.len() - i,
    {
        let n = &nodes[i];
        assert(all.take(i + 1).drop_last() =~= all.take(i as int));
        assert(all.take(i + 1).last() == n@);
        if n.node_type == t {
            let ghost before = r@;
            r.push(ExtractedNode {
                name: n.name.clone(),
                node_type: n.node_type,
                start_row: n.start_row,
                end_row: n.end_row,
            });
            assert(extracted_views(r@) =~= extracted_views(before).push(n@));
        }
        i = i + 1;
    }
    assert(all.take(i as int) =~= all);
    r
}

proof fn lemma_search_found(line: Seq<char>, pat: Seq<char>, q: int)
    ensures
        search_from(line, pat, q) matches Some(p) ==> 0 <= p <= line.len() && has_prefix(
            line.skip(p),
            pat,
        ),
    decreases line.len() + 1 - q,
{
    if 0 <= q <= line.len() && !has_prefix(line.skip(q), pat) {
        lemma_search_found(line, pat, q + 1);
    }
}

/// The first position where `pat` occurs in `line`.
fn find_in(line: &[char], pat: &[char]) -> (r: Option<usize>)
    ensures
        match r {
            Some(p) => search_from(line@, pat@, 0) == Some(p as int),
            None => search_from(line@, pat@, 0) is None,
        },
{
    let mut p: usize = 0;
    while p < line.len()
        invariant
            p <= line.len(),
            search_from(line@, pat@, 0) == search_from(line@, pat@, p as int),
        decreases line.len() - p,
    {
        let rest = vstd::slice::slice_subrange(line, p, line.len());
        assert(rest@ =~= line@.skip(p as int));
        if starts_with(rest, pat) {
            return Some(p);
        }
        p = p + 1;
    }
    let rest = vstd::slice::slice_subrange(line, p, line.len());
    assert(rest@ =~= line@.skip(p as int));
    if starts_with(rest, pat) {
        return Some(p);
    }
    assert(search_from(line@, pat@, p + 1) is None);
    None
}

fn line_refers(line: &[char], name: &[char]) -> (r: bool)
    ensures
        r == line_references(line@, name@),
{
    match find_in(line, name) {
        None => false,
        Some(p) => {
            let n = line.len();
            proof {
                lemma_search_found(line@, name@, 0);
                assert(name@.len() <= line@.skip(p as int).len());
            }
            let after = vstd::slice::slice_subrange(line, p + name.len(), n);
            assert(after@ =~= line@.skip(p + name.len()));
            after.len() == 0 || begins_with1(after, '(') || begins_with2(after, ':', ':')
                || begins_with1(after, '.') || begins_with1(after, '<') || begins_with1(after, ' ')
        },
    }
}

fn function_references(lines: &Vec<Vec<char>>, caller: &ExtractedNode, callee: &ExtractedNode) -> (r: bool)
    ensures
        r == references(char_seqs(lines@), caller@, callee@),
{
    let ghost ls = char_seqs(lines@);
    let end = if caller.end_row < lines.len() && caller.end_row + 1 < lines.len() {
        caller.end_row + 1
    } else {
        lines.len()
    };
    assert(end == body_end(caller@, ls));
    let name = chars_of(callee.name.as_str());
    let mut r: usize = caller.start_row;
    while r < end
        invariant
            caller.start_row <= r,
            end == body_end(caller@, ls),
            end <= lines@.len(),
            ls == char_seqs(lines@),
            name@ == callee@.name,
            forall|q: int| caller.start_row <= q < r ==> !#[trigger] line_references(ls[q], callee@.name),
        decreases end - r,
    {
        assert(ls[r as int] == lines@[r as int]@);
        if line_refers(lines[r].as_slice(), name.as_slice()) {
            assert(line_references(ls[r as int], callee@.name));
            return true;
        }
        r = r + 1;
    }
    false
}

impl ParsedSource {
    /// The edges between the items of the source: from each function to the
    /// bindings whose rows it encloses, then from each function to each other
    /// function that one of its lines refers to.
    pub fn extract_edges(&self, nodes: &[ExtractedNode]) -> (r: Vec<ExtractedEdge>)
        ensures
            r@ == extracted_edges_of(extracted_views(nodes@), self.source@),
    {
        let ghost all = extracted_views(nodes@);
        let functions = nodes_of_type(nodes, FlowNodeType::Function);
        let variables = nodes_of_type(nodes, FlowNodeType::Variable);
        let ghost funcs = extracted_views(functions@);
        let ghost vars = extracted_views(variables@);
        let mut edges: Vec<ExtractedEdge> = Vec::new();
        let mut i: usize = 0;
        while i < variables.len()
            invariant
                i <= variables.len(),
                funcs == extracted_views(functions@),
                vars == extracted_views(variables@),
                edges@ == containment_edges(vars.take(i as int), funcs),
            decreases variables.len() - i,
        {
            let v = &variables[i];
            assert(vars.take(i + 1).drop_last() =~= vars.take(i as int));
            assert(vars.take(i + 1).last() == v@);
            let ghost base = edges@;
            let mut j: usize = 0;
            while j < functions.len()
                invariant
                    j <= functions.len(),
                    funcs == extracted_views(functions@),
                    edges@ == base + enclosing_edges(v@, funcs.take(j as int)),
                decreases functions.len() - j,
            {
                let f = &functions[j];
                assert(funcs.take(j + 1).drop_last() =~= funcs.take(j as int));
                assert(funcs.take(j + 1).last() == f@);
                let ghost before = edges@;
                if v.start_row >= f.start_row && v.end_row <= f.end_row {
                    edges.push(
                        ExtractedEdge {
                            source: EdgeEndpoint::Row(f.start_row),
                            target: EdgeEndpoint::Row(v.start_row),
                        },
                    );
                    assert(edges@ =~= before + seq![row_edge(f.start_row, v.start_row)]);
                } else {
                    assert(edges@ =~= before + seq![]);
                }
                j = j + 1;
            }
            assert(funcs.take(j as int) =~= funcs);
            i = i + 1;
        }
        assert(vars.take(i as int) =~= vars);
        let cs = chars_of(self.source.as_str());
        let lines = split_lines(cs.as_slice());
        let ghost ls = char_seqs(lines@);
        let ghost first = edges@;
        let mut a: usize = 0;
        while a < functions.len()
            invariant
                a <= functions.len(),
                funcs == extracted_views(functions@),
                ls == char_seqs(lines@),
                edges@ == first + call_edges(funcs.take(a as int), funcs, ls),
            decreases functions.len() - a,
        {
            let caller = &functions[a];
            assert(funcs.take(a + 1).drop_last() =~= funcs.take(a as int));
            assert(funcs.take(a + 1).last() == caller@);
            let ghost base = edges@;
            let mut b: usize = 0;
            while b < functions.len()
                invariant
                    b <= functions.len(),
                    funcs == extracted_views(functions@),
                    ls == char_seqs(lines@),
                    edges@ == base + callee_edges(caller@, funcs.take(b as int), ls),
                decreases functions.len() - b,
            {
                let callee = &functions[b];
                assert(funcs.take(b + 1).drop_last() =~= funcs.take(b as int));
                assert(funcs.take(b + 1).last() == callee@);
                let ghost before = edges@;
                if caller.start_row != callee.start_row && function_references(&lines, caller, callee) {
                    edges.push(
                        ExtractedEdge {
                            source: EdgeEndpoint::Row(caller.start_row),
                            target: EdgeEndpoint::Row(callee.start_row),
                        },
                    );
                    assert(edges@ =~= before + seq![row_edge(caller.start_row, callee.start_row)]);
                } else {
                    assert(edges@ =~= before + seq![]);
                }
                b = b + 1;
            }
            assert(funcs.take(b as int) =~= funcs);
            a = a + 1;
        }
        assert(funcs.take(a as int) =~= funcs);
        edges
    }
}


/// A name occurs in `line` at `p`.
pub open spec fn occurs_at(line: Seq<char>, name: Seq<char>, p: int) -> bool {
    0 <= p && p + name.len() <= line.len() && line.subrange(p, p + name.len()) == name
}

/// What follows a name makes it a use of the item: the line ends, or goes
/// on with a call `(`, a path `::`, a method `.`, generics `<` or a space.
pub open spec fn use_follows(after: Seq<char>) -> bool {
    ||| after.len() == 0
    ||| after[0] == '('
    ||| (after.len() >= 2 && after[0] == ':' && after[1] == ':')
    ||| after[0] == '.'
    ||| after[0] == '<'
    ||| after[0] == ' '
}

proof fn lemma_occurs_is_prefix(line: Seq<char>, name: Seq<char>, q: int)
    requires
        0 <= q <= line.len(),
    ensures
        has_prefix(line.skip(q), name) <==> occurs_at(line, name, q),
{
    if q + name.len() <= line.len() {
        assert(line.skip(q).take(name.len() as int) =~= line.subrange(q, q + name.len()));
    }
}

proof fn lemma_search_first(line: Seq<char>, name: Seq<char>, q: int, p: int)
    requires
        0 <= q <= p,
        occurs_at(line, name, p),
        forall|k: int| q <= k < p ==> !#[trigger] occurs_at(line, name, k),
    ensures
        search_from(line, name, q) == Some(p),
    decreases p - q,
{
    lemma_occurs_is_prefix(line, name, q);
    if q < p {
        lemma_search_first(line, name, q + 1, p);
    }
}

proof fn lemma_of_type_contains(nodes: Seq<ExtractedView>, t: FlowNodeType, i: int)
    requires
        0 <= i < nodes.len(),
        nodes[i].node_type == t,
    ensures
        of_type(nodes, t).contains(nodes[i]),
    decreases nodes.len(),
{
    let r = of_type(nodes.drop_last(), t);
    if i == nodes.len() - 1 {
        assert(r.push(nodes.last())[r.len() as int] == nodes[i]);
    } else {
        assert(nodes.drop_last()[i] == nodes[i]);
        lemma_of_type_contains(nodes.drop_last(), t, i);
        let k = choose|k: int| 0 <= k < r.len() && r[k] == nodes[i];
        if nodes.last().node_type == t {
            assert(r.push(nodes.last())[k] == nodes[i]);
        }
    }
}

proof fn lemma_callee_edges_contain(caller: ExtractedView, funcs: Seq<ExtractedView>, lines: Seq<Seq<char>>, f: ExtractedView)
    requires
        funcs.contains(f),
        caller.start_row != f.start_row,
        references(lines, caller, f),
    ensures
        callee_edges(caller, funcs, lines).contains(row_edge(caller.start_row, f.start_row)),
    decreases funcs.len(),
{
    let e = row_edge(caller.start_row, f.start_row);
    let before = callee_edges(caller, funcs.drop_last(), lines);
    let last = funcs.last();
    let tail = if caller.start_row != last.start_row && references(lines, caller, last) {
        seq![row_edge(caller.start_row, last.start_row)]
    } else {
        seq![]
    };
    assert(callee_edges(caller, funcs, lines) == before + tail);
    if last == f {
        assert((before + tail)[before.len() as int] == e);
    } else {
        let k = choose|k: int| 0 <= k < funcs.len() && funcs[k] == f;
        assert(k < funcs.len() - 1);
        assert(funcs.drop_last()[k] == f);
        lemma_callee_edges_contain(caller, funcs.drop_last(), lines, f);
        let m = choose|m: int| 0 <= m < before.len() && before[m] == e;
        assert((before + tail)[m] == e);
    }
}

proof fn lemma_call_edges_contain(callers: Seq<ExtractedView>, funcs: Seq<ExtractedView>, lines: Seq<Seq<char>>, c: ExtractedView, e: ExtractedEdge)
    requires
        callers.contains(c),
        callee_edges(c, funcs, lines).contains(e),
    ensures
        call_edges(callers, funcs, lines).contains(e),
    decreases callers.len(),
{
    let before = call_edges(callers.drop_last(), funcs, lines);
    let tail = callee_edges(callers.last(), funcs, lines);
    assert(call_edges(callers, funcs, lines) == before + tail);
    if callers.last() == c {
        let m = choose|m: int| 0 <= m < tail.len() && tail[m] == e;
        assert((before + tail)[before.len() + m] == e);
    } else {
        let k = choose|k: int| 0 <= k < callers.len() && callers[k] == c;
        assert(k < callers.len() - 1);
        assert(callers.drop_last()[k] == c);
        lemma_call_edges_contain(callers.drop_last(), funcs, lines, c, e);
        let m = choose|m: int| 0 <= m < before.len() && before[m] == e;
        assert((before + tail)[m] == e);
    }
}

/// When a line of one function's rows holds the name of another function
/// (an impl or a trait counts as one) and, where the name first occurs in
/// the line, what follows is a call, a path such as `Parser::new`, a method,
/// generics, a space or the line's end, the extracted edges hold an edge
/// from the first function's row to the other's.
pub proof fn lemma_named_use_makes_call_edge(
    nodes: Seq<ExtractedView>,
    source: Seq<char>,
    i: int,
    j: int,
    r: int,
    p: int,
)
    requires
        0 <= i < nodes.len(),
        0 <= j < nodes.len(),
        nodes[i].node_type == FlowNodeType::Function,
        nodes[j].node_type == FlowNodeType::Function,
        nodes[i].start_row != nodes[j].start_row,
        nodes[i].start_row <= r <= nodes[i].end_row,
        r < text_lines(source).len(),
        occurs_at(text_lines(source)[r], nodes[j].name, p),
        forall|q: int| 0 <= q < p ==> !#[trigger] occurs_at(text_lines(source)[r], nodes[j].name, q),
        use_follows(text_lines(source)[r].skip(p + nodes[j].name.len())),
    ensures
        extracted_edges_of(nodes, source).contains(row_edge(nodes[i].start_row, nodes[j].start_row)),
{
    let lines = text_lines(source);
    let line = lines[r];
    let name = nodes[j].name;
    let caller = nodes[i];
    let callee = nodes[j];
    lemma_search_first(line, name, 0, p);
    let after = line.skip(p + name.len());
    if after.len() > 0 {
        assert(after.take(1) =~= seq![after[0]]);
    }
    if after.len() >= 2 && after[0] == ':' && after[1] == ':' {
        assert(after.take(2) =~= seq![':', ':']);
    }
    assert(line_references(lines[r], callee.name));
    assert(r < body_end(caller, lines));
    assert(references(lines, caller, callee));
    let funcs = of_type(nodes, FlowNodeType::Function);
    let vars = of_type(nodes, FlowNodeType::Variable);
    lemma_of_type_contains(nodes, FlowNodeType::Function, i);
    lemma_of_type_contains(nodes, FlowNodeType::Function, j);
    let e = row_edge(caller.start_row, callee.start_row);
    lemma_callee_edges_contain(caller, funcs, lines, callee);
    lemma_call_edges_contain(funcs, funcs, lines, caller, e);
    let a = containment_edges(vars, funcs);
    let b = call_edges(funcs, funcs, lines);
    let m = choose|m: int| 0 <= m < b.len() && b[m] == e;
    assert((a + b)[a.len() + m] == e);
}

} // verus!
