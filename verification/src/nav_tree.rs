//! The file tree of the repository snapshot window: each path split into
//! its directories and file, directories listed before files and each group
//! by name.
use vstd::prelude::*;

use crate::engine::{fnv1a, hash_bytes};
use vstd::string::StringSliceAdditionalSpecFns;
use crate::file_tree::{child_path, join_path};
use crate::git::snapshot::FileChange;
use crate::order::{ascending, lemma_ascending_unique_on, strict_total_on};
use crate::text::{char_seqs, chars_equal, chars_less, chars_of, seq_less, split_fields, string_from_chars, text_fields};

verus! {

/// A node of the tree: a directory with its children, or a file by its
/// index among the snapshot's files.
pub struct FileTreeNode {
    pub name: String,
    pub full_path: String,
    pub children: Vec<FileTreeNode>,
    pub file_index: Option<usize>,
}

pub struct NodeView {
    pub name: Seq<char>,
    pub full_path: Seq<char>,
    pub children: Seq<NodeView>,
    pub file_index: Option<usize>,
}

pub open spec fn node_view(n: FileTreeNode) -> NodeView
    decreases n,
{
    NodeView {
        name: n.name@,
        full_path: n.full_path@,
        children: node_views(n.children@),
        file_index: n.file_index,
    }
}

pub open spec fn node_views(v: Seq<FileTreeNode>) -> Seq<NodeView>
    decreases v,
{
    if v.len() == 0 {
        seq![]
    } else {
        node_views(v.drop_last()).push(node_view(v.last()))
    }
}

/// The position of the first node named `name`.
pub open spec fn find_name(nodes: Seq<NodeView>, name: Seq<char>) -> Option<int>
    decreases nodes.len(),
{
    if nodes.len() == 0 {
        None
    } else if nodes[0].name == name {
        Some(0)
    } else {
        match find_name(nodes.drop_first(), name) {
            Some(k) => Some(k + 1),
            None => None,
        }
    }
}

/// Inserts the file `index` at the path of names `parts` below a directory
/// whose path is `parent`: a node of the first name is reused (a file there
/// takes the index and the file's full path), else a new node is added at
/// the end, a file with the file's full path or a directory with the
/// directory's path.
pub open spec fn insert_node(
    nodes: Seq<NodeView>,
    parts: Seq<Seq<char>>,
    parent: Seq<char>,
    full: Seq<char>,
    index: usize,
) -> Seq<NodeView>
    decreases parts.len(),
{
    if parts.len() == 0 {
        nodes
    } else {
        let part = parts[0];
        let rest = parts.drop_first();
        let node_path = join_path(parent, part);
        match find_name(nodes, part) {
            Some(k) => {
                let e = nodes[k];
                if rest.len() == 0 {
                    nodes.update(k, NodeView { file_index: Some(index), full_path: full, ..e })
                } else {
                    nodes.update(
                        k,
                        NodeView { children: insert_node(e.children, rest, e.full_path, full, index), ..e },
                    )
                }
            },
            None => {
                if rest.len() == 0 {
                    nodes.push(NodeView { name: part, full_path: full, children: seq![], file_index: Some(index) })
                } else {
                    nodes.push(
                        NodeView {
                            name: part,
                            full_path: node_path,
                            children: insert_node(seq![], rest, node_path, full, index),
                            file_index: None,
                        },
                    )
                }
            },
        }
    }
}

/// The tree of the first `k` files, before sorting.
pub open spec fn built(files: Seq<FileChange>, k: int) -> Seq<NodeView>
    decreases k,
{
    if k <= 0 {
        seq![]
    } else {
        let f = files[k - 1];
        insert_node(built(files, k - 1), text_fields(f.path@, '/'), seq![], f.path@, (k - 1) as usize)
    }
}

/// Directories come before files, and nodes of one kind by name.
pub open spec fn node_less() -> spec_fn(NodeView, NodeView) -> bool {
    |a: NodeView, b: NodeView|
        (a.file_index is None && b.file_index is Some) || ((a.file_index is None) == (b.file_index
            is None) && seq_less(a.name, b.name))
}

/// The nodes of a level in the order of `node_less`.
pub open spec fn sorted_level(nodes: Seq<NodeView>) -> Seq<NodeView> {
    choose|s: Seq<NodeView>| ascending(s, node_less()) && forall|a: NodeView| #[trigger] s.contains(a) <==> nodes.contains(a)
}

/// The nodes sorted at every level.
pub open spec fn sort_tree(nodes: Seq<NodeView>) -> Seq<NodeView>
    decreases nodes, 1nat,
{
    sorted_level(sort_each(nodes))
}

/// Each node with its children sorted.
pub open spec fn sort_each(nodes: Seq<NodeView>) -> Seq<NodeView>
    decreases nodes, 0nat,
{
    if nodes.len() == 0 {
        seq![]
    } else {
        let n = nodes.last();
        sort_each(nodes.drop_last()).push(NodeView { children: sort_tree(n.children), ..n })
    }
}

/// No two nodes of a level share a name.
pub open spec fn unique_names(nodes: Seq<NodeView>) -> bool {
    forall|i: int, j: int| 0 <= i < j < nodes.len() ==> #[trigger] nodes[i].name != #[trigger] nodes[j].name
}

/// No two nodes of any level share a name.
pub open spec fn wf_nodes(nodes: Seq<NodeView>) -> bool
    decreases nodes, 1nat,
{
    unique_names(nodes) && children_wf(nodes)
}

pub open spec fn children_wf(nodes: Seq<NodeView>) -> bool
    decreases nodes, 0nat,
{
    if nodes.len() == 0 {
        true
    } else {
        children_wf(nodes.drop_last()) && wf_nodes(nodes.last().children)
    }
}

proof fn lemma_children_wf(nodes: Seq<NodeView>)
    ensures
        children_wf(nodes) <==> forall|i: int| 0 <= i < nodes.len() ==> wf_nodes(#[trigger] nodes[i].children),
    decreases nodes.len(),
{
    if nodes.len() > 0 {
        lemma_children_wf(nodes.drop_last());
        if forall|i: int| 0 <= i < nodes.len() ==> wf_nodes(#[trigger] nodes[i].children) {
            assert forall|i: int| 0 <= i < nodes.drop_last().len() implies wf_nodes(
                #[trigger] nodes.drop_last()[i].children,
            ) by {
                assert(nodes.drop_last()[i] == nodes[i]);
            }
        }
        if children_wf(nodes) {
            assert forall|i: int| 0 <= i < nodes.len() implies wf_nodes(#[trigger] nodes[i].children) by {
                if i < nodes.len() - 1 {
                    assert(nodes.drop_last()[i] == nodes[i]);
                }
            }
        }
    }
}

proof fn lemma_find_name(nodes: Seq<NodeView>, name: Seq<char>)
    ensures
        match find_name(nodes, name) {
            Some(k) => 0 <= k < nodes.len() && nodes[k].name == name && forall|j: int|
                0 <= j < k ==> #[trigger] nodes[j].name != name,
            None => forall|j: int| 0 <= j < nodes.len() ==> #[trigger] nodes[j].name != name,
        },
    decreases nodes.len(),
{
    if nodes.len() > 0 && nodes[0].name != name {
        lemma_find_name(nodes.drop_first(), name);
        match find_name(nodes.drop_first(), name) {
            Some(k) => {
                assert forall|j: int| 0 <= j < k + 1 implies #[trigger] nodes[j].name != name by {
                    if j > 0 {
                        assert(nodes[j] == nodes.drop_first()[j - 1]);
                    }
                }
            },
            None => {
                assert forall|j: int| 0 <= j < nodes.len() implies #[trigger] nodes[j].name != name by {
                    if j > 0 {
                        assert(nodes[j] == nodes.drop_first()[j - 1]);
                    }
                }
            },
        }
    }
}

proof fn lemma_insert_wf(nodes: Seq<NodeView>, parts: Seq<Seq<char>>, parent: Seq<char>, full: Seq<char>, index: usize)
    requires
        wf_nodes(nodes),
    ensures
        wf_nodes(insert_node(nodes, parts, parent, full, index)),
    decreases parts.len(),
{
    if parts.len() > 0 {
        let part = parts[0];
        let rest = parts.drop_first();
        let node_path = join_path(parent, part);
        lemma_find_name(nodes, part);
        lemma_children_wf(nodes);
        let r = insert_node(nodes, parts, parent, full, index);
        match find_name(nodes, part) {
            Some(k) => {
                let e = nodes[k];
                if rest.len() > 0 {
                    lemma_insert_wf(e.children, rest, e.full_path, full, index);
                }
                assert(r.len() == nodes.len());
                assert forall|i: int| 0 <= i < r.len() implies #[trigger] r[i].name == nodes[i].name by {}
                assert(unique_names(r)) by {
                    assert forall|i: int, j: int| 0 <= i < j < r.len() implies #[trigger] r[i].name != #[trigger] r[j].name by {
                        assert(r[i].name == nodes[i].name && r[j].name == nodes[j].name);
                    }
                }
                assert forall|i: int| 0 <= i < r.len() implies wf_nodes(#[trigger] r[i].children) by {
                    if i != k {
                        assert(r[i] == nodes[i]);
                    }
                }
                lemma_children_wf(r);
            },
            None => {
                if rest.len() > 0 {
                    assert(wf_nodes(seq![])) by {
                        assert(children_wf(seq![]));
                    }
                    lemma_insert_wf(seq![], rest, node_path, full, index);
                } else {
                    assert(children_wf(seq![]));
                }
                assert(unique_names(r)) by {
                    assert forall|i: int, j: int| 0 <= i < j < r.len() implies #[trigger] r[i].name != #[trigger] r[j].name by {
                        if j == nodes.len() {
                            assert(r[i] == nodes[i]);
                        } else {
                            assert(r[i] == nodes[i] && r[j] == nodes[j]);
                        }
                    }
                }
                assert forall|i: int| 0 <= i < r.len() implies wf_nodes(#[trigger] r[i].children) by {
                    if i < nodes.len() {
                        assert(r[i] == nodes[i]);
                    }
                }
                lemma_children_wf(r);
            },
        }
    }
}

proof fn lemma_built_wf(files: Seq<FileChange>, k: int)
    ensures
        wf_nodes(built(files, k)),
    decreases k,
{
    if k <= 0 {
        assert(children_wf(seq![]));
    } else {
        lemma_built_wf(files, k - 1);
        let f = files[k - 1];
        lemma_insert_wf(built(files, k - 1), text_fields(f.path@, '/'), seq![], f.path@, (k - 1) as usize);
    }
}

proof fn lemma_node_views(v: Seq<FileTreeNode>)
    ensures
        node_views(v).len() == v.len(),
        forall|i: int| 0 <= i < v.len() ==> #[trigger] node_views(v)[i] == node_view(v[i]),
    decreases v.len(),
{
    if v.len() > 0 {
        lemma_node_views(v.drop_last());
        assert forall|i: int| 0 <= i < v.len() implies #[trigger] node_views(v)[i] == node_view(v[i]) by {
            if i < v.len() - 1 {
                assert(v.drop_last()[i] == v[i]);
            }
        }
    }
}

proof fn lemma_node_views_ext(a: Seq<FileTreeNode>, b: Seq<NodeView>)
    requires
        a.len() == b.len(),
        forall|i: int| 0 <= i < a.len() ==> node_view(#[trigger] a[i]) == b[i],
    ensures
        node_views(a) == b,
{
    lemma_node_views(a);
    assert(node_views(a) =~= b);
}

fn find_node(nodes: &Vec<FileTreeNode>, name: &Vec<char>) -> (r: Option<usize>)
    ensures
        match r {
            Some(k) => find_name(node_views(nodes@), name@) == Some(k as int),
            None => find_name(node_views(nodes@), name@) is None,
        },
{
    let ghost all = node_views(nodes@);
    proof {
        lemma_node_views(nodes@);
    }
    let mut k: usize = 0;
    assert(all.skip(0) =~= all);
    while k < nodes.len()
        invariant
            k <= nodes@.len(),
            all == node_views(nodes@),
            all.len() == nodes@.len(),
            forall|i: int| 0 <= i < nodes@.len() ==> #[trigger] all[i] == node_view(nodes@[i]),
            find_name(all, name@) == match find_name(all.skip(k as int), name@) {
                Some(j) => Some(j + k),
                None => None::<int>,
            },
        decreases nodes@.len() - k,
    {
        assert(all.skip(k as int)[0] == all[k as int]);
        assert(all.skip(k as int).drop_first() =~= all.skip(k + 1));
        let n = chars_of(nodes[k].name.as_str());
        assert(all[k as int].name == n@);
        if chars_equal(n.as_slice(), name.as_slice()) {
            return Some(k);
        }
        k = k + 1;
    }
    None
}

/// Inserts the file `file_index` at the path of names `parts` below the
/// directory whose path is `parent_path`.
fn insert_file_tree_node(
    nodes: &mut Vec<FileTreeNode>,
    parts: &[Vec<char>],
    parent_path: &String,
    full_path: &String,
    file_index: usize,
)
    ensures
        node_views(final(nodes)@) == insert_node(
            node_views(old(nodes)@),
            char_seqs(parts@),
            parent_path@,
            full_path@,
            file_index,
        ),
    decreases parts@.len(),
{
    let ghost before = node_views(nodes@);
    let ghost ps = char_seqs(parts@);
    proof {
        lemma_node_views(nodes@);
    }
    if parts.len() == 0 {
        return;
    }
    let part = &parts[0];
    assert(ps[0] == part@);
    let rest = vstd::slice::slice_subrange(parts, 1, parts.len());
    assert(char_seqs(rest@) =~= ps.drop_first());
    let node_path = child_path(parent_path, part);
    match find_node(nodes, part) {
        Some(k) => {
            proof {
                lemma_find_name(before, part@);
            }
            let ghost old_nodes = nodes@;
            let mut e = nodes.remove(k);
            assert(node_view(e) == before[k as int]);
            if rest.len() == 0 {
                e.file_index = Some(file_index);
                e.full_path = full_path.clone();
            } else {
                let ep = e.full_path.clone();
                let mut children: Vec<FileTreeNode> = Vec::new();
                core::mem::swap(&mut children, &mut e.children);
                insert_file_tree_node(&mut children, rest, &ep, full_path, file_index);
                e.children = children;
            }
            let ghost ev = node_view(e);
            nodes.insert(k, e);
            proof {
                assert(nodes@ =~= old_nodes.update(k as int, e));
                assert forall|i: int| 0 <= i < nodes@.len() implies node_view(#[trigger] nodes@[i])
                    == before.update(k as int, ev)[i] by {
                    if i != k {
                        assert(nodes@[i] == old_nodes[i]);
                    }
                }
                lemma_node_views_ext(nodes@, before.update(k as int, ev));
            }
        },
        None => {
            let ghost old_nodes = nodes@;
            let node = if rest.len() == 0 {
                FileTreeNode {
                    name: string_from_chars(part.as_slice()),
                    full_path: full_path.clone(),
                    children: Vec::new(),
                    file_index: Some(file_index),
                }
            } else {
                let mut children: Vec<FileTreeNode> = Vec::new();
                assert(node_views(children@) =~= seq![]);
                insert_file_tree_node(&mut children, rest, &node_path, full_path, file_index);
                FileTreeNode {
                    name: string_from_chars(part.as_slice()),
                    full_path: node_path,
                    children,
                    file_index: None,
                }
            };
            let ghost nv = node_view(node);
            nodes.push(node);
            proof {
                assert forall|i: int| 0 <= i < nodes@.len() implies node_view(#[trigger] nodes@[i])
                    == before.push(nv)[i] by {
                    if i < old_nodes.len() {
                        assert(nodes@[i] == old_nodes[i]);
                    }
                }
                lemma_node_views_ext(nodes@, before.push(nv));
            }
        },
    }
}

fn node_before(a: &FileTreeNode, b: &FileTreeNode) -> (r: bool)
    ensures
        r == node_less()(node_view(*a), node_view(*b)),
{
    let an = chars_of(a.name.as_str());
    let bn = chars_of(b.name.as_str());
    (a.file_index.is_none() && b.file_index.is_some()) || (a.file_index.is_none() == b.file_index.is_none()
        && chars_less(an.as_slice(), bn.as_slice()))
}

proof fn lemma_sort_each(nodes: Seq<NodeView>)
    ensures
        sort_each(nodes).len() == nodes.len(),
        forall|i: int| 0 <= i < nodes.len() ==> #[trigger] sort_each(nodes)[i] == (NodeView {
            children: sort_tree(nodes[i].children),
            ..nodes[i]
        }),
    decreases nodes.len(),
{
    if nodes.len() > 0 {
        lemma_sort_each(nodes.drop_last());
        assert forall|i: int| 0 <= i < nodes.len() implies #[trigger] sort_each(nodes)[i] == (NodeView {
            children: sort_tree(nodes[i].children),
            ..nodes[i]
        }) by {
            if i < nodes.len() - 1 {
                assert(nodes.drop_last()[i] == nodes[i]);
            }
        }
    }
}

proof fn lemma_node_less_on(s: Seq<NodeView>)
    requires
        unique_names(s),
    ensures
        strict_total_on(node_less(), s),
{
    let less = node_less();
    assert forall|a: NodeView| !#[trigger] less(a, a) by {
        crate::order::lemma_seq_less_irreflexive(a.name);
    }
    assert forall|a: NodeView, b: NodeView, c: NodeView| #[trigger] less(a, b) && #[trigger] less(b, c) implies less(a, c) by {
        if seq_less(a.name, b.name) && seq_less(b.name, c.name) {
            crate::order::lemma_seq_less_transitive(a.name, b.name, c.name);
        }
    }
    assert forall|a: NodeView, b: NodeView|
        #![trigger less(a, b)]
        s.contains(a) && s.contains(b) && a != b implies less(a, b) || less(b, a) by {
        let i = choose|i: int| 0 <= i < s.len() && s[i] == a;
        let j = choose|j: int| 0 <= j < s.len() && s[j] == b;
        assert(i != j);
        assert(a.name != b.name) by {
            if i < j {
                assert(s[i].name != s[j].name);
            } else {
                assert(s[j].name != s[i].name);
            }
        }
        crate::order::lemma_seq_less_total(a.name, b.name);
    }
}

/// Sorts every level of the tree: directories before files, each kind by
/// name.
fn sort_file_tree_nodes(nodes: Vec<FileTreeNode>) -> (r: Vec<FileTreeNode>)
    requires
        wf_nodes(node_views(nodes@)),
    ensures
        node_views(r@) == sort_tree(node_views(nodes@)),
    decreases nodes,
{
    let ghost whole = nodes;
    let ghost orig = nodes@;
    let ghost ov = node_views(orig);
    proof {
        lemma_node_views(orig);
        lemma_children_wf(ov);
        lemma_sort_each(ov);
    }
    let mut mapped: Vec<FileTreeNode> = Vec::new();
    let mut rest = nodes;
    let mut k: usize = 0;
    assert(orig.skip(0) =~= orig);
    while rest.len() > 0
        invariant
            k <= orig.len(),
            orig == whole@,
            whole == nodes,
            rest@ == orig.skip(k as int),
            ov == node_views(orig),
            ov.len() == orig.len(),
            forall|i: int| 0 <= i < orig.len() ==> #[trigger] ov[i] == node_view(orig[i]),
            forall|i: int| 0 <= i < ov.len() ==> wf_nodes(#[trigger] ov[i].children),
            mapped@.len() == k,
            forall|i: int| 0 <= i < k ==> node_view(#[trigger] mapped@[i]) == sort_each(ov)[i],
            sort_each(ov).len() == ov.len(),
            forall|i: int| 0 <= i < ov.len() ==> #[trigger] sort_each(ov)[i] == (NodeView {
                children: sort_tree(ov[i].children),
                ..ov[i]
            }),
        decreases rest@.len(),
    {
        let ghost r0 = rest@;
        let mut n = rest.remove(0);
        assert(n == orig[k as int]);
        assert(rest@ =~= orig.skip(k + 1));
        let mut children: Vec<FileTreeNode> = Vec::new();
        core::mem::swap(&mut children, &mut n.children);
        assert(children == orig[k as int].children);
        assert(node_views(children@) == ov[k as int].children);
        proof {
            let e = orig[k as int];
            assert(decreases_to!(orig => e));
            assert(decreases_to!(e => e.children));
            assert(decreases_to!(e.children => e.children@));
            assert(decreases_to!(orig => children@));
            assert(decreases_to!(whole => whole@));
            assert(decreases_to!(whole => children));
        }
        let sorted = sort_file_tree_nodes(children);
        n.children = sorted;
        assert(node_view(n) == sort_each(ov)[k as int]);
        mapped.push(n);
        k = mapped.len();
    }
    let ghost mv = sort_each(ov);
    proof {
        lemma_node_views_ext(mapped@, mv);
    }
    assert(unique_names(mv)) by {
        assert forall|i: int, j: int| 0 <= i < j < mv.len() implies #[trigger] mv[i].name != #[trigger] mv[j].name by {
            assert(mv[i].name == ov[i].name && mv[j].name == ov[j].name);
        }
    }
    proof {
        lemma_node_less_on(mv);
    }
    let ghost less = node_less();
    let mut out: Vec<FileTreeNode> = Vec::new();
    let mut pool = mapped;
    proof {
        lemma_node_views(out@);
        lemma_node_views(pool@);
    }
    loop
        invariant
            strict_total_on(less, mv),
            less == node_less(),
            unique_names(mv),
            unique_names(node_views(pool@)),
            ascending(node_views(out@), less),
            forall|a: NodeView|
                mv.contains(a) <==> (#[trigger] node_views(out@).contains(a) || node_views(pool@).contains(a)),
            forall|x: int, y: int|
                0 <= x < out@.len() && 0 <= y < pool@.len() ==> less(
                    #[trigger] node_views(out@)[x],
                    #[trigger] node_views(pool@)[y],
                ),
        ensures
            ascending(node_views(out@), less),
            forall|a: NodeView| #[trigger] node_views(out@).contains(a) <==> mv.contains(a),
        decreases pool@.len(),
    {
        proof {
            lemma_node_views(out@);
            lemma_node_views(pool@);
        }
        let ghost ov_out = node_views(out@);
        let ghost pv = node_views(pool@);
        if pool.len() == 0 {
            assert forall|a: NodeView| #[trigger] node_views(out@).contains(a) <==> mv.contains(a) by {
                if pv.contains(a) {
                    let w = choose|w: int| 0 <= w < pv.len() && pv[w] == a;
                }
            }
            break;
        }
        let mut m: usize = 0;
        let mut i: usize = 1;
        while i < pool.len()
            invariant
                1 <= i <= pool@.len(),
                m < pool@.len(),
                pv == node_views(pool@),
                pv.len() == pool@.len(),
                forall|q: int| 0 <= q < pool@.len() ==> #[trigger] pv[q] == node_view(pool@[q]),
                less == node_less(),
                forall|q: int| 0 <= q < i ==> !less(#[trigger] pv[q], pv[m as int]),
                strict_total_on(less, mv),
                forall|a: NodeView| mv.contains(a) <==> (ov_out.contains(a) || pv.contains(a)),
            decreases pool@.len() - i,
        {
            if node_before(&pool[i], &pool[m]) {
                proof {
                    assert forall|q: int| 0 <= q < i + 1 implies !less(#[trigger] pv[q], pv[i as int]) by {
                        if q < i && less(pv[q], pv[i as int]) {
                            assert(less(pv[q], pv[m as int]));
                        }
                        if q == i {
                        }
                    }
                }
                m = i;
            }
            i = i + 1;
        }
        let ghost pm = pv[m as int];
        let ghost out_before = node_views(out@);
        let node = pool.remove(m);
        assert(node_view(node) == pm);
        out.push(node);
        proof {
            lemma_node_views(out@);
            lemma_node_views(pool@);
            let ov2 = node_views(out@);
            let pv2 = node_views(pool@);
            assert(ov2 =~= out_before.push(pm));
            assert(pv2 =~= pv.remove(m as int));
            assert(mv.contains(pm)) by {
                assert(pv.contains(pm));
            }
            assert forall|y: int| 0 <= y < pv.len() && y != m implies less(pm, #[trigger] pv[y]) by {
                assert(pv[y] != pm) by {
                    if y < m {
                        assert(pv[y].name != pv[m as int].name);
                    } else {
                        assert(pv[m as int].name != pv[y].name);
                    }
                }
                assert(mv.contains(pv[y])) by {
                    assert(pv.contains(pv[y]));
                }
                assert(!less(pv[y], pm));
            }
            assert(unique_names(pv2)) by {
                assert forall|a: int, b: int| 0 <= a < b < pv2.len() implies #[trigger] pv2[a].name != #[trigger] pv2[b].name by {
                    let a0 = if a < m { a } else { a + 1 };
                    let b0 = if b < m { b } else { b + 1 };
                    assert(pv2[a] == pv[a0] && pv2[b] == pv[b0]);
                }
            }
            assert(ascending(ov2, less)) by {
                assert forall|a: int, b: int| 0 <= a < b < ov2.len() implies #[trigger] less(ov2[a], ov2[b]) by {
                    if b == out_before.len() {
                        assert(less(out_before[a], pv[m as int]));
                    } else {
                        assert(less(out_before[a], out_before[b]));
                    }
                }
            }
            assert forall|a: NodeView| mv.contains(a) <==> (#[trigger] ov2.contains(a) || pv2.contains(a)) by {
                if ov2.contains(a) {
                    let w = choose|w: int| 0 <= w < ov2.len() && ov2[w] == a;
                    if w < out_before.len() {
                        assert(out_before[w] == a);
                        assert(out_before.contains(a));
                    } else {
                        assert(pv.contains(a));
                    }
                }
                if pv2.contains(a) {
                    let w = choose|w: int| 0 <= w < pv2.len() && pv2[w] == a;
                    let w0 = if w < m { w } else { w + 1 };
                    assert(pv[w0] == a);
                    assert(pv.contains(a));
                }
                if out_before.contains(a) {
                    let w = choose|w: int| 0 <= w < out_before.len() && out_before[w] == a;
                    assert(ov2[w] == a);
                }
                if pv.contains(a) {
                    let w = choose|w: int| 0 <= w < pv.len() && pv[w] == a;
                    if w == m {
                        assert(ov2[out_before.len() as int] == a);
                    } else {
                        let w2 = if w < m { w } else { w - 1 };
                        assert(pv2[w2] == a);
                    }
                }
            }
            assert forall|x: int, y: int|
                0 <= x < ov2.len() && 0 <= y < pv2.len() implies less(#[trigger] ov2[x], #[trigger] pv2[y]) by {
                let y0 = if y < m { y } else { y + 1 };
                assert(pv2[y] == pv[y0]);
                if x < out_before.len() {
                    assert(less(out_before[x], pv[y0]));
                } else {
                    assert(less(pm, pv[y0]));
                }
            }
        }
    }
    proof {
        let outv = node_views(out@);
        assert(strict_total_on(less, outv)) by {
            assert forall|a: NodeView, b: NodeView|
                #![trigger less(a, b)]
                outv.contains(a) && outv.contains(b) && a != b implies less(a, b) || less(b, a) by {
                assert(mv.contains(a) && mv.contains(b));
            }
        }
        let s = choose|s: Seq<NodeView>| ascending(s, node_less()) && forall|a: NodeView| #[trigger] s.contains(a) <==> mv.contains(a);
        assert(ascending(outv, node_less()) && forall|a: NodeView| #[trigger] outv.contains(a) <==> mv.contains(a));
        lemma_ascending_unique_on(outv, s, less);
    }
    out
}

/// The tree of the snapshot's files, sorted at every level: directories
/// before files, each kind by name.
pub fn build_file_tree(files: &[FileChange]) -> (roots: Vec<FileTreeNode>)
    ensures
        node_views(roots@) == sort_tree(built(files@, files@.len() as int)),
{
    let mut roots: Vec<FileTreeNode> = Vec::new();
    let empty = String::new();
    let mut i: usize = 0;
    assert(node_views(roots@) =~= seq![]);
    while i < files.len()
        invariant
            i <= files@.len(),
            empty@ == Seq::<char>::empty(),
            node_views(roots@) == built(files@, i as int),
        decreases files@.len() - i,
    {
        let cs = chars_of(files[i].path.as_str());
        let parts = split_fields(cs.as_slice(), '/');
        insert_file_tree_node(&mut roots, parts.as_slice(), &empty, &files[i].path, i);
        i = i + 1;
    }
    proof {
        lemma_built_wf(files@, files@.len() as int);
    }
    sort_file_tree_nodes(roots)
}

/// The 64-bit FNV-1a hash of a directory's path, starting from the state
/// `1469598103934665603`: an id for the directory's row.
pub fn directory_id(path: &str) -> (r: u64)
    ensures
        r == fnv1a(1469598103934665603u64, path.spec_bytes()),
{
    let mut hash: u64 = 1469598103934665603u64;
    hash_bytes(&mut hash, path.as_bytes());
    hash
}

} // verus!
