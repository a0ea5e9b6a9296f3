//! Layers of the data-flow graph for display: each node's layer is its
//! distance from the roots of the graph, and each layer lists its nodes by
//! kind.
use vstd::prelude::*;

use crate::analysis::types::{edge_pairs, DataFlowGraph, FlowNodeType};

verus! {

/// The layer of a root whose node is an output.
pub open spec fn output_base() -> u32 {
    2147483647u32
}

pub open spec fn is_source(es: Seq<(nat, nat)>, x: int) -> bool {
    exists|k: int| 0 <= k < es.len() && #[trigger] es[k].0 == x
}

pub open spec fn is_target(es: Seq<(nat, nat)>, x: int) -> bool {
    exists|k: int| 0 <= k < es.len() && #[trigger] es[k].1 == x
}

/// Some node is the source of an edge and the target of none.
pub open spec fn has_pure_source(g: DataFlowGraph) -> bool {
    let es = edge_pairs(g.edges@);
    exists|x: int| 0 <= x < g.nodes@.len() && #[trigger] is_source(es, x) && !is_target(es, x)
}

/// The roots of the graph: the nodes that are sources of edges and targets
/// of none, or every node when there is no such node.
pub open spec fn is_root(g: DataFlowGraph, x: int) -> bool {
    let es = edge_pairs(g.edges@);
    &&& 0 <= x < g.nodes@.len()
    &&& (has_pure_source(g) ==> is_source(es, x) && !is_target(es, x))
}

/// The layer a root starts at: outputs start half way up the range.
pub open spec fn base_layer(g: DataFlowGraph, x: int) -> u32 {
    if g.nodes@[x].node_type == FlowNodeType::Output {
        output_base()
    } else {
        0
    }
}

/// `l` layers the graph, with `reached` the nodes reachable from a root:
/// roots are reached and lie at most at their base layer, an edge from a
/// reached node reaches its target and leads at most one layer down, every
/// reached node is a root at its base layer or lies one layer below a
/// reached node with an edge to it, and nodes not reached lie at layer 0.
pub open spec fn is_layering(g: DataFlowGraph, reached: Seq<bool>, l: Seq<u32>) -> bool {
    let n = g.nodes@.len();
    let es = edge_pairs(g.edges@);
    &&& reached.len() == n
    &&& l.len() == n
    &&& forall|x: int| #[trigger] is_root(g, x) ==> reached[x] && l[x] <= base_layer(g, x)
    &&& forall|k: int|
        #![trigger es[k]]
        0 <= k < es.len() && reached[es[k].0 as int] ==> reached[es[k].1 as int] && l[es[k].1 as int]
            <= l[es[k].0 as int] + 1
    &&& forall|x: int|
        #![trigger reached[x]]
        0 <= x < n && reached[x] ==> (is_root(g, x) && l[x] == base_layer(g, x)) || exists|k: int|
            #![trigger es[k]]
            0 <= k < es.len() && es[k].1 == x && reached[es[k].0 as int] && l[x] == l[es[k].0 as int]
                + 1
    &&& forall|x: int| #![trigger reached[x]] 0 <= x < n && !reached[x] ==> l[x] == 0
}

pub open spec fn weight(a: bool, l: u32) -> nat {
    if a {
        l as nat
    } else {
        0x1_0000_0000
    }
}

/// The sum of the weights of the first `k` nodes: a node not yet reached
/// weighs more than any layer.
pub open spec fn potential(a: Seq<bool>, l: Seq<u32>, k: int) -> nat
    decreases k,
{
    if k <= 0 {
        0
    } else {
        potential(a, l, k - 1) + weight(a[k - 1], l[k - 1])
    }
}

proof fn lemma_potential_update(a: Seq<bool>, l: Seq<u32>, i: int, nl: u32, k: int)
    requires
        0 <= i < a.len(),
        a.len() == l.len(),
        0 <= k <= a.len(),
        weight(true, nl) < weight(a[i], l[i]),
    ensures
        i < k ==> potential(a.update(i, true), l.update(i, nl), k) + 1 <= potential(a, l, k),
        i >= k ==> potential(a.update(i, true), l.update(i, nl), k) == potential(a, l, k),
    decreases k,
{
    if k > 0 {
        lemma_potential_update(a, l, i, nl, k - 1);
    }
}

fn edge_flags(g: &DataFlowGraph) -> (r: (Vec<bool>, Vec<bool>))
    requires
        g.wf(),
    ensures
        r.0@.len() == g.nodes@.len(),
        r.1@.len() == g.nodes@.len(),
        forall|x: int| 0 <= x < g.nodes@.len() ==> #[trigger] r.0@[x] == is_source(edge_pairs(g.edges@), x),
        forall|x: int| 0 <= x < g.nodes@.len() ==> #[trigger] r.1@[x] == is_target(edge_pairs(g.edges@), x),
{
    let n = g.nodes.len();
    let ghost es = edge_pairs(g.edges@);
    let mut src: Vec<bool> = Vec::new();
    let mut tgt: Vec<bool> = Vec::new();
    let mut i: usize = 0;
    while i < n
        invariant
            i <= n,
            src@.len() == i,
            tgt@.len() == i,
            forall|x: int| 0 <= x < i ==> !(#[trigger] src@[x]),
            forall|x: int| 0 <= x < i ==> !(#[trigger] tgt@[x]),
        decreases n - i,
    {
        src.push(false);
        tgt.push(false);
        i = i + 1;
    }
    let mut k: usize = 0;
    assert(es.take(0).len() == 0);
    assert forall|x: int| 0 <= x < n implies #[trigger] tgt@[x] == is_target(es.take(0), x) && src@[x]
        == is_source(es.take(0), x) by {
        assert(!tgt@[x]);
        assert(!src@[x]);
    }
    while k < g.edges.len()
        invariant
            k <= g.edges@.len(),
            n == g.nodes@.len(),
            g.wf(),
            es == edge_pairs(g.edges@),
            src@.len() == n,
            tgt@.len() == n,
            forall|x: int| 0 <= x < n ==> #[trigger] src@[x] == is_source(es.take(k as int), x),
            forall|x: int| 0 <= x < n ==> #[trigger] tgt@[x] == is_target(es.take(k as int), x),
        decreases g.edges@.len() - k,
    {
        let e = &g.edges[k];
        assert(es[k as int] == (e.source as nat, e.target as nat));
        src.set(e.source, true);
        tgt.set(e.target, true);
        assert forall|x: int| 0 <= x < n implies #[trigger] src@[x] == is_source(es.take(k + 1), x) by {
            let p = es.take(k + 1);
            if is_source(p, x) && x != e.source {
                let j = choose|j: int| 0 <= j < p.len() && #[trigger] p[j].0 == x;
                assert(es.take(k as int)[j] == p[j]);
            }
            if is_source(es.take(k as int), x) {
                let j = choose|j: int| 0 <= j < k && #[trigger] es.take(k as int)[j].0 == x;
                assert(p[j] == es.take(k as int)[j]);
            }
            if x == e.source {
                assert(p[k as int].0 == x);
            }
        }
        assert forall|x: int| 0 <= x < n implies #[trigger] tgt@[x] == is_target(es.take(k + 1), x) by {
            let p = es.take(k + 1);
            if is_target(p, x) && x != e.target {
                let j = choose|j: int| 0 <= j < p.len() && #[trigger] p[j].1 == x;
                assert(es.take(k as int)[j] == p[j]);
            }
            if is_target(es.take(k as int), x) {
                let j = choose|j: int| 0 <= j < k && #[trigger] es.take(k as int)[j].1 == x;
                assert(p[j] == es.take(k as int)[j]);
            }
            if x == e.target {
                assert(p[k as int].1 == x);
            }
        }
        k = k + 1;
    }
    assert(es.take(k as int) =~= es);
    (src, tgt)
}

fn root_flags(g: &DataFlowGraph) -> (r: Vec<bool>)
    requires
        g.wf(),
    ensures
        r@.len() == g.nodes@.len(),
        forall|x: int| 0 <= x < g.nodes@.len() ==> #[trigger] r@[x] == is_root(*g, x),
{
    let n = g.nodes.len();
    let (src, tgt) = edge_flags(g);
    let ghost es = edge_pairs(g.edges@);
    let mut any_pure = false;
    let mut i: usize = 0;
    while i < n
        invariant
            i <= n,
            n == g.nodes@.len(),
            src@.len() == n,
            tgt@.len() == n,
            forall|x: int| 0 <= x < n ==> #[trigger] src@[x] == is_source(es, x),
            forall|x: int| 0 <= x < n ==> #[trigger] tgt@[x] == is_target(es, x),
            es == edge_pairs(g.edges@),
            any_pure == exists|x: int| 0 <= x < i && #[trigger] is_source(es, x) && !is_target(es, x),
        decreases n - i,
    {
        if src[i] && !tgt[i] {
            assert(is_source(es, i as int) && !is_target(es, i as int));
            any_pure = true;
        }
        i = i + 1;
    }
    assert(any_pure == has_pure_source(*g));
    let mut roots: Vec<bool> = Vec::new();
    let mut j: usize = 0;
    while j < n
        invariant
            j <= n,
            n == g.nodes@.len(),
            src@.len() == n,
            tgt@.len() == n,
            forall|x: int| 0 <= x < n ==> #[trigger] src@[x] == is_source(es, x),
            forall|x: int| 0 <= x < n ==> #[trigger] tgt@[x] == is_target(es, x),
            es == edge_pairs(g.edges@),
            any_pure == has_pure_source(*g),
            roots@.len() == j,
            forall|x: int| 0 <= x < j ==> #[trigger] roots@[x] == is_root(*g, x),
        decreases n - j,
    {
        let r = if any_pure {
            src[j] && !tgt[j]
        } else {
            true
        };
        roots.push(r);
        assert(roots@[j as int] == is_root(*g, j as int));
        j = j + 1;
    }
    roots
}

/// The edge `k` leads at most one layer down from a reached source.
pub open spec fn relaxed(es: Seq<(nat, nat)>, a: Seq<bool>, l: Seq<u32>, k: int) -> bool {
    a[es[k].1 as int] && l[es[k].1 as int] <= l[es[k].0 as int] + 1
}

/// The node `y` is a root at its base layer, or lies at least one layer
/// below a reached node with an edge to it.
pub open spec fn supported(g: DataFlowGraph, a: Seq<bool>, l: Seq<u32>, y: int) -> bool {
    let es = edge_pairs(g.edges@);
    (is_root(g, y) && l[y] == base_layer(g, y)) || exists|k: int|
        #![trigger es[k]]
        0 <= k < es.len() && es[k].1 == y && a[es[k].0 as int] && l[y] >= l[es[k].0 as int] + 1
}

/// Assigns each node its layer: roots start at their base layer (outputs
/// half way up, others at 0), and each node reachable from a root lies one
/// layer below the nearest one of its predecessors, found by a worklist;
/// other nodes lie at layer 0.
pub fn assign_layers(graph: &DataFlowGraph) -> (layers: Vec<u32>)
    requires
        graph.wf(),
        graph.nodes@.len() < 2147483647,
    ensures
        exists|reached: Seq<bool>| is_layering(*graph, reached, layers@),
{
    let n = graph.nodes.len();
    let roots = root_flags(graph);
    let ghost es = edge_pairs(graph.edges@);
    let ghost g = *graph;
    let mut assigned: Vec<bool> = Vec::new();
    let mut layer: Vec<u32> = Vec::new();
    let mut queue: Vec<usize> = Vec::new();
    let ghost mut aset: Set<int> = Set::empty();
    let mut x: usize = 0;
    while x < n
        invariant
            x <= n,
            n == g.nodes@.len(),
            g == *graph,
            roots@.len() == n,
            forall|y: int| 0 <= y < n ==> #[trigger] roots@[y] == is_root(g, y),
            assigned@.len() == x,
            layer@.len() == x,
            forall|y: int| 0 <= y < x ==> #[trigger] assigned@[y] == roots@[y],
            forall|y: int| 0 <= y < x ==> (#[trigger] layer@[y]) == (if assigned@[y] { base_layer(g, y) } else { 0 }),
            forall|j: int| 0 <= j < queue@.len() ==> #[trigger] queue@[j] < x && assigned@[queue@[j] as int],
            forall|y: int| 0 <= y < x && #[trigger] assigned@[y] ==> queue@.contains(y as usize),
            aset.finite(),
            aset.len() <= x,
            forall|y: int| #[trigger] aset.contains(y) <==> 0 <= y < x && assigned@[y],
        decreases n - x,
    {
        let r = roots[x];
        let ghost old_aset = aset;
        let ghost old_q = queue@;
        assigned.push(r);
        if r {
            let base = if graph.nodes[x].node_type == FlowNodeType::Output {
                2147483647u32
            } else {
                0u32
            };
            layer.push(base);
            queue.push(x);
            proof {
                aset = aset.insert(x as int);
            }
        } else {
            layer.push(0);
        }
        assert forall|y: int| #[trigger] aset.contains(y) <==> 0 <= y < x + 1 && assigned@[y] by {
            assert(old_aset.contains(y) <==> 0 <= y < x && assigned@[y]);
        }
        assert forall|y: int| 0 <= y < x + 1 && #[trigger] assigned@[y] implies queue@.contains(y as usize) by {
            if y == x {
                assert(queue@[queue@.len() - 1] == x);
            } else {
                assert(old_q.contains(y as usize));
                let j = choose|j: int| 0 <= j < old_q.len() && old_q[j] == y as usize;
                assert(queue@[j] == y as usize);
            }
        }
        assert forall|j: int| 0 <= j < queue@.len() implies #[trigger] queue@[j] < x + 1 && assigned@[queue@[j] as int] by {
            if j < old_q.len() {
                assert(queue@[j] == old_q[j]);
            }
        }
        x = x + 1;
    }
    assert forall|y: int| 0 <= y < n && #[trigger] assigned@[y] implies layer@[y] + 1 <= output_base()
        + aset.len() by {
        assert(aset.contains(y));
        vstd::set::axiom_set_contains_len(aset, y);
    }
    while queue.len() > 0
        invariant
            n == g.nodes@.len(),
            g == *graph,
            graph.wf(),
            n < 2147483647,
            es == edge_pairs(graph.edges@),
            assigned@.len() == n,
            layer@.len() == n,
            forall|j: int| 0 <= j < queue@.len() ==> #[trigger] queue@[j] < n && assigned@[queue@[j] as int],
            aset.finite(),
            aset.len() <= n,
            forall|y: int| #[trigger] aset.contains(y) <==> 0 <= y < n && assigned@[y],
            forall|y: int| 0 <= y < n && #[trigger] assigned@[y] ==> layer@[y] + 1 <= output_base() + aset.len(),
            forall|y: int| #[trigger] is_root(g, y) ==> assigned@[y] && layer@[y] <= base_layer(g, y),
            forall|k: int|
                #![trigger es[k]]
                0 <= k < es.len() && assigned@[es[k].0 as int] ==> queue@.contains(es[k].0 as usize)
                    || relaxed(es, assigned@, layer@, k),
            forall|y: int| 0 <= y < n && #[trigger] assigned@[y] ==> supported(g, assigned@, layer@, y),
            forall|y: int| 0 <= y < n && !(#[trigger] assigned@[y]) ==> layer@[y] == 0,
        decreases 2 * potential(assigned@, layer@, n as int) + queue@.len(),
    {
        let ghost p_start = 2 * potential(assigned@, layer@, n as int) + queue@.len();
        let ghost q0 = queue@;
        let x = queue.pop().unwrap();
        assert(q0.last() == x);
        assert(queue@ =~= q0.drop_last());
        assert(assigned@[x as int]) by {
            assert(q0[q0.len() - 1] == x);
        }
        let cur = layer[x];
        proof {
            vstd::set_lib::lemma_int_range(0, n as int);
            assert(aset.subset_of(vstd::set_lib::set_int_range(0, n as int)));
            vstd::set_lib::lemma_len_subset(aset, vstd::set_lib::set_int_range(0, n as int));
        }
        assert(cur + 1 <= output_base() + aset.len());
        // Edges from nodes that stayed queued keep their witness in the queue.
        assert forall|k: int|
            #![trigger es[k]]
            0 <= k < es.len() && assigned@[es[k].0 as int] implies queue@.contains(es[k].0 as usize)
                || (es[k].0 == x) || relaxed(es, assigned@, layer@, k) by {
            if q0.contains(es[k].0 as usize) && es[k].0 != x {
                let j = choose|j: int| 0 <= j < q0.len() && q0[j] == es[k].0 as usize;
                assert(j < q0.len() - 1);
                assert(queue@[j] == q0[j]);
            }
        }
        let mut k: usize = 0;
        while k < graph.edges.len()
            invariant
                n == g.nodes@.len(),
                g == *graph,
                graph.wf(),
                n < 2147483647,
                es == edge_pairs(graph.edges@),
                k <= es.len(),
                x < n,
                assigned@.len() == n,
                layer@.len() == n,
                assigned@[x as int],
                layer@[x as int] == cur,
                cur + 1 <= output_base() + aset.len(),
                forall|j: int| 0 <= j < queue@.len() ==> #[trigger] queue@[j] < n && assigned@[queue@[j] as int],
                aset.finite(),
                aset.len() <= n,
                forall|y: int| #[trigger] aset.contains(y) <==> 0 <= y < n && assigned@[y],
                forall|y: int| 0 <= y < n && #[trigger] assigned@[y] ==> layer@[y] + 1 <= output_base() + aset.len(),
                forall|y: int| #[trigger] is_root(g, y) ==> assigned@[y] && layer@[y] <= base_layer(g, y),
                forall|j: int|
                    #![trigger es[j]]
                    0 <= j < es.len() && assigned@[es[j].0 as int] ==> queue@.contains(es[j].0 as usize)
                        || (es[j].0 == x && j >= k) || relaxed(es, assigned@, layer@, j),
                forall|y: int| 0 <= y < n && #[trigger] assigned@[y] ==> supported(g, assigned@, layer@, y),
                forall|y: int| 0 <= y < n && !(#[trigger] assigned@[y]) ==> layer@[y] == 0,
                2 * potential(assigned@, layer@, n as int) + queue@.len() < p_start,
            decreases es.len() - k,
        {
            let e = &graph.edges[k];
            assert(es[k as int] == (e.source as nat, e.target as nat));
            if e.source == x {
                let t = e.target;
                assert(t != x);
                let new = cur + 1;
                let existing = if assigned[t] {
                    layer[t]
                } else {
                    u32::MAX
                };
                if new < existing {
                    let ghost a0 = assigned@;
                    let ghost l0 = layer@;
                    let ghost s0 = aset;
                    proof {
                        lemma_potential_update(a0, l0, t as int, new, n as int);
                        if !a0[t as int] {
                            aset = aset.insert(t as int);
                        }
                    }
                    let ghost qb = queue@;
                    assigned.set(t, true);
                    layer.set(t, new);
                    queue.push(t);
                    assert(assigned@ =~= a0.update(t as int, true));
                    assert(layer@ =~= l0.update(t as int, new));
                    assert forall|y: int| #[trigger] aset.contains(y) <==> 0 <= y < n && assigned@[y] by {
                        assert(s0.contains(y) <==> 0 <= y < n && a0[y]);
                    }
                    proof {
                        vstd::set_lib::lemma_int_range(0, n as int);
                        assert(aset.subset_of(vstd::set_lib::set_int_range(0, n as int)));
                        vstd::set_lib::lemma_len_subset(aset, vstd::set_lib::set_int_range(0, n as int));
                    }
                    assert forall|y: int| 0 <= y < n && #[trigger] assigned@[y] implies layer@[y] + 1
                        <= output_base() + aset.len() by {
                        if y != t {
                            assert(a0[y]);
                        }
                    }
                    assert forall|j: int|
                        #![trigger es[j]]
                        0 <= j < es.len() && assigned@[es[j].0 as int] implies queue@.contains(
                            es[j].0 as usize,
                        ) || (es[j].0 == x && j >= k + 1) || relaxed(es, assigned@, layer@, j) by {
                        if es[j].0 == t {
                            assert(queue@[queue@.len() - 1] == t);
                        } else if j == k {
                            assert(relaxed(es, assigned@, layer@, j));
                        } else {
                            assert(a0[es[j].0 as int]);
                            assert(qb.contains(es[j].0 as usize) || (es[j].0 == x && j >= k) || relaxed(es, a0, l0, j));
                            if qb.contains(es[j].0 as usize) {
                                let w = choose|w: int| 0 <= w < qb.len() && qb[w] == es[j].0 as usize;
                                assert(queue@[w] == es[j].0 as usize);
                            }
                        }
                    }
                    assert forall|y: int| 0 <= y < n && #[trigger] assigned@[y] implies supported(
                        g,
                        assigned@,
                        layer@,
                        y,
                    ) by {
                        if y == t {
                            assert(es[k as int].1 == y && assigned@[es[k as int].0 as int]);
                        } else {
                            assert(a0[y]);
                            assert(supported(g, a0, l0, y));
                            if !(is_root(g, y) && l0[y] == base_layer(g, y)) {
                                let w = choose|w: int|
                                    #![trigger es[w]]
                                    0 <= w < es.len() && es[w].1 == y && a0[es[w].0 as int] && l0[y] >= l0[es[w].0 as int] + 1;
                                assert(assigned@[es[w].0 as int]);
                            }
                        }
                    }
                    assert forall|y: int| 0 <= y < n && !(#[trigger] assigned@[y]) implies layer@[y] == 0 by {
                        assert(!a0[y]);
                    }
                    assert forall|j: int| 0 <= j < queue@.len() implies #[trigger] queue@[j] < n && assigned@[queue@[j] as int] by {
                        if j < queue@.len() - 1 {
                            assert(queue@[j] == qb[j]);
                        }
                    }
                }
            }
            k = k + 1;
        }
    }
    assert(is_layering(g, assigned@, layer@)) by {
        assert forall|y: int|
            #![trigger assigned@[y]]
            0 <= y < n && assigned@[y] implies (is_root(g, y) && layer@[y] == base_layer(g, y))
                || exists|k: int|
                #![trigger es[k]]
                0 <= k < es.len() && es[k].1 == y && assigned@[es[k].0 as int] && layer@[y]
                    == layer@[es[k].0 as int] + 1 by {
            assert(supported(g, assigned@, layer@, y));
            if !(is_root(g, y) && layer@[y] == base_layer(g, y)) {
                let w = choose|w: int|
                    #![trigger es[w]]
                    0 <= w < es.len() && es[w].1 == y && assigned@[es[w].0 as int] && layer@[y]
                        >= layer@[es[w].0 as int] + 1;
                assert(relaxed(es, assigned@, layer@, w));
            }
        }
    }
    layer
}

proof fn lemma_layering_below(
    g: DataFlowGraph,
    r1: Seq<bool>,
    l1: Seq<u32>,
    r2: Seq<bool>,
    l2: Seq<u32>,
    y: int,
)
    requires
        g.wf(),
        is_layering(g, r1, l1),
        is_layering(g, r2, l2),
        0 <= y < g.nodes@.len(),
        r2[y],
    ensures
        r1[y],
        l1[y] <= l2[y],
    decreases l2[y],
{
    let es = edge_pairs(g.edges@);
    if !(is_root(g, y) && l2[y] == base_layer(g, y)) {
        let k = choose|k: int|
            #![trigger es[k]]
            0 <= k < es.len() && es[k].1 == y && r2[es[k].0 as int] && l2[y] == l2[es[k].0 as int] + 1;
        assert(g.edges@[k].source < g.nodes@.len());
        lemma_layering_below(g, r1, l1, r2, l2, es[k].0 as int);
    }
}

/// A graph has exactly one layering: any two agree on which nodes are
/// reached and on every layer, so the layers that `assign_layers` gives are
/// each node's least distance from a root, counted from the root's base.
pub proof fn lemma_layering_unique(
    g: DataFlowGraph,
    r1: Seq<bool>,
    l1: Seq<u32>,
    r2: Seq<bool>,
    l2: Seq<u32>,
)
    requires
        g.wf(),
        is_layering(g, r1, l1),
        is_layering(g, r2, l2),
    ensures
        r1 == r2,
        l1 == l2,
{
    let n = g.nodes@.len();
    assert forall|y: int| 0 <= y < n implies r1[y] == r2[y] && l1[y] == l2[y] by {
        if r2[y] {
            lemma_layering_below(g, r1, l1, r2, l2, y);
        }
        if r1[y] {
            lemma_layering_below(g, r2, l2, r1, l1, y);
        }
    }
    assert(r1 =~= r2);
    assert(l1 =~= l2);
}

/// The nodes (by id) of a layer, in order.
pub open spec fn layer_members(l: Seq<u32>, layer: u32, k: int) -> Seq<usize>
    decreases k,
{
    if k <= 0 {
        seq![]
    } else {
        let r = layer_members(l, layer, k - 1);
        if l[k - 1] == layer {
            r.push((k - 1) as usize)
        } else {
            r
        }
    }
}

/// The nodes among `ids` of one kind, in order.
pub open spec fn kind_members(g: DataFlowGraph, ids: Seq<usize>, t: FlowNodeType) -> Seq<usize>
    decreases ids.len(),
{
    if ids.len() == 0 {
        seq![]
    } else {
        let r = kind_members(g, ids.drop_last(), t);
        if g.nodes@[ids.last() as int].node_type == t {
            r.push(ids.last())
        } else {
            r
        }
    }
}

/// The nodes of a layer sorted by kind (functions, variables, inputs,
/// outputs), nodes of one kind in order: a stable sort by kind.
pub open spec fn ordered_layer(g: DataFlowGraph, l: Seq<u32>, layer: u32) -> Seq<usize> {
    let m = layer_members(l, layer, g.nodes@.len() as int);
    kind_members(g, m, FlowNodeType::Function) + kind_members(g, m, FlowNodeType::Variable)
        + kind_members(g, m, FlowNodeType::Input) + kind_members(g, m, FlowNodeType::Output)
}

/// The nodes of one layer.
pub struct LayerNodes {
    pub layer: u32,
    pub nodes: Vec<usize>,
}

fn members_of_kind(g: &DataFlowGraph, layers: &Vec<u32>, layer: u32, t: FlowNodeType, out: &mut Vec<usize>)
    requires
        layers@.len() == g.nodes@.len(),
    ensures
        final(out)@ == old(out)@ + kind_members(
            *g,
            layer_members(layers@, layer, g.nodes@.len() as int),
            t,
        ),
{
    let n = g.nodes.len();
    let ghost start = out@;
    let ghost mut ids: Seq<usize> = seq![];
    let mut i: usize = 0;
    while i < n
        invariant
            i <= n,
            n == g.nodes@.len(),
            layers@.len() == n,
            ids == layer_members(layers@, layer, i as int),
            out@ == start + kind_members(*g, ids, t),
        decreases n - i,
    {
        if layers[i] == layer {
            let ghost before = ids;
            proof {
                ids = ids.push(i);
            }
            assert(ids.drop_last() =~= before);
            if g.nodes[i].node_type == t {
                out.push(i);
                assert(out@ =~= start + kind_members(*g, ids, t));
            } else {
                assert(out@ =~= start + kind_members(*g, ids, t));
            }
        }
        i = i + 1;
    }
}

/// The least layer above `floor`, if any node lies there.
fn next_layer(layers: &Vec<u32>, floor: u32, open_floor: bool) -> (r: Option<u32>)
    ensures
        match r {
            Some(v) => (if open_floor { v > floor } else { v >= floor }) && layers@.contains(v)
                && forall|x: int|
                0 <= x < layers@.len() && (if open_floor { layers@[x] > floor } else { layers@[x] >= floor })
                    ==> v <= #[trigger] layers@[x],
            None => forall|x: int|
                0 <= x < layers@.len() ==> !(if open_floor { #[trigger] layers@[x] > floor } else { layers@[x] >= floor }),
        },
{
    let mut best: Option<u32> = None;
    let mut i: usize = 0;
    while i < layers.len()
        invariant
            i <= layers@.len(),
            match best {
                Some(v) => (if open_floor { v > floor } else { v >= floor }) && layers@.contains(v)
                    && forall|x: int|
                    0 <= x < i && (if open_floor { layers@[x] > floor } else { layers@[x] >= floor })
                        ==> v <= #[trigger] layers@[x],
                None => forall|x: int|
                    0 <= x < i ==> !(if open_floor { #[trigger] layers@[x] > floor } else { layers@[x] >= floor }),
            },
        decreases layers@.len() - i,
    {
        let v = layers[i];
        let above = if open_floor {
            v > floor
        } else {
            v >= floor
        };
        if above {
            match best {
                Some(b) => {
                    if v < b {
                        best = Some(v);
                    }
                },
                None => {
                    best = Some(v);
                },
            }
        }
        i = i + 1;
    }
    best
}

/// Every layer that a node lies at has a group.
pub open spec fn covers(groups: Seq<LayerNodes>, layers: Seq<u32>) -> bool {
    forall|x: int| 0 <= x < layers.len() ==> #[trigger] has_group(groups, layers[x])
}

/// Some group is of a layer.
pub open spec fn has_group(groups: Seq<LayerNodes>, layer: u32) -> bool {
    exists|i: int| 0 <= i < groups.len() && (#[trigger] groups[i]).layer == layer
}

pub open spec fn above(v: u32, floor: u32, open_floor: bool) -> bool {
    if open_floor {
        v > floor
    } else {
        v >= floor
    }
}

/// Every layer that a node lies at, up to a floor, has a group.
pub open spec fn covers_below(groups: Seq<LayerNodes>, layers: Seq<u32>, floor: u32, open_floor: bool) -> bool {
    forall|x: int|
        0 <= x < layers.len() && !above(layers[x], floor, open_floor) ==> #[trigger] has_group(groups, layers[x])
}

proof fn lemma_covers(groups: Seq<LayerNodes>, layers: Seq<u32>, floor: u32, open_floor: bool)
    requires
        covers_below(groups, layers, floor, open_floor),
        forall|x: int| 0 <= x < layers.len() ==> !above(#[trigger] layers[x], floor, open_floor),
    ensures
        covers(groups, layers),
{
    assert forall|x: int| 0 <= x < layers.len() implies #[trigger] has_group(groups, layers[x]) by {
        assert(!above(layers[x], floor, open_floor));
    }
}

/// Groups the nodes by layer, layers in increasing order, each layer's
/// nodes sorted by kind (functions, variables, inputs, outputs) and
/// otherwise in order.
pub fn order_nodes_in_layers(graph: &DataFlowGraph, layers: &Vec<u32>) -> (r: Vec<LayerNodes>)
    requires
        layers@.len() == graph.nodes@.len(),
    ensures
        forall|i: int| 0 <= i < r@.len() ==> (#[trigger] r@[i]).nodes@ == ordered_layer(*graph, layers@, r@[i].layer)
            && layers@.contains(r@[i].layer),
        forall|i: int, j: int| 0 <= i < j < r@.len() ==> (#[trigger] r@[i]).layer < (#[trigger] r@[j]).layer,
        covers(r@, layers@),
{
    let mut groups: Vec<LayerNodes> = Vec::new();
    let mut floor: u32 = 0;
    let mut open_floor = false;
    loop
        invariant
            layers@.len() == graph.nodes@.len(),
            forall|i: int| 0 <= i < groups@.len() ==> (#[trigger] groups@[i]).nodes@ == ordered_layer(
                *graph,
                layers@,
                groups@[i].layer,
            ) && layers@.contains(groups@[i].layer),
            forall|i: int, j: int| 0 <= i < j < groups@.len() ==> (#[trigger] groups@[i]).layer < (#[trigger] groups@[j]).layer,
            groups@.len() > 0 ==> open_floor && floor == groups@.last().layer,
            groups@.len() == 0 ==> !open_floor && floor == 0,
            covers_below(groups@, layers@, floor, open_floor),
        ensures
            forall|i: int| 0 <= i < groups@.len() ==> (#[trigger] groups@[i]).nodes@ == ordered_layer(
                *graph,
                layers@,
                groups@[i].layer,
            ) && layers@.contains(groups@[i].layer),
            forall|i: int, j: int| 0 <= i < j < groups@.len() ==> (#[trigger] groups@[i]).layer < (#[trigger] groups@[j]).layer,
            covers(groups@, layers@),
        decreases 0x1_0000_0000 - (if open_floor { floor + 1 } else { floor as int }),
    {
        match next_layer(layers, floor, open_floor) {
            None => {
                proof {
                    assert forall|x: int| 0 <= x < layers@.len() implies !above(#[trigger] layers@[x], floor, open_floor) by {
                        assert(!(if open_floor { layers@[x] > floor } else { layers@[x] >= floor }));
                    }
                    lemma_covers(groups@, layers@, floor, open_floor);
                }
                break;
            },
            Some(v) => {
                let mut nodes: Vec<usize> = Vec::new();
                members_of_kind(graph, layers, v, FlowNodeType::Function, &mut nodes);
                members_of_kind(graph, layers, v, FlowNodeType::Variable, &mut nodes);
                members_of_kind(graph, layers, v, FlowNodeType::Input, &mut nodes);
                members_of_kind(graph, layers, v, FlowNodeType::Output, &mut nodes);
                let ghost before = groups@;
                groups.push(LayerNodes { layer: v, nodes });
                assert forall|x: int|
                    0 <= x < layers@.len() && !above(layers@[x], v, true) implies #[trigger] has_group(groups@, layers@[x]) by {
                    if layers@[x] == v {
                        assert(groups@[groups@.len() - 1].layer == layers@[x]);
                    } else {
                        assert(has_group(before, layers@[x]));
                        let i = choose|i: int| 0 <= i < before.len() && (#[trigger] before[i]).layer == layers@[x];
                        assert(groups@[i] == before[i]);
                    }
                }
                floor = v;
                open_floor = true;
            },
        }
    }
    groups
}

} // verus!
