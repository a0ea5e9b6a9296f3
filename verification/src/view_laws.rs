//! Properties of the front ends' state and of the layered graph that relate
//! several operations or hold of every input.
use vstd::prelude::*;

use crate::analysis::layers::{kind_members, layer_members, ordered_layer};
use crate::analysis::types::{DataFlowGraph, FlowNodeType};
use crate::snapshot_view::toggled;
use crate::tui::{
    mouse_step, next_focus_of, previous_focus_of, shown_widths, FocusPane, Mouse, Separator, TuiView,
    MIN_DIFF_WIDTH, MIN_SIDE_WIDTH,
};

verus! {

/// Tab goes round the three panes, and going back undoes going on.
pub proof fn lemma_focus_cycles(f: FocusPane)
    ensures
        next_focus_of(next_focus_of(next_focus_of(f))) == f,
        previous_focus_of(next_focus_of(f)) == f,
        next_focus_of(previous_focus_of(f)) == f,
{
}

/// Toggling a directory twice leaves the collapsed directories as they were.
pub proof fn lemma_toggle_directory_twice(s: Set<Seq<char>>, p: Seq<char>)
    ensures
        toggled(toggled(s, p), p) == s,
{
    if s.contains(p) {
        assert(toggled(toggled(s, p), p) =~= s);
    } else {
        assert(toggled(toggled(s, p), p) =~= s);
    }
}

proof fn lemma_kind_members(g: DataFlowGraph, ids: Seq<usize>, t: FlowNodeType, x: usize)
    ensures
        kind_members(g, ids, t).contains(x) <==> ids.contains(x) && g.nodes@[x as int].node_type == t,
    decreases ids.len(),
{
    if ids.len() > 0 {
        lemma_kind_members(g, ids.drop_last(), t, x);
        let r = kind_members(g, ids.drop_last(), t);
        if ids.contains(x) && x != ids.last() {
            let k = choose|k: int| 0 <= k < ids.len() && ids[k] == x;
            assert(ids.drop_last()[k] == x);
        }
        if ids.drop_last().contains(x) {
            let k = choose|k: int| 0 <= k < ids.drop_last().len() && ids.drop_last()[k] == x;
            assert(ids[k] == x);
        }
        if x == ids.last() {
            assert(ids[ids.len() - 1] == x);
        }
        if g.nodes@[ids.last() as int].node_type == t {
            let r2 = r.push(ids.last());
            if r2.contains(x) && x != ids.last() {
                let k = choose|k: int| 0 <= k < r2.len() && r2[k] == x;
                assert(r[k] == x);
            }
            if r.contains(x) {
                let k = choose|k: int| 0 <= k < r.len() && r[k] == x;
                assert(r2[k] == x);
            }
            if x == ids.last() {
                assert(r2[r.len() as int] == x);
            }
        }
    }
}

proof fn lemma_layer_members(l: Seq<u32>, layer: u32, k: int, x: usize)
    requires
        k <= usize::MAX,
    ensures
        layer_members(l, layer, k).contains(x) <==> x < k && l[x as int] == layer,
    decreases k,
{
    if k > 0 {
        lemma_layer_members(l, layer, k - 1, x);
        let r = layer_members(l, layer, k - 1);
        if l[k - 1] == layer {
            let r2 = r.push((k - 1) as usize);
            if r2.contains(x) && x != (k - 1) as usize {
                let j = choose|j: int| 0 <= j < r2.len() && r2[j] == x;
                assert(r[j] == x);
            }
            if r.contains(x) {
                let j = choose|j: int| 0 <= j < r.len() && r[j] == x;
                assert(r2[j] == x);
            }
            if x == (k - 1) as usize {
                assert(r2[r.len() as int] == x);
            }
        }
    }
}

/// The groups of `order_nodes_in_layers` part the nodes by layer: a node is
/// in the group of a layer exactly when it lies at that layer.
pub proof fn lemma_layer_groups_part_nodes(g: DataFlowGraph, l: Seq<u32>, layer: u32, x: usize)
    requires
        g.nodes@.len() <= usize::MAX,
    ensures
        ordered_layer(g, l, layer).contains(x) <==> x < g.nodes@.len() && l[x as int] == layer,
{
    let n = g.nodes@.len() as int;
    let m = layer_members(l, layer, n);
    lemma_layer_members(l, layer, n, x);
    lemma_kind_members(g, m, FlowNodeType::Function, x);
    lemma_kind_members(g, m, FlowNodeType::Variable, x);
    lemma_kind_members(g, m, FlowNodeType::Input, x);
    lemma_kind_members(g, m, FlowNodeType::Output, x);
    let a = kind_members(g, m, FlowNodeType::Function);
    let b = kind_members(g, m, FlowNodeType::Variable);
    let c = kind_members(g, m, FlowNodeType::Input);
    let d = kind_members(g, m, FlowNodeType::Output);
    let all = a + b + c + d;
    assert(all == ordered_layer(g, l, layer));
    if all.contains(x) {
        let k = choose|k: int| 0 <= k < all.len() && all[k] == x;
        if k < a.len() {
            assert(a[k] == x);
        } else if k < a.len() + b.len() {
            assert(b[k - a.len()] == x);
        } else if k < a.len() + b.len() + c.len() {
            assert(c[k - a.len() - b.len()] == x);
        } else {
            assert(d[k - a.len() - b.len() - c.len()] == x);
        }
    }
    if m.contains(x) {
        let t = g.nodes@[x as int].node_type;
        match t {
            FlowNodeType::Function => {
                let k = choose|k: int| 0 <= k < a.len() && a[k] == x;
                assert(all[k] == x);
            },
            FlowNodeType::Variable => {
                let k = choose|k: int| 0 <= k < b.len() && b[k] == x;
                assert(all[a.len() + k] == x);
            },
            FlowNodeType::Input => {
                let k = choose|k: int| 0 <= k < c.len() && c[k] == x;
                assert(all[a.len() + b.len() + k] == x);
            },
            FlowNodeType::Output => {
                let k = choose|k: int| 0 <= k < d.len() && d[k] == x;
                assert(all[a.len() + b.len() + c.len() + k] == x);
            },
        }
    }
}


/// The three panes share the columns between them, a hidden pane takes
/// none, and the diff pane keeps its minimum width whenever there is room
/// for it.
pub proof fn lemma_panes_share_the_width(v: TuiView, total: nat)
    ensures
        shown_widths(v, total).0 + shown_widths(v, total).1 + shown_widths(v, total).2 == total,
        !v.files_pane_shown ==> shown_widths(v, total).0 == 0,
        !v.review_pane_shown ==> shown_widths(v, total).2 == 0,
        total >= MIN_DIFF_WIDTH ==> shown_widths(v, total).1 >= MIN_DIFF_WIDTH,
        total < MIN_DIFF_WIDTH ==> shown_widths(v, total).1 == total,
{
}

/// A press on the border column where the files pane ends takes hold of the
/// separator after it, and dragging that separator to a column where the
/// panes fit ends the files pane there; dragging the separator before the
/// review pane likewise starts the review pane at the mouse's column.
pub proof fn lemma_dragged_separator_follows_mouse(v: TuiView, total: u16, column: u16)
    ensures
        shown_widths(v, total as nat).0 > 0 ==> mouse_step(
            v,
            total,
            Mouse::Press((shown_widths(v, total as nat).0 - 1) as u16),
        ).dragging == Some(Separator::FilesDiff),
        ({
            let r = shown_widths(v, total as nat).2;
            let w = mouse_step(v, total, Mouse::Drag(column));
            v.dragging == Some(Separator::FilesDiff) && v.files_pane_shown && MIN_SIDE_WIDTH <= column + 1
                <= total - MIN_DIFF_WIDTH - r ==> shown_widths(w, total as nat).0 == column + 1
        }),
        ({
            let f = shown_widths(v, total as nat).0;
            let w = mouse_step(v, total, Mouse::Drag(column));
            v.dragging == Some(Separator::DiffReview) && v.review_pane_shown && MIN_SIDE_WIDTH <= total
                - column <= total - MIN_DIFF_WIDTH - f ==> shown_widths(w, total as nat).0
                + shown_widths(w, total as nat).1 == column
        }),
{
}

} // verus!
