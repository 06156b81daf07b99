//! The per-frame compositing graph built from the active clips.
//!
//! Graph shape (bottom-to-top clip order):
//!
//! ```text
//! canvas ──▶ blend₁ ◀── transform₁ ◀── effects₁ ◀── source₁
//!       └─▶ blend₂ ◀── transform₂ ◀── effects₂ ◀── source₂
//!             ...
//!                └─▶ output ──▶ final target
//! ```
//!
//! Clips whose frame was not uploaded are skipped; the effect node is
//! present only when the clip's effect chain resolved to at least one
//! effect.

use vstd::prelude::*;
use crate::graph::{
    all_connected, has_topological_order, is_node_permutation, is_topological_order, lemma_ids_pigeonhole,
    respects_edges, CompositorGraph, NodeId, SlotTable,
};

verus! {

/// One clip to composite.
#[derive(Clone, Copy, Debug)]
pub struct LayerPlan {
    /// The clip's frame was uploaded (clips without a frame are skipped).
    pub uploaded: bool,
    /// The clip's effect chain resolved to at least one effect.
    pub has_effects: bool,
}

/// The role of each node of the compositing graph; `layer` indexes the
/// clip list.
#[derive(Clone, Copy, PartialEq, Eq, Structural, Debug)]
pub enum CompositeNode {
    /// The transparent canvas root.
    Canvas,
    /// The uploaded frame of a clip.
    Source { layer: usize },
    /// The clip's effect chain.
    Effects { layer: usize },
    /// The clip's placement on the canvas.
    Transform { layer: usize },
    /// The clip blended over the running canvas.
    Blend { layer: usize },
    /// The final blit into the target.
    Output,
}

/// Nodes, wiring, and the id of the running canvas after folding `layers`.
pub open spec fn plan_state(layers: Seq<LayerPlan>) -> (Seq<CompositeNode>, SlotTable, nat)
    decreases layers.len(),
{
    if layers.len() == 0 {
        (seq![CompositeNode::Canvas], seq![Seq::<Option<NodeId>>::empty()], 0)
    } else {
        let (nodes, slots, prev) = plan_state(layers.drop_last());
        let i = (layers.len() - 1) as usize;
        let l = layers.last();
        if !l.uploaded {
            (nodes, slots, prev)
        } else {
            let s = nodes.len();
            let (nodes1, slots1, tail) = if l.has_effects {
                (
                    nodes.push(CompositeNode::Source { layer: i }).push(CompositeNode::Effects { layer: i }),
                    slots.push(Seq::empty()).push(seq![Some(s as NodeId)]),
                    s + 1,
                )
            } else {
                (nodes.push(CompositeNode::Source { layer: i }), slots.push(Seq::empty()), s)
            };
            let t = nodes1.len();
            (
                nodes1.push(CompositeNode::Transform { layer: i }).push(CompositeNode::Blend { layer: i }),
                slots1.push(seq![Some(tail as NodeId)]).push(seq![Some(prev as NodeId), Some(t as NodeId)]),
                t + 1,
            )
        }
    }
}

/// The nodes of the compositing graph for `layers`.
pub open spec fn plan_nodes(layers: Seq<LayerPlan>) -> Seq<CompositeNode> {
    plan_state(layers).0.push(CompositeNode::Output)
}

/// The wiring of the compositing graph for `layers`.
pub open spec fn plan_slots(layers: Seq<LayerPlan>) -> SlotTable {
    plan_state(layers).1.push(seq![Some(plan_state(layers).2 as NodeId)])
}

/// Every bound producer has a lower id than its consumer.
pub open spec fn producers_precede(slots: SlotTable) -> bool {
    forall|c: int, s: int|
        0 <= c < slots.len() && 0 <= s < slots[c].len() ==> match #[trigger] slots[c][s] {
            Some(p) => p < c,
            None => false,
        }
}

proof fn lemma_plan_state_shape(layers: Seq<LayerPlan>)
    requires
        layers.len() * 4 + 2 <= usize::MAX,
    ensures
        plan_state(layers).0.len() == plan_state(layers).1.len(),
        1 <= plan_state(layers).0.len() <= layers.len() * 4 + 1,
        plan_state(layers).2 < plan_state(layers).0.len(),
        producers_precede(plan_state(layers).1),
    decreases layers.len(),
{
    if layers.len() > 0 {
        lemma_plan_state_shape(layers.drop_last());
        let (nodes, slots, prev) = plan_state(layers.drop_last());
        let l = layers.last();
        if l.uploaded {
            let s = nodes.len();
            let (nodes1, slots1, tail) = if l.has_effects {
                (
                    nodes.push(CompositeNode::Source { layer: (layers.len() - 1) as usize }).push(CompositeNode::Effects { layer: (layers.len() - 1) as usize }),
                    slots.push(Seq::empty()).push(seq![Some(s as NodeId)]),
                    s + 1,
                )
            } else {
                (nodes.push(CompositeNode::Source { layer: (layers.len() - 1) as usize }), slots.push(Seq::empty()), s)
            };
            assert(producers_precede(slots1)) by {
                assert forall|c: int, k: int| 0 <= c < slots1.len() && 0 <= k < slots1[c].len() implies match #[trigger] slots1[c][k] {
                    Some(p) => p < c,
                    None => false,
                } by {
                    if c < slots.len() {
                        assert(slots1[c] == slots[c]);
                    }
                }
            }
            let t = nodes1.len();
            let slots2 = slots1.push(seq![Some(tail as NodeId)]).push(seq![Some(prev as NodeId), Some(t as NodeId)]);
            assert(producers_precede(slots2)) by {
                assert forall|c: int, k: int| 0 <= c < slots2.len() && 0 <= k < slots2[c].len() implies match #[trigger] slots2[c][k] {
                    Some(p) => p < c,
                    None => false,
                } by {
                    if c < slots1.len() {
                        assert(slots2[c] == slots1[c]);
                    }
                }
            }
        }
    }
}

/// Law: the compositing graph for any clip list is fully wired and acyclic
/// (node ids are already a topological order), and its last node is the
/// output.
pub proof fn lemma_plan_is_executable(layers: Seq<LayerPlan>)
    requires
        layers.len() * 4 + 2 <= usize::MAX,
    ensures
        all_connected(plan_slots(layers)),
        producers_precede(plan_slots(layers)),
        is_topological_order(plan_slots(layers), Seq::new(plan_slots(layers).len(), |i: int| i as NodeId)),
        has_topological_order(plan_slots(layers)),
        plan_nodes(layers).len() == plan_slots(layers).len(),
        plan_nodes(layers).last() == CompositeNode::Output,
{
    lemma_plan_state_shape(layers);
    let slots = plan_slots(layers);
    let inner = plan_state(layers).1;
    assert(producers_precede(slots)) by {
        assert forall|c: int, k: int| 0 <= c < slots.len() && 0 <= k < slots[c].len() implies match #[trigger] slots[c][k] {
            Some(p) => p < c,
            None => false,
        } by {
            if c < inner.len() {
                assert(slots[c] == inner[c]);
            }
        }
    }
    assert(all_connected(slots)) by {
        assert forall|c: int| 0 <= c < slots.len() implies #[trigger] crate::graph::slot_connected(slots, c) by {
            assert forall|k: int| 0 <= k < slots[c].len() implies (#[trigger] slots[c][k]) is Some by {
                assert(match slots[c][k] { Some(p) => p < c, None => false });
            }
        }
    }
    let order = Seq::new(slots.len(), |i: int| i as NodeId);
    assert(is_node_permutation(order, slots.len())) by {
        assert forall|a: int, b: int| 0 <= a < b < order.len() implies order[a] != order[b] by {}
    }
    assert(respects_edges(slots, order)) by {
        assert forall|j: int, s: int|
            #![trigger order[j], slots[order[j] as int][s]]
            0 <= j < order.len() && 0 <= s < slots[order[j] as int].len() implies match slots[order[j] as int][s] {
                Some(p) => order.take(j).contains(p),
                None => true,
            } by {
            assert(order[j] as int == j);
            assert(match slots[j][s] { Some(p) => p < j, None => false });
            let p = slots[j][s]->0;
            assert(order.take(j)[p as int] == p);
        }
    }
    assert(is_topological_order(slots, order));
}

/// Node `p` is the running canvas just below clip `i`: the canvas root when
/// no clip before `i` was uploaded, else the blend of the last uploaded
/// clip before `i`.
pub open spec fn is_running_canvas(nodes: Seq<CompositeNode>, layers: Seq<LayerPlan>, p: int, i: int) -> bool {
    &&& 0 <= p < nodes.len()
    &&& match nodes[p] {
        CompositeNode::Canvas => forall|j: int| 0 <= j < i ==> !(#[trigger] layers[j]).uploaded,
        CompositeNode::Blend { layer } => {
            &&& layer < i
            &&& layers[layer as int].uploaded
            &&& forall|j: int| layer < j < i ==> !(#[trigger] layers[j]).uploaded
        },
        _ => false,
    }
}

/// The blend of clip `i` at node `c` draws the clip over the canvas below
/// it: input slot 0 is the running canvas below clip `i`, input slot 1 is
/// the clip's transform.
pub open spec fn blend_stacks_clip(nodes: Seq<CompositeNode>, slots: SlotTable, layers: Seq<LayerPlan>, c: int, i: int) -> bool {
    &&& 0 <= i < layers.len()
    &&& layers[i].uploaded
    &&& slots[c].len() == 2
    &&& slots[c][0] is Some
    &&& is_running_canvas(nodes, layers, slots[c][0]->0 as int, i)
    &&& slots[c][1] is Some
    &&& (slots[c][1]->0 as int) < nodes.len()
    &&& nodes[slots[c][1]->0 as int] == CompositeNode::Transform { layer: i as usize }
}

proof fn lemma_running_canvas_extends(nodes: Seq<CompositeNode>, nodes2: Seq<CompositeNode>, layers: Seq<LayerPlan>, layers2: Seq<LayerPlan>, p: int, i: int)
    requires
        is_running_canvas(nodes, layers, p, i),
        0 <= i <= layers.len(),
        nodes.len() <= nodes2.len(),
        forall|k: int| 0 <= k < nodes.len() ==> nodes2[k] == #[trigger] nodes[k],
        layers.len() <= layers2.len(),
        forall|k: int| 0 <= k < layers.len() ==> layers2[k] == #[trigger] layers[k],
    ensures
        is_running_canvas(nodes2, layers2, p, i),
{
    assert(nodes2[p] == nodes[p]);
    match nodes[p] {
        CompositeNode::Canvas => {
            assert forall|j: int| 0 <= j < i implies !(#[trigger] layers2[j]).uploaded by {
                assert(layers2[j] == layers[j]);
            }
        },
        CompositeNode::Blend { layer } => {
            assert(layers2[layer as int] == layers[layer as int]);
            assert forall|j: int| layer < j < i implies !(#[trigger] layers2[j]).uploaded by {
                assert(layers2[j] == layers[j]);
            }
        },
        _ => {},
    }
}

proof fn lemma_plan_state_stacking(layers: Seq<LayerPlan>)
    requires
        layers.len() * 4 + 2 <= usize::MAX,
    ensures
        ({
            let (nodes, slots, prev) = plan_state(layers);
            &&& nodes.len() == slots.len()
            &&& is_running_canvas(nodes, layers, prev as int, layers.len() as int)
            &&& forall|c: int| 0 <= c < nodes.len() && (#[trigger] nodes[c]) is Blend
                ==> blend_stacks_clip(nodes, slots, layers, c, nodes[c]->Blend_layer as int)
        }),
    decreases layers.len(),
{
    lemma_plan_state_shape(layers);
    if layers.len() == 0 {
        let (nodes, slots, prev) = plan_state(layers);
        assert(nodes[0] == CompositeNode::Canvas);
    } else {
        let front = layers.drop_last();
        lemma_plan_state_stacking(front);
        lemma_plan_state_shape(front);
        let (nodes, slots, prev) = plan_state(front);
        let n = layers.len() - 1;
        let l = layers.last();
        assert forall|k: int| 0 <= k < front.len() implies layers[k] == #[trigger] front[k] by {}
        let (nodes2, slots2, prev2) = plan_state(layers);
        if !l.uploaded {
            assert(nodes2 == nodes && slots2 == slots && prev2 == prev);
            lemma_running_canvas_extends(nodes, nodes, front, layers, prev as int, n);
            match nodes[prev as int] {
                CompositeNode::Canvas => {
                    assert forall|j: int| 0 <= j < layers.len() implies !(#[trigger] layers[j]).uploaded by {
                        if j < n {
                            assert(layers[j] == front[j]);
                        }
                    }
                },
                CompositeNode::Blend { layer } => {
                    assert forall|j: int| layer < j < layers.len() implies !(#[trigger] layers[j]).uploaded by {
                        if j < n {
                            assert(layers[j] == front[j]);
                        }
                    }
                },
                _ => {},
            }
            assert forall|c: int| 0 <= c < nodes2.len() && (#[trigger] nodes2[c]) is Blend
                implies blend_stacks_clip(nodes2, slots2, layers, c, nodes2[c]->Blend_layer as int) by {
                let i = nodes[c]->Blend_layer as int;
                assert(blend_stacks_clip(nodes, slots, front, c, i));
                lemma_running_canvas_extends(nodes, nodes, front, layers, slots[c][0]->0 as int, i);
                assert(layers[i] == front[i]);
            }
        } else {
            let s = nodes.len();
            let t: int = if l.has_effects { s as int + 2 } else { s as int + 1 };
            assert(nodes2.len() == t + 2);
            assert forall|k: int| 0 <= k < nodes.len() implies nodes2[k] == #[trigger] nodes[k] by {}
            assert forall|k: int| 0 <= k < slots.len() implies slots2[k] == #[trigger] slots[k] by {}
            assert(nodes2[t] == CompositeNode::Transform { layer: n as usize });
            assert(nodes2[t + 1] == CompositeNode::Blend { layer: n as usize });
            assert(slots2[t + 1] == seq![Some(prev as NodeId), Some(t as NodeId)]);
            assert(prev2 == t + 1);
            lemma_running_canvas_extends(nodes, nodes2, front, layers, prev as int, n);
            assert(is_running_canvas(nodes2, layers, prev2 as int, layers.len() as int));
            assert forall|c: int| 0 <= c < nodes2.len() && (#[trigger] nodes2[c]) is Blend
                implies blend_stacks_clip(nodes2, slots2, layers, c, nodes2[c]->Blend_layer as int) by {
                if c < nodes.len() {
                    let i = nodes[c]->Blend_layer as int;
                    assert(blend_stacks_clip(nodes, slots, front, c, i));
                    lemma_running_canvas_extends(nodes, nodes2, front, layers, slots[c][0]->0 as int, i);
                    assert(layers[i] == front[i]);
                    assert(slots2[c] == slots[c]);
                    assert(nodes2[slots[c][1]->0 as int] == nodes[slots[c][1]->0 as int]);
                } else if c == t + 1 {
                    assert(slots2[c][0]->0 as int == prev as int);
                    assert(slots2[c][1]->0 as int == t);
                } else {
                    assert(!(nodes2[c] is Blend));
                }
            }
        }
    }
}

/// Law: clips are stacked bottom to top. The blend node of every uploaded
/// clip `i` takes in slot 0 the running canvas below it (the canvas root,
/// or the blend of the previous uploaded clip) and in slot 1 the clip's own
/// transform, so each clip is drawn over everything below it; and the
/// output takes the running canvas above the last clip.
pub proof fn lemma_plan_stacks_clips_in_order(layers: Seq<LayerPlan>)
    requires
        layers.len() * 4 + 2 <= usize::MAX,
    ensures
        forall|c: int| 0 <= c < plan_nodes(layers).len() && (#[trigger] plan_nodes(layers)[c]) is Blend
            ==> blend_stacks_clip(plan_nodes(layers), plan_slots(layers), layers, c, plan_nodes(layers)[c]->Blend_layer as int),
        forall|i: int| 0 <= i < layers.len() && (#[trigger] layers[i]).uploaded ==> exists|c: int|
            0 <= c < plan_nodes(layers).len() && plan_nodes(layers)[c] == (CompositeNode::Blend { layer: i as usize }),
        plan_slots(layers).last().len() == 1,
        (plan_slots(layers).last()[0] is Some),
        is_running_canvas(plan_nodes(layers), layers, plan_slots(layers).last()[0]->0 as int, layers.len() as int),
    decreases layers.len(),
{
    lemma_plan_state_stacking(layers);
    lemma_plan_state_shape(layers);
    let (nodes, slots, prev) = plan_state(layers);
    let pn = plan_nodes(layers);
    let ps = plan_slots(layers);
    assert forall|k: int| 0 <= k < nodes.len() implies pn[k] == #[trigger] nodes[k] by {}
    assert forall|c: int| 0 <= c < pn.len() && (#[trigger] pn[c]) is Blend
        implies blend_stacks_clip(pn, ps, layers, c, pn[c]->Blend_layer as int) by {
        assert(c < nodes.len());
        let i = nodes[c]->Blend_layer as int;
        assert(blend_stacks_clip(nodes, slots, layers, c, i));
        lemma_running_canvas_extends(nodes, pn, layers, layers, slots[c][0]->0 as int, i);
        assert(ps[c] == slots[c]);
        assert(pn[slots[c][1]->0 as int] == nodes[slots[c][1]->0 as int]);
    }
    lemma_running_canvas_extends(nodes, pn, layers, layers, prev as int, layers.len() as int);
    assert(ps.last() == seq![Some(prev as NodeId)]);
    if layers.len() > 0 {
        let front = layers.drop_last();
        lemma_plan_stacks_clips_in_order(front);
        lemma_plan_state_shape(front);
        let (nodes0, slots0, prev0) = plan_state(front);
        assert forall|k: int| 0 <= k < nodes0.len() implies nodes[k] == #[trigger] nodes0[k] by {}
        assert forall|i: int| 0 <= i < layers.len() && (#[trigger] layers[i]).uploaded implies exists|c: int|
            0 <= c < pn.len() && pn[c] == CompositeNode::Blend { layer: i as usize } by {
            if i < front.len() {
                assert(front[i] == layers[i]);
                let c = choose|c: int| 0 <= c < plan_nodes(front).len() && plan_nodes(front)[c] == CompositeNode::Blend { layer: i as usize };
                assert(c < nodes0.len());
                assert(pn[c] == nodes0[c]);
            } else {
                let s = nodes0.len();
                let t: int = if layers.last().has_effects { s as int + 2 } else { s as int + 1 };
                assert(pn[t + 1] == CompositeNode::Blend { layer: i as usize });
            }
        }
    }
}

/// Builds the compositing graph for `layers` (bottom-to-top clip order):
/// a canvas root, then per uploaded clip a source, an optional effect node,
/// a transform and a blend onto the running canvas, and a final output.
pub fn plan_composite(layers: &Vec<LayerPlan>) -> (g: CompositorGraph<CompositeNode>)
    requires
        layers.len() * 4 + 2 <= usize::MAX,
    ensures
        g.wf(),
        g.node_seq() == plan_nodes(layers@),
        g.slot_table() == plan_slots(layers@),
        forall|c: int| 0 <= c < g.node_seq().len() && (#[trigger] g.node_seq()[c]) is Blend
            ==> blend_stacks_clip(g.node_seq(), g.slot_table(), layers@, c, g.node_seq()[c]->Blend_layer as int),
{
    let mut g: CompositorGraph<CompositeNode> = CompositorGraph::new();
    let mut prev: NodeId = g.add_node(CompositeNode::Canvas, 0);
    assert(Seq::new(0nat, |s: int| None::<NodeId>) =~= Seq::<Option<NodeId>>::empty());
    assert(g.slot_table() =~= seq![Seq::<Option<NodeId>>::empty()]);
    assert(g.node_seq() =~= seq![CompositeNode::Canvas]);
    assert(layers@.take(0) =~= Seq::<LayerPlan>::empty());
    let mut i: usize = 0;
    while i < layers.len()
        invariant
            g.wf(),
            i <= layers.len(),
            layers.len() * 4 + 2 <= usize::MAX,
            plan_state(layers@.take(i as int)) == (g.node_seq(), g.slot_table(), prev as nat),
        decreases layers.len() - i,
    {
        proof {
            lemma_plan_state_shape(layers@.take(i as int));
        }
        let layer = layers[i];
        let ghost before = layers@.take(i as int);
        assert(layers@.take(i as int + 1).drop_last() =~= before);
        if layer.uploaded {
            let ghost nodes0 = g.node_seq();
            let ghost slots0 = g.slot_table();
            let source_id = g.add_node(CompositeNode::Source { layer: i }, 0);
            assert(Seq::new(0nat, |s: int| None::<NodeId>) =~= Seq::<Option<NodeId>>::empty());
            let mut tail = source_id;
            if layer.has_effects {
                let ghost slots1 = g.slot_table();
                tail = g.add_node(CompositeNode::Effects { layer: i }, 1);
                let _ = g.connect(source_id, tail, 0);
                assert(Seq::new(1nat, |s: int| None::<NodeId>).update(0, Some(source_id)) =~= seq![Some(source_id)]);
                assert(g.slot_table() =~= slots1.push(seq![Some(source_id)]));
            }
            let ghost slots2 = g.slot_table();
            let transform_id = g.add_node(CompositeNode::Transform { layer: i }, 1);
            let _ = g.connect(tail, transform_id, 0);
            assert(Seq::new(1nat, |s: int| None::<NodeId>).update(0, Some(tail)) =~= seq![Some(tail)]);
            assert(g.slot_table() =~= slots2.push(seq![Some(tail)]));
            let ghost slots3 = g.slot_table();
            let blend_id = g.add_node(CompositeNode::Blend { layer: i }, 2);
            let _ = g.connect(prev, blend_id, 0);
            let _ = g.connect(transform_id, blend_id, 1);
            assert(Seq::new(2nat, |s: int| None::<NodeId>).update(0, Some(prev)).update(1, Some(transform_id))
                =~= seq![Some(prev), Some(transform_id)]);
            assert(g.slot_table() =~= slots3.push(seq![Some(prev), Some(transform_id)]));
            prev = blend_id;
        }
        i += 1;
    }
    proof {
        lemma_plan_state_shape(layers@);
    }
    assert(layers@.take(layers.len() as int) =~= layers@);
    let ghost slots4 = g.slot_table();
    let output_id = g.add_node(CompositeNode::Output, 1);
    let _ = g.connect(prev, output_id, 0);
    assert(Seq::new(1nat, |s: int| None::<NodeId>).update(0, Some(prev)) =~= seq![Some(prev)]);
    assert(g.slot_table() =~= slots4.push(seq![Some(prev)]));
    proof {
        lemma_plan_stacks_clips_in_order(layers@);
    }
    g
}

/// The shader mode of the final blit: a BGRA render target (`Bgra8Unorm`
/// or `Bgra8UnormSrgb`) needs its red and blue channels swapped (mode 1);
/// every other target is written as is (mode 0).
pub fn output_blit_mode(bgra_target: bool) -> (mode: u32)
    ensures
        mode == if bgra_target { 1u32 } else { 0u32 },
{
    if bgra_target { 1 } else { 0 }
}

/// Some input slot of some node is bound to producer `p`.
pub open spec fn consumed(slots: SlotTable, p: int) -> bool {
    exists|c: int, k: int| 0 <= c < slots.len() && 0 <= k < slots[c].len() && #[trigger] slots[c][k] == Some(p as NodeId)
}

proof fn lemma_consumed_push(slots: SlotTable, row: Seq<Option<NodeId>>, p: int)
    requires
        consumed(slots, p),
    ensures
        consumed(slots.push(row), p),
{
    let (c, k) = choose|c: int, k: int| 0 <= c < slots.len() && 0 <= k < slots[c].len() && #[trigger] slots[c][k] == Some(p as NodeId);
    assert(slots.push(row)[c] == slots[c]);
    assert(slots.push(row)[c][k] == Some(p as NodeId));
}

proof fn lemma_consumed_by_last(slots: SlotTable, row: Seq<Option<NodeId>>, k: int, p: int)
    requires
        0 <= k < row.len(),
        row[k] == Some(p as NodeId),
    ensures
        consumed(slots.push(row), p),
{
    let all = slots.push(row);
    assert(all[slots.len() as int] == row);
    assert(all[slots.len() as int][k] == Some(p as NodeId));
}

proof fn lemma_plan_state_consumers(layers: Seq<LayerPlan>)
    requires
        layers.len() * 4 + 2 <= usize::MAX,
    ensures
        forall|i: int| 0 <= i < plan_state(layers).0.len() && i != plan_state(layers).2 ==> consumed(plan_state(layers).1, i),
    decreases layers.len(),
{
    if layers.len() > 0 {
        let init = layers.drop_last();
        lemma_plan_state_consumers(init);
        lemma_plan_state_shape(init);
        let (nodes, slots, prev) = plan_state(init);
        let l = layers.last();
        if l.uploaded {
            let i_layer = (layers.len() - 1) as usize;
            let s = nodes.len();
            let t = if l.has_effects { s + 2 } else { s + 1 };
            let tail = if l.has_effects { s + 1 } else { s };
            let slots1 = if l.has_effects {
                slots.push(Seq::empty()).push(seq![Some(s as NodeId)])
            } else {
                slots.push(Seq::empty())
            };
            let slots2 = slots1.push(seq![Some(tail as NodeId)]);
            let slots3 = slots2.push(seq![Some(prev as NodeId), Some(t as NodeId)]);
            assert(plan_state(layers).1 == slots3);
            assert(plan_state(layers).2 == t + 1);
            assert(plan_state(layers).0.len() == t + 2);
            assert forall|i: int| 0 <= i < t + 2 && i != t + 1 implies consumed(slots3, i) by {
                if i < s {
                    if i == prev {
                        lemma_consumed_by_last(slots2, seq![Some(prev as NodeId), Some(t as NodeId)], 0, i);
                    } else {
                        assert(consumed(slots, i));
                        lemma_consumed_push(slots, Seq::empty(), i);
                        if l.has_effects {
                            lemma_consumed_push(slots.push(Seq::empty()), seq![Some(s as NodeId)], i);
                        }
                        lemma_consumed_push(slots1, seq![Some(tail as NodeId)], i);
                        lemma_consumed_push(slots2, seq![Some(prev as NodeId), Some(t as NodeId)], i);
                    }
                } else if i == t {
                    lemma_consumed_by_last(slots2, seq![Some(prev as NodeId), Some(t as NodeId)], 1, i);
                } else if i == tail {
                    lemma_consumed_by_last(slots1, seq![Some(tail as NodeId)], 0, i);
                    lemma_consumed_push(slots2, seq![Some(prev as NodeId), Some(t as NodeId)], i);
                } else {
                    assert(l.has_effects && i == s);
                    lemma_consumed_by_last(slots.push(Seq::empty()), seq![Some(s as NodeId)], 0, i);
                    lemma_consumed_push(slots1, seq![Some(tail as NodeId)], i);
                    lemma_consumed_push(slots2, seq![Some(prev as NodeId), Some(t as NodeId)], i);
                }
            }
        }
    }
}

/// Law: whatever topological order the graph is executed in, the output
/// node comes last, so it is the node that renders into the final target:
/// every other node of a compositing graph feeds a later one.
pub proof fn lemma_plan_output_renders_last(layers: Seq<LayerPlan>, order: Seq<NodeId>)
    requires
        layers.len() * 4 + 2 <= usize::MAX,
        is_topological_order(plan_slots(layers), order),
    ensures
        order.len() > 0,
        plan_nodes(layers)[order.last() as int] == CompositeNode::Output,
{
    lemma_plan_state_shape(layers);
    lemma_plan_state_consumers(layers);
    let slots = plan_slots(layers);
    let inner = plan_state(layers).1;
    let n = slots.len();
    let out = n - 1;
    assert(order.len() == n);
    let x = order.last();
    if x != out {
        assert(x < n);
        assert(consumed(slots, x as int)) by {
            if x == plan_state(layers).2 {
                lemma_consumed_by_last(inner, seq![Some(plan_state(layers).2 as NodeId)], 0, x as int);
            } else {
                lemma_consumed_push(inner, seq![Some(plan_state(layers).2 as NodeId)], x as int);
            }
        }
        let (c, k) = choose|c: int, k: int| 0 <= c < slots.len() && 0 <= k < slots[c].len() && #[trigger] slots[c][k] == Some(x as NodeId);
        lemma_ids_pigeonhole(order, n);
        assert(order.contains(c as NodeId));
        let j = choose|j: int| 0 <= j < order.len() && order[j] == c as NodeId;
        assert(order[j] as int == c);
        assert(slots[order[j] as int][k] == Some(x as NodeId));
        assert(order.take(j).contains(x));
        let i = choose|i: int| 0 <= i < order.take(j).len() && order.take(j)[i] == x;
        assert(order[i] == order[order.len() - 1]);
        assert(i < order.len() - 1);
        assert(false);
    }
}

} // verus!
