//! The execution schedule of a compositing graph: which node runs next,
//! where it renders, and which pooled render targets go back to the pool.
//!
//! Executing a graph alternates GPU work with decisions. The renderer asks
//! the schedule for the next node, wires that node's inputs from the views
//! of its producers, tells the schedule whether the node forwards its input
//! (a passthrough output), and performs the action the schedule returns:
//! render into the caller's final target, forward, or render into a
//! render target acquired from the pool. When every node has run,
//! [`ExecSchedule::finish`] lists the nodes whose pooled targets are
//! released.

use vstd::prelude::*;
use crate::error::CompositorError;
use crate::graph::{
    all_connected, cycle_message, empty_graph_message, has_topological_order, is_first_unconnected,
    is_topological_order, kahn_order, unconnected_message, CompositorGraph, NodeId, SlotTable,
};

verus! {

/// What executing one node amounts to.
#[derive(Clone, Copy, PartialEq, Eq, Structural, Debug)]
pub enum ExecAction {
    /// Render the node into the caller's final target (the last node).
    RenderFinal(NodeId),
    /// The node forwards its input view; nothing is rendered or pooled.
    Forward(NodeId),
    /// Render the node into a render target acquired from the pool.
    RenderPooled(NodeId),
}

/// The node an action runs.
pub open spec fn action_node(a: ExecAction) -> NodeId {
    match a {
        ExecAction::RenderFinal(n) => n,
        ExecAction::Forward(n) => n,
        ExecAction::RenderPooled(n) => n,
    }
}

/// The nodes rendered into pooled targets by `actions`, in order.
pub open spec fn pooled_nodes(actions: Seq<ExecAction>) -> Seq<NodeId>
    decreases actions.len(),
{
    if actions.len() == 0 {
        Seq::empty()
    } else {
        let earlier = pooled_nodes(actions.drop_last());
        match actions.last() {
            ExecAction::RenderPooled(n) => earlier.push(n),
            _ => earlier,
        }
    }
}

/// The action for the node at `position` of an `len`-node order: the last
/// node renders into the final target; any other forwards its input when
/// it has a passthrough output, and renders into a pooled target otherwise.
pub open spec fn action_for(node: NodeId, position: nat, len: nat, forwards: bool) -> ExecAction {
    if position == len - 1 {
        ExecAction::RenderFinal(node)
    } else if forwards {
        ExecAction::Forward(node)
    } else {
        ExecAction::RenderPooled(node)
    }
}

/// The pooled nodes of actions that follow `order` are the nodes of the
/// `RenderPooled` actions, each listed once.
proof fn lemma_pooled_nodes(actions: Seq<ExecAction>, order: Seq<NodeId>)
    requires
        actions.len() <= order.len(),
        order.no_duplicates(),
        forall|k: int| 0 <= k < actions.len() ==> action_node(#[trigger] actions[k]) == order[k],
    ensures
        pooled_nodes(actions).no_duplicates(),
        forall|i: int| #![trigger pooled_nodes(actions)[i]] 0 <= i < pooled_nodes(actions).len() ==> exists|k: int|
            0 <= k < actions.len() && #[trigger] actions[k] is RenderPooled && pooled_nodes(actions)[i] == order[k],
        forall|k: int| 0 <= k < actions.len() && (#[trigger] actions[k]) is RenderPooled ==> pooled_nodes(actions).contains(order[k]),
    decreases actions.len(),
{
    if actions.len() > 0 {
        let front = actions.drop_last();
        let last = actions.len() - 1;
        assert forall|k: int| 0 <= k < front.len() implies action_node(#[trigger] front[k]) == order[k] by {
            assert(front[k] == actions[k]);
        }
        lemma_pooled_nodes(front, order);
        let earlier = pooled_nodes(front);
        assert(action_node(actions[last]) == order[last]);
        assert forall|k: int| 0 <= k < front.len() && (#[trigger] actions[k]) is RenderPooled implies earlier.contains(order[k]) by {
            assert(actions[k] == front[k]);
        }
        match actions.last() {
            ExecAction::RenderPooled(n) => {
                let all = earlier.push(n);
                assert(pooled_nodes(actions) == all);
                assert(n == order[last]);
                assert(!earlier.contains(n)) by {
                    if earlier.contains(n) {
                        let i = choose|i: int| 0 <= i < earlier.len() && earlier[i] == n;
                        let k2 = choose|k2: int| 0 <= k2 < front.len() && #[trigger] front[k2] is RenderPooled && earlier[i] == order[k2];
                        assert(order[k2] == order[last]);
                    }
                }
                assert forall|a: int, b: int| 0 <= a < b < all.len() implies all[a] != all[b] by {
                    if b == earlier.len() {
                        assert(all[a] == earlier[a]);
                        assert(earlier.contains(earlier[a]));
                    } else {
                        assert(all[a] == earlier[a] && all[b] == earlier[b]);
                    }
                }
                assert forall|k: int| 0 <= k < actions.len() && (#[trigger] actions[k]) is RenderPooled implies all.contains(order[k]) by {
                    if k == last {
                        assert(all[earlier.len() as int] == n);
                    } else {
                        let i = choose|i: int| 0 <= i < earlier.len() && earlier[i] == order[k];
                        assert(all[i] == order[k]);
                    }
                }
            },
            _ => {
                assert(pooled_nodes(actions) == earlier);
                assert forall|k: int| 0 <= k < actions.len() && (#[trigger] actions[k]) is RenderPooled implies earlier.contains(order[k]) by {
                    assert(k != last);
                }
            },
        }
        let pooled = pooled_nodes(actions);
        assert forall|i: int| #![trigger pooled[i]] 0 <= i < pooled.len() implies exists|k: int|
            0 <= k < actions.len() && #[trigger] actions[k] is RenderPooled && pooled[i] == order[k] by {
            if i < earlier.len() {
                assert(pooled[i] == earlier[i]);
                let k = choose|k: int| 0 <= k < front.len() && #[trigger] front[k] is RenderPooled && earlier[i] == order[k];
                assert(actions[k] == front[k]);
            } else {
                assert(actions[last] is RenderPooled);
                assert(pooled[i] == order[last]);
            }
        }
    }
}

/// The run of a graph's execution: its order, the actions taken so far,
/// and the nodes holding pooled render targets.
pub struct ExecSchedule {
    order: Vec<NodeId>,
    position: usize,
    pooled: Vec<NodeId>,
    table: Ghost<SlotTable>,
    actions: Ghost<Seq<ExecAction>>,
}

impl ExecSchedule {
    /// The execution order.
    pub closed spec fn order(&self) -> Seq<NodeId> {
        self.order@
    }

    /// The number of nodes run so far.
    pub closed spec fn position(&self) -> nat {
        self.position as nat
    }

    /// The wiring of the graph being run.
    pub closed spec fn table(&self) -> SlotTable {
        self.table@
    }

    /// The actions taken so far, one per node run.
    pub closed spec fn actions(&self) -> Seq<ExecAction> {
        self.actions@
    }

    /// The nodes whose pooled render targets are held, in the order they
    /// were acquired.
    pub closed spec fn pooled(&self) -> Seq<NodeId> {
        self.pooled@
    }

    /// Structural invariant: a non-empty topological order, and one action
    /// per node run so far, each the action for its node and position.
    pub closed spec fn wf(&self) -> bool {
        &&& self.order@.len() > 0
        &&& is_topological_order(self.table@, self.order@)
        &&& self.position <= self.order@.len()
        &&& self.actions@.len() == self.position
        &&& forall|k: int| 0 <= k < self.position ==> action_node(#[trigger] self.actions@[k]) == self.order@[k]
        &&& forall|k: int| 0 <= k < self.position ==> ((#[trigger] self.actions@[k]) is RenderFinal <==> k == self.order@.len() - 1)
        &&& self.pooled@ == pooled_nodes(self.actions@)
    }

    /// Starts running `graph` in its execution order (see
    /// [`CompositorGraph::execution_order`]); fails exactly as that does.
    pub fn new<N>(graph: &CompositorGraph<N>) -> (res: Result<ExecSchedule, CompositorError>)
        requires
            graph.wf(),
        ensures
            match res {
                Ok(s) => {
                    &&& s.wf()
                    &&& all_connected(graph.slot_table())
                    &&& s.table() == graph.slot_table()
                    &&& s.order() == kahn_order(graph.slot_table())
                    &&& s.position() == 0
                    &&& s.actions() == Seq::<ExecAction>::empty()
                    &&& s.pooled() == Seq::<NodeId>::empty()
                },
                Err(CompositorError::InvalidOperation(m)) => if graph.node_seq().len() == 0 {
                    m@ == empty_graph_message()
                } else if all_connected(graph.slot_table()) {
                    &&& !has_topological_order(graph.slot_table())
                    &&& kahn_order(graph.slot_table()).len() < graph.node_seq().len()
                    &&& m@ == cycle_message()
                } else {
                    exists|c: int| #[trigger] is_first_unconnected(graph.slot_table(), c) && m@ == unconnected_message(c as nat)
                },
                Err(_) => false,
            },
    {
        let order = graph.execution_order()?;
        Ok(ExecSchedule {
            order,
            position: 0,
            pooled: Vec::new(),
            table: Ghost(graph.slot_table()),
            actions: Ghost(Seq::empty()),
        })
    }

    /// The next node to run, or `None` once every node has run.
    pub fn current(&self) -> (r: Option<NodeId>)
        requires
            self.wf(),
        ensures
            r == if self.position() < self.order().len() { Some(self.order()[self.position() as int]) } else { None::<NodeId> },
    {
        if self.position < self.order.len() {
            Some(self.order[self.position])
        } else {
            None
        }
    }

    /// Whether the next node is the last one, which renders into the
    /// caller's final target.
    pub fn current_is_final(&self) -> (b: bool)
        requires
            self.wf(),
        ensures
            b == (self.position() == self.order().len() - 1),
    {
        self.position == self.order.len() - 1
    }

    /// Runs the next node, which forwards its input when `forwards` (its
    /// passthrough output; ignored for the last node), and returns what to
    /// do with it. Every producer of that node has already run and is not
    /// the last node, so its output view exists.
    pub fn step(&mut self, forwards: bool) -> (a: ExecAction)
        requires
            old(self).wf(),
            old(self).position() < old(self).order().len(),
        ensures
            final(self).wf(),
            final(self).order() == old(self).order(),
            final(self).table() == old(self).table(),
            final(self).position() == old(self).position() + 1,
            a == action_for(old(self).order()[old(self).position() as int], old(self).position(), old(self).order().len(), forwards),
            final(self).actions() == old(self).actions().push(a),
            final(self).pooled() == if a is RenderPooled { old(self).pooled().push(action_node(a)) } else { old(self).pooled() },
            forall|s: int| 0 <= s < old(self).table()[action_node(a) as int].len() ==> match #[trigger] old(self).table()[action_node(a) as int][s] {
                Some(p) => exists|k: int| 0 <= k < old(self).position() && old(self).order()[k] == p,
                None => true,
            },
    {
        let ghost old_actions = self.actions@;
        let ghost old_pooled = self.pooled@;
        let ghost table = self.table@;
        let ghost order = self.order@;
        let pos = self.position;
        let node = self.order[pos];
        let a = if pos == self.order.len() - 1 {
            ExecAction::RenderFinal(node)
        } else if forwards {
            ExecAction::Forward(node)
        } else {
            ExecAction::RenderPooled(node)
        };
        if forwards == false && pos != self.order.len() - 1 {
            self.pooled.push(node);
        }
        self.position = pos + 1;
        self.actions = Ghost(old_actions.push(a));
        proof {
            let acts = old_actions.push(a);
            assert(acts.drop_last() =~= old_actions);
            assert(self.pooled@ == pooled_nodes(acts));
            assert forall|k: int| 0 <= k < pos + 1 implies action_node(#[trigger] acts[k]) == order[k] by {
                if k < pos {
                    assert(acts[k] == old_actions[k]);
                }
            }
            assert forall|k: int| 0 <= k < pos + 1 implies ((#[trigger] acts[k]) is RenderFinal <==> k == order.len() - 1) by {
                if k < pos {
                    assert(acts[k] == old_actions[k]);
                }
            }
            assert forall|s: int| 0 <= s < table[node as int].len() implies match #[trigger] table[node as int][s] {
                Some(p) => exists|k: int| 0 <= k < pos && order[k] == p,
                None => true,
            } by {
                assert(0 <= pos < order.len() && 0 <= s < table[order[pos as int] as int].len());
                match table[order[pos as int] as int][s] {
                    Some(p) => {
                        assert(order.take(pos as int).contains(p));
                        let k = choose|k: int| 0 <= k < order.take(pos as int).len() && order.take(pos as int)[k] == p;
                        assert(order[k] == p);
                    },
                    None => {},
                }
            }
        }
        a
    }

    /// Ends the run once every node has run: the nodes whose pooled render
    /// targets go back to the pool. They are exactly the nodes rendered
    /// into pooled targets, each listed once, and never the last node,
    /// whose target belongs to the caller.
    pub fn finish(self) -> (released: Vec<NodeId>)
        requires
            self.wf(),
            self.position() == self.order().len(),
        ensures
            released@ == pooled_nodes(self.actions()),
            released@.no_duplicates(),
            !released@.contains(self.order().last()),
            forall|k: int| 0 <= k < self.actions().len() && (#[trigger] self.actions()[k]) is RenderPooled
                ==> released@.contains(self.order()[k]),
            forall|x: NodeId| #[trigger] released@.contains(x) ==> exists|k: int|
                0 <= k < self.actions().len() && self.actions()[k] == ExecAction::RenderPooled(x),
    {
        proof {
            let actions = self.actions@;
            let order = self.order@;
            lemma_pooled_nodes(actions, order);
            let pooled = pooled_nodes(actions);
            assert forall|x: NodeId| #[trigger] pooled.contains(x) implies exists|k: int|
                0 <= k < actions.len() && actions[k] == ExecAction::RenderPooled(x) by {
                let i = choose|i: int| 0 <= i < pooled.len() && pooled[i] == x;
                let k = choose|k: int| 0 <= k < actions.len() && #[trigger] actions[k] is RenderPooled && pooled[i] == order[k];
                assert(action_node(actions[k]) == order[k]);
            }
            if pooled.contains(order.last()) {
                let i = choose|i: int| 0 <= i < pooled.len() && pooled[i] == order.last();
                let k = choose|k: int| 0 <= k < actions.len() && #[trigger] actions[k] is RenderPooled && pooled[i] == order[k];
                assert(order[k] == order[order.len() - 1]);
                assert(k == order.len() - 1);
                assert(actions[k] is RenderFinal);
            }
        }
        self.pooled
    }
}

} // verus!
