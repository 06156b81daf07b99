//! The compositing graph: nodes, numbered input slots, and topological
//! execution order.
//!
//! `connect(producer, consumer, slot)` binds the producer's output to a
//! numbered input slot of the consumer. The node payload `N` is whatever the
//! renderer executes; the graph itself only reasons about the wiring.

use vstd::prelude::*;
use crate::error::CompositorError;
use crate::text::{decimal, push_decimal};

verus! {

/// Identifier of a node within a [`CompositorGraph`].
pub type NodeId = usize;

/// A wiring table: `slots[consumer][slot]` is the producer bound to that
/// input, if any.
pub type SlotTable = Seq<Seq<Option<NodeId>>>;

/// Every bound producer names a node of the graph.
pub open spec fn producers_in_range(slots: SlotTable) -> bool {
    forall|c: int, s: int|
        0 <= c < slots.len() && 0 <= s < slots[c].len() ==> match #[trigger] slots[c][s] {
            Some(p) => p < slots.len(),
            None => true,
        }
}

/// Every input slot of `consumer` is bound.
pub open spec fn slot_connected(slots: SlotTable, consumer: int) -> bool {
    forall|s: int| 0 <= s < slots[consumer].len() ==> (#[trigger] slots[consumer][s]) is Some
}

/// Every input slot of every node is bound.
pub open spec fn all_connected(slots: SlotTable) -> bool {
    forall|c: int| 0 <= c < slots.len() ==> #[trigger] slot_connected(slots, c)
}

/// `consumer` is the lowest-numbered node with an unbound input.
pub open spec fn is_first_unconnected(slots: SlotTable, consumer: int) -> bool {
    &&& 0 <= consumer < slots.len()
    &&& !slot_connected(slots, consumer)
    &&& forall|c: int| 0 <= c < consumer ==> #[trigger] slot_connected(slots, c)
}

/// `order` lists every node of an `n`-node graph exactly once.
pub open spec fn is_node_permutation(order: Seq<NodeId>, n: nat) -> bool {
    &&& order.len() == n
    &&& order.no_duplicates()
    &&& forall|i: int| 0 <= i < order.len() ==> #[trigger] order[i] < n
}

/// Every producer appears in `order` before each of its consumers.
pub open spec fn respects_edges(slots: SlotTable, order: Seq<NodeId>) -> bool {
    forall|j: int, s: int|
        #![trigger order[j], slots[order[j] as int][s]]
        0 <= j < order.len() && 0 <= s < slots[order[j] as int].len() ==> match slots[order[j] as int][s] {
            Some(p) => order.take(j).contains(p),
            None => true,
        }
}

/// `order` is a topological order of the wiring table.
pub open spec fn is_topological_order(slots: SlotTable, order: Seq<NodeId>) -> bool {
    &&& is_node_permutation(order, slots.len())
    &&& respects_edges(slots, order)
}

/// The wiring admits some topological order (i.e. it is acyclic).
pub open spec fn has_topological_order(slots: SlotTable) -> bool {
    exists|order: Seq<NodeId>| #[trigger] is_topological_order(slots, order)
}

/// The message reported for a node with an unbound input.
pub open spec fn unconnected_message(consumer: nat) -> Seq<char> {
    "node "@ + decimal(consumer) + " has an unconnected input"@
}

/// The message reported for a cyclic graph.
pub open spec fn cycle_message() -> Seq<char> {
    "compositing graph contains a cycle"@
}

/// The message reported when executing a graph without nodes.
pub open spec fn empty_graph_message() -> Seq<char> {
    "compositing graph is empty"@
}

/// The message reported by `connect` for an out-of-range node id.
pub open spec fn connect_range_message(from: nat, to: nat, count: nat) -> Seq<char> {
    "connect "@ + decimal(from) + " -> "@ + decimal(to) + ": node count is "@ + decimal(count)
}

/// The message reported by `connect` for a missing input slot.
pub open spec fn connect_slot_message(to: nat, slot: nat) -> Seq<char> {
    "node "@ + decimal(to) + " has no input slot "@ + decimal(slot)
}

/// Number of bound slots whose producer is not yet in `done`.
pub open spec fn pending_inputs(slots: Seq<Option<NodeId>>, done: Seq<NodeId>) -> nat
    decreases slots.len(),
{
    if slots.len() == 0 {
        0
    } else {
        pending_inputs(slots.drop_last(), done) + match slots.last() {
            Some(p) => if done.contains(p) { 0nat } else { 1nat },
            None => 0nat,
        }
    }
}

/// Number of slots bound to producer `p`.
pub open spec fn slots_bound_to(slots: Seq<Option<NodeId>>, p: NodeId) -> nat
    decreases slots.len(),
{
    if slots.len() == 0 {
        0
    } else {
        slots_bound_to(slots.drop_last(), p) + if slots.last() == Some(p) { 1nat } else { 0nat }
    }
}

/// Number of occurrences of `x` in `s`.
pub open spec fn occurrences(s: Seq<NodeId>, x: NodeId) -> nat
    decreases s.len(),
{
    if s.len() == 0 {
        0
    } else {
        occurrences(s.drop_last(), x) + if s.last() == x { 1nat } else { 0nat }
    }
}

/// The consumers of producer `p` among nodes `0..upto`, in ascending
/// order, each listed once per input slot it binds to `p`.
pub open spec fn consumer_list(table: SlotTable, p: NodeId, upto: nat) -> Seq<NodeId>
    decreases upto,
{
    if upto == 0 {
        Seq::empty()
    } else {
        consumer_list(table, p, (upto - 1) as nat) + Seq::new(
            slots_bound_to(table[upto - 1], p),
            |i: int| (upto - 1) as NodeId,
        )
    }
}

/// The pending-input counts and work list after releasing the consumers in
/// `list` front to back: each loses one pending input, and one left with
/// none joins the back of the work list.
pub open spec fn release_spec(list: Seq<NodeId>, degree: Seq<usize>, queue: Seq<NodeId>) -> (Seq<usize>, Seq<NodeId>)
    decreases list.len(),
{
    if list.len() == 0 {
        (degree, queue)
    } else {
        let c = list[0];
        let d = degree.update(c as int, (degree[c as int] - 1) as usize);
        let q = if d[c as int] == 0 { queue.push(c) } else { queue };
        release_spec(list.drop_first(), d, q)
    }
}

/// The position of the smallest id in a non-empty work list (the first
/// such position).
pub open spec fn min_position(queue: Seq<NodeId>) -> int
    decreases queue.len(),
{
    if queue.len() <= 1 {
        0
    } else {
        let k = min_position(queue.drop_last());
        if queue.last() < queue[k] { queue.len() - 1 } else { k }
    }
}

/// Kahn's algorithm from a given state, for at most `fuel` steps: take the
/// smallest id of the work list, append it to the order, and release its
/// consumers.
pub open spec fn kahn_run(table: SlotTable, degree: Seq<usize>, queue: Seq<NodeId>, order: Seq<NodeId>, fuel: nat) -> Seq<NodeId>
    decreases fuel,
{
    if fuel == 0 || queue.len() == 0 {
        order
    } else {
        let node = queue[min_position(queue)];
        let next = release_spec(consumer_list(table, node, table.len()), degree, queue.remove(min_position(queue)));
        kahn_run(table, next.0, next.1, order.push(node), (fuel - 1) as nat)
    }
}

/// The number of bound inputs of every node.
pub open spec fn initial_degree(table: SlotTable) -> Seq<usize> {
    Seq::new(table.len(), |c: int| pending_inputs(table[c], Seq::empty()) as usize)
}

/// The nodes among `0..upto` without pending inputs, ascending.
pub open spec fn zero_degree_nodes(degree: Seq<usize>, upto: nat) -> Seq<NodeId>
    decreases upto,
{
    if upto == 0 {
        Seq::empty()
    } else {
        let earlier = zero_degree_nodes(degree, (upto - 1) as nat);
        if degree[upto - 1] == 0 { earlier.push((upto - 1) as NodeId) } else { earlier }
    }
}

/// The order Kahn's algorithm yields: of the nodes whose inputs are all
/// ordered, the one with the smallest id comes next. On an acyclic, fully
/// wired graph it lists every node.
pub open spec fn kahn_order(table: SlotTable) -> Seq<NodeId> {
    let degree = initial_degree(table);
    kahn_run(table, degree, zero_degree_nodes(degree, table.len()), Seq::empty(), table.len())
}

proof fn lemma_pending_add_done(slots: Seq<Option<NodeId>>, done: Seq<NodeId>, x: NodeId)
    requires
        !done.contains(x),
    ensures
        pending_inputs(slots, done) == pending_inputs(slots, done.push(x)) + slots_bound_to(slots, x),
    decreases slots.len(),
{
    if slots.len() > 0 {
        lemma_pending_add_done(slots.drop_last(), done, x);
        match slots.last() {
            Some(p) => {
                if p == x {
                    assert(done.push(x).contains(x)) by {
                        assert(done.push(x)[done.len() as int] == x);
                    }
                } else {
                    assert(done.push(x).contains(p) == done.contains(p)) by {
                        if done.contains(p) {
                            let k = choose|k: int| 0 <= k < done.len() && done[k] == p;
                            assert(done.push(x)[k] == p);
                        }
                        if done.push(x).contains(p) {
                            let k = choose|k: int| 0 <= k < done.push(x).len() && done.push(x)[k] == p;
                            assert(done[k] == p);
                        }
                    }
                }
            },
            None => {},
        }
    }
}

/// A node with no pending inputs has all its bound producers in `done`.
proof fn lemma_no_pending_all_done(slots: Seq<Option<NodeId>>, done: Seq<NodeId>, s: int)
    requires
        pending_inputs(slots, done) == 0,
        0 <= s < slots.len(),
    ensures
        match slots[s] {
            Some(p) => done.contains(p),
            None => true,
        },
    decreases slots.len(),
{
    if s < slots.len() - 1 {
        lemma_no_pending_all_done(slots.drop_last(), done, s);
        assert(slots.drop_last()[s] == slots[s]);
    }
}

/// A node with pending inputs has a bound producer outside `done`.
proof fn lemma_pending_witness(slots: Seq<Option<NodeId>>, done: Seq<NodeId>) -> (s: int)
    requires
        pending_inputs(slots, done) > 0,
    ensures
        0 <= s < slots.len(),
        slots[s] is Some,
        !done.contains(slots[s]->0),
    decreases slots.len(),
{
    if pending_inputs(slots.drop_last(), done) > 0 {
        let s = lemma_pending_witness(slots.drop_last(), done);
        assert(slots.drop_last()[s] == slots[s]);
        s
    } else {
        (slots.len() - 1) as int
    }
}

/// A positive count of slots bound to `p` has a witness slot.
proof fn lemma_bound_witness(slots: Seq<Option<NodeId>>, p: NodeId) -> (s: int)
    requires
        slots_bound_to(slots, p) > 0,
    ensures
        0 <= s < slots.len(),
        slots[s] == Some(p),
    decreases slots.len(),
{
    if slots_bound_to(slots.drop_last(), p) > 0 {
        let s = lemma_bound_witness(slots.drop_last(), p);
        assert(slots.drop_last()[s] == slots[s]);
        s
    } else {
        (slots.len() - 1) as int
    }
}

/// With every slot bound, the pending count of the empty `done` set is the
/// slot count of the prefix.
proof fn lemma_pending_prefix_step(slots: Seq<Option<NodeId>>, k: int, done: Seq<NodeId>)
    requires
        0 <= k < slots.len(),
    ensures
        pending_inputs(slots.take(k + 1), done) == pending_inputs(slots.take(k), done) + match slots[k] {
            Some(p) => if done.contains(p) { 0nat } else { 1nat },
            None => 0nat,
        },
        slots_bound_to(slots.take(k + 1), slots[k]->0) == slots_bound_to(slots.take(k), slots[k]->0) + if slots[k] is Some { 1nat } else { 0nat },
{
    assert(slots.take(k + 1).drop_last() =~= slots.take(k));
}

proof fn lemma_bound_prefix_other(slots: Seq<Option<NodeId>>, k: int, p: NodeId)
    requires
        0 <= k < slots.len(),
        slots[k] != Some(p),
    ensures
        slots_bound_to(slots.take(k + 1), p) == slots_bound_to(slots.take(k), p),
{
    assert(slots.take(k + 1).drop_last() =~= slots.take(k));
}

proof fn lemma_occurrences_push(s: Seq<NodeId>, x: NodeId, y: NodeId)
    ensures
        occurrences(s.push(x), y) == occurrences(s, y) + if x == y { 1nat } else { 0nat },
{
    assert(s.push(x).drop_last() =~= s);
}

proof fn lemma_occurrences_take_step(s: Seq<NodeId>, k: int, y: NodeId)
    requires
        0 <= k < s.len(),
    ensures
        occurrences(s.take(k + 1), y) == occurrences(s.take(k), y) + if s[k] == y { 1nat } else { 0nat },
{
    assert(s.take(k + 1).drop_last() =~= s.take(k));
}

proof fn lemma_occurrences_bound(s: Seq<NodeId>, k: int, y: NodeId)
    requires
        0 <= k <= s.len(),
    ensures
        occurrences(s.take(k), y) <= occurrences(s, y),
    decreases s.len() - k,
{
    if k < s.len() {
        lemma_occurrences_take_step(s, k, y);
        lemma_occurrences_bound(s, k + 1, y);
    } else {
        assert(s.take(k) =~= s);
    }
}

proof fn lemma_pending_le_len(slots: Seq<Option<NodeId>>, done: Seq<NodeId>)
    ensures
        pending_inputs(slots, done) <= slots.len(),
    decreases slots.len(),
{
    if slots.len() > 0 {
        lemma_pending_le_len(slots.drop_last(), done);
    }
}

proof fn lemma_bound_le_pending(slots: Seq<Option<NodeId>>, done: Seq<NodeId>, p: NodeId)
    requires
        !done.contains(p),
    ensures
        slots_bound_to(slots, p) <= pending_inputs(slots, done),
    decreases slots.len(),
{
    if slots.len() > 0 {
        lemma_bound_le_pending(slots.drop_last(), done, p);
    }
}

/// The set `{0, .., n-1}` of node ids has `n` elements.
proof fn lemma_id_range(n: nat)
    requires
        n <= usize::MAX,
    ensures
        Set::new(|v: NodeId| v < n).finite(),
        Set::new(|v: NodeId| v < n).len() == n,
    decreases n,
{
    if n == 0 {
        assert(Set::new(|v: NodeId| v < n) =~= Set::<NodeId>::empty());
    } else {
        lemma_id_range((n - 1) as nat);
        let smaller = Set::new(|v: NodeId| v < (n - 1) as nat);
        assert(smaller.insert((n - 1) as NodeId) =~= Set::new(|v: NodeId| v < n));
    }
}

/// A duplicate-free list of ids below `n` holding `n` ids holds them all; a
/// shorter one misses one.
pub(crate) proof fn lemma_ids_pigeonhole(order: Seq<NodeId>, n: nat)
    requires
        n <= usize::MAX,
        order.no_duplicates(),
        forall|i: int| 0 <= i < order.len() ==> #[trigger] order[i] < n,
    ensures
        order.len() <= n,
        order.len() == n ==> forall|v: NodeId| v < n ==> order.contains(v),
        order.len() < n ==> exists|v: NodeId| v < n && !order.contains(v),
{
    let range = Set::new(|v: NodeId| v < n);
    lemma_id_range(n);
    order.unique_seq_to_set();
    assert(order.to_set().subset_of(range)) by {
        assert forall|v: NodeId| order.to_set().contains(v) implies range.contains(v) by {
            let i = choose|i: int| 0 <= i < order.len() && order[i] == v;
        }
    }
    vstd::set_lib::lemma_len_subset(order.to_set(), range);
    if order.len() == n {
        vstd::set_lib::lemma_subset_equality(order.to_set(), range);
        assert forall|v: NodeId| v < n implies order.contains(v) by {
            assert(range.contains(v));
            assert(order.to_set().contains(v));
        }
    }
    if order.len() < n {
        if forall|v: NodeId| v < n ==> order.contains(v) {
            assert(range.subset_of(order.to_set())) by {
                assert forall|v: NodeId| range.contains(v) implies order.to_set().contains(v) by {
                    assert(order.contains(v));
                }
            }
            vstd::set_lib::lemma_len_subset(range, order.to_set());
            assert(false);
        }
    }
}

/// If every node outside `done` has a bound producer outside `done`, and some
/// node lies outside `done`, no order of the nodes respects the edges.
#[verifier::rlimit(80)]
#[verifier::spinoff_prover]
proof fn lemma_stuck_nodes_block_order(slots: SlotTable, done: Seq<NodeId>, order: Seq<NodeId>, j: int)
    requires
        is_node_permutation(order, slots.len()),
        0 <= j < order.len(),
        !done.contains(order[j]),
        forall|v: NodeId| #![trigger done.contains(v)] v < slots.len() && !done.contains(v) ==> exists|s: int|
            #![trigger slots[v as int][s]]
            0 <= s < slots[v as int].len() && slots[v as int][s] is Some && !done.contains(slots[v as int][s]->0),
    ensures
        !is_topological_order(slots, order),
    decreases j,
{
    if is_topological_order(slots, order) {
        let v = order[j];
        assert(v < slots.len());
        let s = choose|s: int|
            0 <= s < slots[v as int].len() && slots[v as int][s] is Some && !done.contains(slots[v as int][s]->0);
        let p = slots[v as int][s]->0;
        assert(order.take(j).contains(p)) by {
            assert(0 <= j < order.len() && 0 <= s < slots[order[j] as int].len());
        }
        let i = choose|i: int| 0 <= i < order.take(j).len() && order.take(j)[i] == p;
        assert(order[i] == p);
        lemma_stuck_nodes_block_order(slots, done, order, i);
    }
}

/// The smallest id of a non-empty work list sits at `min_position`.
proof fn lemma_min_position(queue: Seq<NodeId>)
    requires
        queue.len() > 0,
    ensures
        0 <= min_position(queue) < queue.len(),
        forall|j: int| 0 <= j < queue.len() ==> queue[min_position(queue)] <= #[trigger] queue[j],
    decreases queue.len(),
{
    if queue.len() > 1 {
        let front = queue.drop_last();
        lemma_min_position(front);
        assert forall|j: int| 0 <= j < queue.len() implies queue[min_position(queue)] <= #[trigger] queue[j] by {
            if j < queue.len() - 1 {
                assert(front[j] == queue[j]);
            }
            assert(front[min_position(front)] == queue[min_position(front)]);
        }
    }
}

/// Removing one element of a duplicate-free work list keeps it
/// duplicate-free, in range, and without the removed element.
proof fn lemma_remove_preserves_queue(old_queue: Seq<NodeId>, i: int, queue: Seq<NodeId>, n: nat)
    requires
        0 <= i < old_queue.len(),
        queue == old_queue.remove(i),
        old_queue.no_duplicates(),
        forall|k: int| 0 <= k < old_queue.len() ==> #[trigger] old_queue[k] < n,
    ensures
        queue.no_duplicates(),
        forall|k: int| 0 <= k < queue.len() ==> #[trigger] queue[k] < n,
        forall|w: NodeId| #[trigger] queue.contains(w) <==> (old_queue.contains(w) && w != old_queue[i]),
{
    let node = old_queue[i];
    assert forall|k: int| 0 <= k < queue.len() implies #[trigger] queue[k] == if k < i { old_queue[k] } else { old_queue[k + 1] } by {}
    assert forall|k: int| 0 <= k < queue.len() implies #[trigger] queue[k] < n by {
        if k >= i {
            assert(queue[k] == old_queue[k + 1]);
        }
    }
    assert forall|a: int, b: int| 0 <= a < b < queue.len() implies queue[a] != queue[b] by {
        let oa = if a < i { a } else { a + 1 };
        let ob = if b < i { b } else { b + 1 };
        assert(queue[a] == old_queue[oa] && queue[b] == old_queue[ob]);
    }
    assert forall|w: NodeId| #[trigger] queue.contains(w) <==> (old_queue.contains(w) && w != node) by {
        if queue.contains(w) {
            let k = choose|k: int| 0 <= k < queue.len() && queue[k] == w;
            let ok = if k < i { k } else { k + 1 };
            assert(old_queue[ok] == w);
        }
        if old_queue.contains(w) && w != node {
            let k = choose|k: int| 0 <= k < old_queue.len() && old_queue[k] == w;
            if k < i {
                assert(queue[k] == w);
            } else {
                assert(k != i);
                assert(queue[k - 1] == w);
            }
        }
    }
}

/// A duplicate-free work list of ids below `n` whose smallest id is
/// `n - 1` holds that id alone.
proof fn lemma_top_id_alone(queue: Seq<NodeId>, n: nat)
    requires
        queue.len() > 0,
        queue.no_duplicates(),
        forall|k: int| 0 <= k < queue.len() ==> #[trigger] queue[k] < n,
        queue[min_position(queue)] == n - 1,
    ensures
        queue.len() == 1,
{
    lemma_min_position(queue);
    if queue.len() > 1 {
        assert(queue[0] >= n - 1 && queue[0] < n);
        assert(queue[1] >= n - 1 && queue[1] < n);
        assert(queue[0] == queue[1]);
    }
}

/// Appending a node whose producers are all ordered keeps the order
/// duplicate-free and edge-respecting.
proof fn lemma_order_push(table: SlotTable, old_order: Seq<NodeId>, node: NodeId, order: Seq<NodeId>)
    requires
        order == old_order.push(node),
        !old_order.contains(node),
        old_order.no_duplicates(),
        respects_edges(table, old_order),
        0 <= node < table.len(),
        pending_inputs(table[node as int], old_order) == 0,
    ensures
        order.no_duplicates(),
        respects_edges(table, order),
        forall|w: NodeId| #[trigger] order.contains(w) <==> (old_order.contains(w) || w == node),
{
    assert forall|j: int, s: int|
        #![trigger order[j], table[order[j] as int][s]]
        0 <= j < order.len() && 0 <= s < table[order[j] as int].len() implies match table[order[j] as int][s] {
            Some(p) => order.take(j).contains(p),
            None => true,
        } by {
        if j < old_order.len() {
            assert(order[j] == old_order[j]);
            assert(order.take(j) =~= old_order.take(j));
            assert(match table[old_order[j] as int][s] { Some(p) => old_order.take(j).contains(p), None => true });
        } else {
            assert(order[j] == node);
            assert(order.take(j) =~= old_order);
            lemma_no_pending_all_done(table[node as int], old_order, s);
        }
    }
    assert forall|a: int, b: int| 0 <= a < b < order.len() implies order[a] != order[b] by {
        if b == old_order.len() {
            assert(old_order[a] == order[a]);
        } else {
            assert(order[a] == old_order[a] && order[b] == old_order[b]);
        }
    }
    assert forall|w: NodeId| #[trigger] order.contains(w) <==> (old_order.contains(w) || w == node) by {
        if order.contains(w) {
            let k = choose|k: int| 0 <= k < order.len() && order[k] == w;
            if k < old_order.len() {
                assert(old_order[k] == w);
            }
        }
        if old_order.contains(w) {
            let k = choose|k: int| 0 <= k < old_order.len() && old_order[k] == w;
            assert(order[k] == w);
        }
        if w == node {
            assert(order[old_order.len() as int] == w);
        }
    }
}

/// When some node is unordered and every unordered node still waits on an
/// unordered producer, the wiring has no topological order.
proof fn lemma_stuck_means_cycle(table: SlotTable, done: Seq<NodeId>)
    requires
        table.len() <= usize::MAX,
        done.no_duplicates(),
        forall|k: int| 0 <= k < done.len() ==> #[trigger] done[k] < table.len(),
        done.len() < table.len(),
        forall|w: NodeId| w < table.len() && !done.contains(w) ==> #[trigger] pending_inputs(table[w as int], done) > 0,
    ensures
        !has_topological_order(table),
{
    let n = table.len();
    lemma_ids_pigeonhole(done, n);
    assert forall|w: NodeId| #![trigger done.contains(w)] w < table.len() && !done.contains(w) implies exists|s: int|
        #![trigger table[w as int][s]]
        0 <= s < table[w as int].len() && table[w as int][s] is Some && !done.contains(table[w as int][s]->0) by {
        assert(pending_inputs(table[w as int], done) > 0);
        let s = lemma_pending_witness(table[w as int], done);
    }
    let missing = choose|w: NodeId| w < n && !done.contains(w);
    assert forall|t: Seq<NodeId>| !#[trigger] is_topological_order(table, t) by {
        if is_node_permutation(t, table.len()) {
            lemma_ids_pigeonhole(t, n);
            assert(t.contains(missing));
            let j = choose|j: int| 0 <= j < t.len() && t[j] == missing;
            lemma_stuck_nodes_block_order(table, done, t, j);
        }
    }
}

/// Records that `node` is ordered: every consumer of `node` loses one
/// pending input, and consumers left with none join the work list.
fn release_consumers(
    consumers: &Vec<Vec<NodeId>>,
    in_degree: &mut Vec<usize>,
    queue: &mut Vec<NodeId>,
    node: NodeId,
    Ghost(table): Ghost<SlotTable>,
    Ghost(old_order): Ghost<Seq<NodeId>>,
    Ghost(order): Ghost<Seq<NodeId>>,
)
    requires
        ({
            let n = table.len();
            &&& old(in_degree)@.len() == n
            &&& consumers@.len() == n
            &&& node < n
            &&& forall|p: int, c: NodeId| 0 <= p < n && c < n ==> #[trigger] occurrences(consumers@[p]@, c) == slots_bound_to(table[c as int], p as NodeId)
            &&& forall|p: int, j: int| 0 <= p < n && 0 <= j < consumers@[p]@.len() ==> #[trigger] consumers@[p]@[j] < n
            &&& order == old_order.push(node)
            &&& !old_order.contains(node)
            &&& respects_edges(table, old_order)
            &&& forall|w: NodeId| #[trigger] order.contains(w) <==> (old_order.contains(w) || w == node)
            &&& pending_inputs(table[node as int], old_order) == 0
            &&& old(queue)@.no_duplicates()
            &&& forall|j: int| 0 <= j < old(queue)@.len() ==> #[trigger] old(queue)@[j] < n
            &&& forall|w: NodeId| w < n ==> (#[trigger] old(queue)@.contains(w) <==> (!order.contains(w) && old(in_degree)@[w as int] == 0))
            &&& forall|c: NodeId| c < n ==> #[trigger] old(in_degree)@[c as int] == pending_inputs(table[c as int], order) + slots_bound_to(table[c as int], node)
        }),
    ensures
        (final(in_degree)@, final(queue)@) == release_spec(consumers@[node as int]@, old(in_degree)@, old(queue)@),
        ({
            let n = table.len();
            &&& final(in_degree)@.len() == n
            &&& final(queue)@.no_duplicates()
            &&& forall|j: int| 0 <= j < final(queue)@.len() ==> #[trigger] final(queue)@[j] < n
            &&& forall|w: NodeId| w < n ==> (#[trigger] final(queue)@.contains(w) <==> (!order.contains(w) && final(in_degree)@[w as int] == 0))
            &&& forall|c: NodeId| c < n ==> #[trigger] final(in_degree)@[c as int] == pending_inputs(table[c as int], order)
        }),
{
    let ghost n = table.len();
    let ghost node_consumers = consumers@[node as int]@;
    let count = consumers[node].len();
    let mut k: usize = 0;
    proof {
        assert(node_consumers.take(0) =~= Seq::<NodeId>::empty());
        assert(node_consumers.subrange(0, count as int) =~= node_consumers);
    }
    while k < count
        invariant
            in_degree@.len() == n,
            consumers@.len() == n,
            node < n,
            node_consumers == consumers@[node as int]@,
            count == node_consumers.len(),
            k <= count,
            forall|p: int, c: NodeId| 0 <= p < n && c < n ==> #[trigger] occurrences(consumers@[p]@, c) == slots_bound_to(table[c as int], p as NodeId),
            forall|p: int, j: int| 0 <= p < n && 0 <= j < consumers@[p]@.len() ==> #[trigger] consumers@[p]@[j] < n,
            order == old_order.push(node),
            !old_order.contains(node),
            respects_edges(table, old_order),
            forall|w: NodeId| #[trigger] order.contains(w) <==> (old_order.contains(w) || w == node),
            pending_inputs(table[node as int], old_order) == 0,
            queue@.no_duplicates(),
            forall|j: int| 0 <= j < queue@.len() ==> #[trigger] queue@[j] < n,
            forall|w: NodeId| w < n ==> (#[trigger] queue@.contains(w) <==> (!order.contains(w) && in_degree@[w as int] == 0)),
            forall|c: NodeId| c < n ==> #[trigger] in_degree@[c as int] + occurrences(node_consumers.take(k as int), c) == pending_inputs(table[c as int], order) + slots_bound_to(table[c as int], node),
            release_spec(node_consumers.subrange(k as int, count as int), in_degree@, queue@) == release_spec(node_consumers, old(in_degree)@, old(queue)@),
        decreases count - k,
    {
        let c = consumers[node][k];
        proof {
            assert(c < n);
            lemma_occurrences_take_step(node_consumers, k as int, c);
            lemma_occurrences_bound(node_consumers, k as int + 1, c);
            assert(occurrences(node_consumers, c) == slots_bound_to(table[c as int], node));
            assert(in_degree@[c as int] >= 1);
            // `c` consumes `node`, so it cannot already be ordered.
            let s = lemma_bound_witness(table[c as int], node);
            if c == node {
                lemma_no_pending_all_done(table[node as int], old_order, s);
            }
            if old_order.contains(c) {
                let j = choose|j: int| 0 <= j < old_order.len() && old_order[j] == c;
                assert(0 <= s < table[old_order[j] as int].len());
                assert(match table[old_order[j] as int][s] { Some(p) => old_order.take(j).contains(p), None => true });
                let i = choose|i: int| 0 <= i < old_order.take(j).len() && old_order.take(j)[i] == node;
                assert(old_order[i] == node);
            }
            assert(!order.contains(c));
            assert(!queue@.contains(c));
        }
        let ghost queue_before = queue@;
        let ghost degree_before = in_degree@;
        proof {
            let rest = node_consumers.subrange(k as int, count as int);
            assert(rest[0] == c);
            assert(rest.drop_first() =~= node_consumers.subrange(k + 1, count as int));
        }
        in_degree.set(c, in_degree[c] - 1);
        if in_degree[c] == 0 {
            queue.push(c);
            proof {
                lemma_push_fresh(queue_before, c, queue@, n);
            }
        }
        proof {
            assert forall|c2: NodeId| c2 < n implies #[trigger] in_degree@[c2 as int] + occurrences(node_consumers.take(k as int + 1), c2) == pending_inputs(table[c2 as int], order) + slots_bound_to(table[c2 as int], node) by {
                lemma_occurrences_take_step(node_consumers, k as int, c2);
            }
        }
        k += 1;
    }
    proof {
        assert(node_consumers.take(count as int) =~= node_consumers);
        assert(node_consumers.subrange(count as int, count as int) =~= Seq::<NodeId>::empty());
        assert(node_consumers.subrange(0, count as int) =~= node_consumers);
        assert forall|c: NodeId| c < n implies #[trigger] in_degree@[c as int] == pending_inputs(table[c as int], order) by {
            assert(occurrences(consumers@[node as int]@, c) == slots_bound_to(table[c as int], node));
        }
    }
}

/// Pushing a fresh element keeps a work list duplicate-free and in range.
proof fn lemma_push_fresh(before: Seq<NodeId>, x: NodeId, after: Seq<NodeId>, n: nat)
    requires
        after == before.push(x),
        !before.contains(x),
        x < n,
        before.no_duplicates(),
        forall|j: int| 0 <= j < before.len() ==> #[trigger] before[j] < n,
    ensures
        after.no_duplicates(),
        forall|j: int| 0 <= j < after.len() ==> #[trigger] after[j] < n,
        forall|w: NodeId| #[trigger] after.contains(w) <==> (before.contains(w) || w == x),
{
    assert forall|w: NodeId| #[trigger] after.contains(w) <==> (before.contains(w) || w == x) by {
        if after.contains(w) {
            let j = choose|j: int| 0 <= j < after.len() && after[j] == w;
            if j < before.len() {
                assert(before[j] == w);
            }
        }
        if before.contains(w) {
            let j = choose|j: int| 0 <= j < before.len() && before[j] == w;
            assert(after[j] == w);
        }
        if w == x {
            assert(after[before.len() as int] == x);
        }
    }
    assert forall|a: int, b: int| 0 <= a < b < after.len() implies after[a] != after[b] by {
        if b == before.len() {
            assert(before[a] == after[a]);
        } else {
            assert(after[a] == before[a] && after[b] == before[b]);
        }
    }
    assert forall|j: int| 0 <= j < after.len() implies #[trigger] after[j] < n by {
        if j < before.len() {
            assert(after[j] == before[j]);
        }
    }
}

/// The position of the smallest id in a non-empty work list.
fn smallest_position(queue: &Vec<NodeId>) -> (i: usize)
    requires
        queue@.len() > 0,
    ensures
        i == min_position(queue@),
{
    let ghost q = queue@;
    let mut best: usize = 0;
    let mut j: usize = 1;
    assert(q.take(1).len() == 1);
    while j < queue.len()
        invariant
            q == queue@,
            0 < j <= q.len(),
            best == min_position(q.take(j as int)),
        decreases q.len() - j,
    {
        proof {
            lemma_min_position(q.take(j as int));
            assert(q.take(j + 1).drop_last() =~= q.take(j as int));
            assert(q.take(j + 1)[best as int] == q[best as int]);
            assert(q.take(j + 1).last() == q[j as int]);
        }
        if queue[j] < queue[best] {
            best = j;
        }
        j += 1;
    }
    assert(q.take(q.len() as int) =~= q);
    best
}

/// No input slot of any node is bound to `p`: `p` feeds no node.
pub open spec fn feeds_no_node(table: SlotTable, p: NodeId) -> bool {
    forall|c: int, s: int| 0 <= c < table.len() && 0 <= s < table[c].len() ==> table[c][s] != Some(p)
}

/// The consumer list of a node that feeds no node is empty.
proof fn lemma_sink_has_no_consumers(list: Seq<NodeId>, table: SlotTable, p: NodeId, n: nat)
    requires
        table.len() == n,
        feeds_no_node(table, p),
        forall|c: NodeId| c < n ==> #[trigger] occurrences(list, c) == slots_bound_to(table[c as int], p),
        forall|k: int| 0 <= k < list.len() ==> #[trigger] list[k] < n,
    ensures
        list.len() == 0,
{
    if list.len() > 0 {
        let x = list[0];
        assert(x < n);
        lemma_occurrences_take_step(list, 0, x);
        assert(list.take(0).len() == 0);
        assert(occurrences(list.take(0), x) == 0);
        lemma_occurrences_bound(list, 1, x);
        assert(slots_bound_to(table[x as int], p) > 0);
        let s = lemma_bound_witness(table[x as int], p);
        assert(table[x as int][s] == Some(p));
    }
}

/// A graph payload of type `N` together with its input wiring.
pub struct CompositorGraph<N> {
    nodes: Vec<N>,
    /// `slots[consumer][slot] = Some(producer)`.
    slots: Vec<Vec<Option<NodeId>>>,
}

impl<N> CompositorGraph<N> {
    /// The node payloads, in id order.
    pub closed spec fn node_seq(&self) -> Seq<N> {
        self.nodes@
    }

    /// The wiring table.
    pub closed spec fn slot_table(&self) -> SlotTable {
        Seq::new(self.slots@.len(), |c: int| self.slots@[c]@)
    }

    /// Structural invariant: one slot row per node, producers in range.
    pub closed spec fn wf(&self) -> bool {
        &&& self.nodes@.len() == self.slots@.len()
        &&& producers_in_range(self.slot_table())
    }

    /// An empty graph.
    pub fn new() -> (g: Self)
        ensures
            g.wf(),
            g.node_seq() == Seq::<N>::empty(),
            g.slot_table() == Seq::<Seq<Option<NodeId>>>::empty(),
    {
        let g = CompositorGraph { nodes: Vec::new(), slots: Vec::new() };
        assert(g.slot_table() =~= Seq::<Seq<Option<NodeId>>>::empty());
        g
    }

    /// Adds a node with `input_slots` unbound input connections, returning
    /// its id.
    pub fn add_node(&mut self, node: N, input_slots: usize) -> (id: NodeId)
        requires
            old(self).wf(),
            old(self).node_seq().len() < usize::MAX,
        ensures
            final(self).wf(),
            id == old(self).node_seq().len(),
            final(self).node_seq() == old(self).node_seq().push(node),
            final(self).slot_table() == old(self).slot_table().push(Seq::new(input_slots as nat, |s: int| None::<NodeId>)),
    {
        let mut row: Vec<Option<NodeId>> = Vec::new();
        let mut k: usize = 0;
        while k < input_slots
            invariant
                k <= input_slots,
                row@ =~= Seq::new(k as nat, |s: int| None::<NodeId>),
            decreases input_slots - k,
        {
            row.push(None);
            k += 1;
        }
        let ghost old_table = self.slot_table();
        self.slots.push(row);
        self.nodes.push(node);
        assert(self.slot_table() =~= old_table.push(Seq::new(input_slots as nat, |s: int| None::<NodeId>)));
        assert(producers_in_range(self.slot_table())) by {
            assert forall|c: int, s: int| 0 <= c < self.slot_table().len() && 0 <= s < self.slot_table()[c].len()
                implies match #[trigger] self.slot_table()[c][s] { Some(p) => p < self.slot_table().len(), None => true } by {
                if c < old_table.len() {
                    assert(self.slot_table()[c] == old_table[c]);
                }
            }
        }
        self.nodes.len() - 1
    }

    /// Connects `from`'s output into `to`'s input `slot`.
    ///
    /// Fails, leaving the graph unchanged, if an id or the slot is out of
    /// range.
    pub fn connect(&mut self, from: NodeId, to: NodeId, slot: usize) -> (res: Result<(), CompositorError>)
        requires
            old(self).wf(),
        ensures
            final(self).wf(),
            final(self).node_seq() == old(self).node_seq(),
            ({
                let n = old(self).node_seq().len();
                let table = old(self).slot_table();
                if from >= n || to >= n {
                    &&& res matches Err(CompositorError::InvalidOperation(m))
                    &&& m@ == connect_range_message(from as nat, to as nat, n)
                    &&& final(self).slot_table() == table
                } else if slot >= table[to as int].len() {
                    &&& res matches Err(CompositorError::InvalidOperation(m))
                    &&& m@ == connect_slot_message(to as nat, slot as nat)
                    &&& final(self).slot_table() == table
                } else {
                    &&& res is Ok
                    &&& final(self).slot_table() == table.update(to as int, table[to as int].update(slot as int, Some(from)))
                }
            }),
    {
        let n = self.nodes.len();
        if from >= n || to >= n {
            let mut m = String::new();
            m.append("connect ");
            push_decimal(&mut m, from as u128);
            m.append(" -> ");
            push_decimal(&mut m, to as u128);
            m.append(": node count is ");
            push_decimal(&mut m, n as u128);
            return Err(CompositorError::InvalidOperation(m));
        }
        if slot >= self.slots[to].len() {
            let mut m = String::new();
            m.append("node ");
            push_decimal(&mut m, to as u128);
            m.append(" has no input slot ");
            push_decimal(&mut m, slot as u128);
            return Err(CompositorError::InvalidOperation(m));
        }
        let ghost old_table = self.slot_table();
        self.slots[to].set(slot, Some(from));
        assert(self.slot_table() =~= old_table.update(to as int, old_table[to as int].update(slot as int, Some(from)))) by {
            assert forall|c: int| 0 <= c < self.slot_table().len() implies self.slot_table()[c] =~= old_table.update(to as int, old_table[to as int].update(slot as int, Some(from)))[c] by {}
        }
        assert(producers_in_range(self.slot_table())) by {
            let t = self.slot_table();
            assert forall|c: int, s: int| 0 <= c < t.len() && 0 <= s < t[c].len()
                implies match #[trigger] t[c][s] { Some(p) => p < t.len(), None => true } by {
                if !(c == to && s == slot) {
                    assert(t[c][s] == old_table[c][s]);
                }
            }
        }
        Ok(())
    }

    /// Number of nodes.
    pub fn len(&self) -> (n: usize)
        requires
            self.wf(),
        ensures
            n == self.node_seq().len(),
    {
        self.nodes.len()
    }

    /// Whether the graph has no nodes.
    pub fn is_empty(&self) -> (b: bool)
        requires
            self.wf(),
        ensures
            b == (self.node_seq().len() == 0),
    {
        self.nodes.len() == 0
    }

    /// The payload of node `id`.
    pub fn node(&self, id: NodeId) -> (node: &N)
        requires
            self.wf(),
            id < self.node_seq().len(),
        ensures
            *node == self.node_seq()[id as int],
    {
        &self.nodes[id]
    }

    /// Mutable access to the payload of node `id`; the wiring is untouched.
    pub fn node_mut(&mut self, id: NodeId) -> (node: &mut N)
        requires
            old(self).wf(),
            id < old(self).node_seq().len(),
        ensures
            *node == old(self).node_seq()[id as int],
            final(self).node_seq() == old(self).node_seq().update(id as int, *final(node)),
            final(self).slot_table() == old(self).slot_table(),
            final(self).wf(),
    {
        &mut self.nodes[id]
    }

    /// The producer bound to input `slot` of node `id`, if any.
    pub fn input(&self, id: NodeId, slot: usize) -> (p: Option<NodeId>)
        requires
            self.wf(),
            id < self.node_seq().len(),
        ensures
            p == (if slot < self.slot_table()[id as int].len() { self.slot_table()[id as int][slot as int] } else { None }),
    {
        if slot < self.slots[id].len() {
            self.slots[id][slot]
        } else {
            None
        }
    }

    /// Number of input slots of node `id`.
    pub fn input_count(&self, id: NodeId) -> (k: usize)
        requires
            self.wf(),
            id < self.node_seq().len(),
        ensures
            k == self.slot_table()[id as int].len(),
    {
        self.slots[id].len()
    }

    /// Topological node order by Kahn's algorithm (see [`kahn_order`]).
    ///
    /// Fails when a node has an unbound input (the lowest-numbered such
    /// node is reported) or when the wiring contains a cycle.
    pub fn topological_order(&self) -> (res: Result<Vec<NodeId>, CompositorError>)
        requires
            self.wf(),
        ensures
            match res {
                Ok(order) => {
                    &&& all_connected(self.slot_table())
                    &&& is_topological_order(self.slot_table(), order@)
                    &&& order@ == kahn_order(self.slot_table())
                    &&& self.node_seq().len() > 0 && feeds_no_node(self.slot_table(), (self.node_seq().len() - 1) as NodeId)
                        ==> order@.last() == (self.node_seq().len() - 1) as NodeId
                },
                Err(CompositorError::InvalidOperation(m)) => if all_connected(self.slot_table()) {
                    &&& !has_topological_order(self.slot_table())
                    &&& kahn_order(self.slot_table()).len() < self.node_seq().len()
                    &&& m@ == cycle_message()
                } else {
                    exists|c: int| #[trigger] is_first_unconnected(self.slot_table(), c) && m@ == unconnected_message(c as nat)
                },
                Err(_) => false,
            },
    {
        let n = self.nodes.len();
        let ghost table = self.slot_table();
        let ghost empty = Seq::<NodeId>::empty();
        let mut in_degree: Vec<usize> = Vec::new();
        let mut consumers: Vec<Vec<NodeId>> = Vec::new();
        let mut i: usize = 0;
        while i < n
            invariant
                i <= n,
                in_degree@.len() == i,
                consumers@.len() == i,
                forall|k: int| 0 <= k < i ==> #[trigger] in_degree@[k] == 0,
                forall|k: int| 0 <= k < i ==> #[trigger] consumers@[k]@ == Seq::<NodeId>::empty(),
            decreases n - i,
        {
            in_degree.push(0);
            consumers.push(Vec::new());
            i += 1;
        }
        assert forall|p: int, c: NodeId| 0 <= p < n implies #[trigger] occurrences(consumers@[p]@, c) == 0 by {}

        // Count the bound inputs of every node, reporting the first unbound one.
        let mut consumer: usize = 0;
        while consumer < n
            invariant
                self.wf(),
                n == self.nodes@.len(),
                table == self.slot_table(),
                empty == Seq::<NodeId>::empty(),
                consumer <= n,
                in_degree@.len() == n,
                consumers@.len() == n,
                forall|c: int| 0 <= c < consumer ==> #[trigger] slot_connected(table, c),
                forall|c: NodeId| c < n ==> #[trigger] in_degree@[c as int] == if c < consumer { pending_inputs(table[c as int], empty) } else { 0 },
                forall|p: int, c: NodeId| 0 <= p < n ==> #[trigger] occurrences(consumers@[p]@, c) == if c < consumer { slots_bound_to(table[c as int], p as NodeId) } else { 0 },
                forall|p: int, k: int| 0 <= p < n && 0 <= k < consumers@[p]@.len() ==> #[trigger] consumers@[p]@[k] < n,
                forall|p: int| 0 <= p < n ==> #[trigger] consumers@[p]@ == consumer_list(table, p as NodeId, consumer as nat),
            decreases n - consumer,
        {
            let row_len = self.slots[consumer].len();
            assert(table[consumer as int].take(0) =~= Seq::<Option<NodeId>>::empty());
            assert forall|p: int| 0 <= p < n implies #[trigger] consumers@[p]@ == consumer_list(table, p as NodeId, consumer as nat) + Seq::new(
                slots_bound_to(table[consumer as int].take(0), p as NodeId),
                |i: int| consumer as NodeId,
            ) by {
                assert(Seq::new(slots_bound_to(table[consumer as int].take(0), p as NodeId), |i: int| consumer as NodeId) =~= Seq::<NodeId>::empty());
                assert(consumer_list(table, p as NodeId, consumer as nat) + Seq::<NodeId>::empty() =~= consumer_list(table, p as NodeId, consumer as nat));
            }
            assert(table[consumer as int] == self.slots@[consumer as int]@);
            let mut s: usize = 0;
            while s < row_len
                invariant
                    self.wf(),
                    n == self.nodes@.len(),
                    table == self.slot_table(),
                    empty == Seq::<NodeId>::empty(),
                    consumer < n,
                    row_len == table[consumer as int].len(),
                    s <= row_len,
                    in_degree@.len() == n,
                    consumers@.len() == n,
                    forall|c: int| 0 <= c < consumer ==> #[trigger] slot_connected(table, c),
                    forall|k: int| 0 <= k < s ==> #[trigger] table[consumer as int][k] is Some,
                    forall|c: NodeId| c < n ==> #[trigger] in_degree@[c as int] == if c < consumer {
                        pending_inputs(table[c as int], empty)
                    } else if c == consumer {
                        pending_inputs(table[c as int].take(s as int), empty)
                    } else {
                        0
                    },
                    forall|p: int, c: NodeId| 0 <= p < n ==> #[trigger] occurrences(consumers@[p]@, c) == if c < consumer {
                        slots_bound_to(table[c as int], p as NodeId)
                    } else if c == consumer {
                        slots_bound_to(table[c as int].take(s as int), p as NodeId)
                    } else {
                        0
                    },
                    forall|p: int, k: int| 0 <= p < n && 0 <= k < consumers@[p]@.len() ==> #[trigger] consumers@[p]@[k] < n,
                    forall|p: int| 0 <= p < n ==> #[trigger] consumers@[p]@ == consumer_list(table, p as NodeId, consumer as nat) + Seq::new(
                        slots_bound_to(table[consumer as int].take(s as int), p as NodeId),
                        |i: int| consumer as NodeId,
                    ),
                decreases row_len - s,
            {
                let ghost row = table[consumer as int];
                assert(self.slots@[consumer as int]@[s as int] == row[s as int]);
                match self.slots[consumer][s] {
                    Some(producer) => {
                        assert(producer < n) by {
                            assert(match table[consumer as int][s as int] { Some(p) => p < table.len(), None => true });
                        }
                        proof {
                            lemma_pending_prefix_step(row, s as int, empty);
                            lemma_pending_le_len(row.take(s as int), empty);
                        }
                        let ghost old_cons = consumers@;
                        in_degree.set(consumer, in_degree[consumer] + 1);
                        consumers[producer].push(consumer);
                        proof {
                            assert forall|c: NodeId| c < n implies #[trigger] in_degree@[c as int] == if c < consumer {
                                pending_inputs(table[c as int], empty)
                            } else if c == consumer {
                                pending_inputs(table[c as int].take(s + 1), empty)
                            } else {
                                0
                            } by {
                                if c == consumer {
                                    assert(!empty.contains(producer));
                                }
                            }
                            assert forall|p: int, c: NodeId| 0 <= p < n implies #[trigger] occurrences(consumers@[p]@, c) == if c < consumer {
                                slots_bound_to(table[c as int], p as NodeId)
                            } else if c == consumer {
                                slots_bound_to(table[c as int].take(s + 1), p as NodeId)
                            } else {
                                0
                            } by {
                                if p == producer {
                                    lemma_occurrences_push(old_cons[p]@, consumer, c);
                                } else {
                                    assert(consumers@[p] == old_cons[p]);
                                    if c == consumer {
                                        lemma_bound_prefix_other(row, s as int, p as NodeId);
                                    }
                                }
                            }
                            assert forall|p: int| 0 <= p < n implies #[trigger] consumers@[p]@ == consumer_list(table, p as NodeId, consumer as nat) + Seq::new(
                                slots_bound_to(table[consumer as int].take(s + 1), p as NodeId),
                                |i: int| consumer as NodeId,
                            ) by {
                                let base = consumer_list(table, p as NodeId, consumer as nat);
                                if p == producer {
                                    let before = slots_bound_to(table[consumer as int].take(s as int), p as NodeId);
                                    assert(Seq::new(before + 1, |i: int| consumer as NodeId) =~= Seq::new(before, |i: int| consumer as NodeId).push(consumer));
                                    assert(base + Seq::new(before, |i: int| consumer as NodeId).push(consumer) =~= (base + Seq::new(before, |i: int| consumer as NodeId)).push(consumer));
                                } else {
                                    assert(consumers@[p] == old_cons[p]);
                                    lemma_bound_prefix_other(row, s as int, p as NodeId);
                                }
                            }
                            assert forall|p: int, k: int| 0 <= p < n && 0 <= k < consumers@[p]@.len() implies #[trigger] consumers@[p]@[k] < n by {
                                if p == producer && k == old_cons[p]@.len() {
                                } else if p == producer {
                                    assert(consumers@[p]@[k] == old_cons[p]@[k]);
                                } else {
                                    assert(consumers@[p] == old_cons[p]);
                                }
                            }
                        }
                    },
                    None => {
                        assert(is_first_unconnected(table, consumer as int));
                        let mut m = String::new();
                        m.append("node ");
                        push_decimal(&mut m, consumer as u128);
                        m.append(" has an unconnected input");
                        return Err(CompositorError::InvalidOperation(m));
                    },
                }
                s += 1;
            }
            assert(table[consumer as int].take(row_len as int) =~= table[consumer as int]);
            assert(slot_connected(table, consumer as int));
            assert forall|p: int| 0 <= p < n implies #[trigger] consumers@[p]@ == consumer_list(table, p as NodeId, (consumer + 1) as nat) by {
                assert(consumer_list(table, p as NodeId, (consumer + 1) as nat) == consumer_list(table, p as NodeId, consumer as nat) + Seq::new(
                    slots_bound_to(table[consumer as int], p as NodeId),
                    |i: int| consumer as NodeId,
                ));
            }
            assert(table[consumer as int].take(row_len as int) =~= table[consumer as int]);
            consumer += 1;
        }
        assert(all_connected(table));
        assert(in_degree@ =~= initial_degree(table));

        // Seed the work list with the nodes that have no inputs.
        let mut queue: Vec<NodeId> = Vec::new();
        let mut v: usize = 0;
        while v < n
            invariant
                v <= n,
                in_degree@.len() == n,
                queue@.no_duplicates(),
                forall|w: NodeId| #[trigger] queue@.contains(w) <==> (w < v && in_degree@[w as int] == 0),
                queue@ == zero_degree_nodes(in_degree@, v as nat),
            decreases n - v,
        {
            if in_degree[v] == 0 {
                proof {
                    assert(!queue@.contains(v));
                    assert(queue@.push(v).last() == v);
                }
                let ghost old_queue = queue@;
                queue.push(v);
                proof {
                    assert forall|w: NodeId| #[trigger] queue@.contains(w) <==> (w < v + 1 && in_degree@[w as int] == 0) by {
                        if w == v {
                            assert(queue@[old_queue.len() as int] == v);
                        }
                        if queue@.contains(w) && w != v {
                            let k = choose|k: int| 0 <= k < queue@.len() && queue@[k] == w;
                            assert(old_queue[k] == w);
                        }
                        if old_queue.contains(w) {
                            let k = choose|k: int| 0 <= k < old_queue.len() && old_queue[k] == w;
                            assert(queue@[k] == w);
                        }
                    }
                }
            }
            v += 1;
        }

        assert forall|k: int| 0 <= k < queue@.len() implies #[trigger] queue@[k] < n by {
            assert(queue@.contains(queue@[k]));
        }
        let mut order: Vec<NodeId> = Vec::new();
        assert(in_degree@ == initial_degree(table));
        assert(queue@ == zero_degree_nodes(initial_degree(table), n as nat));
        assert(order@ =~= Seq::<NodeId>::empty());
        proof {
            assert forall|c: NodeId| c < n implies #[trigger] in_degree@[c as int] == pending_inputs(table[c as int], order@) by {
                assert(order@ == empty);
            }
            assert forall|w: NodeId| w < n implies (#[trigger] queue@.contains(w) <==> (!order@.contains(w) && in_degree@[w as int] == 0)) by {}
        }
        loop
            invariant
                self.wf(),
                n == self.nodes@.len(),
                table == self.slot_table(),
                all_connected(table),
                in_degree@.len() == n,
                consumers@.len() == n,
                forall|p: int, c: NodeId| 0 <= p < n && c < n ==> #[trigger] occurrences(consumers@[p]@, c) == slots_bound_to(table[c as int], p as NodeId),
                forall|p: int, k: int| 0 <= p < n && 0 <= k < consumers@[p]@.len() ==> #[trigger] consumers@[p]@[k] < n,
                order@.no_duplicates(),
                forall|k: int| 0 <= k < order@.len() ==> #[trigger] order@[k] < n,
                queue@.no_duplicates(),
                forall|k: int| 0 <= k < queue@.len() ==> #[trigger] queue@[k] < n,
                forall|w: NodeId| w < n ==> (#[trigger] queue@.contains(w) <==> (!order@.contains(w) && in_degree@[w as int] == 0)),
                forall|c: NodeId| c < n ==> #[trigger] in_degree@[c as int] == pending_inputs(table[c as int], order@),
                respects_edges(table, order@),
                forall|p: int| 0 <= p < n ==> #[trigger] consumers@[p]@ == consumer_list(table, p as NodeId, n as nat),
                kahn_run(table, in_degree@, queue@, order@, (n - order@.len()) as nat) == kahn_order(table),
                n > 0 && feeds_no_node(table, (n - 1) as NodeId) && order@.contains((n - 1) as NodeId)
                    ==> queue@.len() == 0 && order@.last() == (n - 1) as NodeId,
            decreases n - order@.len(),
        {
            proof {
                lemma_ids_pigeonhole(order@, n as nat);
            }
            if queue.len() == 0 {
                if order.len() == n {
                    proof {
                        if n > 0 {
                            assert(order@.contains((n - 1) as NodeId));
                        }
                    }
                    return Ok(order);
                }
                proof {
                    assert forall|w: NodeId| w < n && !order@.contains(w) implies #[trigger] pending_inputs(table[w as int], order@) > 0 by {
                        assert(!queue@.contains(w));
                    }
                    lemma_stuck_means_cycle(table, order@);
                }
                return Err(CompositorError::InvalidOperation("compositing graph contains a cycle".to_owned()));
            }
            let ghost old_queue = queue@;
            let ghost old_order = order@;
            let ghost old_degree = in_degree@;
            let best = smallest_position(&queue);
            proof {
                lemma_min_position(old_queue);
            }
            let node = queue.remove(best);
            proof {
                lemma_min_position(old_queue);
                assert(old_queue[best as int] == node);
                assert(old_queue.contains(node));
                assert(node < n);
                lemma_remove_preserves_queue(old_queue, best as int, queue@, n as nat);
                assert(!old_order.contains(node));
                assert(in_degree@[node as int] == 0);
                if old_order.len() == n {
                    assert(old_order.contains(node));
                }
                assert(old_order.len() < n);
                if n > 0 && feeds_no_node(table, (n - 1) as NodeId) {
                    assert(!old_order.contains((n - 1) as NodeId));
                    if node == n - 1 {
                        lemma_top_id_alone(old_queue, n as nat);
                    }
                }
            }
            order.push(node);
            proof {
                lemma_order_push(table, old_order, node, order@);
                assert forall|c: NodeId| c < n implies #[trigger] in_degree@[c as int] == pending_inputs(table[c as int], order@) + slots_bound_to(table[c as int], node) by {
                    lemma_pending_add_done(table[c as int], old_order, node);
                }
                assert forall|w: NodeId| w < n implies (#[trigger] queue@.contains(w) <==> (!order@.contains(w) && in_degree@[w as int] == 0)) by {
                    assert(old_queue.contains(w) <==> (!old_order.contains(w) && in_degree@[w as int] == 0));
                }
                if n > 0 && feeds_no_node(table, (n - 1) as NodeId) && node == n - 1 {
                    lemma_sink_has_no_consumers(consumers@[node as int]@, table, node, n as nat);
                    assert(consumers@[node as int]@ =~= Seq::<NodeId>::empty());
                }
            }
            let ghost queue_before = queue@;
            let ghost degree_before = in_degree@;
            release_consumers(
                &consumers, &mut in_degree, &mut queue, node,
                Ghost(table), Ghost(old_order), Ghost(order@),
            );
            proof {
                if n > 0 && feeds_no_node(table, (n - 1) as NodeId) && node == n - 1 {
                    assert(release_spec(Seq::<NodeId>::empty(), degree_before, queue_before) == (degree_before, queue_before));
                    assert(queue@.len() == 0);
                }
            }
        }
    }


    /// The schedule that `execute` runs: every node in topological order,
    /// smallest ready id first; the last entry renders into the caller's
    /// final target, every other node into a pooled intermediate (or
    /// forwards its input). When the last-added node feeds no other node it
    /// is the last entry, so it renders into the final target.
    ///
    /// Fails like [`Self::topological_order`], and on a graph without nodes.
    pub fn execution_order(&self) -> (res: Result<Vec<NodeId>, CompositorError>)
        requires
            self.wf(),
        ensures
            match res {
                Ok(order) => {
                    &&& all_connected(self.slot_table())
                    &&& is_topological_order(self.slot_table(), order@)
                    &&& order@ == kahn_order(self.slot_table())
                    &&& order@.len() > 0
                    &&& feeds_no_node(self.slot_table(), (self.node_seq().len() - 1) as NodeId)
                        ==> order@.last() == (self.node_seq().len() - 1) as NodeId
                },
                Err(CompositorError::InvalidOperation(m)) => if self.node_seq().len() == 0 {
                    m@ == empty_graph_message()
                } else if all_connected(self.slot_table()) {
                    &&& !has_topological_order(self.slot_table())
                    &&& kahn_order(self.slot_table()).len() < self.node_seq().len()
                    &&& m@ == cycle_message()
                } else {
                    exists|c: int| #[trigger] is_first_unconnected(self.slot_table(), c) && m@ == unconnected_message(c as nat)
                },
                Err(_) => false,
            },
    {
        let ghost table = self.slot_table();
        if self.nodes.len() == 0 {
            proof {
                assert(all_connected(table));
                assert(is_topological_order(table, Seq::<NodeId>::empty()));
            }
            return Err(CompositorError::InvalidOperation(String::from_str("compositing graph is empty")));
        }
        let order = self.topological_order()?;
        Ok(order)
    }
}

} // verus!
