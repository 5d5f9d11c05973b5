use vstd::prelude::*;
use crate::edge::Edge;
use crate::error::{Result, TexProError};
use crate::node::embed::{EmbeddedSlotData, EmbeddedSlotDataId};
use crate::node::{Node, Side};
use crate::node_graph::{insert_sorted_unique, strictly_ascending, NodeGraph, NodeId, SlotId};
use crate::priority::{has_entry, Priority, PriorityPropagator};
use crate::slot_data::{has_slot_data, slot_data_of, Size, SlotData};

verus! {

/// Where a node is on its way from a change to an up-to-date output.
#[derive(Clone, Copy, Debug, PartialEq, Eq, Structural)]
pub enum NodeState {
    /// The node's outputs match its inputs and settings.
    Clean,
    /// An input or setting changed, so the outputs do not match them.
    Dirty,
    /// The node is waiting to be processed.
    Requested,
    /// The node is waiting to be processed, ahead of requested nodes.
    Prioritised,
    /// The node is being processed.
    Processing,
    /// An input or setting changed while the node was being processed; it is processed again
    /// when it is done.
    ProcessingDirty,
}

impl Default for NodeState {
    fn default() -> (s: Self)
        ensures
            s == NodeState::Dirty,
    {
        NodeState::Dirty
    }
}

/// How far a state is from `Dirty`: dirtying a node only ever lowers it.
pub open spec fn rank(s: NodeState) -> nat {
    match s {
        NodeState::Dirty => 0,
        NodeState::ProcessingDirty => 1,
        _ => 2,
    }
}

/// Whether a node is dirty already: `Dirty`, or `ProcessingDirty` while it is being processed.
/// Dirtying stops at such a node.
pub open spec fn already_dirty(s: NodeState) -> bool {
    s == NodeState::Dirty || s == NodeState::ProcessingDirty
}

/// Dirtying a node in state `a`, not dirty already, leaves it in state `b`: `ProcessingDirty`
/// while it is being processed, `Dirty` otherwise.
pub open spec fn dirtied(a: NodeState, b: NodeState) -> bool {
    &&& !already_dirty(a)
    &&& b == (if a == NodeState::Processing { NodeState::ProcessingDirty } else { NodeState::Dirty })
}

/// The ids of the nodes among `nodes`, in order, that some edge of `edges` leaves from.
pub open spec fn feeding_ids(nodes: Seq<Node>, edges: Seq<Edge>) -> Seq<NodeId>
    decreases nodes.len(),
{
    if nodes.len() == 0 {
        seq![]
    } else {
        let prev = feeding_ids(nodes.drop_last(), edges);
        let id = nodes.last().node_id;
        if exists|k: int| 0 <= k < edges.len() && edges[k].output_id == id { prev.push(id) } else { prev }
    }
}

/// The states as a map from node id to state.
pub open spec fn states_map(s: Seq<(NodeId, NodeState)>) -> Map<NodeId, NodeState> {
    Map::new(
        |id: NodeId| exists|k: int| 0 <= k < s.len() && (#[trigger] s[k]).0 == id,
        |id: NodeId| s[choose|k: int| 0 <= k < s.len() && (#[trigger] s[k]).0 == id].1,
    )
}

/// Node ids in strictly ascending order.
pub open spec fn keys_ascending(s: Seq<(NodeId, NodeState)>) -> bool {
    forall|i: int, j: int| 0 <= i < j < s.len() ==> (#[trigger] s[i]).0.0 < (#[trigger] s[j]).0.0
}

pub proof fn lemma_states_map_at(s: Seq<(NodeId, NodeState)>, k: int)
    requires
        keys_ascending(s),
        0 <= k < s.len(),
    ensures
        states_map(s).dom().contains(s[k].0),
        states_map(s)[s[k].0] == s[k].1,
{
    let id = s[k].0;
    assert(states_map(s).dom().contains(id));
    let c = choose|c: int| 0 <= c < s.len() && (#[trigger] s[c]).0 == id;
    if c < k {
        assert(s[c].0.0 < s[k].0.0);
    } else if c > k {
        assert(s[k].0.0 < s[c].0.0);
    }
}

pub proof fn lemma_states_map_update(s: Seq<(NodeId, NodeState)>, k: int, v: NodeState)
    requires
        keys_ascending(s),
        0 <= k < s.len(),
    ensures
        keys_ascending(s.update(k, (s[k].0, v))),
        states_map(s.update(k, (s[k].0, v))) == states_map(s).insert(s[k].0, v),
{
    let t = s.update(k, (s[k].0, v));
    assert(keys_ascending(t)) by {
        assert forall|i: int, j: int| 0 <= i < j < t.len() implies (#[trigger] t[i]).0.0 < (#[trigger] t[j]).0.0 by {
            assert(t[i].0 == s[i].0 && t[j].0 == s[j].0);
        }
    }
    assert forall|id: NodeId| states_map(t).dom().contains(id) <==> states_map(s).insert(s[k].0, v).dom().contains(id) by {
        if states_map(t).dom().contains(id) {
            let c = choose|c: int| 0 <= c < t.len() && (#[trigger] t[c]).0 == id;
            assert(s[c].0 == id);
        }
        if states_map(s).dom().contains(id) {
            let c = choose|c: int| 0 <= c < s.len() && (#[trigger] s[c]).0 == id;
            assert(t[c].0 == id);
        }
        if id == s[k].0 {
            assert(t[k].0 == id);
        }
    }
    assert forall|id: NodeId| #[trigger] states_map(t).dom().contains(id) implies
        states_map(t)[id] == states_map(s).insert(s[k].0, v)[id] by {
        let c = choose|c: int| 0 <= c < t.len() && (#[trigger] t[c]).0 == id;
        lemma_states_map_at(t, c);
        if c != k {
            lemma_states_map_at(s, c);
        } else {
            assert(t[k].1 == v);
        }
    }
    assert(states_map(t) =~= states_map(s).insert(s[k].0, v));
}

/// Whether there is a path from `x` to `y` (possibly just `x`) along edges of `g`, through
/// nodes of which none is `Dirty` in `m`.
pub open spec fn reach_nd(m: Map<NodeId, NodeState>, g: NodeGraph, x: NodeId, y: NodeId) -> bool {
    exists|p: Seq<NodeId>| #[trigger] nd_walk(m, g, p) && p.len() >= 1 && p[0] == x && p.last() == y
}

/// A walk along edges of `g` through nodes that have a state in `m` other than `Dirty`.
pub open spec fn nd_walk(m: Map<NodeId, NodeState>, g: NodeGraph, p: Seq<NodeId>) -> bool {
    &&& g.is_walk(p)
    &&& forall|i: int| 0 <= i < p.len() ==> m.dom().contains(#[trigger] p[i]) && !already_dirty(m[p[i]])
}

/// The sum of the ranks of the states.
pub open spec fn rank_sum(s: Seq<(NodeId, NodeState)>) -> nat
    decreases s.len(),
{
    if s.len() == 0 {
        0
    } else {
        rank_sum(s.drop_last()) + rank(s.last().1)
    }
}

proof fn lemma_rank_sum_update(s: Seq<(NodeId, NodeState)>, k: int, v: NodeState)
    requires
        0 <= k < s.len(),
    ensures
        rank_sum(s.update(k, (s[k].0, v))) + rank(s[k].1) == rank_sum(s) + rank(v),
    decreases s.len(),
{
    let t = s.update(k, (s[k].0, v));
    if k < s.len() - 1 {
        assert(t.drop_last() =~= s.drop_last().update(k, (s[k].0, v)));
        lemma_rank_sum_update(s.drop_last(), k, v);
    } else {
        assert(t.drop_last() =~= s.drop_last());
    }
}

proof fn lemma_rank_sum_mono(a: Seq<(NodeId, NodeState)>, b: Seq<(NodeId, NodeState)>)
    requires
        a.len() == b.len(),
        forall|k: int| 0 <= k < a.len() ==> rank((#[trigger] b[k]).1) <= rank(a[k].1),
    ensures
        rank_sum(b) <= rank_sum(a),
    decreases a.len(),
{
    if a.len() > 0 {
        assert forall|k: int| 0 <= k < a.len() - 1 implies rank((#[trigger] b.drop_last()[k]).1) <= rank(a.drop_last()[k].1) by {
            assert(b.drop_last()[k] == b[k] && a.drop_last()[k] == a[k]);
        }
        lemma_rank_sum_mono(a.drop_last(), b.drop_last());
        assert(rank(b[b.len() - 1].1) <= rank(a[a.len() - 1].1));
    }
}

proof fn lemma_dirtied_rank(a: NodeState, b: NodeState)
    ensures
        dirtied(a, b) ==> rank(b) < rank(a),
        !already_dirty(a) ==> rank(a) == 2,
{
}

/// The same node ids, position by position.
pub open spec fn same_keys(a: Seq<(NodeId, NodeState)>, b: Seq<(NodeId, NodeState)>) -> bool {
    a.len() == b.len() && forall|k: int| 0 <= k < a.len() ==> (#[trigger] b[k]).0 == a[k].0
}

proof fn lemma_same_keys(a: Seq<(NodeId, NodeState)>, b: Seq<(NodeId, NodeState)>)
    requires
        keys_ascending(a),
        same_keys(a, b),
    ensures
        keys_ascending(b),
        states_map(b).dom() == states_map(a).dom(),
        forall|k: int| 0 <= k < a.len() ==> states_map(a)[#[trigger] a[k].0] == a[k].1 && states_map(b)[a[k].0] == b[k].1,
{
    assert forall|i: int, j: int| 0 <= i < j < b.len() implies (#[trigger] b[i]).0.0 < (#[trigger] b[j]).0.0 by {
        assert(b[i].0 == a[i].0 && b[j].0 == a[j].0);
    }
    assert forall|id: NodeId| states_map(b).dom().contains(id) <==> states_map(a).dom().contains(id) by {
        if states_map(b).dom().contains(id) {
            let c = choose|c: int| 0 <= c < b.len() && (#[trigger] b[c]).0 == id;
            assert(a[c].0 == id);
        }
        if states_map(a).dom().contains(id) {
            let c = choose|c: int| 0 <= c < a.len() && (#[trigger] a[c]).0 == id;
            assert(b[c].0 == id);
        }
    }
    assert(states_map(b).dom() =~= states_map(a).dom());
    assert forall|k: int| 0 <= k < a.len() implies states_map(a)[#[trigger] a[k].0] == a[k].1 && states_map(b)[a[k].0] == b[k].1 by {
        lemma_states_map_at(a, k);
        lemma_states_map_at(b, k);
    }
}

/// Pointwise, a state either stays or is dirtied.
pub open spec fn only_dirtied(m0: Map<NodeId, NodeState>, m1: Map<NodeId, NodeState>) -> bool {
    &&& m1.dom() == m0.dom()
    &&& forall|y: NodeId| #[trigger] m0.dom().contains(y) ==> m1[y] == m0[y] || dirtied(m0[y], m1[y])
}

/// Every changed node's children that were not dirty changed too.
pub open spec fn closed_under_children(m0: Map<NodeId, NodeState>, m1: Map<NodeId, NodeState>, g: NodeGraph) -> bool {
    forall|z: NodeId, w: NodeId| m0.dom().contains(z) && m1[z] != m0[z] && #[trigger] g.children_set(z).contains(w)
        && m0.dom().contains(w) && !already_dirty(m0[w]) ==> #[trigger] m1[w] != m0[w]
}

/// If `x` changed and every changed node's children changed, everything reachable from `x`
/// through nodes that were not dirty changed.
proof fn lemma_closure_reach(m0: Map<NodeId, NodeState>, m1: Map<NodeId, NodeState>, g: NodeGraph, p: Seq<NodeId>)
    requires
        nd_walk(m0, g, p),
        p.len() >= 1,
        m1[p[0]] != m0[p[0]],
        closed_under_children(m0, m1, g),
    ensures
        m1[p.last()] != m0[p.last()],
    decreases p.len(),
{
    if p.len() > 1 {
        let q = p.drop_last();
        assert(nd_walk(m0, g, q)) by {
            assert forall|i: int| 0 <= i < q.len() - 1 implies g.children_set(#[trigger] q[i]).contains(q[i + 1]) by {
                assert(q[i] == p[i] && q[i + 1] == p[i + 1]);
                assert(g.children_set(p[i]).contains(p[i + 1]));
            }
            assert forall|i: int| 0 <= i < q.len() implies m0.dom().contains(#[trigger] q[i]) && !already_dirty(m0[q[i]]) by {
                assert(q[i] == p[i]);
            }
        }
        lemma_closure_reach(m0, m1, g, q);
        let z = p[p.len() - 2];
        let w = p.last();
        assert(q.last() == z);
        assert(g.children_set(p[p.len() - 2]).contains(p[p.len() - 1]));
        assert(m0.dom().contains(p[p.len() - 1]));
        assert(m0.dom().contains(p[p.len() - 2]));
    }
}

/// A walk from a child of `x`, with `x` not dirty, extends to a walk from `x`.
proof fn lemma_reach_prepend(m0: Map<NodeId, NodeState>, mt: Map<NodeId, NodeState>, g: NodeGraph, x: NodeId, c: NodeId, y: NodeId)
    requires
        reach_nd(mt, g, c, y),
        g.children_set(x).contains(c),
        m0.dom().contains(x),
        !already_dirty(m0[x]),
        only_dirtied(m0, mt),
    ensures
        reach_nd(m0, g, x, y),
{
    let p = choose|p: Seq<NodeId>| #[trigger] nd_walk(mt, g, p) && p.len() >= 1 && p[0] == c && p.last() == y;
    let q = seq![x] + p;
    assert forall|i: int| 0 <= i < q.len() - 1 implies g.children_set(#[trigger] q[i]).contains(q[i + 1]) by {
        if i > 0 {
            assert(q[i] == p[i - 1] && q[i + 1] == p[i]);
            assert(g.children_set(p[i - 1]).contains(p[i]));
        } else {
            assert(q[1] == p[0]);
        }
    }
    assert forall|i: int| 0 <= i < q.len() implies m0.dom().contains(#[trigger] q[i]) && !already_dirty(m0[q[i]]) by {
        if i > 0 {
            assert(q[i] == p[i - 1]);
            assert(mt.dom().contains(p[i - 1]) && !already_dirty(mt[p[i - 1]]));
            lemma_dirtied_rank(m0[p[i - 1]], mt[p[i - 1]]);
            lemma_dirtied_rank(mt[p[i - 1]], mt[p[i - 1]]);
            lemma_dirtied_rank(m0[p[i - 1]], m0[p[i - 1]]);
        }
    }
    assert(nd_walk(m0, g, q));
    assert(q.last() == y);
}

/// What dirtying `x` does: every node reachable from `x` through nodes that were not dirty
/// (`x` itself included) is dirtied, and every other node keeps its state.
pub open spec fn dirtied_from(m0: Map<NodeId, NodeState>, m1: Map<NodeId, NodeState>, g: NodeGraph, x: NodeId) -> bool {
    &&& m1.dom() == m0.dom()
    &&& forall|y: NodeId| #[trigger] m0.dom().contains(y) ==>
        if reach_nd(m0, g, x, y) { dirtied(m0[y], m1[y]) } else { m1[y] == m0[y] }
}

/// The outputs that do not belong to node `id`, in order.
pub open spec fn data_without(sds: Seq<SlotData>, id: NodeId) -> Seq<SlotData>
    decreases sds.len(),
{
    if sds.len() == 0 {
        seq![]
    } else {
        let prev = data_without(sds.drop_last(), id);
        if sds.last().node_id == id { prev } else { prev.push(sds.last()) }
    }
}

/// After pushing a node, the graph has the nodes it had and the new one.
proof fn lemma_pushed_node(g: NodeGraph, h: NodeGraph, id: NodeId)
    requires
        h.nodes@.len() == g.nodes@.len() + 1,
        h.nodes@.drop_last() == g.nodes@,
        h.nodes@.last().node_id == id,
    ensures
        forall|y: NodeId| h.has_node(y) <==> (g.has_node(y) || y == id),
{
    assert forall|y: NodeId| h.has_node(y) <==> (g.has_node(y) || y == id) by {
        if h.has_node(y) {
            let j = choose|j: int| 0 <= j < h.nodes@.len() && h.nodes@[j].node_id == y;
            if j < g.nodes@.len() {
                assert(g.nodes@[j] == h.nodes@.drop_last()[j]);
                assert(g.nodes@[j].node_id == y);
                assert(g.has_node(y));
            } else {
                assert(h.nodes@.last() == h.nodes@[j]);
            }
        }
        if g.has_node(y) {
            let j = choose|j: int| 0 <= j < g.nodes@.len() && g.nodes@[j].node_id == y;
            assert(h.nodes@[j] == h.nodes@.drop_last()[j]);
            assert(h.nodes@[j].node_id == y);
            assert(h.has_node(y));
        }
        if y == id {
            let n = h.nodes@.len() - 1;
            assert(h.nodes@[n].node_id == id);
            assert(h.has_node(y));
        }
    }
}

/// After removing the (only) node with id `id`, the graph has the other nodes it had.
proof fn lemma_removed_node(g: NodeGraph, h: NodeGraph, id: NodeId)
    requires
        g.unique_ids(),
        g.has_node(id),
        h.nodes@ == g.nodes@.remove(g.index_of(id)),
    ensures
        forall|y: NodeId| h.has_node(y) <==> (g.has_node(y) && y != id),
{
    crate::node_graph::lemma_has_first_index(g, id);
    let i = g.index_of(id);
    assert forall|y: NodeId| h.has_node(y) <==> (g.has_node(y) && y != id) by {
        if h.has_node(y) {
            let j = choose|j: int| 0 <= j < h.nodes@.len() && h.nodes@[j].node_id == y;
            let j2 = if j < i { j } else { j + 1 };
            assert(h.nodes@[j] == g.nodes@[j2]);
            assert(g.nodes@[j2].node_id == y);
            assert(g.has_node(y));
            assert(j2 != i);
            if y == id {
                if j2 < i {
                    assert(g.nodes@[i].node_id != g.nodes@[j2].node_id);
                } else {
                    assert(g.nodes@[i].node_id != g.nodes@[j2].node_id);
                }
            }
        }
        if g.has_node(y) && y != id {
            let j = choose|j: int| 0 <= j < g.nodes@.len() && g.nodes@[j].node_id == y;
            assert(j != i);
            if j < i {
                assert(h.nodes@[j] == g.nodes@[j]);
                assert(h.nodes@[j].node_id == y);
            } else {
                assert(h.nodes@[j - 1] == g.nodes@[j]);
                assert(h.nodes@[j - 1].node_id == y);
            }
        }
    }
}

/// Whether there is a path (possibly just `x`) from `x` to `y` along edges of `g`.
pub open spec fn walk_reach(g: NodeGraph, x: NodeId, y: NodeId) -> bool {
    exists|p: Seq<NodeId>| #[trigger] g.is_walk(p) && p.len() >= 1 && p[0] == x && p.last() == y
}

/// Whether `y` can be reached from one of `ids`.
pub open spec fn reached_from_some(g: NodeGraph, ids: Seq<NodeId>, y: NodeId) -> bool {
    exists|i: int| 0 <= i < ids.len() && walk_reach(g, #[trigger] ids[i], y)
}

/// The priorities after touching the (only) entry of `id`: the same entries, with that one
/// touched.
pub open spec fn touched_entry(a: Seq<(NodeId, Priority)>, b: Seq<(NodeId, Priority)>, id: NodeId) -> bool {
    &&& b.len() == a.len()
    &&& forall|k: int| 0 <= k < a.len() ==> {
        &&& (#[trigger] b[k]).0 == a[k].0
        &&& b[k].1.spec_priority() == a[k].1.spec_priority()
        &&& b[k].1.spec_propagated() == a[k].1.spec_propagated()
        &&& b[k].1.spec_touched() == (a[k].1.spec_touched() || a[k].0 == id)
    }
}

/// Whether `y` is `x` or one of the nodes below it.
pub open spec fn below(g: NodeGraph, x: NodeId, y: NodeId) -> bool {
    y == x || g.reaches(x, y, g.nodes@.len())
}

/// Whether `y` can be reached in `h` from `x` or a node below `x` in `g`.
pub open spec fn reached_from_below(g: NodeGraph, h: NodeGraph, x: NodeId, y: NodeId) -> bool {
    exists|z: NodeId| #[trigger] below(g, x, z) && walk_reach(h, z, y)
}

/// The outputs, in order, of the nodes not in `ids`.
pub open spec fn data_outside(sds: Seq<SlotData>, ids: Seq<NodeId>) -> Seq<SlotData>
    decreases sds.len(),
{
    if sds.len() == 0 {
        seq![]
    } else {
        let prev = data_outside(sds.drop_last(), ids);
        if ids.contains(sds.last().node_id) { prev } else { prev.push(sds.last()) }
    }
}

/// A node reached by following edges is the input end of an edge, so it is in a well formed
/// graph.
proof fn lemma_reaches_in_graph(g: NodeGraph, x: NodeId, y: NodeId, fuel: nat)
    requires
        g.edges_valid(),
        g.reaches(x, y, fuel),
    ensures
        g.has_node(y),
{
    let p = choose|p: Seq<NodeId>| 2 <= p.len() <= fuel + 1 && p[0] == x && p.last() == y && #[trigger] g.is_walk(p);
    let n = p.len() - 2;
    assert(g.children_set(p[n]).contains(p[n + 1]));
    let k = choose|k: int| 0 <= k < g.edges@.len() && g.edges@[k].output_id == p[n] && g.edges@[k].input_id == p[n + 1];
    assert(g.has_node(g.edges@[k].input_id));
}

/// What `data_outside` keeps: exactly the outputs of nodes not in `ids`.
proof fn lemma_data_outside(sds: Seq<SlotData>, ids: Seq<NodeId>)
    ensures
        forall|k: int| 0 <= k < data_outside(sds, ids).len() ==> !ids.contains((#[trigger] data_outside(sds, ids)[k]).node_id)
            && sds.contains(data_outside(sds, ids)[k]),
        forall|k: int| 0 <= k < sds.len() && !ids.contains((#[trigger] sds[k]).node_id) ==> data_outside(sds, ids).contains(sds[k]),
    decreases sds.len(),
{
    if sds.len() > 0 {
        let prev = sds.drop_last();
        lemma_data_outside(prev, ids);
        let r = data_outside(sds, ids);
        let rp = data_outside(prev, ids);
        assert forall|k: int| 0 <= k < r.len() implies !ids.contains((#[trigger] r[k]).node_id) && sds.contains(r[k]) by {
            if k < rp.len() {
                assert(r[k] == rp[k]);
                assert(prev.contains(rp[k]));
                let j = choose|j: int| 0 <= j < prev.len() && prev[j] == rp[k];
                assert(sds[j] == prev[j]);
            } else {
                assert(r[k] == sds.last());
                assert(sds[sds.len() - 1] == sds.last());
            }
        }
        assert forall|k: int| 0 <= k < sds.len() && !ids.contains((#[trigger] sds[k]).node_id) implies r.contains(sds[k]) by {
            if k < prev.len() {
                assert(prev[k] == sds[k]);
                assert(rp.contains(prev[k]));
                let j = choose|j: int| 0 <= j < rp.len() && rp[j] == prev[k];
                assert(r[j] == rp[j]);
            } else {
                assert(r[r.len() - 1] == sds[k]);
            }
        }
    }
}

/// Whether `x` is among `v`.
pub fn contains_id(v: &Vec<NodeId>, x: NodeId) -> (r: bool)
    ensures
        r == v@.contains(x),
{
    let mut i: usize = 0;
    while i < v.len()
        invariant
            i <= v.len(),
            forall|j: int| 0 <= j < i ==> v@[j] != x,
        decreases v.len() - i,
    {
        if v[i] == x {
            return true;
        }
        i = i + 1;
    }
    false
}

/// Adds the ids of `src` to the ascending `dst`, keeping it ascending and without repeats.
pub fn add_all_sorted(dst: &mut Vec<NodeId>, src: &Vec<NodeId>)
    requires
        strictly_ascending(old(dst)@),
    ensures
        strictly_ascending(final(dst)@),
        forall|y: NodeId| #[trigger] final(dst)@.contains(y) <==> (old(dst)@.contains(y) || src@.contains(y)),
{
    let mut i: usize = 0;
    while i < src.len()
        invariant
            i <= src.len(),
            strictly_ascending(dst@),
            forall|y: NodeId| #[trigger] dst@.contains(y) <==> (old(dst)@.contains(y) || src@.take(i as int).contains(y)),
        decreases src.len() - i,
    {
        insert_sorted_unique(dst, src[i]);
        proof {
            let t0 = src@.take(i as int);
            let t1 = src@.take(i + 1);
            assert(t1 =~= t0.push(src@[i as int]));
            assert forall|y: NodeId| #[trigger] dst@.contains(y) <==> (old(dst)@.contains(y) || t1.contains(y)) by {
                if t1.contains(y) && y != src@[i as int] {
                    let j = choose|j: int| 0 <= j < t1.len() && t1[j] == y;
                    assert(t0[j] == y);
                }
                if t0.contains(y) {
                    let j = choose|j: int| 0 <= j < t0.len() && t0[j] == y;
                    assert(t1[j] == y);
                }
                if y == src@[i as int] {
                    assert(t1[i as int] == y);
                }
            }
        }
        i = i + 1;
    }
    proof {
        assert(src@.take(i as int) =~= src@);
    }
}

/// The nodes that disconnecting a slot dirties: the node itself when the slot is an input, and
/// the nodes below the input ends of the removed edges (in the graph without them).
pub open spec fn disconnect_dirty(h: NodeGraph, v: Seq<Edge>, side: Side, id: NodeId, x: NodeId) -> bool {
    (side == Side::Input && x == id)
        || exists|k: int| 0 <= k < v.len() && h.reaches((#[trigger] v[k]).input_id, x, h.nodes@.len())
}

/// Whether `y` can be reached from a node that disconnecting a slot dirties.
pub open spec fn reached_from_disconnect(h: NodeGraph, v: Seq<Edge>, side: Side, id: NodeId, y: NodeId) -> bool {
    exists|z: NodeId| #[trigger] disconnect_dirty(h, v, side, id, z) && walk_reach(h, z, y)
}

/// The priorities after touching the entries of the output ends of `v`.
pub open spec fn touched_outputs(a: Seq<(NodeId, Priority)>, b: Seq<(NodeId, Priority)>, v: Seq<Edge>) -> bool {
    &&& b.len() == a.len()
    &&& forall|k: int| 0 <= k < a.len() ==> {
        &&& (#[trigger] b[k]).0 == a[k].0
        &&& b[k].1.spec_priority() == a[k].1.spec_priority()
        &&& b[k].1.spec_propagated() == a[k].1.spec_propagated()
        &&& b[k].1.spec_touched() == (a[k].1.spec_touched() || has_output_end(v, a[k].0))
    }
}

/// Dirtying a node that is reachable, or the node itself, never leaves it clean: after
/// `set_state(x, Dirty)` (or a `connect` into `x`), `x` and every node reached from it through
/// nodes that were not dirty are `Dirty` or `ProcessingDirty`, and a node that was being
/// processed is `ProcessingDirty`, so that its run is not taken as up to date.
pub proof fn law_dirtied_not_clean(m0: Map<NodeId, NodeState>, m1: Map<NodeId, NodeState>, g: NodeGraph, x: NodeId, y: NodeId)
    requires
        dirtied_from(m0, m1, g, x),
        m0.dom().contains(y),
        reach_nd(m0, g, x, y),
    ensures
        m1[y] == NodeState::Dirty || m1[y] == NodeState::ProcessingDirty,
        m0[y] == NodeState::Processing ==> m1[y] == NodeState::ProcessingDirty,
{
}

/// The nodes that `get_closest_processable` returns can be processed: all their parents are
/// clean.
pub proof fn law_closest_are_ready(m: Map<NodeId, NodeState>, g: NodeGraph, x: NodeId, y: NodeId, fuel: nat)
    requires
        closest(m, g, x, y, fuel),
    ensures
        forall|p: NodeId| #[trigger] g.parents_set(y).contains(p) ==> m[p] == NodeState::Clean,
{
}

/// Whether some edge of `v` comes out of node `y`.
pub open spec fn has_output_end(v: Seq<Edge>, y: NodeId) -> bool {
    exists|k: int| 0 <= k < v.len() && (#[trigger] v[k]).output_id == y
}

/// For each output in `part` that belongs to node `id`, in order, the first output in `full`
/// of that node and slot.
pub open spec fn node_outputs(full: Seq<SlotData>, part: Seq<SlotData>, id: NodeId) -> Seq<SlotData>
    decreases part.len(),
{
    if part.len() == 0 {
        seq![]
    } else {
        let prev = node_outputs(full, part.drop_last(), id);
        if part.last().node_id == id { prev.push(slot_data_of(full, id, part.last().slot_id)) } else { prev }
    }
}

/// A state of a node that waits to be processed.
pub open spec fn waiting(s: NodeState) -> bool {
    s == NodeState::Dirty || s == NodeState::Requested || s == NodeState::Prioritised
}

/// Whether every parent of `x` is clean, so that `x` can be processed.
pub open spec fn parents_clean(m: Map<NodeId, NodeState>, g: NodeGraph, x: NodeId) -> bool {
    forall|p: NodeId| #[trigger] g.parents_set(x).contains(p) ==> m[p] == NodeState::Clean
}

/// A path upwards: each node is followed by one of its parents that waits to be processed.
pub open spec fn up_walk(m: Map<NodeId, NodeState>, g: NodeGraph, p: Seq<NodeId>) -> bool {
    forall|i: int| 0 <= i < p.len() - 1 ==> g.parents_set(#[trigger] p[i]).contains(p[i + 1]) && waiting(m[p[i + 1]])
}

/// Whether `y` is among the closest nodes above `x` (or `x` itself) that can be processed:
/// it is reached from `x` by going up through at most `fuel` waiting parents, and all its
/// parents are clean.
pub open spec fn closest(m: Map<NodeId, NodeState>, g: NodeGraph, x: NodeId, y: NodeId, fuel: nat) -> bool {
    exists|p: Seq<NodeId>| 1 <= p.len() <= fuel + 1 && p[0] == x && p.last() == y && #[trigger] up_walk(m, g, p)
        && parents_clean(m, g, y)
}

/// One step of `closest`.
proof fn lemma_closest_unfold(m: Map<NodeId, NodeState>, g: NodeGraph, x: NodeId, y: NodeId, fuel: nat)
    ensures
        fuel == 0 ==> (closest(m, g, x, y, fuel) <==> (y == x && parents_clean(m, g, x))),
        fuel > 0 ==> (closest(m, g, x, y, fuel) <==> ((y == x && parents_clean(m, g, x))
            || exists|q: NodeId| #[trigger] g.parents_set(x).contains(q) && waiting(m[q]) && closest(m, g, q, y, (fuel - 1) as nat))),
{
    if closest(m, g, x, y, fuel) {
        let p = choose|p: Seq<NodeId>| 1 <= p.len() <= fuel + 1 && p[0] == x && p.last() == y && #[trigger] up_walk(m, g, p)
            && parents_clean(m, g, y);
        if p.len() > 1 {
            assert(g.parents_set(p[0]).contains(p[1]) && waiting(m[p[1]]));
            let q = p.drop_first();
            assert(up_walk(m, g, q)) by {
                assert forall|i: int| 0 <= i < q.len() - 1 implies g.parents_set(#[trigger] q[i]).contains(q[i + 1]) && waiting(m[q[i + 1]]) by {
                    assert(q[i] == p[i + 1] && q[i + 1] == p[i + 2]);
                    assert(g.parents_set(p[i + 1]).contains(p[i + 2]));
                }
            }
            assert(q.last() == y);
            assert(closest(m, g, p[1], y, (fuel - 1) as nat));
        }
    }
    if y == x && parents_clean(m, g, x) {
        let p = seq![x];
        assert(up_walk(m, g, p));
    }
    if fuel > 0 && exists|q: NodeId| #[trigger] g.parents_set(x).contains(q) && waiting(m[q]) && closest(m, g, q, y, (fuel - 1) as nat) {
        let q = choose|q: NodeId| #[trigger] g.parents_set(x).contains(q) && waiting(m[q]) && closest(m, g, q, y, (fuel - 1) as nat);
        let p = choose|p: Seq<NodeId>| 1 <= p.len() <= (fuel - 1) + 1 && p[0] == q && p.last() == y && #[trigger] up_walk(m, g, p)
            && parents_clean(m, g, y);
        let r = seq![x] + p;
        assert(up_walk(m, g, r)) by {
            assert forall|i: int| 0 <= i < r.len() - 1 implies g.parents_set(#[trigger] r[i]).contains(r[i + 1]) && waiting(m[r[i + 1]]) by {
                if i > 0 {
                    assert(r[i] == p[i - 1] && r[i + 1] == p[i]);
                    assert(g.parents_set(p[i - 1]).contains(p[i]));
                } else {
                    assert(r[1] == p[0]);
                }
            }
        }
        assert(r.last() == y);
    }
}

/// Whether some edge of `v` leads into node `y`.
pub open spec fn has_input_end(v: Seq<Edge>, y: NodeId) -> bool {
    exists|k: int| 0 <= k < v.len() && (#[trigger] v[k]).input_id == y
}

/// Whether an entry before position `k` has this id and, as `with` says, the given state or
/// another.
pub open spec fn listed_before(s: Seq<(NodeId, NodeState)>, k: int, id: NodeId, st: NodeState, with: bool) -> bool {
    exists|i: int| 0 <= i < k && (#[trigger] s[i]).0 == id && (s[i].1 == st) == with
}

/// A node, and the nodes it feeds, kept track of as the node graph changes: the state of every
/// node, the outputs of processed nodes, and the priorities of the nodes.
pub struct LiveGraph {
    node_graph: NodeGraph,
    slot_datas: Vec<SlotData>,
    embedded_slot_datas: Vec<EmbeddedSlotData>,
    input_slot_datas: Vec<SlotData>,
    node_state: Vec<(NodeId, NodeState)>,
    changed: Vec<NodeId>,
    priority_propagator: PriorityPropagator,
    auto_update: bool,
    use_cache: bool,
}

impl LiveGraph {
    pub closed spec fn graph(self) -> NodeGraph {
        self.node_graph
    }

    /// The state of every node.
    pub closed spec fn states(self) -> Map<NodeId, NodeState> {
        states_map(self.node_state@)
    }

    /// The nodes that changed since `changed_consume` was last called, ascending.
    pub closed spec fn changed_ids(self) -> Seq<NodeId> {
        self.changed@
    }

    /// The outputs of processed nodes.
    pub closed spec fn slot_data_seq(self) -> Seq<SlotData> {
        self.slot_datas@
    }

    pub closed spec fn embedded(self) -> Seq<EmbeddedSlotData> {
        self.embedded_slot_datas@
    }

    pub closed spec fn inputs(self) -> Seq<SlotData> {
        self.input_slot_datas@
    }

    pub closed spec fn propagator(self) -> PriorityPropagator {
        self.priority_propagator
    }

    /// Whether every node that is not clean is processed, not only requested ones.
    pub closed spec fn spec_auto_update(self) -> bool {
        self.auto_update
    }

    /// Whether the outputs of nodes are kept after all the nodes they feed are processed.
    pub closed spec fn spec_use_cache(self) -> bool {
        self.use_cache
    }

    /// Every node of the graph, and no other, has a state and a priority; the graph is
    /// well formed.
    pub closed spec fn wf(self) -> bool {
        &&& self.node_graph.wf()
        &&& keys_ascending(self.node_state@)
        &&& forall|id: NodeId| self.states().dom().contains(id) <==> self.node_graph.has_node(id)
        &&& strictly_ascending(self.changed@)
        &&& self.priority_propagator.wf()
        &&& forall|id: NodeId| self.node_graph.has_node(id) ==> has_entry(self.priority_propagator.entries(), id)
    }

    pub proof fn lemma_wf(self)
        requires
            self.wf(),
        ensures
            self.graph().wf(),
            forall|id: NodeId| self.states().dom().contains(id) <==> self.graph().has_node(id),
            strictly_ascending(self.changed_ids()),
    {
    }

    pub fn new() -> (g: Self)
        ensures
            g.wf(),
            g.graph().nodes@ == Seq::<Node>::empty(),
            g.graph().edges@ == Seq::<Edge>::empty(),
            g.graph().spec_counter() == 0,
            g.states() == Map::<NodeId, NodeState>::empty(),
            g.changed_ids() == Seq::<NodeId>::empty(),
            g.slot_data_seq() == Seq::<SlotData>::empty(),
            g.embedded() == Seq::<EmbeddedSlotData>::empty(),
            g.inputs() == Seq::<SlotData>::empty(),
            g.propagator().entries() == Seq::<(NodeId, Priority)>::empty(),
            !g.spec_auto_update(),
            !g.spec_use_cache(),
    {
        let g = LiveGraph {
            node_graph: NodeGraph::new(),
            slot_datas: Vec::new(),
            embedded_slot_datas: Vec::new(),
            input_slot_datas: Vec::new(),
            node_state: Vec::new(),
            changed: Vec::new(),
            priority_propagator: PriorityPropagator::new(),
            auto_update: false,
            use_cache: false,
        };
        proof {
            assert(g.states() =~= Map::<NodeId, NodeState>::empty());
        }
        g
    }

    pub fn auto_update(&self) -> (r: bool)
        ensures
            r == self.spec_auto_update(),
    {
        self.auto_update
    }

    pub fn set_auto_update(&mut self, auto_update: bool)
        requires
            old(self).wf(),
        ensures
            final(self).wf(),
            final(self).spec_auto_update() == auto_update,
            final(self).spec_use_cache() == old(self).spec_use_cache(),
            final(self).graph() == old(self).graph(),
            final(self).states() == old(self).states(),
            final(self).changed_ids() == old(self).changed_ids(),
            final(self).slot_data_seq() == old(self).slot_data_seq(),
    {
        self.auto_update = auto_update;
    }

    pub fn use_cache(&self) -> (r: bool)
        ensures
            r == self.spec_use_cache(),
    {
        self.use_cache
    }

    pub fn set_use_cache(&mut self, use_cache: bool)
        requires
            old(self).wf(),
        ensures
            final(self).wf(),
            final(self).spec_use_cache() == use_cache,
            final(self).spec_auto_update() == old(self).spec_auto_update(),
            final(self).graph() == old(self).graph(),
            final(self).states() == old(self).states(),
            final(self).changed_ids() == old(self).changed_ids(),
            final(self).slot_data_seq() == old(self).slot_data_seq(),
    {
        self.use_cache = use_cache;
    }

    fn state_index(&self, node_id: NodeId) -> (r: Option<usize>)
        requires
            keys_ascending(self.node_state@),
        ensures
            match r {
                Some(k) => k < self.node_state@.len() && self.node_state@[k as int].0 == node_id
                    && self.states().dom().contains(node_id),
                None => !self.states().dom().contains(node_id),
            },
    {
        let mut k: usize = 0;
        while k < self.node_state.len()
            invariant
                k <= self.node_state.len(),
                keys_ascending(self.node_state@),
                forall|j: int| 0 <= j < k ==> (#[trigger] self.node_state@[j]).0 != node_id,
            decreases self.node_state.len() - k,
        {
            if self.node_state[k].0 == node_id {
                proof {
                    lemma_states_map_at(self.node_state@, k as int);
                }
                return Some(k);
            }
            k = k + 1;
        }
        None
    }

    /// The state of the node (`InvalidNodeId` when there is no such node).
    pub fn node_state(&self, node_id: NodeId) -> (r: Result<NodeState>)
        requires
            self.wf(),
        ensures
            self.states().dom().contains(node_id) ==> r == Ok::<NodeState, TexProError>(self.states()[node_id]),
            !self.states().dom().contains(node_id) ==> r == Err::<NodeState, TexProError>(TexProError::InvalidNodeId),
    {
        match self.state_index(node_id) {
            Some(k) => {
                proof {
                    lemma_states_map_at(self.node_state@, k as int);
                }
                Ok(self.node_state[k].1)
            }
            None => Err(TexProError::InvalidNodeId),
        }
    }

    /// Replaces the state of a node that has one, and nothing else.
    fn write_state(&mut self, k: usize, s: NodeState)
        requires
            keys_ascending(old(self).node_state@),
            k < old(self).node_state@.len(),
        ensures
            keys_ascending(final(self).node_state@),
            final(self).node_state@ == old(self).node_state@.update(k as int, (old(self).node_state@[k as int].0, s)),
            final(self).states() == old(self).states().insert(old(self).node_state@[k as int].0, s),
            final(self).node_graph == old(self).node_graph,
            final(self).changed == old(self).changed,
            final(self).slot_datas == old(self).slot_datas,
            final(self).embedded_slot_datas == old(self).embedded_slot_datas,
            final(self).input_slot_datas == old(self).input_slot_datas,
            final(self).priority_propagator == old(self).priority_propagator,
            final(self).auto_update == old(self).auto_update,
            final(self).use_cache == old(self).use_cache,
    {
        let id = self.node_state[k].0;
        proof {
            lemma_states_map_update(self.node_state@, k as int, s);
        }
        self.node_state.set(k, (id, s));
    }

    /// Overwrites the state of a node as it is, without dirtying anything else
    /// (`InvalidNodeId` when there is no such node).
    pub fn overwrite_state(&mut self, node_id: NodeId, s: NodeState) -> (r: Result<()>)
        requires
            old(self).wf(),
        ensures
            final(self).wf(),
            old(self).states().dom().contains(node_id) ==> r is Ok
                && final(self).states() == old(self).states().insert(node_id, s),
            !old(self).states().dom().contains(node_id) ==> r == Err::<(), TexProError>(TexProError::InvalidNodeId)
                && final(self).states() == old(self).states(),
            final(self).graph() == old(self).graph(),
            final(self).changed_ids() == old(self).changed_ids(),
            final(self).slot_data_seq() == old(self).slot_data_seq(),
            final(self).embedded() == old(self).embedded(),
            final(self).inputs() == old(self).inputs(),
            final(self).propagator() == old(self).propagator(),
            final(self).spec_auto_update() == old(self).spec_auto_update(),
            final(self).spec_use_cache() == old(self).spec_use_cache(),
    {
        match self.state_index(node_id) {
            Some(k) => {
                self.write_state(k, s);
                proof {
                    assert forall|id: NodeId| self.states().dom().contains(id) <==> self.node_graph.has_node(id) by {
                        assert(old(self).states().dom().contains(id) <==> old(self).node_graph.has_node(id));
                    }
                }
                Ok(())
            }
            None => Err(TexProError::InvalidNodeId),
        }
    }

    /// Marks a dirty node as requested (`InvalidNodeId` when there is no such node).
    pub fn request(&mut self, node_id: NodeId) -> (r: Result<()>)
        requires
            old(self).wf(),
        ensures
            final(self).wf(),
            r is Ok <==> old(self).states().dom().contains(node_id),
            r is Err ==> r == Err::<(), TexProError>(TexProError::InvalidNodeId),
            final(self).states() == (if old(self).states().dom().contains(node_id) && old(self).states()[node_id] == NodeState::Dirty {
                old(self).states().insert(node_id, NodeState::Requested)
            } else {
                old(self).states()
            }),
            final(self).graph() == old(self).graph(),
            final(self).changed_ids() == old(self).changed_ids(),
            final(self).slot_data_seq() == old(self).slot_data_seq(),
    {
        let s = self.node_state(node_id)?;
        if s == NodeState::Dirty {
            self.overwrite_state(node_id, NodeState::Requested)?;
        }
        Ok(())
    }

    /// Marks a dirty or requested node as prioritised (`InvalidNodeId` when there is no such
    /// node).
    pub fn prioritise(&mut self, node_id: NodeId) -> (r: Result<()>)
        requires
            old(self).wf(),
        ensures
            final(self).wf(),
            r is Ok <==> old(self).states().dom().contains(node_id),
            r is Err ==> r == Err::<(), TexProError>(TexProError::InvalidNodeId),
            final(self).states() == (if old(self).states().dom().contains(node_id)
                && (old(self).states()[node_id] == NodeState::Dirty || old(self).states()[node_id] == NodeState::Requested) {
                old(self).states().insert(node_id, NodeState::Prioritised)
            } else {
                old(self).states()
            }),
            final(self).graph() == old(self).graph(),
            final(self).changed_ids() == old(self).changed_ids(),
            final(self).slot_data_seq() == old(self).slot_data_seq(),
    {
        let s = self.node_state(node_id)?;
        if s == NodeState::Dirty || s == NodeState::Requested {
            self.overwrite_state(node_id, NodeState::Prioritised)?;
        }
        Ok(())
    }

    fn ids_by_state(&self, node_state: NodeState, with: bool) -> (r: Vec<NodeId>)
        requires
            keys_ascending(self.node_state@),
        ensures
            strictly_ascending(r@),
            forall|id: NodeId| r@.contains(id) <==> (self.states().dom().contains(id)
                && ((self.states()[id] == node_state) == with)),
    {
        let mut v: Vec<NodeId> = Vec::new();
        let mut k: usize = 0;
        while k < self.node_state.len()
            invariant
                k <= self.node_state.len(),
                keys_ascending(self.node_state@),
                strictly_ascending(v@),
                forall|j: int| 0 <= j < v@.len() ==> listed_before(self.node_state@, k as int, #[trigger] v@[j], node_state, with),
                forall|i: int| 0 <= i < k && (self.node_state@[i].1 == node_state) == with ==> v@.contains((#[trigger] self.node_state@[i]).0),
                forall|j: int| 0 <= j < v@.len() && k < self.node_state@.len() ==> (#[trigger] v@[j]).0 < self.node_state@[k as int].0.0,
            decreases self.node_state.len() - k,
        {
            let e = self.node_state[k];
            if (e.1 == node_state) == with {
                let ghost before = v@;
                v.push(e.0);
                proof {
                    assert forall|j: int| 0 <= j < v@.len() implies listed_before(self.node_state@, k + 1, #[trigger] v@[j], node_state, with) by {
                        if j < before.len() {
                            assert(v@[j] == before[j]);
                            assert(listed_before(self.node_state@, k as int, before[j], node_state, with));
                        } else {
                            assert(self.node_state@[k as int].0 == v@[j]);
                        }
                    }
                    assert forall|i: int| 0 <= i < k + 1 && (self.node_state@[i].1 == node_state) == with implies v@.contains((#[trigger] self.node_state@[i]).0) by {
                        if i < k {
                            let j = choose|j: int| 0 <= j < before.len() && before[j] == self.node_state@[i].0;
                            assert(v@[j] == before[j]);
                        } else {
                            assert(v@[before.len() as int] == e.0);
                        }
                    }
                }
            }
            proof {
                assert forall|j: int| 0 <= j < v@.len() && k + 1 < self.node_state@.len() implies (#[trigger] v@[j]).0 < self.node_state@[k + 1].0.0 by {
                    assert(listed_before(self.node_state@, k + 1, v@[j], node_state, with));
                    let i = choose|i: int| 0 <= i < k + 1 && (#[trigger] self.node_state@[i]).0 == v@[j]
                        && (self.node_state@[i].1 == node_state) == with;
                    assert(self.node_state@[i].0.0 < self.node_state@[k + 1].0.0);
                }
            }
            k = k + 1;
        }
        proof {
            assert forall|id: NodeId| v@.contains(id) <==> (self.states().dom().contains(id)
                && ((self.states()[id] == node_state) == with)) by {
                if v@.contains(id) {
                    let j = choose|j: int| 0 <= j < v@.len() && v@[j] == id;
                    assert(listed_before(self.node_state@, k as int, v@[j], node_state, with));
                    let i = choose|i: int| 0 <= i < k && (#[trigger] self.node_state@[i]).0 == v@[j]
                        && (self.node_state@[i].1 == node_state) == with;
                    lemma_states_map_at(self.node_state@, i);
                }
                if self.states().dom().contains(id) && ((self.states()[id] == node_state) == with) {
                    let i = choose|i: int| 0 <= i < self.node_state@.len() && (#[trigger] self.node_state@[i]).0 == id;
                    lemma_states_map_at(self.node_state@, i);
                }
            }
        }
        v
    }

    /// The ids of the nodes in the given state, ascending.
    pub fn node_ids_with_state(&self, node_state: NodeState) -> (r: Vec<NodeId>)
        requires
            self.wf(),
        ensures
            strictly_ascending(r@),
            forall|id: NodeId| r@.contains(id) <==> (self.states().dom().contains(id) && self.states()[id] == node_state),
    {
        self.ids_by_state(node_state, true)
    }

    /// The ids of the nodes in any other state than the given one, ascending.
    pub fn node_ids_without_state(&self, node_state: NodeState) -> (r: Vec<NodeId>)
        requires
            self.wf(),
        ensures
            strictly_ascending(r@),
            forall|id: NodeId| r@.contains(id) <==> (self.states().dom().contains(id) && self.states()[id] != node_state),
    {
        self.ids_by_state(node_state, false)
    }

    /// Returns the ids of the nodes that changed since the last call, ascending, and forgets
    /// them.
    pub fn changed_consume(&mut self) -> (r: Vec<NodeId>)
        requires
            old(self).wf(),
        ensures
            final(self).wf(),
            r@ == old(self).changed_ids(),
            final(self).changed_ids() == Seq::<NodeId>::empty(),
            final(self).graph() == old(self).graph(),
            final(self).states() == old(self).states(),
            final(self).slot_data_seq() == old(self).slot_data_seq(),
    {
        let out = self.changed.clone();
        self.changed = Vec::new();
        proof {
            assert(out@ =~= old(self).changed@);
        }
        out
    }

    /// Dirties `x` unless it is dirty already, and then, the same way, each of its children.
    fn dirty_from(&mut self, x: NodeId)
        requires
            old(self).wf(),
            old(self).states().dom().contains(x),
        ensures
            final(self).wf(),
            final(self).node_graph == old(self).node_graph,
            final(self).slot_datas == old(self).slot_datas,
            final(self).embedded_slot_datas == old(self).embedded_slot_datas,
            final(self).input_slot_datas == old(self).input_slot_datas,
            final(self).priority_propagator == old(self).priority_propagator,
            final(self).auto_update == old(self).auto_update,
            final(self).use_cache == old(self).use_cache,
            same_keys(old(self).node_state@, final(self).node_state@),
            only_dirtied(old(self).states(), final(self).states()),
            !already_dirty(old(self).states()[x]) ==> final(self).states()[x] != old(self).states()[x],
            closed_under_children(old(self).states(), final(self).states(), old(self).node_graph),
            forall|y: NodeId| old(self).states().dom().contains(y) && #[trigger] final(self).states()[y] != old(self).states()[y]
                ==> reach_nd(old(self).states(), old(self).node_graph, x, y),
            forall|y: NodeId| #[trigger] final(self).changed@.contains(y) <==> (old(self).changed@.contains(y)
                || (old(self).states().dom().contains(y) && final(self).states()[y] != old(self).states()[y])),
        decreases rank_sum(old(self).node_state@),
    {
        let ghost s0 = self.node_state@;
        let ghost m0 = self.states();
        let ghost g = self.node_graph;
        let kx = match self.state_index(x) {
            Some(k) => k,
            None => return,
        };
        let st = self.node_state[kx].1;
        proof {
            lemma_states_map_at(s0, kx as int);
            lemma_same_keys(s0, s0);
        }
        if st == NodeState::Dirty || st == NodeState::ProcessingDirty {
            return;
        }
        let ns = if st == NodeState::Processing { NodeState::ProcessingDirty } else { NodeState::Dirty };
        self.write_state(kx, ns);
        insert_sorted_unique(&mut self.changed, x);
        let ghost sx = self.node_state@;
        proof {
            lemma_rank_sum_update(s0, kx as int, ns);
            lemma_dirtied_rank(st, ns);
            assert(same_keys(s0, sx));
            lemma_same_keys(s0, sx);
            assert(self.states() == m0.insert(x, ns));
            let p = seq![x];
            assert(nd_walk(m0, g, p));
            assert(reach_nd(m0, g, x, x));
            assert forall|id: NodeId| self.states().dom().contains(id) <==> self.node_graph.has_node(id) by {
                assert(m0.dom().contains(id) <==> g.has_node(id));
            }
            assert forall|y: NodeId| #[trigger] m0.dom().contains(y) implies self.states()[y] == m0[y] || dirtied(m0[y], self.states()[y]) by {}
        }
        let children = match self.node_graph.get_children(x) {
            Ok(c) => c,
            Err(_) => {
                proof {
                    assert(g.has_node(x));
                }
                return;
            }
        };
        let mut j: usize = 0;
        while j < children.len()
            invariant
                j <= children.len(),
                self.wf(),
                self.node_graph == g,
                self.slot_datas == old(self).slot_datas,
                self.embedded_slot_datas == old(self).embedded_slot_datas,
                self.input_slot_datas == old(self).input_slot_datas,
                self.priority_propagator == old(self).priority_propagator,
                self.auto_update == old(self).auto_update,
                self.use_cache == old(self).use_cache,
                s0 == old(self).node_state@,
                m0 == old(self).states(),
                m0 == states_map(s0),
                keys_ascending(s0),
                m0.dom().contains(x),
                !already_dirty(m0[x]),
                g.wf(),
                forall|id: NodeId| m0.dom().contains(id) <==> g.has_node(id),
                forall|c: NodeId| children@.contains(c) <==> g.children_set(x).contains(c),
                same_keys(s0, self.node_state@),
                rank_sum(sx) < rank_sum(s0),
                same_keys(s0, sx),
                forall|k: int| 0 <= k < s0.len() ==> rank((#[trigger] self.node_state@[k]).1) <= rank(sx[k].1),
                only_dirtied(m0, self.states()),
                self.states()[x] != m0[x],
                forall|z: NodeId, w: NodeId| m0.dom().contains(z) && self.states()[z] != m0[z] && #[trigger] g.children_set(z).contains(w)
                    && m0.dom().contains(w) && !already_dirty(m0[w]) && (z != x || children@.take(j as int).contains(w))
                    ==> #[trigger] self.states()[w] != m0[w],
                forall|y: NodeId| m0.dom().contains(y) && #[trigger] self.states()[y] != m0[y] ==> reach_nd(m0, g, x, y),
                forall|y: NodeId| #[trigger] self.changed@.contains(y) <==> (old(self).changed@.contains(y)
                    || (m0.dom().contains(y) && self.states()[y] != m0[y])),
            decreases children.len() - j,
        {
            let c = children[j];
            let ghost st_t = self.node_state@;
            let ghost mt = self.states();
            let ghost ch_t = self.changed@;
            proof {
                assert(children@.contains(c));
                assert(g.children_set(x).contains(c));
                let k = choose|k: int| 0 <= k < g.edges@.len() && g.edges@[k].output_id == x && g.edges@[k].input_id == c;
                assert(g.has_node(g.edges@[k].input_id));
                lemma_same_keys(s0, st_t);
                lemma_rank_sum_mono(sx, st_t);
            }
            self.dirty_from(c);
            proof {
                let m1 = self.states();
                lemma_same_keys(s0, self.node_state@);
                assert(same_keys(s0, self.node_state@));
                assert forall|k: int| 0 <= k < s0.len() implies rank((#[trigger] self.node_state@[k]).1) <= rank(sx[k].1) by {
                    let y = s0[k].0;
                    assert(st_t[k].0 == y);
                    lemma_same_keys(s0, st_t);
                    assert(mt[y] == st_t[k].1);
                    assert(m1[y] == self.node_state@[k].1);
                    assert(mt.dom().contains(y));
                    lemma_dirtied_rank(mt[y], m1[y]);
                    assert(rank(st_t[k].1) <= rank(sx[k].1));
                }
                assert forall|y: NodeId| #[trigger] m0.dom().contains(y) implies m1[y] == m0[y] || dirtied(m0[y], m1[y]) by {
                    assert(mt.dom().contains(y));
                    assert(mt[y] == m0[y] || dirtied(m0[y], mt[y]));
                    assert(m1[y] == mt[y] || dirtied(mt[y], m1[y]));
                }
                assert(only_dirtied(m0, m1));
                assert(m1[x] != m0[x]) by {
                    lemma_dirtied_rank(m0[x], mt[x]);
                    lemma_dirtied_rank(mt[x], m1[x]);
                }
                assert(children@.take(j + 1) =~= children@.take(j as int).push(c));
                assert forall|z: NodeId, w: NodeId| m0.dom().contains(z) && m1[z] != m0[z] && #[trigger] g.children_set(z).contains(w)
                    && m0.dom().contains(w) && !already_dirty(m0[w]) && (z != x || children@.take(j + 1).contains(w))
                    implies #[trigger] m1[w] != m0[w] by {
                    assert(mt.dom().contains(w) && mt.dom().contains(z));
                    lemma_dirtied_rank(m0[w], mt[w]);
                    lemma_dirtied_rank(mt[w], m1[w]);
                    lemma_dirtied_rank(m0[z], mt[z]);
                    lemma_dirtied_rank(mt[z], m1[z]);
                    if m1[z] != mt[z] {
                        if !already_dirty(mt[w]) {
                            assert(m1[w] != mt[w]);
                        }
                    } else {
                        if z != x || children@.take(j as int).contains(w) {
                            assert(mt[w] != m0[w]);
                        } else {
                            assert(w == c);
                        }
                    }
                }
                assert forall|y: NodeId| m0.dom().contains(y) && #[trigger] m1[y] != m0[y] implies reach_nd(m0, g, x, y) by {
                    assert(mt.dom().contains(y));
                    if m1[y] != mt[y] {
                        lemma_reach_prepend(m0, mt, g, x, c, y);
                    } else {
                        assert(mt[y] != m0[y]);
                    }
                }
                assert forall|y: NodeId| #[trigger] self.changed@.contains(y) <==> (old(self).changed@.contains(y)
                    || (m0.dom().contains(y) && m1[y] != m0[y])) by {
                    assert(ch_t.contains(y) <==> (old(self).changed@.contains(y) || (m0.dom().contains(y) && mt[y] != m0[y])));
                    if m0.dom().contains(y) {
                        assert(mt.dom().contains(y));
                        lemma_dirtied_rank(m0[y], mt[y]);
                        lemma_dirtied_rank(mt[y], m1[y]);
                    }
                }
            }
            j = j + 1;
        }
        proof {
            assert(children@.take(j as int) =~= children@);
        }
    }

    /// Sets the state of a node and records it as changed when the state differs. A node that
    /// becomes dirty dirties the nodes it feeds, down to nodes that are dirty already; a node
    /// being processed becomes `ProcessingDirty` instead (`InvalidNodeId` when there is no such
    /// node).
    pub fn set_state(&mut self, node_id: NodeId, node_state: NodeState) -> (r: Result<()>)
        requires
            old(self).wf(),
        ensures
            final(self).wf(),
            final(self).graph() == old(self).graph(),
            final(self).slot_data_seq() == old(self).slot_data_seq(),
            final(self).embedded() == old(self).embedded(),
            final(self).inputs() == old(self).inputs(),
            final(self).propagator() == old(self).propagator(),
            final(self).spec_auto_update() == old(self).spec_auto_update(),
            final(self).spec_use_cache() == old(self).spec_use_cache(),
            !old(self).states().dom().contains(node_id) ==> r == Err::<(), TexProError>(TexProError::InvalidNodeId)
                && final(self).states() == old(self).states() && final(self).changed_ids() == old(self).changed_ids(),
            old(self).states().dom().contains(node_id) ==> r is Ok,
            old(self).states().dom().contains(node_id) && node_state != NodeState::Dirty ==> {
                &&& final(self).states() == old(self).states().insert(node_id, node_state)
                &&& forall|y: NodeId| #[trigger] final(self).changed_ids().contains(y) <==> (old(self).changed_ids().contains(y)
                    || (y == node_id && old(self).states()[node_id] != node_state))
            },
            old(self).states().dom().contains(node_id) && node_state == NodeState::Dirty ==> {
                &&& dirtied_from(old(self).states(), final(self).states(), old(self).graph(), node_id)
                &&& forall|y: NodeId| #[trigger] final(self).changed_ids().contains(y) <==> (old(self).changed_ids().contains(y)
                    || (old(self).states().dom().contains(y) && reach_nd(old(self).states(), old(self).graph(), node_id, y)))
            },
    {
        let old_state = self.node_state(node_id)?;
        let ghost m0 = self.states();
        let ghost g = self.node_graph;
        if node_state == NodeState::Dirty {
            self.dirty_from(node_id);
            proof {
                let m1 = self.states();
                assert forall|y: NodeId| #[trigger] m0.dom().contains(y) implies
                    (if reach_nd(m0, g, node_id, y) { dirtied(m0[y], m1[y]) } else { m1[y] == m0[y] }) by {
                    if reach_nd(m0, g, node_id, y) {
                        let p = choose|p: Seq<NodeId>| #[trigger] nd_walk(m0, g, p) && p.len() >= 1 && p[0] == node_id && p.last() == y;
                        assert(!already_dirty(m0[p[0]]));
                        lemma_closure_reach(m0, m1, g, p);
                    }
                }
                assert forall|y: NodeId| #[trigger] self.changed@.contains(y) <==> (old(self).changed@.contains(y)
                    || (m0.dom().contains(y) && reach_nd(m0, g, node_id, y))) by {
                    if m0.dom().contains(y) && reach_nd(m0, g, node_id, y) {
                        assert(dirtied(m0[y], m1[y]));
                        lemma_dirtied_rank(m0[y], m1[y]);
                    }
                }
            }
        } else if node_state != old_state {
            self.overwrite_state(node_id, node_state)?;
            insert_sorted_unique(&mut self.changed, node_id);
        } else {
            proof {
                assert(self.states() =~= m0.insert(node_id, node_state));
            }
        }
        Ok(())
    }

    /// Sets the state as `set_state` does, and then makes it exactly the given state (so that,
    /// say, a `ProcessingDirty` node can become `Dirty`).
    pub fn force_state(&mut self, node_id: NodeId, node_state: NodeState) -> (r: Result<()>)
        requires
            old(self).wf(),
        ensures
            final(self).wf(),
            final(self).graph() == old(self).graph(),
            final(self).slot_data_seq() == old(self).slot_data_seq(),
            final(self).embedded() == old(self).embedded(),
            final(self).inputs() == old(self).inputs(),
            final(self).propagator() == old(self).propagator(),
            final(self).spec_auto_update() == old(self).spec_auto_update(),
            final(self).spec_use_cache() == old(self).spec_use_cache(),
            !old(self).states().dom().contains(node_id) ==> r == Err::<(), TexProError>(TexProError::InvalidNodeId)
                && final(self).states() == old(self).states() && final(self).changed_ids() == old(self).changed_ids(),
            old(self).states().dom().contains(node_id) ==> r is Ok,
            old(self).states().dom().contains(node_id) && node_state != NodeState::Dirty ==> {
                &&& final(self).states() == old(self).states().insert(node_id, node_state)
                &&& forall|y: NodeId| #[trigger] final(self).changed_ids().contains(y) <==> (old(self).changed_ids().contains(y)
                    || (y == node_id && old(self).states()[node_id] != node_state))
            },
            old(self).states().dom().contains(node_id) && node_state == NodeState::Dirty ==> {
                &&& final(self).states()[node_id] == NodeState::Dirty
                &&& final(self).states().dom() == old(self).states().dom()
                &&& forall|y: NodeId| #[trigger] old(self).states().dom().contains(y) && y != node_id ==>
                    if reach_nd(old(self).states(), old(self).graph(), node_id, y) {
                        dirtied(old(self).states()[y], final(self).states()[y])
                    } else {
                        final(self).states()[y] == old(self).states()[y]
                    }
                &&& forall|y: NodeId| #[trigger] final(self).changed_ids().contains(y) <==> (old(self).changed_ids().contains(y)
                    || (old(self).states().dom().contains(y) && reach_nd(old(self).states(), old(self).graph(), node_id, y)))
            },
    {
        let ghost m0 = self.states();
        self.set_state(node_id, node_state)?;
        let ghost m1 = self.states();
        self.overwrite_state(node_id, node_state)?;
        proof {
            if node_state == NodeState::Dirty {
                let m2 = self.states();
                assert forall|y: NodeId| #[trigger] m0.dom().contains(y) && y != node_id implies
                    (if reach_nd(m0, self.node_graph, node_id, y) { dirtied(m0[y], m2[y]) } else { m2[y] == m0[y] }) by {
                    assert(m2[y] == m1[y]);
                }
            }
        }
        Ok(())
    }

    /// Adds a state for a node that has none.
    fn insert_state(&mut self, node_id: NodeId, st: NodeState)
        requires
            keys_ascending(old(self).node_state@),
            !old(self).states().dom().contains(node_id),
        ensures
            keys_ascending(final(self).node_state@),
            final(self).states() == old(self).states().insert(node_id, st),
            final(self).node_graph == old(self).node_graph,
            final(self).changed == old(self).changed,
            final(self).slot_datas == old(self).slot_datas,
            final(self).embedded_slot_datas == old(self).embedded_slot_datas,
            final(self).input_slot_datas == old(self).input_slot_datas,
            final(self).priority_propagator == old(self).priority_propagator,
            final(self).auto_update == old(self).auto_update,
            final(self).use_cache == old(self).use_cache,
    {
        let ghost s0 = self.node_state@;
        let mut p: usize = 0;
        while p < self.node_state.len() && self.node_state[p].0.0 < node_id.0
            invariant
                p <= self.node_state.len(),
                self.node_state@ == s0,
                keys_ascending(s0),
                forall|j: int| 0 <= j < p ==> (#[trigger] s0[j]).0.0 < node_id.0,
            decreases self.node_state.len() - p,
        {
            p = p + 1;
        }
        self.node_state.insert(p, (node_id, st));
        proof {
            let s1 = self.node_state@;
            assert forall|j: int| p <= j < s0.len() implies (#[trigger] s0[j]).0.0 > node_id.0 by {
                if j > p {
                    assert(s0[p as int].0.0 < s0[j].0.0);
                }
                assert(s0[p as int].0.0 >= node_id.0);
                if s0[j].0.0 == node_id.0 {
                    assert(s0[j].0 == node_id);
                    lemma_states_map_at(s0, j);
                }
                if s0[p as int].0.0 == node_id.0 {
                    assert(s0[p as int].0 == node_id);
                    lemma_states_map_at(s0, p as int);
                }
            }
            assert forall|i: int, j: int| 0 <= i < j < s1.len() implies (#[trigger] s1[i]).0.0 < (#[trigger] s1[j]).0.0 by {
                if j < p {
                    assert(s1[i] == s0[i] && s1[j] == s0[j]);
                } else if j == p {
                    assert(s1[i] == s0[i]);
                } else if i == p {
                    assert(s1[j] == s0[j - 1]);
                } else if i < p {
                    assert(s1[i] == s0[i] && s1[j] == s0[j - 1]);
                } else {
                    assert(s1[i] == s0[i - 1] && s1[j] == s0[j - 1]);
                }
            }
            let m1 = states_map(s1);
            let m0 = states_map(s0).insert(node_id, st);
            assert forall|id: NodeId| m1.dom().contains(id) <==> m0.dom().contains(id) by {
                if m1.dom().contains(id) {
                    let c = choose|c: int| 0 <= c < s1.len() && (#[trigger] s1[c]).0 == id;
                    if c < p {
                        assert(s0[c] == s1[c]);
                    } else if c > p {
                        assert(s0[c - 1] == s1[c]);
                    }
                }
                if states_map(s0).dom().contains(id) {
                    let c = choose|c: int| 0 <= c < s0.len() && (#[trigger] s0[c]).0 == id;
                    if c < p {
                        assert(s1[c] == s0[c]);
                    } else {
                        assert(s1[c + 1] == s0[c]);
                    }
                }
                if id == node_id {
                    assert(s1[p as int].0 == id);
                }
            }
            assert forall|id: NodeId| #[trigger] m1.dom().contains(id) implies m1[id] == m0[id] by {
                let c = choose|c: int| 0 <= c < s1.len() && (#[trigger] s1[c]).0 == id;
                lemma_states_map_at(s1, c);
                if c < p {
                    assert(s0[c] == s1[c]);
                    lemma_states_map_at(s0, c);
                } else if c > p {
                    assert(s0[c - 1] == s1[c]);
                    lemma_states_map_at(s0, c - 1);
                }
            }
            assert(m1 =~= m0);
        }
    }

    /// Drops the state of a node that has one.
    fn remove_state(&mut self, node_id: NodeId)
        requires
            keys_ascending(old(self).node_state@),
        ensures
            keys_ascending(final(self).node_state@),
            final(self).states() == old(self).states().remove(node_id),
            final(self).node_graph == old(self).node_graph,
            final(self).changed == old(self).changed,
            final(self).slot_datas == old(self).slot_datas,
            final(self).embedded_slot_datas == old(self).embedded_slot_datas,
            final(self).input_slot_datas == old(self).input_slot_datas,
            final(self).priority_propagator == old(self).priority_propagator,
            final(self).auto_update == old(self).auto_update,
            final(self).use_cache == old(self).use_cache,
    {
        let ghost s0 = self.node_state@;
        match self.state_index(node_id) {
            Some(p) => {
                self.node_state.remove(p);
                proof {
                    let s1 = self.node_state@;
                    assert forall|i: int, j: int| 0 <= i < j < s1.len() implies (#[trigger] s1[i]).0.0 < (#[trigger] s1[j]).0.0 by {
                        let i2 = if i < p { i } else { i + 1 };
                        let j2 = if j < p { j } else { j + 1 };
                        assert(s1[i] == s0[i2] && s1[j] == s0[j2]);
                    }
                    let m1 = states_map(s1);
                    let m0 = states_map(s0).remove(node_id);
                    assert forall|id: NodeId| m1.dom().contains(id) <==> m0.dom().contains(id) by {
                        if m1.dom().contains(id) {
                            let c = choose|c: int| 0 <= c < s1.len() && (#[trigger] s1[c]).0 == id;
                            let c2 = if c < p { c } else { c + 1 };
                            assert(s0[c2] == s1[c]);
                            assert(s0[c2].0.0 != s0[p as int].0.0);
                        }
                        if m0.dom().contains(id) {
                            let c = choose|c: int| 0 <= c < s0.len() && (#[trigger] s0[c]).0 == id;
                            assert(c != p);
                            if c < p {
                                assert(s1[c] == s0[c]);
                            } else {
                                assert(s1[c - 1] == s0[c]);
                            }
                        }
                    }
                    assert forall|id: NodeId| #[trigger] m1.dom().contains(id) implies m1[id] == m0[id] by {
                        let c = choose|c: int| 0 <= c < s1.len() && (#[trigger] s1[c]).0 == id;
                        lemma_states_map_at(s1, c);
                        let c2 = if c < p { c } else { c + 1 };
                        assert(s0[c2] == s1[c]);
                        lemma_states_map_at(s0, c2);
                    }
                    assert(m1 =~= m0);
                }
            }
            None => {
                proof {
                    assert(states_map(s0).remove(node_id) =~= states_map(s0));
                }
            }
        }
    }

    /// Forgets the outputs of node `id`.
    pub fn remove_nodes_data(&mut self, id: NodeId)
        requires
            old(self).wf(),
        ensures
            final(self).wf(),
            final(self).slot_data_seq() == data_without(old(self).slot_data_seq(), id),
            final(self).graph() == old(self).graph(),
            final(self).states() == old(self).states(),
            final(self).changed_ids() == old(self).changed_ids(),
            final(self).embedded() == old(self).embedded(),
            final(self).inputs() == old(self).inputs(),
            final(self).propagator() == old(self).propagator(),
            final(self).spec_auto_update() == old(self).spec_auto_update(),
            final(self).spec_use_cache() == old(self).spec_use_cache(),
    {
        let mut kept: Vec<SlotData> = Vec::new();
        let mut i: usize = 0;
        while i < self.slot_datas.len()
            invariant
                i <= self.slot_datas.len(),
                self.slot_datas@ == old(self).slot_datas@,
                kept@ == data_without(self.slot_datas@.take(i as int), id),
            decreases self.slot_datas.len() - i,
        {
            proof {
                assert(self.slot_datas@.take(i + 1).drop_last() =~= self.slot_datas@.take(i as int));
            }
            if self.slot_datas[i].node_id != id {
                kept.push(self.slot_datas[i]);
            }
            i = i + 1;
        }
        proof {
            assert(self.slot_datas@.take(i as int) =~= self.slot_datas@);
        }
        self.slot_datas = kept;
    }

    /// Adds a node under a new id (see `NodeGraph::add_node`); it starts out dirty, with a
    /// priority of its own. Returns the id.
    pub fn add_node(&mut self, node: Node) -> (r: Result<NodeId>)
        requires
            old(self).wf(),
            old(self).graph().has_free_id(),
            old(self).graph().nodes@.len() < u32::MAX,
        ensures
            final(self).wf(),
            r matches Ok(id) && {
                &&& !old(self).graph().has_node(id)
                &&& final(self).graph().nodes@.drop_last() == old(self).graph().nodes@
                &&& final(self).graph().nodes@.len() == old(self).graph().nodes@.len() + 1
                &&& crate::node_graph::added_node(old(self).graph(), node, id, final(self).graph().nodes@.last())
                &&& final(self).graph().edges == old(self).graph().edges
                &&& final(self).graph().node_id_counter.0 == id.0 + 1
                &&& old(self).graph().node_id_counter.0 <= id.0
                &&& forall|x: u32| old(self).graph().node_id_counter.0 <= x < id.0 ==> #[trigger] old(self).graph().has_node(NodeId(x))
                &&& !old(self).graph().has_node(old(self).graph().node_id_counter) ==> id == old(self).graph().node_id_counter
                &&& final(self).states() == old(self).states().insert(id, NodeState::Dirty)
                &&& forall|y: NodeId| #[trigger] final(self).changed_ids().contains(y) <==> (old(self).changed_ids().contains(y) || y == id)
            },
            final(self).slot_data_seq() == old(self).slot_data_seq(),
            final(self).embedded() == old(self).embedded(),
            final(self).inputs() == old(self).inputs(),
    {
        let ghost g0 = self.node_graph;
        let node_id = self.node_graph.add_node(node)?;
        proof {
            lemma_pushed_node(g0, self.node_graph, node_id);
        }
        self.add_node_internal(node_id);
        Ok(node_id)
    }

    /// Adds a node under its own id; `InvalidNodeId` when a node has that id.
    pub fn add_node_with_id(&mut self, node: Node) -> (r: Result<()>)
        requires
            old(self).wf(),
            old(self).graph().nodes@.len() < u32::MAX,
        ensures
            final(self).wf(),
            old(self).graph().has_node(node.node_id) ==> r == Err::<(), TexProError>(TexProError::InvalidNodeId)
                && final(self).graph() == old(self).graph() && final(self).states() == old(self).states()
                && final(self).changed_ids() == old(self).changed_ids(),
            !old(self).graph().has_node(node.node_id) ==> {
                &&& r is Ok
                &&& final(self).graph().nodes@.drop_last() == old(self).graph().nodes@
                &&& final(self).graph().nodes@.len() == old(self).graph().nodes@.len() + 1
                &&& crate::node_graph::added_node(old(self).graph(), node, node.node_id, final(self).graph().nodes@.last())
                &&& final(self).graph().edges == old(self).graph().edges
                &&& final(self).graph().node_id_counter == old(self).graph().node_id_counter
                &&& final(self).states() == old(self).states().insert(node.node_id, NodeState::Dirty)
                &&& forall|y: NodeId| #[trigger] final(self).changed_ids().contains(y) <==> (old(self).changed_ids().contains(y) || y == node.node_id)
            },
            final(self).slot_data_seq() == old(self).slot_data_seq(),
            final(self).embedded() == old(self).embedded(),
            final(self).inputs() == old(self).inputs(),
    {
        let ghost g0 = self.node_graph;
        let node_id = node.node_id;
        self.node_graph.add_node_with_id(node)?;
        proof {
            lemma_pushed_node(g0, self.node_graph, node_id);
        }
        self.add_node_internal(node_id);
        Ok(())
    }

    fn add_node_internal(&mut self, node_id: NodeId)
        requires
            old(self).node_graph.wf(),
            keys_ascending(old(self).node_state@),
            !old(self).states().dom().contains(node_id),
            forall|id: NodeId| old(self).states().dom().contains(id) || id == node_id <==> old(self).node_graph.has_node(id),
            strictly_ascending(old(self).changed@),
            old(self).priority_propagator.wf(),
            forall|id: NodeId| old(self).node_graph.has_node(id) && id != node_id ==> has_entry(old(self).priority_propagator.entries(), id),
        ensures
            final(self).wf(),
            final(self).node_graph == old(self).node_graph,
            final(self).states() == old(self).states().insert(node_id, NodeState::Dirty),
            forall|y: NodeId| #[trigger] final(self).changed@.contains(y) <==> (old(self).changed@.contains(y) || y == node_id),
            final(self).slot_datas == old(self).slot_datas,
            final(self).embedded_slot_datas == old(self).embedded_slot_datas,
            final(self).input_slot_datas == old(self).input_slot_datas,
            final(self).auto_update == old(self).auto_update,
            final(self).use_cache == old(self).use_cache,
    {
        insert_sorted_unique(&mut self.changed, node_id);
        self.insert_state(node_id, NodeState::Dirty);
        let p = Priority::new();
        self.priority_propagator.push_priority(node_id, p);
        proof {
            assert forall|id: NodeId| self.node_graph.has_node(id) implies has_entry(self.priority_propagator.entries(), id) by {
                if id != node_id {
                    let k = choose|k: int| 0 <= k < old(self).priority_propagator.entries().len()
                        && (#[trigger] old(self).priority_propagator.entries()[k]).0 == id;
                    if !has_entry(old(self).priority_propagator.entries(), node_id) {
                        assert(self.priority_propagator.entries()[k] == old(self).priority_propagator.entries()[k]);
                    }
                } else if !has_entry(old(self).priority_propagator.entries(), node_id) {
                    let n = old(self).priority_propagator.entries().len();
                    assert(self.priority_propagator.entries()[n as int].0 == node_id);
                }
            }
        }
    }

    /// Removes the node, its edges, its state and its outputs; the node and the nodes it fed
    /// count as changed. Its priority entry stays until the next propagation drops it. Returns
    /// the removed edges, last first (`InvalidNodeId` when there is no such node).
    pub fn remove_node(&mut self, node_id: NodeId) -> (r: Result<Vec<Edge>>)
        requires
            old(self).wf(),
        ensures
            final(self).wf(),
            !old(self).graph().has_node(node_id) ==> r == Err::<Vec<Edge>, TexProError>(TexProError::InvalidNodeId)
                && final(self).graph() == old(self).graph() && final(self).states() == old(self).states()
                && final(self).changed_ids() == old(self).changed_ids()
                && final(self).slot_data_seq() == old(self).slot_data_seq(),
            old(self).graph().has_node(node_id) ==> (r matches Ok(v) && {
                &&& v@ == crate::node_graph::edges_touching(old(self).graph().edges@, node_id).reverse()
                &&& final(self).graph().nodes@ == old(self).graph().nodes@.remove(old(self).graph().index_of(node_id))
                &&& final(self).graph().edges@ == crate::node_graph::edges_not_touching(old(self).graph().edges@, node_id)
                &&& final(self).graph().node_id_counter == old(self).graph().node_id_counter
                &&& final(self).states() == old(self).states().remove(node_id)
                &&& forall|y: NodeId| #[trigger] final(self).changed_ids().contains(y) <==> (old(self).changed_ids().contains(y)
                    || y == node_id || has_input_end(v@, y))
                &&& final(self).slot_data_seq() == data_without(old(self).slot_data_seq(), node_id)
                &&& final(self).propagator() == old(self).propagator()
            }),
            final(self).embedded() == old(self).embedded(),
            final(self).inputs() == old(self).inputs(),
    {
        let ghost g0 = self.node_graph;
        let (_, edges) = self.node_graph.remove_node(node_id)?;
        let ghost g1 = self.node_graph;
        insert_sorted_unique(&mut self.changed, node_id);
        let mut k: usize = 0;
        while k < edges.len()
            invariant
                k <= edges.len(),
                strictly_ascending(self.changed@),
                forall|y: NodeId| #[trigger] self.changed@.contains(y) <==> (old(self).changed@.contains(y)
                    || y == node_id || has_input_end(edges@.take(k as int), y)),
                self.node_state == old(self).node_state,
                self.slot_datas == old(self).slot_datas,
                self.embedded_slot_datas == old(self).embedded_slot_datas,
                self.input_slot_datas == old(self).input_slot_datas,
                self.priority_propagator == old(self).priority_propagator,
                self.auto_update == old(self).auto_update,
                self.use_cache == old(self).use_cache,
                g0 == old(self).node_graph,
                self.node_graph == g1,
                old(self).wf(),
            decreases edges.len() - k,
        {
            insert_sorted_unique(&mut self.changed, edges[k].input_id);
            proof {
                let t0 = edges@.take(k as int);
                let t1 = edges@.take(k + 1);
                assert forall|y: NodeId| #[trigger] self.changed@.contains(y) <==> (old(self).changed@.contains(y)
                    || y == node_id || has_input_end(t1, y)) by {
                    if has_input_end(t1, y) {
                        let i = choose|i: int| 0 <= i < t1.len() && (#[trigger] t1[i]).input_id == y;
                        if i < k {
                            assert(t0[i] == t1[i]);
                        } else {
                            assert(t1[i] == edges@[k as int]);
                        }
                    }
                    if has_input_end(t0, y) {
                        let i = choose|i: int| 0 <= i < t0.len() && (#[trigger] t0[i]).input_id == y;
                        assert(t0[i] == t1[i]);
                    }
                    if y == edges@[k as int].input_id {
                        assert(t1[k as int] == edges@[k as int]);
                    }
                }
            }
            k = k + 1;
        }
        let ghost mid_states = self.states();
        proof {
            assert(edges@.take(k as int) =~= edges@);
            lemma_removed_node(g0, self.node_graph, node_id);
        }
        self.remove_state(node_id);
        proof {
            assert forall|id: NodeId| self.states().dom().contains(id) <==> self.node_graph.has_node(id) by {
                assert(mid_states.dom().contains(id) <==> g0.has_node(id));
            }
            assert forall|id: NodeId| self.node_graph.has_node(id) implies has_entry(self.priority_propagator.entries(), id) by {
                assert(g0.has_node(id));
            }
        }
        self.remove_nodes_data(node_id);
        Ok(edges)
    }

    fn touch_priority(&mut self, node_id: NodeId)
        requires
            old(self).priority_propagator.wf(),
        ensures
            final(self).priority_propagator.wf(),
            touched_entry(old(self).priority_propagator.entries(), final(self).priority_propagator.entries(), node_id),
            final(self).node_graph == old(self).node_graph,
            final(self).node_state == old(self).node_state,
            final(self).changed == old(self).changed,
            final(self).slot_datas == old(self).slot_datas,
            final(self).embedded_slot_datas == old(self).embedded_slot_datas,
            final(self).input_slot_datas == old(self).input_slot_datas,
            final(self).auto_update == old(self).auto_update,
            final(self).use_cache == old(self).use_cache,
            forall|id: NodeId| has_entry(final(self).priority_propagator.entries(), id) <==> has_entry(old(self).priority_propagator.entries(), id),
    {
        self.priority_propagator.touch(node_id);
        proof {
            let a = old(self).priority_propagator.entries();
            let b = self.priority_propagator.entries();
            assert forall|k: int| 0 <= k < a.len() implies (#[trigger] b[k]).1.spec_touched() == (a[k].1.spec_touched() || a[k].0 == node_id) by {
                if a[k].0 == node_id {
                    crate::priority::lemma_unique_first(a, node_id, k);
                }
            }
            assert forall|id: NodeId| has_entry(b, id) <==> has_entry(a, id) by {
                if has_entry(b, id) {
                    let k = choose|k: int| 0 <= k < b.len() && (#[trigger] b[k]).0 == id;
                    assert(a[k].0 == id);
                }
                if has_entry(a, id) {
                    let k = choose|k: int| 0 <= k < a.len() && (#[trigger] a[k]).0 == id;
                    assert(b[k].0 == id);
                }
            }
        }
    }

    /// `Ok` when `NodeGraph::can_connect` allows the edge.
    pub fn can_connect(&self, output_node_id: NodeId, input_node_id: NodeId, output_slot_id: SlotId, input_slot_id: SlotId) -> (r: Result<()>)
        requires
            self.graph().slots_known(output_node_id),
            self.graph().slots_known(input_node_id),
        ensures
            match r {
                Ok(_) => self.graph().can_connect_error(output_node_id, input_node_id, output_slot_id, input_slot_id) is None,
                Err(e) => self.graph().can_connect_error(output_node_id, input_node_id, output_slot_id, input_slot_id) == Some(e),
            },
    {
        self.node_graph.can_connect(output_node_id, input_node_id, output_slot_id, input_slot_id)
    }

    /// The edges plugged into a slot (see `NodeGraph::connected_edges`).
    pub fn connected_edges(&self, node_id: NodeId, side: Side, slot_id: SlotId) -> (r: Result<Vec<Edge>>)
        ensures
            match r {
                Ok(v) => self.graph().has_node(node_id) && v@ == crate::node_graph::edges_at_slot(self.graph().edges@, node_id, side, slot_id)
                    && v@.len() > 0,
                Err(e) => if !self.graph().has_node(node_id) {
                    e == TexProError::InvalidNodeId
                } else {
                    e == TexProError::SlotNotOccupied && crate::node_graph::edges_at_slot(self.graph().edges@, node_id, side, slot_id).len() == 0
                },
            },
    {
        self.node_graph.connected_edges(node_id, side, slot_id)
    }

    /// Connects an output slot to an input slot (see `NodeGraph::connect`). The input node then
    /// counts as changed and is dirtied, with what it feeds, and the output node's priority is
    /// marked for propagation. Returns the new edge.
    pub fn connect(&mut self, output_node: NodeId, input_node: NodeId, output_slot: SlotId, input_slot: SlotId) -> (r: Result<Edge>)
        requires
            old(self).wf(),
            old(self).graph().slots_known(output_node),
            old(self).graph().slots_known(input_node),
        ensures
            final(self).wf(),
            match r {
                Ok(e) => {
                    &&& old(self).graph().connect_error(output_node, input_node, output_slot, input_slot) is None
                    &&& e == (Edge { output_id: output_node, input_id: input_node, output_slot: output_slot, input_slot: input_slot })
                    &&& final(self).graph().edges@ == crate::node_graph::edges_off_slot(old(self).graph().edges@, input_node, Side::Input, input_slot).push(e)
                    &&& final(self).graph().nodes@ == old(self).graph().nodes@.update(old(self).graph().index_of(input_node),
                        crate::node_graph::cancelled(old(self).graph().node_at(input_node)))
                    &&& final(self).graph().node_id_counter == old(self).graph().node_id_counter
                    &&& dirtied_from(old(self).states(), final(self).states(), final(self).graph(), input_node)
                    &&& forall|y: NodeId| #[trigger] final(self).changed_ids().contains(y) <==> (old(self).changed_ids().contains(y)
                        || y == input_node || (old(self).states().dom().contains(y) && reach_nd(old(self).states(), final(self).graph(), input_node, y)))
                    &&& touched_entry(old(self).propagator().entries(), final(self).propagator().entries(), output_node)
                },
                Err(e) => {
                    &&& old(self).graph().connect_error(output_node, input_node, output_slot, input_slot) == Some(e)
                    &&& final(self).graph() == old(self).graph()
                    &&& final(self).states() == old(self).states()
                    &&& final(self).changed_ids() == old(self).changed_ids()
                    &&& final(self).propagator() == old(self).propagator()
                },
            },
            final(self).slot_data_seq() == old(self).slot_data_seq(),
            final(self).embedded() == old(self).embedded(),
            final(self).inputs() == old(self).inputs(),
    {
        let ghost g0 = self.node_graph;
        let edge = self.node_graph.connect(output_node, input_node, output_slot, input_slot)?;
        proof {
            crate::node_graph::lemma_has_first_index(g0, input_node);
            crate::node_graph::lemma_cancel_keeps_ids(g0, self.node_graph, g0.index_of(input_node));
        }
        insert_sorted_unique(&mut self.changed, input_node);
        self.touch_priority(output_node);
        let ghost mid = *self;
        proof {
            assert forall|id: NodeId| self.states().dom().contains(id) <==> self.node_graph.has_node(id) by {
                assert(old(self).states().dom().contains(id) <==> g0.has_node(id));
            }
            assert forall|id: NodeId| self.node_graph.has_node(id) implies has_entry(self.priority_propagator.entries(), id) by {
                assert(g0.has_node(id));
            }
        }
        proof {
            assert(mid.states() == old(self).states());
            assert(mid.states().dom().contains(input_node));
        }
        self.set_state(input_node, NodeState::Dirty)?;
        proof {
            assert forall|y: NodeId| #[trigger] self.changed@.contains(y) <==> (old(self).changed@.contains(y)
                || y == input_node || (old(self).states().dom().contains(y) && reach_nd(old(self).states(), self.node_graph, input_node, y))) by {
                assert(mid.changed@.contains(y) <==> (old(self).changed@.contains(y) || y == input_node));
                assert(self.changed_ids().contains(y) <==> (mid.changed_ids().contains(y)
                    || (mid.states().dom().contains(y) && reach_nd(mid.states(), mid.graph(), input_node, y))));
            }
        }
        Ok(edge)
    }

    /// Dirties each of the given nodes in turn (see `set_state`).
    fn dirty_all(&mut self, ids: &Vec<NodeId>)
        requires
            old(self).wf(),
            forall|i: int| 0 <= i < ids@.len() ==> old(self).states().dom().contains(#[trigger] ids@[i]),
        ensures
            final(self).wf(),
            final(self).node_graph == old(self).node_graph,
            final(self).slot_datas@ == old(self).slot_datas@,
            final(self).embedded_slot_datas@ == old(self).embedded_slot_datas@,
            final(self).input_slot_datas@ == old(self).input_slot_datas@,
            final(self).priority_propagator == old(self).priority_propagator,
            final(self).auto_update == old(self).auto_update,
            final(self).use_cache == old(self).use_cache,
            only_dirtied(old(self).states(), final(self).states()),
            forall|i: int| 0 <= i < ids@.len() ==> final(self).states()[#[trigger] ids@[i]] != old(self).states()[ids@[i]]
                || already_dirty(old(self).states()[ids@[i]]),
            forall|y: NodeId| old(self).states().dom().contains(y) && #[trigger] final(self).states()[y] != old(self).states()[y]
                ==> reached_from_some(old(self).node_graph, ids@, y),
            forall|y: NodeId| #[trigger] final(self).changed@.contains(y) <==> (old(self).changed@.contains(y)
                || (old(self).states().dom().contains(y) && final(self).states()[y] != old(self).states()[y])),
    {
        let ghost m0 = self.states();
        let ghost g = self.node_graph;
        let mut t: usize = 0;
        proof {
            assert forall|y: NodeId| #[trigger] m0.dom().contains(y) implies m0[y] == m0[y] || dirtied(m0[y], m0[y]) by {}
        }
        while t < ids.len()
            invariant
                t <= ids.len(),
                self.wf(),
                self.node_graph == g,
                g == old(self).node_graph,
                m0 == old(self).states(),
                self.slot_datas@ == old(self).slot_datas@,
                self.embedded_slot_datas@ == old(self).embedded_slot_datas@,
                self.input_slot_datas@ == old(self).input_slot_datas@,
                self.priority_propagator == old(self).priority_propagator,
                self.auto_update == old(self).auto_update,
                self.use_cache == old(self).use_cache,
                forall|i: int| 0 <= i < ids@.len() ==> m0.dom().contains(#[trigger] ids@[i]),
                only_dirtied(m0, self.states()),
                forall|i: int| 0 <= i < t ==> self.states()[#[trigger] ids@[i]] != m0[ids@[i]] || already_dirty(m0[ids@[i]]),
                forall|y: NodeId| m0.dom().contains(y) && #[trigger] self.states()[y] != m0[y] ==> reached_from_some(g, ids@, y),
                forall|y: NodeId| #[trigger] self.changed@.contains(y) <==> (old(self).changed@.contains(y)
                    || (m0.dom().contains(y) && self.states()[y] != m0[y])),
            decreases ids.len() - t,
        {
            let d = ids[t];
            let ghost mt = self.states();
            let ghost ch = self.changed@;
            proof {
                assert(m0.dom().contains(ids@[t as int]));
            }
            let _ = self.set_state(d, NodeState::Dirty);
            proof {
                let m1 = self.states();
                assert forall|y: NodeId| #[trigger] m0.dom().contains(y) implies m1[y] == m0[y] || dirtied(m0[y], m1[y]) by {
                    assert(mt.dom().contains(y));
                    assert(mt[y] == m0[y] || dirtied(m0[y], mt[y]));
                    if reach_nd(mt, g, d, y) {
                        assert(dirtied(mt[y], m1[y]));
                    }
                }
                assert forall|i: int| 0 <= i < t + 1 implies m1[#[trigger] ids@[i]] != m0[ids@[i]] || already_dirty(m0[ids@[i]]) by {
                    let x = ids@[i];
                    assert(mt.dom().contains(x));
                    lemma_dirtied_rank(m0[x], mt[x]);
                    lemma_dirtied_rank(mt[x], m1[x]);
                    if reach_nd(mt, g, d, x) {
                        assert(dirtied(mt[x], m1[x]));
                    }
                    if i == t && !already_dirty(mt[x]) {
                        let p = seq![x];
                        assert(nd_walk(mt, g, p));
                        assert(reach_nd(mt, g, d, x));
                    }
                }
                assert forall|y: NodeId| m0.dom().contains(y) && #[trigger] m1[y] != m0[y] implies reached_from_some(g, ids@, y) by {
                    assert(mt.dom().contains(y));
                    if reach_nd(mt, g, d, y) {
                        let p = choose|p: Seq<NodeId>| #[trigger] nd_walk(mt, g, p) && p.len() >= 1 && p[0] == d && p.last() == y;
                        assert(g.is_walk(p));
                        assert(walk_reach(g, ids@[t as int], y));
                    } else {
                        assert(m1[y] == mt[y]);
                    }
                }
                assert forall|y: NodeId| #[trigger] self.changed@.contains(y) <==> (old(self).changed@.contains(y)
                    || (m0.dom().contains(y) && m1[y] != m0[y])) by {
                    assert(self.changed_ids().contains(y) <==> (ch.contains(y) || (mt.dom().contains(y) && reach_nd(mt, g, d, y))));
                    assert(ch.contains(y) <==> (old(self).changed@.contains(y) || (m0.dom().contains(y) && mt[y] != m0[y])));
                    if m0.dom().contains(y) {
                        assert(mt.dom().contains(y));
                        lemma_dirtied_rank(m0[y], mt[y]);
                        lemma_dirtied_rank(mt[y], m1[y]);
                        if reach_nd(mt, g, d, y) {
                            assert(dirtied(mt[y], m1[y]));
                        } else {
                            assert(m1[y] == mt[y]);
                        }
                    }
                }
            }
            t = t + 1;
        }
    }

    /// Forgets the outputs of the nodes in `ids`.
    pub fn remove_nodes_datas(&mut self, ids: &Vec<NodeId>)
        requires
            old(self).wf(),
        ensures
            final(self).wf(),
            final(self).slot_data_seq() == data_outside(old(self).slot_data_seq(), ids@),
            final(self).graph() == old(self).graph(),
            final(self).states() == old(self).states(),
            final(self).changed_ids() == old(self).changed_ids(),
            final(self).embedded() == old(self).embedded(),
            final(self).inputs() == old(self).inputs(),
            final(self).propagator() == old(self).propagator(),
            final(self).spec_auto_update() == old(self).spec_auto_update(),
            final(self).spec_use_cache() == old(self).spec_use_cache(),
    {
        self.remove_data_of(ids);
    }

    /// Sets the cancel flag of a node and returns what it was (`InvalidNodeId` when there is no
    /// such node).
    pub fn set_cancel(&mut self, node_id: NodeId, cancel: bool) -> (r: Result<bool>)
        requires
            old(self).wf(),
        ensures
            final(self).wf(),
            old(self).graph().has_node(node_id) ==> r == Ok::<bool, TexProError>(old(self).graph().node_at(node_id).cancel)
                && final(self).graph().nodes@ == old(self).graph().nodes@.update(old(self).graph().index_of(node_id),
                    Node { cancel: cancel, ..old(self).graph().node_at(node_id) })
                && final(self).graph().node_at(node_id).cancel == cancel,
            !old(self).graph().has_node(node_id) ==> r == Err::<bool, TexProError>(TexProError::InvalidNodeId)
                && final(self).graph() == old(self).graph(),
            final(self).graph().edges == old(self).graph().edges,
            final(self).graph().node_id_counter == old(self).graph().node_id_counter,
            forall|id: NodeId| final(self).graph().has_node(id) <==> old(self).graph().has_node(id),
            final(self).states() == old(self).states(),
            final(self).changed_ids() == old(self).changed_ids(),
            final(self).slot_data_seq() == old(self).slot_data_seq(),
            final(self).embedded() == old(self).embedded(),
            final(self).inputs() == old(self).inputs(),
            final(self).propagator() == old(self).propagator(),
            final(self).spec_auto_update() == old(self).spec_auto_update(),
            final(self).spec_use_cache() == old(self).spec_use_cache(),
    {
        let r = self.node_graph.set_cancel(node_id, cancel);
        proof {
            assert forall|id: NodeId| self.states().dom().contains(id) <==> self.node_graph.has_node(id) by {
                assert(old(self).states().dom().contains(id) <==> old(self).node_graph.has_node(id));
            }
            assert forall|id: NodeId| self.node_graph.has_node(id) implies has_entry(self.priority_propagator.entries(), id) by {
                assert(old(self).node_graph.has_node(id));
            }
        }
        r
    }

    /// The ids of the nodes that edges from `node_id` lead into, ascending
    /// (`InvalidNodeId` when there is no such node).
    pub fn get_children(&self, node_id: NodeId) -> (r: Result<Vec<NodeId>>)
        ensures
            match r {
                Ok(v) => self.graph().has_node(node_id) && strictly_ascending(v@)
                    && forall|c: NodeId| v@.contains(c) <==> self.graph().children_set(node_id).contains(c),
                Err(e) => !self.graph().has_node(node_id) && e == TexProError::InvalidNodeId,
            },
    {
        self.node_graph.get_children(node_id)
    }

    /// The ids of the nodes that have an edge into `node_id`, ascending.
    pub fn get_parents(&self, node_id: NodeId) -> (r: Vec<NodeId>)
        ensures
            strictly_ascending(r@),
            forall|p: NodeId| r@.contains(p) <==> self.graph().parents_set(node_id).contains(p),
    {
        self.node_graph.get_parents(node_id)
    }

    /// All nodes above `node_id`: its parents, their parents, and so on, following at most as
    /// many edges as the graph has nodes (which reaches every ancestor in a graph without
    /// cycles).
    pub fn get_ancestors(&self, node_id: NodeId) -> (r: Vec<NodeId>)
        ensures
            forall|x: NodeId| r@.contains(x) <==> self.graph().reaches(x, node_id, self.graph().nodes@.len()),
    {
        self.node_graph.ancestors_within(node_id, self.node_graph.nodes.len())
    }

    /// The ids of the nodes that feed at least one edge, in the order of the nodes.
    pub fn get_root_ids(&self) -> (r: Vec<NodeId>)
        ensures
            r@ == feeding_ids(self.graph().nodes@, self.graph().edges@),
    {
        let nodes = &self.node_graph.nodes;
        let edges = &self.node_graph.edges;
        let mut v: Vec<NodeId> = Vec::new();
        let mut i: usize = 0;
        while i < nodes.len()
            invariant
                i <= nodes.len(),
                v@ == feeding_ids(nodes@.take(i as int), edges@),
            decreases nodes.len() - i,
        {
            let id = nodes[i].node_id;
            let mut found = false;
            let mut k: usize = 0;
            while k < edges.len()
                invariant
                    k <= edges.len(),
                    found <==> exists|m: int| 0 <= m < k && edges@[m].output_id == id,
                decreases edges.len() - k,
            {
                if edges[k].output_id == id {
                    found = true;
                }
                k = k + 1;
            }
            proof {
                assert(nodes@.take(i + 1).drop_last() =~= nodes@.take(i as int));
                assert(nodes@.take(i + 1).last() == nodes@[i as int]);
            }
            if found {
                v.push(id);
            }
            i = i + 1;
        }
        proof {
            assert(nodes@.take(i as int) =~= nodes@);
        }
        v
    }

    /// The edges into the given node, in order.
    pub fn input_edges(&self, node_id: NodeId) -> (r: Vec<Edge>)
        ensures
            r@ == crate::node_graph::edges_into(self.graph().edges@, node_id),
    {
        self.node_graph.input_edges(node_id)
    }

    fn remove_data_of(&mut self, ids: &Vec<NodeId>)
        ensures
            final(self).slot_datas@ == data_outside(old(self).slot_datas@, ids@),
            final(self).node_graph == old(self).node_graph,
            final(self).node_state == old(self).node_state,
            final(self).changed == old(self).changed,
            final(self).embedded_slot_datas == old(self).embedded_slot_datas,
            final(self).input_slot_datas == old(self).input_slot_datas,
            final(self).priority_propagator == old(self).priority_propagator,
            final(self).auto_update == old(self).auto_update,
            final(self).use_cache == old(self).use_cache,
    {
        let mut kept: Vec<SlotData> = Vec::new();
        let mut i: usize = 0;
        while i < self.slot_datas.len()
            invariant
                i <= self.slot_datas.len(),
                self.slot_datas@ == old(self).slot_datas@,
                kept@ == data_outside(self.slot_datas@.take(i as int), ids@),
            decreases self.slot_datas.len() - i,
        {
            proof {
                assert(self.slot_datas@.take(i + 1).drop_last() =~= self.slot_datas@.take(i as int));
            }
            if !contains_id(ids, self.slot_datas[i].node_id) {
                kept.push(self.slot_datas[i]);
            }
            i = i + 1;
        }
        proof {
            assert(self.slot_datas@.take(i as int) =~= self.slot_datas@);
        }
        self.slot_datas = kept;
    }

    /// Removes an edge (see `NodeGraph::remove_edge`). The node it led into and every node below
    /// that node are dirtied and lose their outputs, and the priority of the node it came from is
    /// marked for propagation. `InvalidNodeId` when the edge's input node is missing,
    /// `InvalidEdge` when the graph has no such edge.
    pub fn remove_edge(&mut self, edge: Edge) -> (r: Result<Edge>)
        requires
            old(self).wf(),
        ensures
            final(self).wf(),
            final(self).embedded() == old(self).embedded(),
            final(self).inputs() == old(self).inputs(),
            (!old(self).graph().has_node(edge.input_id) || !old(self).graph().edges@.contains(edge)) ==> {
                &&& r == Err::<Edge, TexProError>(if !old(self).graph().has_node(edge.input_id) { TexProError::InvalidNodeId } else { TexProError::InvalidEdge })
                &&& final(self).graph() == old(self).graph()
                &&& final(self).states() == old(self).states()
                &&& final(self).changed_ids() == old(self).changed_ids()
                &&& final(self).slot_data_seq() == old(self).slot_data_seq()
                &&& final(self).propagator() == old(self).propagator()
            },
            old(self).graph().has_node(edge.input_id) && old(self).graph().edges@.contains(edge) ==> {
                &&& r == Ok::<Edge, TexProError>(edge)
                &&& final(self).graph().edges@ == old(self).graph().edges@.remove(old(self).graph().edge_pos(edge))
                &&& final(self).graph().nodes@ == old(self).graph().nodes@.update(old(self).graph().index_of(edge.input_id),
                    crate::node_graph::cancelled(old(self).graph().node_at(edge.input_id)))
                &&& final(self).graph().node_id_counter == old(self).graph().node_id_counter
                &&& only_dirtied(old(self).states(), final(self).states())
                &&& forall|x: NodeId| #[trigger] below(old(self).graph(), edge.input_id, x) ==>
                    final(self).states()[x] != old(self).states()[x] || already_dirty(old(self).states()[x])
                &&& forall|y: NodeId| old(self).states().dom().contains(y) && #[trigger] final(self).states()[y] != old(self).states()[y]
                    ==> reached_from_below(old(self).graph(), final(self).graph(), edge.input_id, y)
                &&& forall|y: NodeId| #[trigger] final(self).changed_ids().contains(y) <==> (old(self).changed_ids().contains(y)
                    || (old(self).states().dom().contains(y) && final(self).states()[y] != old(self).states()[y]))
                &&& forall|k: int| 0 <= k < final(self).slot_data_seq().len() ==>
                    !below(old(self).graph(), edge.input_id, (#[trigger] final(self).slot_data_seq()[k]).node_id)
                &&& forall|k: int| 0 <= k < old(self).slot_data_seq().len() && !below(old(self).graph(), edge.input_id,
                    (#[trigger] old(self).slot_data_seq()[k]).node_id) ==> final(self).slot_data_seq().contains(old(self).slot_data_seq()[k])
                &&& touched_entry(old(self).propagator().entries(), final(self).propagator().entries(), edge.output_id)
            },
    {
        let ghost g0 = self.node_graph;
        let below_nodes = self.node_graph.get_children_recursive(edge.input_id)?;
        let mut dirty: Vec<NodeId> = Vec::new();
        add_all_sorted(&mut dirty, &below_nodes);
        insert_sorted_unique(&mut dirty, edge.input_id);
        proof {
            assert forall|x: NodeId| dirty@.contains(x) <==> below(g0, edge.input_id, x) by {}
        }
        let e = self.node_graph.remove_edge(edge)?;
        let ghost g1 = self.node_graph;
        proof {
            crate::node_graph::lemma_has_first_index(g0, edge.input_id);
            crate::node_graph::lemma_cancel_keeps_ids(g0, g1, g0.index_of(edge.input_id));
            assert forall|id: NodeId| self.states().dom().contains(id) <==> self.node_graph.has_node(id) by {
                assert(old(self).states().dom().contains(id) <==> g0.has_node(id));
            }
            assert forall|id: NodeId| self.node_graph.has_node(id) implies has_entry(self.priority_propagator.entries(), id) by {
                assert(g0.has_node(id));
            }
            assert forall|i: int| 0 <= i < dirty@.len() implies self.states().dom().contains(#[trigger] dirty@[i]) by {
                assert(dirty@.contains(dirty@[i]));
                if dirty@[i] != edge.input_id {
                    lemma_reaches_in_graph(g0, edge.input_id, dirty@[i], g0.nodes@.len());
                }
            }
        }
        let ghost m0 = self.states();
        self.dirty_all(&dirty);
        let ghost m1 = self.states();
        self.touch_priority(edge.output_id);
        let ghost sd0 = self.slot_datas@;
        self.remove_data_of(&dirty);
        proof {
            assert forall|x: NodeId| #[trigger] below(g0, edge.input_id, x) implies m1[x] != m0[x] || already_dirty(m0[x]) by {
                assert(dirty@.contains(x));
                let i = choose|i: int| 0 <= i < dirty@.len() && dirty@[i] == x;
                assert(m1[dirty@[i]] != m0[dirty@[i]] || already_dirty(m0[dirty@[i]]));
            }
            assert forall|y: NodeId| m0.dom().contains(y) && #[trigger] m1[y] != m0[y] implies reached_from_below(g0, g1, edge.input_id, y) by {
                assert(reached_from_some(g1, dirty@, y));
                let i = choose|i: int| 0 <= i < dirty@.len() && walk_reach(g1, #[trigger] dirty@[i], y);
                assert(dirty@.contains(dirty@[i]));
                assert(below(g0, edge.input_id, dirty@[i]));
            }
            lemma_data_outside(sd0, dirty@);
        }
        Ok(e)
    }

    /// Removes the edges plugged into a slot (see `NodeGraph::disconnect_slot`) and returns
    /// them. The priorities of the nodes they came from are marked for propagation. For an
    /// input slot the node and everything below it is dirtied; for an output slot the node
    /// counts as changed and the nodes below the ones it fed are dirtied. `InvalidNodeId` when
    /// there is no such node, `SlotNotOccupied` when nothing was plugged in.
    pub fn disconnect_slot(&mut self, node_id: NodeId, side: Side, slot_id: SlotId) -> (r: Result<Vec<Edge>>)
        requires
            old(self).wf(),
        ensures
            final(self).wf(),
            final(self).embedded() == old(self).embedded(),
            final(self).inputs() == old(self).inputs(),
            final(self).slot_data_seq() == old(self).slot_data_seq(),
            !old(self).graph().has_node(node_id) ==> r == Err::<Vec<Edge>, TexProError>(TexProError::InvalidNodeId)
                && final(self).graph() == old(self).graph() && final(self).states() == old(self).states()
                && final(self).changed_ids() == old(self).changed_ids() && final(self).propagator() == old(self).propagator(),
            old(self).graph().has_node(node_id) ==> {
                &&& final(self).graph().nodes@ == old(self).graph().nodes@.update(old(self).graph().index_of(node_id),
                    crate::node_graph::cancelled(old(self).graph().node_at(node_id)))
                &&& final(self).graph().edges@ == crate::node_graph::edges_off_slot(old(self).graph().edges@, node_id, side, slot_id)
                &&& final(self).graph().node_id_counter == old(self).graph().node_id_counter
            },
            old(self).graph().has_node(node_id) && crate::node_graph::edges_at_slot(old(self).graph().edges@, node_id, side, slot_id).len() == 0 ==>
                r == Err::<Vec<Edge>, TexProError>(TexProError::SlotNotOccupied) && final(self).states() == old(self).states()
                && final(self).changed_ids() == old(self).changed_ids() && final(self).propagator() == old(self).propagator(),
            old(self).graph().has_node(node_id) && crate::node_graph::edges_at_slot(old(self).graph().edges@, node_id, side, slot_id).len() > 0 ==>
                (r matches Ok(v) && {
                &&& v@ == crate::node_graph::edges_at_slot(old(self).graph().edges@, node_id, side, slot_id)
                &&& only_dirtied(old(self).states(), final(self).states())
                &&& forall|x: NodeId| #[trigger] disconnect_dirty(final(self).graph(), v@, side, node_id, x) ==>
                    final(self).states()[x] != old(self).states()[x] || already_dirty(old(self).states()[x])
                &&& forall|y: NodeId| old(self).states().dom().contains(y) && #[trigger] final(self).states()[y] != old(self).states()[y]
                    ==> reached_from_disconnect(final(self).graph(), v@, side, node_id, y)
                &&& forall|y: NodeId| #[trigger] final(self).changed_ids().contains(y) <==> (old(self).changed_ids().contains(y)
                    || (side == Side::Output && y == node_id)
                    || (old(self).states().dom().contains(y) && final(self).states()[y] != old(self).states()[y]))
                &&& touched_outputs(old(self).propagator().entries(), final(self).propagator().entries(), v@)
            }),
    {
        let ghost g0 = self.node_graph;
        let res = self.node_graph.disconnect_slot(node_id, side, slot_id);
        let ghost g1 = self.node_graph;
        if res.is_err() {
            proof {
                if g0.has_node(node_id) {
                    crate::node_graph::lemma_has_first_index(g0, node_id);
                    crate::node_graph::lemma_cancel_keeps_ids(g0, g1, g0.index_of(node_id));
                    assert forall|id: NodeId| self.states().dom().contains(id) <==> self.node_graph.has_node(id) by {
                        assert(old(self).states().dom().contains(id) <==> g0.has_node(id));
                    }
                    assert forall|id: NodeId| self.node_graph.has_node(id) implies has_entry(self.priority_propagator.entries(), id) by {
                        assert(g0.has_node(id));
                    }
                }
            }
            return res;
        }
        let edges = res.unwrap();
        proof {
            crate::node_graph::lemma_has_first_index(g0, node_id);
            crate::node_graph::lemma_cancel_keeps_ids(g0, g1, g0.index_of(node_id));
            assert forall|id: NodeId| self.states().dom().contains(id) <==> self.node_graph.has_node(id) by {
                assert(old(self).states().dom().contains(id) <==> g0.has_node(id));
            }
            assert forall|id: NodeId| self.node_graph.has_node(id) implies has_entry(self.priority_propagator.entries(), id) by {
                assert(g0.has_node(id));
            }
            crate::node_graph::lemma_slot_filters(g0.edges@, node_id, side, slot_id);
        }
        let mut dirty: Vec<NodeId> = Vec::new();
        let mut k: usize = 0;
        while k < edges.len()
            invariant
                k <= edges.len(),
                self.wf(),
                self.node_graph == g1,
                self.node_state == old(self).node_state,
                self.changed == old(self).changed,
                self.slot_datas == old(self).slot_datas,
                self.embedded_slot_datas == old(self).embedded_slot_datas,
                self.input_slot_datas == old(self).input_slot_datas,
                self.auto_update == old(self).auto_update,
                self.use_cache == old(self).use_cache,
                edges@ == crate::node_graph::edges_at_slot(g0.edges@, node_id, side, slot_id),
                forall|i: int| 0 <= i < edges@.len() ==> g0.edges@.contains(#[trigger] edges@[i]),
                forall|id: NodeId| g0.has_node(id) <==> g1.has_node(id),
                g0.wf(),
                strictly_ascending(dirty@),
                forall|x: NodeId| #[trigger] dirty@.contains(x) <==> exists|i: int| 0 <= i < k
                    && g1.reaches((#[trigger] edges@[i]).input_id, x, g1.nodes@.len()),
                touched_outputs(old(self).priority_propagator.entries(), self.priority_propagator.entries(), edges@.take(k as int)),
            decreases edges.len() - k,
        {
            let e = edges[k];
            proof {
                assert(g0.edges@.contains(e));
                let j = choose|j: int| 0 <= j < g0.edges@.len() && g0.edges@[j] == e;
                assert(g0.has_node(g0.edges@[j].output_id));
                assert(g0.has_node(g0.edges@[j].input_id));
            }
            let below_nodes = match self.node_graph.get_children_recursive(e.input_id) {
                Ok(v) => v,
                Err(_) => {
                    proof {
                        assert(false);
                    }
                    Vec::new()
                }
            };
            let ghost d0 = dirty@;
            add_all_sorted(&mut dirty, &below_nodes);
            let ghost pe = self.priority_propagator.entries();
            self.touch_priority(e.output_id);
            proof {
                assert forall|x: NodeId| #[trigger] dirty@.contains(x) <==> exists|i: int| 0 <= i < k + 1
                    && g1.reaches((#[trigger] edges@[i]).input_id, x, g1.nodes@.len()) by {
                    if exists|i: int| 0 <= i < k + 1 && g1.reaches((#[trigger] edges@[i]).input_id, x, g1.nodes@.len()) {
                        let i = choose|i: int| 0 <= i < k + 1 && g1.reaches((#[trigger] edges@[i]).input_id, x, g1.nodes@.len());
                        if i < k {
                            assert(d0.contains(x));
                        } else {
                            assert(below_nodes@.contains(x));
                        }
                    }
                    if d0.contains(x) {
                        let i = choose|i: int| 0 <= i < k && g1.reaches((#[trigger] edges@[i]).input_id, x, g1.nodes@.len());
                    }
                }
                let t0 = edges@.take(k as int);
                let t1 = edges@.take(k + 1);
                let a = old(self).priority_propagator.entries();
                let b = self.priority_propagator.entries();
                assert forall|i: int| 0 <= i < a.len() implies {
                    &&& (#[trigger] b[i]).0 == a[i].0
                    &&& b[i].1.spec_priority() == a[i].1.spec_priority()
                    &&& b[i].1.spec_propagated() == a[i].1.spec_propagated()
                    &&& b[i].1.spec_touched() == (a[i].1.spec_touched() || has_output_end(t1, a[i].0))
                } by {
                    assert(pe[i].0 == a[i].0);
                    if has_output_end(t1, a[i].0) {
                        let j = choose|j: int| 0 <= j < t1.len() && (#[trigger] t1[j]).output_id == a[i].0;
                        if j < k {
                            assert(t0[j] == t1[j]);
                            assert(has_output_end(t0, a[i].0));
                        }
                    }
                    if has_output_end(t0, a[i].0) {
                        let j = choose|j: int| 0 <= j < t0.len() && (#[trigger] t0[j]).output_id == a[i].0;
                        assert(t1[j] == t0[j]);
                    }
                    if a[i].0 == e.output_id {
                        assert(t1[k as int] == e);
                    }
                }
            }
            k = k + 1;
        }
        if side == Side::Input {
            insert_sorted_unique(&mut dirty, node_id);
        } else {
            insert_sorted_unique(&mut self.changed, node_id);
        }
        let ghost m0 = self.states();
        let ghost ch0 = self.changed@;
        proof {
            assert(edges@.take(k as int) =~= edges@);
            assert forall|x: NodeId| dirty@.contains(x) <==> disconnect_dirty(g1, edges@, side, node_id, x) by {}
            assert forall|i: int| 0 <= i < dirty@.len() implies self.states().dom().contains(#[trigger] dirty@[i]) by {
                let x = dirty@[i];
                assert(dirty@.contains(x));
                if !(side == Side::Input && x == node_id) {
                    let j = choose|j: int| 0 <= j < edges@.len() && g1.reaches((#[trigger] edges@[j]).input_id, x, g1.nodes@.len());
                    lemma_reaches_in_graph(g1, edges@[j].input_id, x, g1.nodes@.len());
                }
            }
        }
        self.dirty_all(&dirty);
        proof {
            let m1 = self.states();
            assert forall|x: NodeId| #[trigger] disconnect_dirty(g1, edges@, side, node_id, x) implies
                m1[x] != m0[x] || already_dirty(m0[x]) by {
                assert(dirty@.contains(x));
                let i = choose|i: int| 0 <= i < dirty@.len() && dirty@[i] == x;
                assert(m1[dirty@[i]] != m0[dirty@[i]] || already_dirty(m0[dirty@[i]]));
            }
            assert forall|y: NodeId| m0.dom().contains(y) && #[trigger] m1[y] != m0[y] implies
                reached_from_disconnect(g1, edges@, side, node_id, y) by {
                assert(reached_from_some(g1, dirty@, y));
                let i = choose|i: int| 0 <= i < dirty@.len() && walk_reach(g1, #[trigger] dirty@[i], y);
                assert(dirty@.contains(dirty@[i]));
                assert(disconnect_dirty(g1, edges@, side, node_id, dirty@[i]));
            }
            assert forall|y: NodeId| #[trigger] self.changed_ids().contains(y) <==> (old(self).changed_ids().contains(y)
                || (side == Side::Output && y == node_id) || (m0.dom().contains(y) && m1[y] != m0[y])) by {
                assert(ch0.contains(y) <==> (old(self).changed@.contains(y) || (side == Side::Output && y == node_id)));
            }
        }
        Ok(edges)
    }

    /// The node graph.
    pub fn node_graph(&self) -> (r: &NodeGraph)
        ensures
            *r == self.graph(),
    {
        &self.node_graph
    }

    /// `Ok` when the graph has a node with this id (`InvalidNodeId` otherwise).
    pub fn has_node(&self, node_id: NodeId) -> (r: Result<()>)
        ensures
            r is Ok <==> self.graph().has_node(node_id),
            r is Err ==> r == Err::<(), TexProError>(TexProError::InvalidNodeId),
    {
        self.node_graph.has_node_with_id(node_id)
    }

    /// A copy of the node with this id (`InvalidNodeId` when there is none).
    pub fn node(&self, node_id: NodeId) -> (r: Result<Node>)
        ensures
            match r {
                Ok(n) => self.graph().has_node(node_id) && crate::node::node_type::node_copy(self.graph().node_at(node_id), n),
                Err(e) => !self.graph().has_node(node_id) && e == TexProError::InvalidNodeId,
            },
    {
        self.node_graph.node(node_id)
    }

    /// Replaces the node with this id by `node`, which has the same id (`InvalidNodeId` when
    /// there is no such node).
    pub fn set_node_with_id(&mut self, node_id: NodeId, node: Node) -> (r: Result<()>)
        requires
            old(self).wf(),
            node.node_id == node_id,
        ensures
            final(self).wf(),
            old(self).graph().has_node(node_id) ==> r is Ok
                && final(self).graph().nodes@ == old(self).graph().nodes@.update(old(self).graph().index_of(node_id), node),
            !old(self).graph().has_node(node_id) ==> r == Err::<(), TexProError>(TexProError::InvalidNodeId)
                && final(self).graph() == old(self).graph(),
            final(self).graph().edges == old(self).graph().edges,
            final(self).graph().node_id_counter == old(self).graph().node_id_counter,
            final(self).states() == old(self).states(),
            final(self).changed_ids() == old(self).changed_ids(),
            final(self).slot_data_seq() == old(self).slot_data_seq(),
    {
        let r = self.node_graph.replace_node(node_id, node);
        proof {
            assert forall|id: NodeId| self.states().dom().contains(id) <==> self.node_graph.has_node(id) by {
                assert(old(self).states().dom().contains(id) <==> old(self).node_graph.has_node(id));
            }
            assert forall|id: NodeId| self.node_graph.has_node(id) implies has_entry(self.priority_propagator.entries(), id) by {
                assert(old(self).node_graph.has_node(id));
            }
        }
        r
    }

    /// The first output of the given node and slot (`NoSlotData` when there is none).
    pub fn slot_data(&self, node_id: NodeId, slot_id: SlotId) -> (r: Result<SlotData>)
        ensures
            has_slot_data(self.slot_data_seq(), node_id, slot_id) ==>
                r == Ok::<SlotData, TexProError>(slot_data_of(self.slot_data_seq(), node_id, slot_id)),
            !has_slot_data(self.slot_data_seq(), node_id, slot_id) ==> r == Err::<SlotData, TexProError>(TexProError::NoSlotData),
    {
        match crate::slot_data::find_slot_data(self.slot_datas.as_slice(), node_id, slot_id) {
            Some(i) => Ok(self.slot_datas[i]),
            None => Err(TexProError::NoSlotData),
        }
    }

    /// Whether every buffer of the first output of the given node and slot is among the
    /// `resident` ones, that is, in memory (`NoSlotData` when there is no such output).
    pub fn slot_in_memory(&self, node_id: NodeId, slot_id: SlotId, resident: &Vec<u64>) -> (r: Result<bool>)
        ensures
            has_slot_data(self.slot_data_seq(), node_id, slot_id) ==> r == Ok::<bool, TexProError>(
                forall|k: int| 0 <= k < slot_data_of(self.slot_data_seq(), node_id, slot_id).image.spec_bufs().len()
                    ==> resident@.contains(#[trigger] slot_data_of(self.slot_data_seq(), node_id, slot_id).image.spec_bufs()[k].id)),
            !has_slot_data(self.slot_data_seq(), node_id, slot_id) ==> r == Err::<bool, TexProError>(TexProError::NoSlotData),
    {
        let sd = self.slot_data(node_id, slot_id)?;
        sd.in_memory(resident)
    }

    /// The size of the first output of the given node and slot (`NoSlotData` when there is
    /// none).
    pub fn slot_data_size(&self, node_id: NodeId, slot_id: SlotId) -> (r: Result<Size>)
        ensures
            has_slot_data(self.slot_data_seq(), node_id, slot_id) ==>
                r == Ok::<Size, TexProError>(slot_data_of(self.slot_data_seq(), node_id, slot_id).image.spec_size()),
            !has_slot_data(self.slot_data_seq(), node_id, slot_id) ==> r == Err::<Size, TexProError>(TexProError::NoSlotData),
    {
        let sd = self.slot_data(node_id, slot_id)?;
        sd.size()
    }

    /// The outputs of a node: for each of its outputs, in order, the first output of that node
    /// and slot.
    pub fn node_slot_datas(&self, node_id: NodeId) -> (r: Result<Vec<SlotData>>)
        ensures
            r matches Ok(v) && v@ == node_outputs(self.slot_data_seq(), self.slot_data_seq(), node_id),
    {
        let mut out: Vec<SlotData> = Vec::new();
        let mut i: usize = 0;
        while i < self.slot_datas.len()
            invariant
                i <= self.slot_datas.len(),
                out@ == node_outputs(self.slot_datas@, self.slot_datas@.take(i as int), node_id),
            decreases self.slot_datas.len() - i,
        {
            proof {
                assert(self.slot_datas@.take(i + 1).drop_last() =~= self.slot_datas@.take(i as int));
            }
            if self.slot_datas[i].node_id == node_id {
                let slot_id = self.slot_datas[i].slot_id;
                match crate::slot_data::find_slot_data(self.slot_datas.as_slice(), node_id, slot_id) {
                    Some(j) => {
                        out.push(self.slot_datas[j]);
                    }
                    None => {
                        proof {
                            assert(self.slot_datas@[i as int].node_id == node_id && self.slot_datas@[i as int].slot_id == slot_id);
                        }
                    }
                }
            }
            i = i + 1;
        }
        proof {
            assert(self.slot_datas@.take(i as int) =~= self.slot_datas@);
        }
        Ok(out)
    }

    /// Keeps the outputs of a processed node.
    pub fn add_slot_datas(&mut self, slot_datas: Vec<SlotData>)
        requires
            old(self).wf(),
        ensures
            final(self).wf(),
            final(self).slot_data_seq() == old(self).slot_data_seq() + slot_datas@,
            final(self).graph() == old(self).graph(),
            final(self).states() == old(self).states(),
            final(self).changed_ids() == old(self).changed_ids(),
            final(self).embedded() == old(self).embedded(),
            final(self).inputs() == old(self).inputs(),
            final(self).propagator() == old(self).propagator(),
            final(self).spec_auto_update() == old(self).spec_auto_update(),
            final(self).spec_use_cache() == old(self).spec_use_cache(),
    {
        let mut v = slot_datas;
        self.slot_datas.append(&mut v);
    }

    /// The embedded outputs.
    pub fn embedded_slot_datas(&self) -> (r: &Vec<EmbeddedSlotData>)
        ensures
            r@ == self.embedded(),
    {
        &self.embedded_slot_datas
    }

    /// The outputs handed to the graph's input nodes.
    pub fn input_slot_datas(&self) -> (r: &Vec<SlotData>)
        ensures
            r@ == self.inputs(),
    {
        &self.input_slot_datas
    }

    /// Embeds an output under `id`, for `Embed` nodes to use; `InvalidSlotId` when an embedded
    /// output has that id already.
    pub fn embed_slot_data_with_id(&mut self, slot_data: SlotData, id: EmbeddedSlotDataId) -> (r: Result<EmbeddedSlotDataId>)
        requires
            old(self).wf(),
        ensures
            final(self).wf(),
            (forall|k: int| 0 <= k < old(self).embedded().len() ==> (#[trigger] old(self).embedded()[k]).slot_data_id != id) ==> {
                &&& r == Ok::<EmbeddedSlotDataId, TexProError>(id)
                &&& final(self).embedded().len() == old(self).embedded().len() + 1
                &&& final(self).embedded().drop_last() == old(self).embedded()
                &&& final(self).embedded().last().slot_data_id == id
                &&& final(self).embedded().last().slot_id == slot_data.slot_id
                &&& final(self).embedded().last().size == slot_data.image.spec_size()
                &&& final(self).embedded().last().image == slot_data.image
            },
            !(forall|k: int| 0 <= k < old(self).embedded().len() ==> (#[trigger] old(self).embedded()[k]).slot_data_id != id) ==>
                r == Err::<EmbeddedSlotDataId, TexProError>(TexProError::InvalidSlotId) && final(self).embedded() == old(self).embedded(),
            final(self).graph() == old(self).graph(),
            final(self).states() == old(self).states(),
            final(self).changed_ids() == old(self).changed_ids(),
            final(self).slot_data_seq() == old(self).slot_data_seq(),
            final(self).inputs() == old(self).inputs(),
    {
        let mut k: usize = 0;
        while k < self.embedded_slot_datas.len()
            invariant
                k <= self.embedded_slot_datas.len(),
                *self == *old(self),
                old(self).wf(),
                forall|j: int| 0 <= j < k ==> (#[trigger] self.embedded_slot_datas@[j]).slot_data_id != id,
            decreases self.embedded_slot_datas.len() - k,
        {
            if self.embedded_slot_datas[k].slot_data_id == id {
                return Err(TexProError::InvalidSlotId);
            }
            k = k + 1;
        }
        self.embedded_slot_datas.push(EmbeddedSlotData::from_slot_data(slot_data, id));
        proof {
            assert(self.embedded_slot_datas@.drop_last() =~= old(self).embedded_slot_datas@);
        }
        Ok(id)
    }

    /// Adds an output for the graph's input nodes to use.
    pub fn add_input_slot_data(&mut self, slot_data: SlotData)
        requires
            old(self).wf(),
        ensures
            final(self).wf(),
            final(self).inputs() == old(self).inputs().push(slot_data),
            final(self).graph() == old(self).graph(),
            final(self).states() == old(self).states(),
            final(self).changed_ids() == old(self).changed_ids(),
            final(self).slot_data_seq() == old(self).slot_data_seq(),
            final(self).embedded() == old(self).embedded(),
    {
        self.input_slot_datas.push(slot_data);
    }

    /// A new id that no node has (see `NodeGraph::new_id`).
    pub fn new_id(&mut self) -> (r: NodeId)
        requires
            old(self).wf(),
            old(self).graph().has_free_id(),
        ensures
            final(self).wf(),
            !final(self).graph().has_node(r),
            old(self).graph().node_id_counter.0 <= r.0,
            forall|x: u32| old(self).graph().node_id_counter.0 <= x < r.0 ==> #[trigger] old(self).graph().has_node(NodeId(x)),
            final(self).graph().node_id_counter.0 == r.0 + 1,
            final(self).graph().nodes == old(self).graph().nodes,
            final(self).graph().edges == old(self).graph().edges,
            final(self).states() == old(self).states(),
            final(self).changed_ids() == old(self).changed_ids(),
            final(self).slot_data_seq() == old(self).slot_data_seq(),
    {
        let r = self.node_graph.new_id();
        proof {
            crate::node_graph::lemma_same_ids(old(self).node_graph, self.node_graph);
            assert forall|id: NodeId| self.states().dom().contains(id) <==> self.node_graph.has_node(id) by {
                assert(old(self).states().dom().contains(id) <==> old(self).node_graph.has_node(id));
            }
            assert forall|id: NodeId| self.node_graph.has_node(id) implies has_entry(self.priority_propagator.entries(), id) by {
                assert(old(self).node_graph.has_node(id));
            }
        }
        r
    }

    /// The ids of all output nodes, in order.
    pub fn output_ids(&self) -> (r: Vec<NodeId>)
        ensures
            r@ == crate::node_graph::io_ids(self.graph().nodes@, false),
    {
        self.node_graph.output_ids()
    }

    /// The ids of all nodes, in order.
    pub fn node_ids(&self) -> (r: Vec<NodeId>)
        ensures
            r@ == self.graph().ids(),
    {
        self.node_graph.node_ids()
    }

    /// All edges, in order.
    pub fn edges(&self) -> (r: Vec<Edge>)
        ensures
            r@ == self.graph().edges@,
    {
        let r = self.node_graph.edges.clone();
        proof {
            assert(r@ =~= self.node_graph.edges@);
        }
        r
    }

    /// Renames an output node (see `NodeGraph::rename_output_node`); returns the old name.
    pub fn rename_output_node(&mut self, node_id: NodeId, new_name: &str) -> (r: Result<String>)
        requires
            old(self).wf(),
            old(self).graph().nodes@.len() < u32::MAX,
        ensures
            final(self).wf(),
            !old(self).graph().has_node(node_id) ==> r == Err::<String, TexProError>(TexProError::InvalidNodeId)
                && final(self).graph() == old(self).graph(),
            old(self).graph().has_node(node_id) && !old(self).graph().node_at(node_id).node_type.spec_is_output() ==>
                r == Err::<String, TexProError>(TexProError::InvalidNodeType) && final(self).graph() == old(self).graph(),
            old(self).graph().has_node(node_id) && old(self).graph().node_at(node_id).node_type.spec_is_output() ==> {
                &&& r matches Ok(old_name) && Some(old_name@) == old(self).graph().node_at(node_id).node_type.spec_name()
                &&& exists|t: crate::node::node_type::NodeType, name: Seq<char>| {
                    &&& final(self).graph().nodes@ == old(self).graph().nodes@.update(old(self).graph().index_of(node_id),
                        Node { node_type: t, ..old(self).graph().node_at(node_id) })
                    &&& crate::node_graph::renamed(old(self).graph().node_at(node_id).node_type, t, name)
                    &&& crate::node_graph::free_name(crate::node_graph::without_first(crate::node_graph::io_names(old(self).graph().nodes@, false),
                        old(self).graph().node_at(node_id).node_type.spec_name().unwrap()), new_name@, name)
                }
                &&& final(self).graph().edges == old(self).graph().edges
                &&& final(self).graph().node_id_counter == old(self).graph().node_id_counter
            },
            final(self).states() == old(self).states(),
            final(self).changed_ids() == old(self).changed_ids(),
            final(self).slot_data_seq() == old(self).slot_data_seq(),
    {
        let r = self.node_graph.rename_output_node(node_id, new_name);
        proof {
            if old(self).node_graph.has_node(node_id) && old(self).node_graph.node_at(node_id).node_type.spec_is_output() {
                crate::node_graph::lemma_has_first_index(old(self).node_graph, node_id);
                let i = old(self).node_graph.index_of(node_id);
                assert forall|j: int| 0 <= j < old(self).node_graph.nodes@.len() implies
                    (#[trigger] old(self).node_graph.nodes@[j]).node_id == self.node_graph.nodes@[j].node_id by {
                    if j == i {
                        assert(old(self).node_graph.nodes@[i].node_id == node_id);
                    }
                }
            }
            crate::node_graph::lemma_same_ids(old(self).node_graph, self.node_graph);
            assert forall|id: NodeId| self.states().dom().contains(id) <==> self.node_graph.has_node(id) by {
                assert(old(self).states().dom().contains(id) <==> old(self).node_graph.has_node(id));
            }
            assert forall|id: NodeId| self.node_graph.has_node(id) implies has_entry(self.priority_propagator.entries(), id) by {
                assert(old(self).node_graph.has_node(id));
            }
        }
        r
    }

    /// Brings the propagated priorities up to date (see `PriorityPropagator::update`); the
    /// entries of removed nodes in `held` stay.
    pub fn propagate_priorities(&mut self, held: &Vec<NodeId>)
        requires
            old(self).wf(),
        ensures
            final(self).wf(),
            final(self).graph() == old(self).graph(),
            final(self).states() == old(self).states(),
            final(self).changed_ids() == old(self).changed_ids(),
            final(self).slot_data_seq() == old(self).slot_data_seq(),
            forall|id: NodeId| has_entry(final(self).propagator().entries(), id) <==> (has_entry(old(self).propagator().entries(), id) && crate::priority::kept_id(old(self).graph(), held@, id)),
            forall|k: int| 0 <= k < final(self).propagator().entries().len() ==>
                crate::priority::kept_from(old(self).propagator().entries(), #[trigger] final(self).propagator().entries()[k]),
            forall|i: int, j: int| 0 <= i < j < final(self).propagator().entries().len() ==>
                (#[trigger] final(self).propagator().entries()[i]).1.spec_priority() <= (#[trigger] final(self).propagator().entries()[j]).1.spec_priority(),
            forall|k: int| 0 <= k < final(self).propagator().entries().len() ==> !(#[trigger] final(self).propagator().entries()[k]).1.spec_touched(),
            exists|s: Seq<(NodeId, Priority)>| {
                &&& crate::priority::unique_entries(s)
                &&& forall|x: (NodeId, Priority)| #[trigger] s.contains(x) <==> old(self).propagator().entries().contains(x) && crate::priority::kept_id(old(self).graph(), held@, x.0)
                &&& forall|a: int, b: int| 0 <= a < b < s.len() ==> (#[trigger] s[a]).1.spec_priority() <= (#[trigger] s[b]).1.spec_priority()
                &&& final(self).propagator().entries() == crate::priority::update_from(s, old(self).graph(), s.len() as int, old(self).graph().nodes@.len() as nat)
            },
    {
        self.priority_propagator.update(&self.node_graph, held);
    }

    /// Sets the own priority of a node (`InvalidNodeId` when it has no priority entry: every node
    /// of the graph has one, and a removed node keeps its own until a propagation drops it).
    pub fn set_priority(&mut self, node_id: NodeId, priority: i8) -> (r: Result<()>)
        requires
            old(self).wf(),
        ensures
            final(self).wf(),
            r is Ok <==> has_entry(old(self).propagator().entries(), node_id),
            old(self).graph().has_node(node_id) ==> r is Ok,
            r is Err ==> r == Err::<(), TexProError>(TexProError::InvalidNodeId),
            final(self).propagator().entries().len() == old(self).propagator().entries().len(),
            forall|k: int| 0 <= k < old(self).propagator().entries().len() ==> {
                &&& (#[trigger] final(self).propagator().entries()[k]).0 == old(self).propagator().entries()[k].0
                &&& final(self).propagator().entries()[k].1.spec_propagated() == old(self).propagator().entries()[k].1.spec_propagated()
                &&& if old(self).propagator().entries()[k].0 == node_id {
                    &&& final(self).propagator().entries()[k].1.spec_priority() == priority
                    &&& final(self).propagator().entries()[k].1.spec_touched() == (old(self).propagator().entries()[k].1.spec_touched()
                        || old(self).propagator().entries()[k].1.spec_priority() != priority)
                } else {
                    final(self).propagator().entries()[k].1 == old(self).propagator().entries()[k].1
                }
            },
            final(self).graph() == old(self).graph(),
            final(self).states() == old(self).states(),
            final(self).changed_ids() == old(self).changed_ids(),
            final(self).slot_data_seq() == old(self).slot_data_seq(),
    {
        let ghost a = self.priority_propagator.entries();
        let found = self.priority_propagator.set_priority(node_id, priority);
        proof {
            assert forall|k: int| 0 <= k < a.len() && a[k].0 == node_id implies k == crate::priority::first_entry(a, node_id) by {
                crate::priority::lemma_unique_first(a, node_id, k);
            }
            assert forall|id: NodeId| self.node_graph.has_node(id) implies has_entry(self.priority_propagator.entries(), id) by {
                let k = choose|k: int| 0 <= k < a.len() && (#[trigger] a[k]).0 == id;
                assert(self.priority_propagator.entries()[k].0 == id);
            }
        }
        if found {
            Ok(())
        } else {
            Err(TexProError::InvalidNodeId)
        }
    }

    /// The priority of a node (`InvalidNodeId` when it has no priority entry: every node of the
    /// graph has one, and a removed node keeps its own until a propagation drops it).
    pub fn priority(&self, node_id: NodeId) -> (r: Result<Priority>)
        requires
            self.wf(),
        ensures
            r is Ok <==> has_entry(self.propagator().entries(), node_id),
            self.graph().has_node(node_id) ==> r is Ok,
            r is Err ==> r == Err::<Priority, TexProError>(TexProError::InvalidNodeId),
            r matches Ok(p) ==> exists|k: int| 0 <= k < self.propagator().entries().len()
                && #[trigger] self.propagator().entries()[k] == (node_id, p),
    {
        match self.priority_propagator.priority_of(node_id) {
            Some(p) => {
                proof {
                    let k = choose|k: int| 0 <= k < self.priority_propagator.entries().len()
                        && #[trigger] self.priority_propagator.entries()[k] == (node_id, p);
                    assert(self.propagator().entries()[k] == (node_id, p));
                    assert(self.propagator().entries()[k].0 == node_id);
                }
                Ok(p)
            }
            None => Err(TexProError::InvalidNodeId),
        }
    }

    /// Replaces the node graph: every node starts out dirty with a fresh priority, and the
    /// outputs of the old graph are forgotten.
    pub fn set_node_graph(&mut self, node_graph: NodeGraph)
        requires
            old(self).wf(),
            node_graph.wf(),
        ensures
            final(self).wf(),
            final(self).graph() == node_graph,
            forall|id: NodeId| #[trigger] final(self).states().dom().contains(id) <==> node_graph.has_node(id),
            forall|id: NodeId| #[trigger] final(self).states().dom().contains(id) ==> final(self).states()[id] == NodeState::Dirty,
            final(self).slot_data_seq() == Seq::<SlotData>::empty(),
            final(self).changed_ids() == old(self).changed_ids(),
            final(self).embedded() == old(self).embedded(),
            final(self).inputs() == old(self).inputs(),
    {
        self.node_graph = node_graph;
        self.reset_node_states();
        self.slot_datas = Vec::new();
    }

    /// Every node becomes dirty, with a fresh priority.
    fn reset_node_states(&mut self)
        requires
            old(self).node_graph.wf(),
            strictly_ascending(old(self).changed@),
        ensures
            final(self).wf(),
            final(self).node_graph == old(self).node_graph,
            forall|id: NodeId| #[trigger] final(self).states().dom().contains(id) ==> final(self).states()[id] == NodeState::Dirty,
            final(self).changed == old(self).changed,
            final(self).slot_datas == old(self).slot_datas,
            final(self).embedded_slot_datas == old(self).embedded_slot_datas,
            final(self).input_slot_datas == old(self).input_slot_datas,
    {
        self.node_state = Vec::new();
        self.priority_propagator = PriorityPropagator::new();
        let ids = self.node_graph.node_ids();
        let mut i: usize = 0;
        proof {
            assert(self.states() =~= Map::<NodeId, NodeState>::empty());
        }
        while i < ids.len()
            invariant
                i <= ids.len(),
                ids@ == self.node_graph.ids(),
                self.node_graph == old(self).node_graph,
                self.node_graph.wf(),
                self.changed == old(self).changed,
                self.slot_datas == old(self).slot_datas,
                self.embedded_slot_datas == old(self).embedded_slot_datas,
                self.input_slot_datas == old(self).input_slot_datas,
                self.auto_update == old(self).auto_update,
                self.use_cache == old(self).use_cache,
                keys_ascending(self.node_state@),
                self.priority_propagator.wf(),
                forall|id: NodeId| #[trigger] self.states().dom().contains(id) <==> ids@.take(i as int).contains(id),
                forall|id: NodeId| #[trigger] self.states().dom().contains(id) ==> self.states()[id] == NodeState::Dirty,
                forall|id: NodeId| #[trigger] ids@.take(i as int).contains(id) ==> has_entry(self.priority_propagator.entries(), id),
            decreases ids.len() - i,
        {
            let id = ids[i];
            let ghost t0 = ids@.take(i as int);
            let ghost t1 = ids@.take(i + 1);
            proof {
                assert(t1 =~= t0.push(id));
                if t0.contains(id) {
                    let j = choose|j: int| 0 <= j < t0.len() && t0[j] == id;
                    assert(ids@[j] == self.node_graph.nodes@[j].node_id);
                    assert(ids@[i as int] == self.node_graph.nodes@[i as int].node_id);
                }
            }
            self.insert_state(id, NodeState::Dirty);
            let ghost pe = self.priority_propagator.entries();
            self.priority_propagator.push_priority(id, Priority::new());
            proof {
                assert forall|x: NodeId| #[trigger] self.states().dom().contains(x) <==> t1.contains(x) by {
                    if t0.contains(x) {
                        let j = choose|j: int| 0 <= j < t0.len() && t0[j] == x;
                        assert(t1[j] == x);
                    }
                    if t1.contains(x) && x != id {
                        let j = choose|j: int| 0 <= j < t1.len() && t1[j] == x;
                        assert(t0[j] == x);
                    }
                    if x == id {
                        assert(t1[i as int] == x);
                    }
                }
                assert forall|x: NodeId| t1.contains(x) implies has_entry(self.priority_propagator.entries(), x) by {
                    if x != id {
                        let j = choose|j: int| 0 <= j < t1.len() && t1[j] == x;
                        assert(t0[j] == x);
                        assert(t0.contains(x));
                        let k = choose|k: int| 0 <= k < pe.len() && (#[trigger] pe[k]).0 == x;
                        if !has_entry(pe, id) {
                            assert(self.priority_propagator.entries()[k] == pe[k]);
                        }
                    } else if !has_entry(pe, id) {
                        assert(self.priority_propagator.entries()[pe.len() as int].0 == id);
                    }
                }
            }
            i = i + 1;
        }
        proof {
            assert(ids@.take(i as int) =~= ids@);
            assert forall|id: NodeId| self.states().dom().contains(id) <==> self.node_graph.has_node(id) by {
                if self.node_graph.has_node(id) {
                    let j = choose|j: int| 0 <= j < self.node_graph.nodes@.len() && self.node_graph.nodes@[j].node_id == id;
                    assert(ids@[j] == id);
                }
                if ids@.contains(id) {
                    let j = choose|j: int| 0 <= j < ids@.len() && ids@[j] == id;
                    assert(self.node_graph.nodes@[j].node_id == id);
                }
            }
        }
    }

    fn closest_within(&self, node_id: NodeId, fuel: usize) -> (r: Vec<NodeId>)
        requires
            self.wf(),
        ensures
            strictly_ascending(r@),
            forall|y: NodeId| #[trigger] r@.contains(y) <==> closest(self.states(), self.graph(), node_id, y, fuel as nat),
        decreases fuel,
    {
        let ghost m = self.states();
        let ghost g = self.node_graph;
        let parents = self.node_graph.get_parents(node_id);
        let mut waiting_parents: Vec<NodeId> = Vec::new();
        let mut busy = false;
        let mut i: usize = 0;
        while i < parents.len()
            invariant
                i <= parents.len(),
                self.wf(),
                m == self.states(),
                g == self.node_graph,
                forall|p: NodeId| parents@.contains(p) <==> g.parents_set(node_id).contains(p),
                forall|q: NodeId| #[trigger] waiting_parents@.contains(q) ==> g.parents_set(node_id).contains(q) && waiting(m[q]),
                forall|j: int| 0 <= j < i && waiting(m[parents@[j]]) ==> waiting_parents@.contains(#[trigger] parents@[j]),
                busy <==> exists|j: int| 0 <= j < i && !waiting(m[#[trigger] parents@[j]]) && m[parents@[j]] != NodeState::Clean,
            decreases parents.len() - i,
        {
            let p = parents[i];
            proof {
                assert(parents@.contains(p));
                assert(g.parents_set(node_id).contains(p));
                let k = choose|k: int| 0 <= k < g.edges@.len() && g.edges@[k].input_id == node_id && g.edges@[k].output_id == p;
                assert(g.has_node(g.edges@[k].output_id));
            }
            let st = match self.node_state(p) {
                Ok(st) => st,
                Err(_) => {
                    proof {
                        assert(false);
                    }
                    NodeState::Clean
                }
            };
            let ghost w0 = waiting_parents@;
            if st == NodeState::Dirty || st == NodeState::Requested || st == NodeState::Prioritised {
                waiting_parents.push(p);
            } else if st != NodeState::Clean {
                busy = true;
            }
            proof {
                assert(m[p] == st);
                assert forall|q: NodeId| #[trigger] waiting_parents@.contains(q) implies g.parents_set(node_id).contains(q) && waiting(m[q]) by {
                    if q != p {
                        let j = choose|j: int| 0 <= j < waiting_parents@.len() && waiting_parents@[j] == q;
                        assert(w0[j] == q);
                        assert(w0.contains(q));
                    }
                }
                assert forall|j: int| 0 <= j < i + 1 && waiting(m[parents@[j]]) implies waiting_parents@.contains(#[trigger] parents@[j]) by {
                    if j < i {
                        assert(w0.contains(parents@[j]));
                        let k = choose|k: int| 0 <= k < w0.len() && w0[k] == parents@[j];
                        assert(waiting_parents@[k] == w0[k]);
                    } else {
                        assert(waiting_parents@[waiting_parents@.len() - 1] == p);
                    }
                }
            }
            i = i + 1;
        }
        proof {
            assert(parents_clean(m, g, node_id) <==> (waiting_parents@.len() == 0 && !busy)) by {
                if waiting_parents@.len() > 0 {
                    assert(waiting_parents@.contains(waiting_parents@[0]));
                }
                if busy {
                    let j = choose|j: int| 0 <= j < i && !waiting(m[#[trigger] parents@[j]]) && m[parents@[j]] != NodeState::Clean;
                    assert(parents@.contains(parents@[j]));
                }
                if !parents_clean(m, g, node_id) {
                    let p = choose|p: NodeId| #[trigger] g.parents_set(node_id).contains(p) && m[p] != NodeState::Clean;
                    assert(parents@.contains(p));
                    let j = choose|j: int| 0 <= j < parents@.len() && parents@[j] == p;
                    if waiting(m[p]) {
                        assert(waiting_parents@.contains(parents@[j]));
                    }
                }
            }
        }
        if waiting_parents.len() == 0 && !busy {
            let out = vec![node_id];
            proof {
                assert forall|y: NodeId| #[trigger] out@.contains(y) <==> closest(m, g, node_id, y, fuel as nat) by {
                    lemma_closest_unfold(m, g, node_id, y, fuel as nat);
                    if out@.contains(y) {
                        assert(out@[0] == node_id);
                    }
                    if closest(m, g, node_id, y, fuel as nat) {
                        if y != node_id {
                            let q = choose|q: NodeId| #[trigger] g.parents_set(node_id).contains(q) && waiting(m[q]) && closest(m, g, q, y, (fuel - 1) as nat);
                        }
                        assert(out@[0] == y);
                    }
                }
            }
            return out;
        }
        let mut out: Vec<NodeId> = Vec::new();
        if fuel > 0 {
            let mut t: usize = 0;
            while t < waiting_parents.len()
                invariant
                    t <= waiting_parents.len(),
                    fuel > 0,
                    self.wf(),
                    m == self.states(),
                    g == self.node_graph,
                    strictly_ascending(out@),
                    forall|y: NodeId| #[trigger] out@.contains(y) <==> exists|j: int| 0 <= j < t
                        && closest(m, g, #[trigger] waiting_parents@[j], y, (fuel - 1) as nat),
                decreases waiting_parents.len() - t,
            {
                let sub = self.closest_within(waiting_parents[t], fuel - 1);
                let ghost o0 = out@;
                add_all_sorted(&mut out, &sub);
                proof {
                    assert forall|y: NodeId| #[trigger] out@.contains(y) <==> exists|j: int| 0 <= j < t + 1
                        && closest(m, g, #[trigger] waiting_parents@[j], y, (fuel - 1) as nat) by {
                        if exists|j: int| 0 <= j < t + 1 && closest(m, g, #[trigger] waiting_parents@[j], y, (fuel - 1) as nat) {
                            let j = choose|j: int| 0 <= j < t + 1 && closest(m, g, #[trigger] waiting_parents@[j], y, (fuel - 1) as nat);
                            if j < t {
                                assert(o0.contains(y));
                            } else {
                                assert(sub@.contains(y));
                            }
                        }
                        if o0.contains(y) {
                            let j = choose|j: int| 0 <= j < t && closest(m, g, #[trigger] waiting_parents@[j], y, (fuel - 1) as nat);
                        }
                    }
                }
                t = t + 1;
            }
        }
        proof {
            assert forall|y: NodeId| #[trigger] out@.contains(y) <==> closest(m, g, node_id, y, fuel as nat) by {
                lemma_closest_unfold(m, g, node_id, y, fuel as nat);
                if fuel > 0 {
                    if out@.contains(y) {
                        let j = choose|j: int| 0 <= j < waiting_parents@.len() && closest(m, g, #[trigger] waiting_parents@[j], y, (fuel - 1) as nat);
                        assert(waiting_parents@.contains(waiting_parents@[j]));
                    }
                    if closest(m, g, node_id, y, fuel as nat) {
                        let q = choose|q: NodeId| #[trigger] g.parents_set(node_id).contains(q) && waiting(m[q]) && closest(m, g, q, y, (fuel - 1) as nat);
                        assert(parents@.contains(q));
                        let j = choose|j: int| 0 <= j < parents@.len() && parents@[j] == q;
                        assert(waiting_parents@.contains(parents@[j]));
                        let j2 = choose|j2: int| 0 <= j2 < waiting_parents@.len() && waiting_parents@[j2] == q;
                        assert(closest(m, g, waiting_parents@[j2], y, (fuel - 1) as nat));
                    }
                }
            }
        }
        out
    }

    /// The ids, ascending, of the closest nodes above `node_id` (or `node_id` itself) that can
    /// be processed: reached by going up through parents that wait to be processed, with all
    /// their own parents clean. Goes up at most as many levels as the graph has nodes.
    pub fn get_closest_processable(&self, node_id: NodeId) -> (r: Vec<NodeId>)
        requires
            self.wf(),
        ensures
            strictly_ascending(r@),
            forall|y: NodeId| #[trigger] r@.contains(y) <==> closest(self.states(), self.graph(), node_id, y, self.graph().nodes@.len()),
    {
        self.closest_within(node_id, self.node_graph.nodes.len())
    }
}

} // verus!
