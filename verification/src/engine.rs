use vstd::prelude::*;
use crate::edge::Edge;
use crate::error::{Result, TexProError};
use crate::live_graph::{
    add_all_sorted, closest, data_outside, data_without, reach_nd, dirtied, dirtied_from, LiveGraph, NodeState,
};
use crate::node::Node;
use crate::node_graph::{edges_into, strictly_ascending, NodeGraph, NodeId};
use crate::priority::{has_entry, unique_entries, update_from, Priority};
use crate::process_pack::ProcessPack;
use crate::slot_data::{has_slot_data, slot_data_of, SlotData};

verus! {

/// Whether the outputs of parent `p` of `node` are no longer needed once `node` is done: all
/// the nodes that `p` feeds are clean or being processed.
pub open spec fn released(m: Map<NodeId, NodeState>, g: NodeGraph, node: NodeId, p: NodeId) -> bool {
    &&& g.parents_set(node).contains(p)
    &&& forall|c: NodeId| #[trigger] g.children_set(p).contains(c) ==> m[c] == NodeState::Clean || m[c] == NodeState::Processing
}

/// Whether a node whose processing finished can be marked clean: it is still there, it was not
/// cancelled, and nothing dirtied it while it was processed.
pub open spec fn stays_clean(lg: LiveGraph, node: NodeId) -> bool {
    &&& lg.graph().has_node(node)
    &&& !lg.graph().node_at(node).cancel
    &&& lg.states()[node] != NodeState::ProcessingDirty
}

/// What dirtying `node` by force does to the states: `node` becomes `Dirty`, the nodes reached
/// from it through nodes that were not dirty are dirtied, and the others keep their states.
pub open spec fn forced_dirty(m0: Map<NodeId, NodeState>, m1: Map<NodeId, NodeState>, g: NodeGraph, node: NodeId) -> bool {
    &&& m1.dom() == m0.dom()
    &&& m1[node] == NodeState::Dirty
    &&& forall|y: NodeId| #[trigger] m0.dom().contains(y) && y != node ==>
        if reach_nd(m0, g, node, y) { dirtied(m0[y], m1[y]) } else { m1[y] == m0[y] }
}

/// The outputs after a node's run produced `sds`: its old outputs replaced by `sds`; unless
/// the cache is used, the outputs of the parents in `rel` (those `released`) dropped; and, when
/// the node does not stay clean, its outputs dropped again.
pub open spec fn outputs_after(lg: LiveGraph, node: NodeId, sds: Seq<SlotData>, rel: Seq<NodeId>, out: Seq<SlotData>) -> bool {
    let s1 = data_without(lg.slot_data_seq(), node) + sds;
    let s2 = if lg.spec_use_cache() { s1 } else { data_outside(s1, rel) };
    &&& !lg.spec_use_cache() ==> forall|p: NodeId| #[trigger] rel.contains(p) <==> released(lg.states(), lg.graph(), node, p)
    &&& out == (if stays_clean(lg, node) { s2 } else { data_without(s2, node) })
}

/// Takes in the outcome of processing a node.
///
/// On success the node's old outputs are replaced by the new ones; unless the cache is used,
/// the outputs of parents whose children are all clean or being processed are dropped. The
/// node then becomes clean, unless it was cancelled, removed or dirtied meanwhile: then its
/// outputs are dropped and it is dirtied by force. A cancelled run dirties the node by force
/// and lowers its cancel flag. Any other error is handed back, and nothing changes.
pub fn handle_result(lg: &mut LiveGraph, node_id: NodeId, result: Result<Vec<SlotData>>) -> (r: Result<()>)
    requires
        old(lg).wf(),
    ensures
        final(lg).wf(),
        final(lg).embedded() == old(lg).embedded(),
        final(lg).inputs() == old(lg).inputs(),
        final(lg).graph().edges == old(lg).graph().edges,
        forall|id: NodeId| final(lg).graph().has_node(id) <==> old(lg).graph().has_node(id),
        match result {
            Ok(sds) => {
                let s1 = data_without(old(lg).slot_data_seq(), node_id) + sds@;
                &&& r is Ok
                &&& exists|rel: Seq<NodeId>| #[trigger] outputs_after(*old(lg), node_id, sds@, rel, final(lg).slot_data_seq())
                &&& stays_clean(*old(lg), node_id) ==> final(lg).states() == old(lg).states().insert(node_id, NodeState::Clean)
                &&& !stays_clean(*old(lg), node_id) && old(lg).graph().has_node(node_id) ==>
                    forced_dirty(old(lg).states(), final(lg).states(), final(lg).graph(), node_id)
                &&& !old(lg).graph().has_node(node_id) ==> final(lg).states() == old(lg).states()
                &&& old(lg).graph().has_node(node_id) ==> !final(lg).graph().node_at(node_id).cancel
            },
            Err(e) => match e {
                TexProError::Canceled => {
                    &&& r is Ok
                    &&& final(lg).slot_data_seq() == old(lg).slot_data_seq()
                    &&& old(lg).graph().has_node(node_id) ==> forced_dirty(old(lg).states(), final(lg).states(), final(lg).graph(), node_id)
                        && !final(lg).graph().node_at(node_id).cancel
                    &&& !old(lg).graph().has_node(node_id) ==> final(lg).states() == old(lg).states()
                },
                _ => {
                    &&& r == Err::<(), TexProError>(e)
                    &&& final(lg).graph() == old(lg).graph()
                    &&& final(lg).states() == old(lg).states()
                    &&& final(lg).slot_data_seq() == old(lg).slot_data_seq()
                },
            },
        },
{
    match result {
        Ok(slot_datas) => {
            let ghost sds = slot_datas@;
            lg.remove_nodes_data(node_id);
            lg.add_slot_datas(slot_datas);
            let ghost s1 = lg.slot_data_seq();
            let ghost m0 = lg.states();
            let ghost g0 = lg.graph();
            let mut rel: Vec<NodeId> = Vec::new();
            if !lg.use_cache() {
                let parents = lg.get_parents(node_id);
                let mut i: usize = 0;
                while i < parents.len()
                    invariant
                        i <= parents.len(),
                        lg.wf(),
                        lg.states() == m0,
                        lg.graph() == g0,
                        forall|p: NodeId| parents@.contains(p) <==> g0.parents_set(node_id).contains(p),
                        forall|p: NodeId| #[trigger] rel@.contains(p) <==> (exists|j: int| 0 <= j < i && parents@[j] == p)
                            && released(m0, g0, node_id, p),
                    decreases parents.len() - i,
                {
                    let p = parents[i];
                    let mut all = true;
                    match lg.get_children(p) {
                        Ok(children) => {
                            let mut k: usize = 0;
                            while k < children.len()
                                invariant
                                    k <= children.len(),
                                    lg.wf(),
                                    lg.states() == m0,
                                    lg.graph() == g0,
                                    forall|c: NodeId| children@.contains(c) <==> g0.children_set(p).contains(c),
                                    all <==> forall|j: int| 0 <= j < k ==> (m0[#[trigger] children@[j]] == NodeState::Clean
                                        || m0[children@[j]] == NodeState::Processing),
                                decreases children.len() - k,
                            {
                                let c = children[k];
                                proof {
                                    lg.lemma_wf();
                                    assert(children@.contains(c));
                                    let e = choose|e: int| 0 <= e < g0.edges@.len() && g0.edges@[e].output_id == p && g0.edges@[e].input_id == c;
                                    assert(g0.has_node(g0.edges@[e].output_id));
                                }
                                match lg.node_state(c) {
                                    Ok(s) => {
                                        if !(s == NodeState::Clean || s == NodeState::Processing) {
                                            all = false;
                                        }
                                    }
                                    Err(_) => {
                                        proof {
                                            assert(false);
                                        }
                                    }
                                }
                                k = k + 1;
                            }
                            proof {
                                assert(all <==> forall|c: NodeId| #[trigger] g0.children_set(p).contains(c) ==> m0[c] == NodeState::Clean
                                    || m0[c] == NodeState::Processing) by {
                                    if all {
                                        assert forall|c: NodeId| #[trigger] g0.children_set(p).contains(c) implies m0[c] == NodeState::Clean
                                            || m0[c] == NodeState::Processing by {
                                            assert(children@.contains(c));
                                            let j = choose|j: int| 0 <= j < children@.len() && children@[j] == c;
                                        }
                                    } else {
                                        let j = choose|j: int| 0 <= j < k && !(m0[#[trigger] children@[j]] == NodeState::Clean
                                            || m0[children@[j]] == NodeState::Processing);
                                        assert(children@.contains(children@[j]));
                                    }
                                }
                            }
                        }
                        Err(_) => {
                            proof {
                                lg.lemma_wf();
                                assert(parents@.contains(p));
                                let e = choose|e: int| 0 <= e < g0.edges@.len() && g0.edges@[e].input_id == node_id && g0.edges@[e].output_id == p;
                                assert(g0.has_node(g0.edges@[e].output_id));
                            }
                        }
                    }
                    let ghost r0 = rel@;
                    if all {
                        rel.push(p);
                    }
                    proof {
                        assert(parents@.contains(p));
                        assert forall|q: NodeId| #[trigger] rel@.contains(q) <==> (exists|j: int| 0 <= j < i + 1 && parents@[j] == q)
                            && released(m0, g0, node_id, q) by {
                            if rel@.contains(q) && q != p {
                                let j = choose|j: int| 0 <= j < rel@.len() && rel@[j] == q;
                                assert(r0[j] == q);
                                assert(r0.contains(q));
                            }
                            if q == p && all {
                                assert(rel@[rel@.len() - 1] == p);
                            }
                            if r0.contains(q) {
                                let j = choose|j: int| 0 <= j < r0.len() && r0[j] == q;
                                assert(rel@[j] == q);
                            }
                            if (exists|j: int| 0 <= j < i + 1 && parents@[j] == q) && q != p {
                                let j = choose|j: int| 0 <= j < i + 1 && parents@[j] == q;
                                assert(j < i);
                            }
                        }
                    }
                    i = i + 1;
                }
                proof {
                    assert forall|p: NodeId| #[trigger] rel@.contains(p) <==> released(m0, g0, node_id, p) by {
                        if released(m0, g0, node_id, p) {
                            assert(parents@.contains(p));
                            let j = choose|j: int| 0 <= j < parents@.len() && parents@[j] == p;
                        }
                    }
                }
                lg.remove_nodes_datas(&rel);
            }
            let ghost s2 = lg.slot_data_seq();
            let ghost lg1 = *lg;
            let was_cancelled = lg.set_cancel(node_id, false);
            let not_clean = match was_cancelled {
                Ok(was) => {
                    if was {
                        true
                    } else {
                        match lg.node_state(node_id) {
                            Ok(s) => s == NodeState::ProcessingDirty,
                            Err(_) => false,
                        }
                    }
                }
                Err(_) => true,
            };
            proof {
                lg.lemma_wf();
                lg1.lemma_wf();
                assert(not_clean == !stays_clean(*old(lg), node_id));
            }
            if !not_clean {
                let _ = lg.set_state(node_id, NodeState::Clean);
            } else {
                lg.remove_nodes_data(node_id);
                let _ = lg.force_state(node_id, NodeState::Dirty);
            }
            proof {
                assert(outputs_after(*old(lg), node_id, sds, rel@, lg.slot_data_seq()));
            }
            Ok(())
        }
        Err(e) => match e {
            TexProError::Canceled => {
                if lg.has_node(node_id).is_ok() {
                    let _ = lg.set_cancel(node_id, false);
                    proof {
                        lg.lemma_wf();
                    }
                    let _ = lg.force_state(node_id, NodeState::Dirty);
                }
                Ok(())
            }
            other => Err(other),
        },
    }
}

/// Whether the engine looks for work above a node in this state: any node waiting to be
/// processed when the graph updates by itself, otherwise requested or prioritised nodes.
pub open spec fn wanted(auto_update: bool, s: NodeState) -> bool {
    if auto_update {
        s == NodeState::Dirty || s == NodeState::Requested || s == NodeState::Prioritised
    } else {
        s == NodeState::Requested || s == NodeState::Prioritised
    }
}

/// Requested and prioritised nodes are looked for work above whether or not the graph updates
/// by itself; updating by itself adds exactly the dirty nodes, and no other state is ever looked
/// for work above.
pub proof fn law_wanted_states(auto_update: bool, s: NodeState)
    ensures
        s == NodeState::Requested || s == NodeState::Prioritised ==> wanted(auto_update, s),
        wanted(true, s) <==> (wanted(false, s) || s == NodeState::Dirty),
        !wanted(false, NodeState::Dirty),
        wanted(auto_update, s) ==> s == NodeState::Requested || s == NodeState::Prioritised || s == NodeState::Dirty,
{
}

/// The ids, ascending, of the nodes that the engine looks for work above.
pub fn requested_nodes(lg: &LiveGraph) -> (r: Vec<NodeId>)
    requires
        lg.wf(),
    ensures
        strictly_ascending(r@),
        forall|id: NodeId| #[trigger] r@.contains(id) <==> lg.states().dom().contains(id) && wanted(lg.spec_auto_update(), lg.states()[id]),
        forall|id: NodeId| lg.states().dom().contains(id)
            && (lg.states()[id] == NodeState::Requested || lg.states()[id] == NodeState::Prioritised) ==> #[trigger] r@.contains(id),
        forall|id: NodeId| #[trigger] r@.contains(id) ==> lg.states().dom().contains(id)
            && (lg.states()[id] == NodeState::Requested || lg.states()[id] == NodeState::Prioritised
                || (lg.spec_auto_update() && lg.states()[id] == NodeState::Dirty)),
{
    proof {
        assert forall|id: NodeId| lg.states().dom().contains(id) implies
            (wanted(lg.spec_auto_update(), lg.states()[id]) <==> (lg.states()[id] == NodeState::Requested
                || lg.states()[id] == NodeState::Prioritised
                || (lg.spec_auto_update() && lg.states()[id] == NodeState::Dirty))) by {
            law_wanted_states(lg.spec_auto_update(), lg.states()[id]);
            law_wanted_states(false, lg.states()[id]);
        }
    }
    let mut out = lg.node_ids_with_state(NodeState::Requested);
    let prioritised = lg.node_ids_with_state(NodeState::Prioritised);
    add_all_sorted(&mut out, &prioritised);
    if lg.auto_update() {
        let dirty = lg.node_ids_with_state(NodeState::Dirty);
        add_all_sorted(&mut out, &dirty);
    }
    out
}

/// Whether `y` is one of the closest processable nodes above some node that the engine looks
/// for work above.
pub open spec fn processable(lg: LiveGraph, y: NodeId) -> bool {
    exists|x: NodeId| #[trigger] lg.states().dom().contains(x) && wanted(lg.spec_auto_update(), lg.states()[x])
        && closest(lg.states(), lg.graph(), x, y, lg.graph().nodes@.len())
}

/// The ids, ascending, of the nodes that can be processed now (see `processable`).
pub fn processable_nodes(lg: &LiveGraph) -> (r: Vec<NodeId>)
    requires
        lg.wf(),
    ensures
        strictly_ascending(r@),
        forall|y: NodeId| #[trigger] r@.contains(y) <==> processable(*lg, y),
{
    let requested = requested_nodes(lg);
    let mut out: Vec<NodeId> = Vec::new();
    let mut i: usize = 0;
    while i < requested.len()
        invariant
            i <= requested.len(),
            lg.wf(),
            strictly_ascending(out@),
            forall|y: NodeId| #[trigger] out@.contains(y) <==> exists|j: int| 0 <= j < i
                && closest(lg.states(), lg.graph(), #[trigger] requested@[j], y, lg.graph().nodes@.len()),
        decreases requested.len() - i,
    {
        let sub = lg.get_closest_processable(requested[i]);
        let ghost o0 = out@;
        add_all_sorted(&mut out, &sub);
        proof {
            assert forall|y: NodeId| #[trigger] out@.contains(y) <==> exists|j: int| 0 <= j < i + 1
                && closest(lg.states(), lg.graph(), #[trigger] requested@[j], y, lg.graph().nodes@.len()) by {
                if exists|j: int| 0 <= j < i + 1 && closest(lg.states(), lg.graph(), #[trigger] requested@[j], y, lg.graph().nodes@.len()) {
                    let j = choose|j: int| 0 <= j < i + 1 && closest(lg.states(), lg.graph(), #[trigger] requested@[j], y, lg.graph().nodes@.len());
                    if j < i {
                        assert(o0.contains(y));
                    } else {
                        assert(sub@.contains(y));
                    }
                }
                if o0.contains(y) {
                    let j = choose|j: int| 0 <= j < i && closest(lg.states(), lg.graph(), #[trigger] requested@[j], y, lg.graph().nodes@.len());
                }
            }
        }
        i = i + 1;
    }
    proof {
        assert forall|y: NodeId| #[trigger] out@.contains(y) <==> processable(*lg, y) by {
            if out@.contains(y) {
                let j = choose|j: int| 0 <= j < i && closest(lg.states(), lg.graph(), #[trigger] requested@[j], y, lg.graph().nodes@.len());
                assert(requested@.contains(requested@[j]));
                assert(lg.states().dom().contains(requested@[j]));
            }
            if processable(*lg, y) {
                let x = choose|x: NodeId| #[trigger] lg.states().dom().contains(x) && wanted(lg.spec_auto_update(), lg.states()[x])
                    && closest(lg.states(), lg.graph(), x, y, lg.graph().nodes@.len());
                assert(requested@.contains(x));
                let j = choose|j: int| 0 <= j < requested@.len() && requested@[j] == x;
                assert(closest(lg.states(), lg.graph(), requested@[j], y, lg.graph().nodes@.len()));
            }
        }
    }
    out
}

/// Whether `p` is a pack, in graph `graph_id`, of a node with an entry `(p.node_id, pr)` among
/// `entries` whose propagated priority is the pack's.
pub open spec fn pack_of(entries: Seq<(NodeId, crate::priority::Priority)>, graph_id: u64, p: ProcessPack) -> bool {
    &&& p.graph_id == graph_id
    &&& exists|k: int| 0 <= k < entries.len() && (#[trigger] entries[k]).0 == p.node_id
        && entries[k].1.spec_propagated() == p.priority
}

/// The nodes of a live graph that can be processed now, as packs with their propagated
/// priorities, ascending by node id; the priorities are brought up to date first.
#[verifier::rlimit(50)]
#[verifier::spinoff_prover]
pub fn collect_process_packs(lg: &mut LiveGraph, graph_id: u64, held: &Vec<NodeId>) -> (r: Vec<ProcessPack>)
    requires
        old(lg).wf(),
    ensures
        final(lg).wf(),
        final(lg).graph() == old(lg).graph(),
        final(lg).states() == old(lg).states(),
        final(lg).slot_data_seq() == old(lg).slot_data_seq(),
        forall|k: int| 0 <= k < r@.len() ==> processable(*old(lg), (#[trigger] r@[k]).node_id)
            && pack_of(final(lg).propagator().entries(), graph_id, r@[k]),
        forall|y: NodeId| processable(*old(lg), y) && has_entry(final(lg).propagator().entries(), y)
            ==> exists|k: int| 0 <= k < r@.len() && (#[trigger] r@[k]).node_id == y,
        forall|i: int, j: int| 0 <= i < j < r@.len() ==> (#[trigger] r@[i]).node_id.0 < (#[trigger] r@[j]).node_id.0,
        exists|s: Seq<(NodeId, Priority)>| {
            &&& unique_entries(s)
            &&& forall|x: (NodeId, Priority)| #[trigger] s.contains(x) <==> old(lg).propagator().entries().contains(x) && crate::priority::kept_id(old(lg).graph(), held@, x.0)
            &&& forall|a: int, b: int| 0 <= a < b < s.len() ==> (#[trigger] s[a]).1.spec_priority() <= (#[trigger] s[b]).1.spec_priority()
            &&& final(lg).propagator().entries() == update_from(s, old(lg).graph(), s.len() as int, old(lg).graph().nodes@.len() as nat)
        },
{
    let nodes = processable_nodes(lg);
    let ghost lg0 = *lg;
    lg.propagate_priorities(held);
    let ghost lg1 = *lg;
    let mut out: Vec<ProcessPack> = Vec::new();
    let mut i: usize = 0;
    while i < nodes.len()
        invariant
            i <= nodes.len(),
            lg.wf(),
            lg0 == *old(lg),
            *lg == lg1,
            lg.graph() == old(lg).graph(),
            lg.states() == old(lg).states(),
            strictly_ascending(nodes@),
            forall|y: NodeId| #[trigger] nodes@.contains(y) <==> processable(lg0, y),
            forall|k: int| 0 <= k < out@.len() ==> processable(lg0, (#[trigger] out@[k]).node_id)
                && pack_of(lg.propagator().entries(), graph_id, out@[k]),
            forall|k: int| 0 <= k < out@.len() ==> exists|j: int| 0 <= j < i && nodes@[j] == (#[trigger] out@[k]).node_id,
            forall|j: int| 0 <= j < i && has_entry(lg.propagator().entries(), #[trigger] nodes@[j])
                ==> exists|k: int| 0 <= k < out@.len() && (#[trigger] out@[k]).node_id == nodes@[j],
            forall|a: int, b: int| 0 <= a < b < out@.len() ==> (#[trigger] out@[a]).node_id.0 < (#[trigger] out@[b]).node_id.0,
            forall|k: int| 0 <= k < out@.len() && i < nodes@.len() ==> (#[trigger] out@[k]).node_id.0 < nodes@[i as int].0,
        decreases nodes.len() - i,
    {
        let y = nodes[i];
        let ghost o0 = out@;
        proof {
            assert(nodes@.contains(y));
        }
        match lg.priority(y) {
            Ok(p) => {
                let pack = ProcessPack { node_id: y, graph_id, priority: p.propagated_priority() };
                out.push(pack);
                proof {
                    let k = choose|k: int| 0 <= k < lg.propagator().entries().len() && #[trigger] lg.propagator().entries()[k] == (y, p);
                    assert(lg.propagator().entries()[k].0 == y);
                    assert(pack_of(lg.propagator().entries(), graph_id, pack));
                }
            }
            Err(_) => {}
        }
        proof {
            assert forall|k: int| 0 <= k < out@.len() implies exists|j: int| 0 <= j < i + 1 && nodes@[j] == (#[trigger] out@[k]).node_id by {
                if k < o0.len() {
                    assert(out@[k] == o0[k]);
                    let j = choose|j: int| 0 <= j < i && nodes@[j] == o0[k].node_id;
                } else {
                    assert(nodes@[i as int] == out@[k].node_id);
                }
            }
            assert forall|j: int| 0 <= j < i + 1 && has_entry(lg.propagator().entries(), #[trigger] nodes@[j])
                implies exists|k: int| 0 <= k < out@.len() && (#[trigger] out@[k]).node_id == nodes@[j] by {
                if j < i {
                    let k = choose|k: int| 0 <= k < o0.len() && (#[trigger] o0[k]).node_id == nodes@[j];
                    assert(out@[k] == o0[k]);
                } else {
                    assert(out@[out@.len() - 1].node_id == y);
                }
            }
            assert forall|k: int| 0 <= k < out@.len() && i + 1 < nodes@.len() implies (#[trigger] out@[k]).node_id.0 < nodes@[i + 1].0 by {
                let j = choose|j: int| 0 <= j < i + 1 && nodes@[j] == out@[k].node_id;
                assert(nodes@[j].0 < nodes@[i + 1].0);
            }
            assert forall|k: int| 0 <= k < out@.len() implies processable(lg0, (#[trigger] out@[k]).node_id)
                && pack_of(lg.propagator().entries(), graph_id, out@[k]) by {
                if k < o0.len() {
                    assert(out@[k] == o0[k]);
                }
            }
        }
        i = i + 1;
    }
    proof {
        assert forall|y: NodeId| processable(lg0, y) && has_entry(lg.propagator().entries(), y)
            implies exists|k: int| 0 <= k < out@.len() && (#[trigger] out@[k]).node_id == y by {
            assert(nodes@.contains(y));
            let j = choose|j: int| 0 <= j < nodes@.len() && nodes@[j] == y;
            assert(has_entry(lg.propagator().entries(), nodes@[j]));
        }
    }
    out
}

/// For each edge, in order, the first output of the node and slot at its output end.
pub open spec fn inputs_for(sds: Seq<SlotData>, edges: Seq<Edge>) -> Seq<SlotData>
    decreases edges.len(),
{
    if edges.len() == 0 {
        seq![]
    } else {
        inputs_for(sds, edges.drop_last()).push(slot_data_of(sds, edges.last().output_id, edges.last().output_slot))
    }
}

/// Whether every edge of `edges` has an output at its output end.
pub open spec fn inputs_ready(sds: Seq<SlotData>, edges: Seq<Edge>) -> bool {
    forall|k: int| 0 <= k < edges.len() ==> has_slot_data(sds, (#[trigger] edges[k]).output_id, edges[k].output_slot)
}

/// Marks a node as being processed and gathers what processing it needs: the edges into it and,
/// for each, the output it carries. When an input is missing, the node of the first missing
/// input is dirtied, and then this one, by force: it ends `Dirty`, since it is not processed
/// after all, and there is nothing to process (`None`); so too when there is no such node.
pub fn start_processing(lg: &mut LiveGraph, node_id: NodeId) -> (r: Option<(Vec<Edge>, Vec<SlotData>)>)
    requires
        old(lg).wf(),
    ensures
        final(lg).wf(),
        final(lg).graph() == old(lg).graph(),
        final(lg).slot_data_seq() == old(lg).slot_data_seq(),
        !old(lg).states().dom().contains(node_id) ==> r is None && final(lg).states() == old(lg).states(),
        old(lg).states().dom().contains(node_id) && inputs_ready(old(lg).slot_data_seq(), edges_into(old(lg).graph().edges@, node_id)) ==>
            (r matches Some((edges, inputs)) && edges@ == edges_into(old(lg).graph().edges@, node_id)
                && inputs@ == inputs_for(old(lg).slot_data_seq(), edges@)
                && final(lg).states() == old(lg).states().insert(node_id, NodeState::Processing)),
        old(lg).states().dom().contains(node_id) && !inputs_ready(old(lg).slot_data_seq(), edges_into(old(lg).graph().edges@, node_id)) ==> {
            let es = edges_into(old(lg).graph().edges@, node_id);
            &&& r is None
            &&& final(lg).states()[node_id] == NodeState::Dirty
            &&& exists|k: int, m: Map<NodeId, NodeState>| {
                &&& 0 <= k < es.len()
                &&& inputs_ready(old(lg).slot_data_seq(), es.take(k))
                &&& !has_slot_data(old(lg).slot_data_seq(), es[k].output_id, es[k].output_slot)
                &&& #[trigger] dirtied_from(old(lg).states().insert(node_id, NodeState::Processing), m, old(lg).graph(), es[k].output_id)
                &&& forced_dirty(m, final(lg).states(), old(lg).graph(), node_id)
            }
        },
{
    proof {
        lg.lemma_wf();
    }
    if lg.overwrite_state(node_id, NodeState::Processing).is_err() {
        return None;
    }
    let edges = lg.input_edges(node_id);
    let mut inputs: Vec<SlotData> = Vec::new();
    let mut i: usize = 0;
    while i < edges.len()
        invariant
            i <= edges.len(),
            lg.wf(),
            lg.graph() == old(lg).graph(),
            lg.slot_data_seq() == old(lg).slot_data_seq(),
            lg.states() == old(lg).states().insert(node_id, NodeState::Processing),
            old(lg).states().dom().contains(node_id),
            edges@ == edges_into(old(lg).graph().edges@, node_id),
            inputs@ == inputs_for(old(lg).slot_data_seq(), edges@.take(i as int)),
            inputs_ready(old(lg).slot_data_seq(), edges@.take(i as int)),
        decreases edges.len() - i,
    {
        let e = edges[i];
        proof {
            assert(edges@.take(i + 1).drop_last() =~= edges@.take(i as int));
            assert(edges@.take(i + 1).last() == e);
        }
        match lg.slot_data(e.output_id, e.output_slot) {
            Ok(sd) => {
                inputs.push(sd);
                proof {
                    assert forall|k: int| 0 <= k < i + 1 implies has_slot_data(old(lg).slot_data_seq(),
                        (#[trigger] edges@.take(i + 1)[k]).output_id, edges@.take(i + 1)[k].output_slot) by {
                        if k < i {
                            assert(edges@.take(i + 1)[k] == edges@.take(i as int)[k]);
                        }
                    }
                }
            }
            Err(_) => {
                let ghost m1 = lg.states();
                proof {
                    lg.lemma_wf();
                    crate::node_graph::lemma_edges_into_valid(lg.graph(), node_id, e);
                    assert(!inputs_ready(old(lg).slot_data_seq(), edges@)) by {
                        assert(edges@[i as int] == e);
                    }
                }
                let ghost m0 = lg.states();
                let _ = lg.set_state(e.output_id, NodeState::Dirty);
                let ghost m2 = lg.states();
                proof {
                    lg.lemma_wf();
                    assert(m0.dom().contains(e.output_id));
                    assert(m2.dom().contains(node_id));
                }
                let _ = lg.force_state(node_id, NodeState::Dirty);
                proof {
                    let es = edges_into(old(lg).graph().edges@, node_id);
                    assert(es[i as int] == e);
                    assert(es.take(i as int) =~= edges@.take(i as int));
                    assert(forced_dirty(m2, lg.states(), old(lg).graph(), node_id));
                    assert(dirtied_from(old(lg).states().insert(node_id, NodeState::Processing), m2, old(lg).graph(), es[i as int].output_id));
                }
                return None;
            }
        }
        i = i + 1;
    }
    proof {
        assert(edges@.take(i as int) =~= edges@);
    }
    Some((edges, inputs))
}

} // verus!
