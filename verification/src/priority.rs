use vstd::prelude::*;
use crate::live_graph::contains_id;
use crate::node_graph::{strictly_ascending, NodeGraph, NodeId};

verus! {

/// The priority of a node, and the priority it inherits from the nodes below it.
///
/// `touched` records that the priority (or the graph around the node) changed since the
/// last propagation.
#[derive(Clone, Copy, Debug)]
pub struct Priority {
    touched: bool,
    priority: i8,
    propagated_priority: i8,
}

impl Priority {
    pub closed spec fn spec_touched(self) -> bool {
        self.touched
    }

    pub closed spec fn spec_priority(self) -> i8 {
        self.priority
    }

    pub closed spec fn spec_propagated(self) -> i8 {
        self.propagated_priority
    }

    /// The same priority with propagated priority `v`.
    pub closed spec fn with_propagated(self, v: i8) -> Priority {
        Priority { propagated_priority: v, ..self }
    }

    /// The same priority, no longer marked as touched.
    pub closed spec fn untouched(self) -> Priority {
        Priority { touched: false, ..self }
    }

    /// A priority that has been propagated is at least the node's own priority.
    pub open spec fn inv(self) -> bool {
        self.spec_touched() || self.spec_propagated() >= self.spec_priority()
    }

    pub fn new() -> (p: Self)
        ensures
            p.spec_touched(),
            p.spec_priority() == 0,
            p.spec_propagated() == 0,
    {
        Priority { touched: true, priority: 0, propagated_priority: 0 }
    }

    /// Sets the node's own priority; a change marks it as touched.
    pub fn set_priority(&mut self, val: i8)
        ensures
            final(self).spec_priority() == val,
            final(self).spec_touched() == (old(self).spec_touched() || old(self).spec_priority() != val),
            final(self).spec_propagated() == old(self).spec_propagated(),
    {
        if self.priority != val {
            self.touched = true;
        }
        self.priority = val;
    }

    pub fn propagated_priority(&self) -> (r: i8)
        ensures
            r == self.spec_propagated(),
    {
        self.propagated_priority
    }

    pub fn priority(&self) -> (r: i8)
        ensures
            r == self.spec_priority(),
    {
        self.priority
    }

    /// Whether the priority changed since it was last propagated.
    pub fn is_touched(&self) -> (r: bool)
        ensures
            r == self.spec_touched(),
    {
        self.touched
    }

    fn untouch(&mut self)
        ensures
            *final(self) == old(self).untouched(),
            !final(self).spec_touched(),
            final(self).spec_priority() == old(self).spec_priority(),
            final(self).spec_propagated() == old(self).spec_propagated(),
    {
        self.touched = false;
    }

    /// Marks the priority as in need of propagation.
    pub fn touch(&mut self)
        ensures
            final(self).spec_touched(),
            final(self).spec_priority() == old(self).spec_priority(),
            final(self).spec_propagated() == old(self).spec_propagated(),
    {
        self.touched = true;
    }

    fn set_propagated(&mut self, val: i8)
        ensures
            *final(self) == old(self).with_propagated(val),
            final(self).spec_propagated() == val,
            final(self).spec_priority() == old(self).spec_priority(),
            final(self).spec_touched() == old(self).spec_touched(),
    {
        self.propagated_priority = val;
    }
}

impl Default for Priority {
    fn default() -> (p: Self)
        ensures
            p.spec_touched(),
            p.spec_priority() == 0,
            p.spec_propagated() == 0,
    {
        Priority::new()
    }
}

/// Whether some entry belongs to the node `id`.
pub open spec fn has_entry(entries: Seq<(NodeId, Priority)>, id: NodeId) -> bool {
    exists|k: int| 0 <= k < entries.len() && (#[trigger] entries[k]).0 == id
}

/// The position of the first entry of `id` (meaningful when there is one).
pub open spec fn first_entry(entries: Seq<(NodeId, Priority)>, id: NodeId) -> int {
    choose|k: int| 0 <= k < entries.len() && entries[k].0 == id
        && forall|j: int| 0 <= j < k ==> (#[trigger] entries[j]).0 != id
}

pub proof fn lemma_first_entry(entries: Seq<(NodeId, Priority)>, id: NodeId, k: int)
    requires
        0 <= k < entries.len(),
        entries[k].0 == id,
        forall|j: int| 0 <= j < k ==> (#[trigger] entries[j]).0 != id,
    ensures
        first_entry(entries, id) == k,
{
    let c = first_entry(entries, id);
    assert(0 <= c < entries.len() && entries[c].0 == id && forall|j: int| 0 <= j < c ==> (#[trigger] entries[j]).0 != id);
    if c < k {
        assert(entries[c].0 != id);
    } else if c > k {
        assert(entries[k].0 != id);
    }
}

/// With distinct ids, an entry of `id` is the first one.
pub proof fn lemma_unique_first(entries: Seq<(NodeId, Priority)>, id: NodeId, k: int)
    requires
        unique_entries(entries),
        0 <= k < entries.len(),
        entries[k].0 == id,
    ensures
        first_entry(entries, id) == k,
{
    assert forall|j: int| 0 <= j < k implies (#[trigger] entries[j]).0 != id by {
        assert(entries[j].0 != entries[k].0);
    }
    lemma_first_entry(entries, id, k);
}

/// Whether no two entries belong to the same node.
pub open spec fn unique_entries(entries: Seq<(NodeId, Priority)>) -> bool {
    forall|i: int, j: int| 0 <= i < j < entries.len() ==> (#[trigger] entries[i]).0 != (#[trigger] entries[j]).0
}

/// `v` is at least the propagated priority of every child of `id` that has an entry.
pub open spec fn bounds_children(entries: Seq<(NodeId, Priority)>, g: NodeGraph, id: NodeId, v: i8) -> bool {
    forall|j: int| 0 <= j < entries.len() && #[trigger] g.children_set(id).contains(entries[j].0)
        ==> entries[j].1.spec_propagated() <= v
}

/// `v` is the propagated priority of some child of `id`.
pub open spec fn child_has(entries: Seq<(NodeId, Priority)>, g: NodeGraph, id: NodeId, v: i8) -> bool {
    exists|j: int| 0 <= j < entries.len() && #[trigger] g.children_set(id).contains(entries[j].0)
        && entries[j].1.spec_propagated() == v
}

/// `e` belongs to a node that had an entry in `before`, with the same own priority.
pub open spec fn kept_from(before: Seq<(NodeId, Priority)>, e: (NodeId, Priority)) -> bool {
    exists|j: int| 0 <= j < before.len() && (#[trigger] before[j]).0 == e.0
        && before[j].1.spec_priority() == e.1.spec_priority()
}

/// Entry by entry, the same nodes with the same own priorities and touched marks.
pub open spec fn same_but_propagated(a: Seq<(NodeId, Priority)>, b: Seq<(NodeId, Priority)>) -> bool {
    &&& a.len() == b.len()
    &&& forall|k: int| 0 <= k < a.len() ==> (#[trigger] a[k]).0 == b[k].0
        && a[k].1.spec_priority() == b[k].1.spec_priority()
        && a[k].1.spec_touched() == b[k].1.spec_touched()
}

/// Every entry keeps the propagation invariant where it held.
pub open spec fn keeps_inv(a: Seq<(NodeId, Priority)>, b: Seq<(NodeId, Priority)>) -> bool {
    forall|k: int| 0 <= k < a.len() && (#[trigger] a[k]).1.inv() ==> b[k].1.inv()
}

/// The parents of `id`, ascending: the list `get_parents` gives.
pub open spec fn parents_seq(g: NodeGraph, id: NodeId) -> Seq<NodeId> {
    choose|s: Seq<NodeId>| strictly_ascending(s) && forall|p: NodeId| #[trigger] s.contains(p) <==> g.parents_set(id).contains(p)
}

/// Two ascending lists with the same ids are the same list.
proof fn lemma_ascending_unique(a: Seq<NodeId>, b: Seq<NodeId>)
    requires
        strictly_ascending(a),
        strictly_ascending(b),
        forall|x: NodeId| #[trigger] a.contains(x) <==> b.contains(x),
    ensures
        a == b,
    decreases a.len(),
{
    if a.len() == 0 {
        if b.len() > 0 {
            assert(b.contains(b[0]));
            assert(a.contains(b[0]));
        }
        assert(a =~= b);
    } else {
        assert(a.contains(a[0]));
        assert(b.contains(a[0]));
        assert(b.len() > 0);
        assert(b.contains(b[0]));
        assert(a.contains(b[0]));
        let k = choose|k: int| 0 <= k < b.len() && b[k] == a[0];
        let m = choose|m: int| 0 <= m < a.len() && a[m] == b[0];
        assert(a[0].0 <= a[m].0);
        assert(b[0].0 <= b[k].0);
        assert(a[0] == b[0]);
        let a1 = a.drop_first();
        let b1 = b.drop_first();
        assert forall|x: NodeId| #[trigger] a1.contains(x) <==> b1.contains(x) by {
            if a1.contains(x) {
                let i = choose|i: int| 0 <= i < a1.len() && a1[i] == x;
                assert(a[i + 1] == x);
                assert(a.contains(x));
                assert(b.contains(x));
                let j = choose|j: int| 0 <= j < b.len() && b[j] == x;
                assert(x.0 > a[0].0);
                assert(j != 0);
                assert(b1[j - 1] == x);
            }
            if b1.contains(x) {
                let i = choose|i: int| 0 <= i < b1.len() && b1[i] == x;
                assert(b[i + 1] == x);
                assert(b.contains(x));
                assert(a.contains(x));
                let j = choose|j: int| 0 <= j < a.len() && a[j] == x;
                assert(x.0 > b[0].0);
                assert(j != 0);
                assert(a1[j - 1] == x);
            }
        }
        lemma_ascending_unique(a1, b1);
        assert(a =~= b) by {
            assert forall|i: int| 0 <= i < a.len() implies a[i] == b[i] by {
                if i > 0 {
                    assert(a[i] == a1[i - 1]);
                    assert(b[i] == b1[i - 1]);
                }
            }
        }
    }
}

/// A list of the parents of `id`, ascending, is `parents_seq(g, id)`.
proof fn lemma_parents_seq(g: NodeGraph, id: NodeId, s: Seq<NodeId>)
    requires
        strictly_ascending(s),
        forall|p: NodeId| #[trigger] s.contains(p) <==> g.parents_set(id).contains(p),
    ensures
        parents_seq(g, id) == s,
{
    let c = parents_seq(g, id);
    assert(strictly_ascending(c) && forall|p: NodeId| #[trigger] c.contains(p) <==> g.parents_set(id).contains(p));
    lemma_ascending_unique(c, s);
}

/// How many ids at the front of an ascending list are below `x`.
spec fn count_below(s: Seq<NodeId>, x: NodeId) -> int
    decreases s.len(),
{
    if s.len() == 0 {
        0
    } else if s[0].0 < x.0 {
        1 + count_below(s.drop_first(), x)
    } else {
        0
    }
}

proof fn lemma_count_below(s: Seq<NodeId>, x: NodeId)
    requires
        strictly_ascending(s),
    ensures
        0 <= count_below(s, x) <= s.len(),
        forall|j: int| 0 <= j < count_below(s, x) ==> (#[trigger] s[j]).0 < x.0,
        forall|j: int| count_below(s, x) <= j < s.len() ==> (#[trigger] s[j]).0 >= x.0,
    decreases s.len(),
{
    if s.len() > 0 {
        let t = s.drop_first();
        assert(strictly_ascending(t)) by {
            assert forall|i: int, j: int| 0 <= i < j < t.len() implies t[i].0 < t[j].0 by {
                assert(t[i] == s[i + 1] && t[j] == s[j + 1]);
            }
        }
        lemma_count_below(t, x);
        if s[0].0 < x.0 {
            assert forall|j: int| 0 <= j < count_below(s, x) implies (#[trigger] s[j]).0 < x.0 by {
                if j > 0 {
                    assert(s[j] == t[j - 1]);
                }
            }
            assert forall|j: int| count_below(s, x) <= j < s.len() implies (#[trigger] s[j]).0 >= x.0 by {
                assert(s[j] == t[j - 1]);
            }
        } else {
            assert forall|j: int| 0 <= j < s.len() implies (#[trigger] s[j]).0 >= x.0 by {
                if j > 0 {
                    assert(s[0].0 < s[j].0);
                }
            }
        }
    }
}

/// An ascending list with `x` added in its place.
proof fn lemma_insert_ascending(s: Seq<NodeId>, x: NodeId) -> (r: Seq<NodeId>)
    requires
        strictly_ascending(s),
        !s.contains(x),
    ensures
        strictly_ascending(r),
        forall|y: NodeId| #[trigger] r.contains(y) <==> s.contains(y) || y == x,
{
    lemma_count_below(s, x);
    let pos = count_below(s, x);
    let r = s.take(pos) + seq![x] + s.skip(pos);
    assert(r.len() == s.len() + 1);
    assert forall|j: int| pos <= j < s.len() implies (#[trigger] s[j]).0 > x.0 by {
        if s[j].0 == x.0 {
            assert(s[j] == x);
            assert(s.contains(x));
        }
    }
    assert forall|i: int| 0 <= i < r.len() implies #[trigger] r[i] == (if i < pos { s[i] } else if i == pos { x } else { s[i - 1] }) by {}
    assert forall|i: int, j: int| 0 <= i < j < r.len() implies r[i].0 < r[j].0 by {
        assert(r[i] == (if i < pos { s[i] } else if i == pos { x } else { s[i - 1] }));
        assert(r[j] == (if j < pos { s[j] } else if j == pos { x } else { s[j - 1] }));
    }
    assert forall|y: NodeId| #[trigger] r.contains(y) <==> s.contains(y) || y == x by {
        if r.contains(y) {
            let i = choose|i: int| 0 <= i < r.len() && r[i] == y;
            assert(r[i] == (if i < pos { s[i] } else if i == pos { x } else { s[i - 1] }));
            if i < pos {
                assert(s.contains(s[i]));
            } else if i > pos {
                assert(s.contains(s[i - 1]));
            }
        }
        if s.contains(y) {
            let j = choose|j: int| 0 <= j < s.len() && s[j] == y;
            if j < pos {
                assert(r[j] == (if j < pos { s[j] } else if j == pos { x } else { s[j - 1] }));
                assert(r.contains(r[j]));
            } else {
                assert(r[j + 1] == (if j + 1 < pos { s[j + 1] } else if j + 1 == pos { x } else { s[j] }));
                assert(r.contains(r[j + 1]));
            }
        }
        if y == x {
            assert(r[pos] == (if pos < pos { s[pos] } else if pos == pos { x } else { s[pos - 1] }));
            assert(r.contains(r[pos]));
        }
    }
    r
}

/// The parents of `id` among the first `n` edges, as an ascending list.
proof fn lemma_parents_upto(g: NodeGraph, id: NodeId, n: int) -> (s: Seq<NodeId>)
    requires
        0 <= n <= g.edges@.len(),
    ensures
        strictly_ascending(s),
        forall|p: NodeId| #[trigger] s.contains(p) <==> exists|k: int| 0 <= k < n
            && g.edges@[k].input_id == id && g.edges@[k].output_id == p,
    decreases n,
{
    if n == 0 {
        let s = Seq::<NodeId>::empty();
        assert forall|p: NodeId| #[trigger] s.contains(p) <==> exists|k: int| 0 <= k < n
            && g.edges@[k].input_id == id && g.edges@[k].output_id == p by {}
        s
    } else {
        let s0 = lemma_parents_upto(g, id, n - 1);
        let ed = g.edges@[n - 1];
        if ed.input_id == id && !s0.contains(ed.output_id) {
            let s = lemma_insert_ascending(s0, ed.output_id);
            assert forall|p: NodeId| #[trigger] s.contains(p) <==> exists|k: int| 0 <= k < n
                && g.edges@[k].input_id == id && g.edges@[k].output_id == p by {
                if exists|k: int| 0 <= k < n && g.edges@[k].input_id == id && g.edges@[k].output_id == p {
                    let k = choose|k: int| 0 <= k < n && g.edges@[k].input_id == id && g.edges@[k].output_id == p;
                    if k < n - 1 {
                        assert(s0.contains(p));
                    }
                }
                if s0.contains(p) {
                    let k = choose|k: int| 0 <= k < n - 1 && g.edges@[k].input_id == id && g.edges@[k].output_id == p;
                }
            }
            s
        } else {
            assert forall|p: NodeId| #[trigger] s0.contains(p) <==> exists|k: int| 0 <= k < n
                && g.edges@[k].input_id == id && g.edges@[k].output_id == p by {
                if exists|k: int| 0 <= k < n && g.edges@[k].input_id == id && g.edges@[k].output_id == p {
                    let k = choose|k: int| 0 <= k < n && g.edges@[k].input_id == id && g.edges@[k].output_id == p;
                    if k < n - 1 {
                        assert(s0.contains(p));
                    }
                }
                if s0.contains(p) {
                    let k = choose|k: int| 0 <= k < n - 1 && g.edges@[k].input_id == id && g.edges@[k].output_id == p;
                }
            }
            s0
        }
    }
}

/// `parents_seq(g, id)` is an ascending list of the parents of `id`.
proof fn lemma_parents_seq_lists(g: NodeGraph, id: NodeId)
    ensures
        strictly_ascending(parents_seq(g, id)),
        forall|p: NodeId| #[trigger] parents_seq(g, id).contains(p) <==> g.parents_set(id).contains(p),
{
    let s = lemma_parents_upto(g, id, g.edges@.len() as int);
    assert forall|p: NodeId| #[trigger] s.contains(p) <==> g.parents_set(id).contains(p) by {}
    lemma_parents_seq(g, id, s);
}

/// Whether an update keeps the entry of `id`: its node is in the graph, or something outside
/// the propagator still holds its priority.
pub open spec fn kept_id(g: NodeGraph, held: Seq<NodeId>, id: NodeId) -> bool {
    g.has_node(id) || held.contains(id)
}

/// Whether `v` is the highest of `own` and the propagated priorities of the children of `id`.
pub open spec fn is_max_prop(entries: Seq<(NodeId, Priority)>, g: NodeGraph, id: NodeId, own: i8, v: i8) -> bool {
    &&& v >= own
    &&& bounds_children(entries, g, id, v)
    &&& (v == own || child_has(entries, g, id, v))
}

/// The highest of `own` and the propagated priorities of the children of `id`.
pub open spec fn max_prop(entries: Seq<(NodeId, Priority)>, g: NodeGraph, id: NodeId, own: i8) -> i8 {
    choose|v: i8| is_max_prop(entries, g, id, own, v)
}

proof fn lemma_max_prop(entries: Seq<(NodeId, Priority)>, g: NodeGraph, id: NodeId, own: i8, v: i8)
    requires
        is_max_prop(entries, g, id, own, v),
    ensures
        max_prop(entries, g, id, own) == v,
{
    let w = max_prop(entries, g, id, own);
    assert(is_max_prop(entries, g, id, own, w));
    if w != own {
        let j = choose|j: int| 0 <= j < entries.len() && #[trigger] g.children_set(id).contains(entries[j].0)
            && entries[j].1.spec_propagated() == w;
        assert(entries[j].1.spec_propagated() <= v);
    }
    if v != own {
        let j = choose|j: int| 0 <= j < entries.len() && #[trigger] g.children_set(id).contains(entries[j].0)
            && entries[j].1.spec_propagated() == v;
        assert(entries[j].1.spec_propagated() <= w);
    }
}

/// The entries after entry `idx` takes the highest of its own priority and its children's
/// propagated priorities.
pub open spec fn set_max_spec(e: Seq<(NodeId, Priority)>, g: NodeGraph, idx: int) -> Seq<(NodeId, Priority)> {
    e.update(idx, (e[idx].0, e[idx].1.with_propagated(max_prop(e, g, e[idx].0, e[idx].1.spec_priority()))))
}

/// The entries after the propagated priority of entry `idx` is carried to its parents, through
/// at most `fuel` further levels.
pub open spec fn prop_spec(e: Seq<(NodeId, Priority)>, g: NodeGraph, idx: int, fuel: nat) -> Seq<(NodeId, Priority)>
    decreases fuel, 1int, 0int,
{
    if 0 <= idx < e.len() {
        prop_loop(e, g, e[idx].1.spec_propagated(), parents_seq(g, e[idx].0), 0, fuel)
    } else {
        e
    }
}

/// The entries after the parents `ps[i..]` in turn have taken in the propagated priority
/// `this` of their child: a parent below it is raised to it, one above it recomputes its own;
/// either way the change is carried further up.
pub open spec fn prop_loop(e: Seq<(NodeId, Priority)>, g: NodeGraph, this: i8, ps: Seq<NodeId>, i: int, fuel: nat) -> Seq<(NodeId, Priority)>
    decreases fuel, 0int, ps.len() - i,
{
    if 0 <= i < ps.len() {
        let e2 = if has_entry(e, ps[i]) {
            let j = first_entry(e, ps[i]);
            let old_p = e[j].1.spec_propagated();
            if old_p < this {
                let e1 = e.update(j, (e[j].0, e[j].1.with_propagated(this)));
                if fuel > 0 { prop_spec(e1, g, j, (fuel - 1) as nat) } else { e1 }
            } else if old_p > this {
                let e1 = set_max_spec(e, g, j);
                if fuel > 0 { prop_spec(e1, g, j, (fuel - 1) as nat) } else { e1 }
            } else {
                e
            }
        } else {
            e
        };
        prop_loop(e2, g, this, ps, i + 1, fuel)
    } else {
        e
    }
}

/// One step of an update, on entry `idx`: if touched, it takes the highest of its own and its
/// children's priorities and is untouched; if that is above its own priority, it is
/// recomputed and carried up to its parents.
pub open spec fn update_step(e: Seq<(NodeId, Priority)>, g: NodeGraph, idx: int, fuel: nat) -> Seq<(NodeId, Priority)> {
    if e[idx].1.spec_touched() {
        let e1 = set_max_spec(e, g, idx);
        let e2 = e1.update(idx, (e1[idx].0, e1[idx].1.untouched()));
        if e2[idx].1.spec_propagated() > e2[idx].1.spec_priority() {
            prop_spec(set_max_spec(e2, g, idx), g, idx, fuel)
        } else {
            e2
        }
    } else {
        e
    }
}

/// The entries after the update steps on entries `i - 1` down to `0`.
pub open spec fn update_from(e: Seq<(NodeId, Priority)>, g: NodeGraph, i: int, fuel: nat) -> Seq<(NodeId, Priority)>
    decreases i,
{
    if i <= 0 {
        e
    } else {
        update_from(update_step(e, g, i - 1, fuel), g, i - 1, fuel)
    }
}

/// The graph has a level for each node, and every edge runs from a higher level down to a lower
/// one: the graph has no cycle.
pub open spec fn levelled(g: NodeGraph, h: spec_fn(NodeId) -> nat) -> bool {
    forall|k: int| 0 <= k < g.edges@.len() ==> h(#[trigger] g.edges@[k].output_id) > h(g.edges@[k].input_id)
}

/// No entry's propagated priority is above both its own priority and the propagated priority
/// of every child.
pub open spec fn not_above_children(e: Seq<(NodeId, Priority)>, g: NodeGraph) -> bool {
    forall|k: int| 0 <= k < e.len() ==> (#[trigger] e[k]).1.spec_propagated() <= e[k].1.spec_priority()
        || exists|j: int| 0 <= j < e.len() && #[trigger] g.children_set(e[k].0).contains(e[j].0)
            && e[k].1.spec_propagated() <= e[j].1.spec_propagated()
}

/// Every entry from position `lo` on has a propagated priority at least that of each of its
/// children whose id is not in `ex`.
pub open spec fn dominates(e: Seq<(NodeId, Priority)>, g: NodeGraph, lo: int, ex: Set<NodeId>) -> bool {
    forall|a: int, b: int| lo <= a < e.len() && 0 <= b < e.len() && !ex.contains(e[b].0)
        && #[trigger] g.children_set(e[a].0).contains(e[b].0)
        ==> e[b].1.spec_propagated() <= e[a].1.spec_propagated()
}

/// Same entries, with propagated priorities that only went up.
spec fn grown(e: Seq<(NodeId, Priority)>, r: Seq<(NodeId, Priority)>) -> bool {
    &&& same_but_propagated(e, r)
    &&& forall|k: int| 0 <= k < e.len() ==> e[k].1.spec_propagated() <= (#[trigger] r[k]).1.spec_propagated()
}

/// The entries of nodes at level `lev` or below are as they were.
spec fn fixed_below(e: Seq<(NodeId, Priority)>, r: Seq<(NodeId, Priority)>, h: spec_fn(NodeId) -> nat, lev: nat) -> bool {
    forall|k: int| 0 <= k < e.len() && h((#[trigger] e[k]).0) <= lev ==> r[k] == e[k]
}

proof fn lemma_child_level(g: NodeGraph, h: spec_fn(NodeId) -> nat, p: NodeId, c: NodeId)
    requires
        levelled(g, h),
        g.children_set(p).contains(c),
    ensures
        h(p) > h(c),
{
    let k = choose|k: int| 0 <= k < g.edges@.len() && g.edges@[k].output_id == p && g.edges@[k].input_id == c;
    assert(h(g.edges@[k].output_id) > h(g.edges@[k].input_id));
}

proof fn lemma_parent_child(g: NodeGraph, p: NodeId, c: NodeId)
    ensures
        g.parents_set(c).contains(p) <==> g.children_set(p).contains(c),
{
    if g.parents_set(c).contains(p) {
        let k = choose|k: int| 0 <= k < g.edges@.len() && g.edges@[k].input_id == c && g.edges@[k].output_id == p;
        assert(g.children_set(p).contains(c));
    }
    if g.children_set(p).contains(c) {
        let k = choose|k: int| 0 <= k < g.edges@.len() && g.edges@[k].output_id == p && g.edges@[k].input_id == c;
        assert(g.parents_set(c).contains(p));
    }
}

/// The highest of `own` and the propagated priorities of the children of `id` among the first
/// `n` entries.
spec fn max_upto(e: Seq<(NodeId, Priority)>, g: NodeGraph, id: NodeId, own: i8, n: int) -> i8
    decreases n,
{
    if n <= 0 {
        own
    } else {
        let m = max_upto(e, g, id, own, n - 1);
        if g.children_set(id).contains(e[n - 1].0) && e[n - 1].1.spec_propagated() > m {
            e[n - 1].1.spec_propagated()
        } else {
            m
        }
    }
}

proof fn lemma_max_upto(e: Seq<(NodeId, Priority)>, g: NodeGraph, id: NodeId, own: i8, n: int)
    requires
        0 <= n <= e.len(),
    ensures
        max_upto(e, g, id, own, n) >= own,
        forall|j: int| 0 <= j < n && #[trigger] g.children_set(id).contains(e[j].0)
            ==> e[j].1.spec_propagated() <= max_upto(e, g, id, own, n),
        max_upto(e, g, id, own, n) == own || exists|j: int| 0 <= j < n && #[trigger] g.children_set(id).contains(e[j].0)
            && e[j].1.spec_propagated() == max_upto(e, g, id, own, n),
    decreases n,
{
    if n > 0 {
        lemma_max_upto(e, g, id, own, n - 1);
    }
}

/// `max_prop` is the highest of `own` and the children's propagated priorities.
proof fn lemma_max_prop_exists(e: Seq<(NodeId, Priority)>, g: NodeGraph, id: NodeId, own: i8)
    ensures
        is_max_prop(e, g, id, own, max_prop(e, g, id, own)),
{
    lemma_max_upto(e, g, id, own, e.len() as int);
    let v = max_upto(e, g, id, own, e.len() as int);
    assert(is_max_prop(e, g, id, own, v));
    lemma_max_prop(e, g, id, own, v);
}

/// Recomputing entry `j` only raises it, keeps every other entry, and keeps no entry above its
/// own priority and all its children.
proof fn lemma_recompute(e: Seq<(NodeId, Priority)>, g: NodeGraph, h: spec_fn(NodeId) -> nat, j: int)
    requires
        0 <= j < e.len(),
        levelled(g, h),
        not_above_children(e, g),
    ensures
        grown(e, set_max_spec(e, g, j)),
        forall|k: int| 0 <= k < e.len() && k != j ==> #[trigger] set_max_spec(e, g, j)[k] == e[k],
        is_max_prop(e, g, e[j].0, e[j].1.spec_priority(), set_max_spec(e, g, j)[j].1.spec_propagated()),
        is_max_prop(set_max_spec(e, g, j), g, e[j].0, e[j].1.spec_priority(), set_max_spec(e, g, j)[j].1.spec_propagated()),
        not_above_children(set_max_spec(e, g, j), g),
{
    let id = e[j].0;
    let own = e[j].1.spec_priority();
    lemma_max_prop_exists(e, g, id, own);
    let v = max_prop(e, g, id, own);
    let r = set_max_spec(e, g, j);
    assert(r[j].1 == e[j].1.with_propagated(v));
    assert(r[j].1.spec_propagated() == v);
    if !(e[j].1.spec_propagated() <= own) {
        let c = choose|c: int| 0 <= c < e.len() && #[trigger] g.children_set(e[j].0).contains(e[c].0)
            && e[j].1.spec_propagated() <= e[c].1.spec_propagated();
        assert(e[c].1.spec_propagated() <= v);
    }
    assert(grown(e, r));
    assert forall|c: int| 0 <= c < e.len() && #[trigger] g.children_set(id).contains(e[c].0) implies c != j by {
        lemma_child_level(g, h, id, e[c].0);
    }
    assert(bounds_children(r, g, id, v)) by {
        assert forall|c: int| 0 <= c < r.len() && #[trigger] g.children_set(id).contains(r[c].0)
            implies r[c].1.spec_propagated() <= v by {
            assert(r[c].0 == e[c].0);
            assert(g.children_set(id).contains(e[c].0));
            assert(c != j);
        }
    }
    if v != own {
        let c = choose|c: int| 0 <= c < e.len() && #[trigger] g.children_set(id).contains(e[c].0)
            && e[c].1.spec_propagated() == v;
        assert(c != j);
        assert(r[c] == e[c]);
        assert(child_has(r, g, id, v));
    }
    assert forall|k: int| 0 <= k < r.len() implies (#[trigger] r[k]).1.spec_propagated() <= r[k].1.spec_priority()
        || exists|c: int| 0 <= c < r.len() && #[trigger] g.children_set(r[k].0).contains(r[c].0)
            && r[k].1.spec_propagated() <= r[c].1.spec_propagated() by {
        if k == j {
            if v != own {
                let c = choose|c: int| 0 <= c < e.len() && #[trigger] g.children_set(id).contains(e[c].0)
                    && e[c].1.spec_propagated() == v;
                assert(c != j);
                assert(r[c] == e[c]);
            }
        } else {
            assert(r[k] == e[k]);
            if !(e[k].1.spec_propagated() <= e[k].1.spec_priority()) {
                let c = choose|c: int| 0 <= c < e.len() && #[trigger] g.children_set(e[k].0).contains(e[c].0)
                    && e[k].1.spec_propagated() <= e[c].1.spec_propagated();
                assert(r[c].0 == e[c].0);
                assert(e[c].1.spec_propagated() <= r[c].1.spec_propagated());
            }
        }
    }
}

/// Raising entry `j` to the propagated priority of one of its children only raises it, keeps
/// every other entry, and keeps no entry above its own priority and all its children.
proof fn lemma_raise(e: Seq<(NodeId, Priority)>, g: NodeGraph, h: spec_fn(NodeId) -> nat, j: int, c: int)
    requires
        0 <= j < e.len(),
        0 <= c < e.len(),
        levelled(g, h),
        not_above_children(e, g),
        g.children_set(e[j].0).contains(e[c].0),
        e[j].1.spec_propagated() < e[c].1.spec_propagated(),
    ensures
        ({
            let r = e.update(j, (e[j].0, e[j].1.with_propagated(e[c].1.spec_propagated())));
            &&& grown(e, r)
            &&& forall|k: int| 0 <= k < e.len() && k != j ==> #[trigger] r[k] == e[k]
            &&& not_above_children(r, g)
            &&& r[j].1.spec_propagated() == e[c].1.spec_propagated()
        }),
{
    let t = e[c].1.spec_propagated();
    let r = e.update(j, (e[j].0, e[j].1.with_propagated(t)));
    lemma_child_level(g, h, e[j].0, e[c].0);
    assert(c != j);
    assert(r[j].1.spec_propagated() == t);
    assert(grown(e, r));
    assert forall|k: int| 0 <= k < r.len() implies (#[trigger] r[k]).1.spec_propagated() <= r[k].1.spec_priority()
        || exists|c2: int| 0 <= c2 < r.len() && #[trigger] g.children_set(r[k].0).contains(r[c2].0)
            && r[k].1.spec_propagated() <= r[c2].1.spec_propagated() by {
        if k == j {
            assert(r[c] == e[c]);
            assert(g.children_set(r[k].0).contains(r[c].0));
        } else {
            assert(r[k] == e[k]);
            if !(e[k].1.spec_propagated() <= e[k].1.spec_priority()) {
                let c2 = choose|c2: int| 0 <= c2 < e.len() && #[trigger] g.children_set(e[k].0).contains(e[c2].0)
                    && e[k].1.spec_propagated() <= e[c2].1.spec_propagated();
                assert(r[c2].0 == e[c2].0);
                assert(e[c2].1.spec_propagated() <= r[c2].1.spec_propagated());
            }
        }
    }
}

proof fn lemma_grown_trans(a: Seq<(NodeId, Priority)>, b: Seq<(NodeId, Priority)>, c: Seq<(NodeId, Priority)>)
    requires
        grown(a, b),
        grown(b, c),
    ensures
        grown(a, c),
{
    assert forall|k: int| 0 <= k < a.len() implies (#[trigger] a[k]).0 == c[k].0
        && a[k].1.spec_priority() == c[k].1.spec_priority() && a[k].1.spec_touched() == c[k].1.spec_touched() by {
        assert(a[k].0 == b[k].0);
        assert(b[k].0 == c[k].0);
    }
    assert forall|k: int| 0 <= k < a.len() implies a[k].1.spec_propagated() <= (#[trigger] c[k]).1.spec_propagated() by {
        assert(a[k].1.spec_propagated() <= b[k].1.spec_propagated());
    }
}

proof fn lemma_fixed_trans(a: Seq<(NodeId, Priority)>, b: Seq<(NodeId, Priority)>, c: Seq<(NodeId, Priority)>,
    h: spec_fn(NodeId) -> nat, lev: nat)
    requires
        same_but_propagated(a, b),
        fixed_below(a, b, h, lev),
        fixed_below(b, c, h, lev),
    ensures
        fixed_below(a, c, h, lev),
{
    assert forall|k: int| 0 <= k < a.len() && h((#[trigger] a[k]).0) <= lev implies c[k] == a[k] by {
        assert(b[k] == a[k]);
        assert(h(b[k].0) <= lev);
    }
}

/// Carrying the propagated priority of entry `idx` up to its parents, through enough levels,
/// only raises entries above its level, and leaves every entry from `lo` on at least as high as
/// each child outside `ex`.
proof fn lemma_prop(e: Seq<(NodeId, Priority)>, g: NodeGraph, h: spec_fn(NodeId) -> nat, idx: int, fuel: nat, lo: int,
    ex: Set<NodeId>)
    requires
        unique_entries(e),
        0 <= idx < e.len(),
        0 <= lo,
        levelled(g, h),
        forall|k: int| 0 <= k < e.len() ==> h((#[trigger] e[k]).0) <= h(e[idx].0) + fuel,
        not_above_children(e, g),
        dominates(e, g, lo, ex.insert(e[idx].0)),
    ensures
        grown(e, prop_spec(e, g, idx, fuel)),
        fixed_below(e, prop_spec(e, g, idx, fuel), h, h(e[idx].0)),
        not_above_children(prop_spec(e, g, idx, fuel), g),
        dominates(prop_spec(e, g, idx, fuel), g, lo, ex),
    decreases fuel, 1int, 0int,
{
    lemma_parents_seq_lists(g, e[idx].0);
    let ps = parents_seq(g, e[idx].0);
    let this = e[idx].1.spec_propagated();
    assert forall|a: int| lo <= a < e.len() && #[trigger] g.children_set(e[a].0).contains(e[idx].0)
        implies this <= e[a].1.spec_propagated() || exists|m: int| 0 <= m < ps.len() && ps[m] == e[a].0 by {
        lemma_parent_child(g, e[a].0, e[idx].0);
        assert(ps.contains(e[a].0));
    }
    lemma_loop(e, g, h, idx, this, ps, 0, fuel, lo, ex);
}

proof fn lemma_loop(e: Seq<(NodeId, Priority)>, g: NodeGraph, h: spec_fn(NodeId) -> nat, idx: int, this: i8,
    ps: Seq<NodeId>, i: int, fuel: nat, lo: int, ex: Set<NodeId>)
    requires
        unique_entries(e),
        0 <= idx < e.len(),
        0 <= lo,
        e[idx].1.spec_propagated() == this,
        0 <= i <= ps.len(),
        forall|p: NodeId| #[trigger] ps.contains(p) <==> g.parents_set(e[idx].0).contains(p),
        levelled(g, h),
        forall|k: int| 0 <= k < e.len() ==> h((#[trigger] e[k]).0) <= h(e[idx].0) + fuel,
        not_above_children(e, g),
        dominates(e, g, lo, ex.insert(e[idx].0)),
        forall|a: int| lo <= a < e.len() && #[trigger] g.children_set(e[a].0).contains(e[idx].0)
            ==> this <= e[a].1.spec_propagated() || exists|m: int| i <= m < ps.len() && ps[m] == e[a].0,
    ensures
        grown(e, prop_loop(e, g, this, ps, i, fuel)),
        fixed_below(e, prop_loop(e, g, this, ps, i, fuel), h, h(e[idx].0)),
        not_above_children(prop_loop(e, g, this, ps, i, fuel), g),
        dominates(prop_loop(e, g, this, ps, i, fuel), g, lo, ex),
    decreases fuel, 0int, ps.len() - i,
{
    let r = prop_loop(e, g, this, ps, i, fuel);
    let id = e[idx].0;
    if i < ps.len() {
        let p = ps[i];
        assert(ps.contains(p));
        lemma_parent_child(g, p, id);
        lemma_child_level(g, h, p, id);
        if has_entry(e, p) {
            let k0 = choose|k: int| 0 <= k < e.len() && (#[trigger] e[k]).0 == p;
            lemma_unique_first(e, p, k0);
            let j = first_entry(e, p);
            assert(j == k0);
            assert(j != idx);
            assert(h(e[j].0) <= h(id) + fuel);
            assert(fuel > 0);
            let old_p = e[j].1.spec_propagated();
            if old_p != this {
                let e1 = if old_p < this {
                    e.update(j, (e[j].0, e[j].1.with_propagated(this)))
                } else {
                    set_max_spec(e, g, j)
                };
                if old_p < this {
                    lemma_raise(e, g, h, j, idx);
                } else {
                    lemma_recompute(e, g, h, j);
                    assert(e[idx].1.spec_propagated() <= e1[j].1.spec_propagated());
                }
                assert(forall|k: int| 0 <= k < e.len() && k != j ==> #[trigger] e1[k] == e[k]);
                assert(e1[j].0 == p);
                assert(this <= e1[j].1.spec_propagated());
                lemma_same_unique(e, e1);
                let ex2 = ex.insert(id);
                assert(dominates(e1, g, lo, ex2.insert(e1[j].0))) by {
                    assert forall|a: int, b: int| lo <= a < e1.len() && 0 <= b < e1.len() && !ex2.insert(e1[j].0).contains(e1[b].0)
                        && #[trigger] g.children_set(e1[a].0).contains(e1[b].0)
                        implies e1[b].1.spec_propagated() <= e1[a].1.spec_propagated() by {
                        assert(b != j);
                        assert(e1[b] == e[b]);
                        if a != j {
                            assert(e1[a] == e[a]);
                        } else if old_p < this {
                            assert(e[b].1.spec_propagated() <= e[j].1.spec_propagated());
                        } else {
                            assert(bounds_children(e, g, e[j].0, e1[j].1.spec_propagated()));
                            assert(g.children_set(e[j].0).contains(e[b].0));
                        }
                    }
                }
                assert forall|k: int| 0 <= k < e1.len() implies h((#[trigger] e1[k]).0) <= h(e1[j].0) + (fuel - 1) as nat by {
                    assert(e1[k].0 == e[k].0);
                    assert(h(e[k].0) <= h(id) + fuel);
                }
                lemma_prop(e1, g, h, j, (fuel - 1) as nat, lo, ex2);
                let e2 = prop_spec(e1, g, j, (fuel - 1) as nat);
                assert(r == prop_loop(e2, g, this, ps, i + 1, fuel));
                lemma_same_unique(e1, e2);
                assert(e1[idx] == e[idx]);
                assert(h(e1[idx].0) <= h(e1[j].0));
                assert(e2[idx] == e1[idx]);
                assert forall|k: int| 0 <= k < e2.len() implies h((#[trigger] e2[k]).0) <= h(e2[idx].0) + fuel by {
                    assert(e2[k].0 == e1[k].0);
                    assert(e1[k].0 == e[k].0);
                    assert(h(e[k].0) <= h(id) + fuel);
                }
                assert forall|p2: NodeId| #[trigger] ps.contains(p2) <==> g.parents_set(e2[idx].0).contains(p2) by {}
                assert forall|a: int| lo <= a < e2.len() && #[trigger] g.children_set(e2[a].0).contains(e2[idx].0)
                    implies this <= e2[a].1.spec_propagated() || exists|m: int| i + 1 <= m < ps.len() && ps[m] == e2[a].0 by {
                    assert(e2[a].0 == e1[a].0);
                    assert(e1[a].0 == e[a].0);
                    assert(g.children_set(e[a].0).contains(e[idx].0));
                    assert(e1[a].1.spec_propagated() <= e2[a].1.spec_propagated());
                    assert(e2.len() == e1.len() && e1.len() == e.len());
                    if a == j {
                    } else {
                        assert(0 <= a < e.len() && a != j);
                        assert(e1[a] == e[a]);
                        if !(this <= e[a].1.spec_propagated()) {
                            let m = choose|m: int| i <= m < ps.len() && ps[m] == e[a].0;
                            if m == i {
                                assert(e[a].0 == p);
                                assert(e[a].0 == e[j].0);
                            }
                        }
                    }
                }
                lemma_loop(e2, g, h, idx, this, ps, i + 1, fuel, lo, ex);
                lemma_grown_trans(e, e1, e2);
                lemma_grown_trans(e, e2, r);
                assert(fixed_below(e, e1, h, h(id))) by {
                    assert forall|k: int| 0 <= k < e.len() && h((#[trigger] e[k]).0) <= h(id) implies e1[k] == e[k] by {
                        if k == j {
                            assert(h(e[j].0) > h(id));
                        }
                    }
                }
                assert(fixed_below(e1, e2, h, h(id))) by {
                    assert forall|k: int| 0 <= k < e1.len() && h((#[trigger] e1[k]).0) <= h(id) implies e2[k] == e1[k] by {
                        assert(h(e1[k].0) <= h(e1[j].0));
                    }
                }
                lemma_fixed_trans(e, e1, e2, h, h(id));
                lemma_fixed_trans(e, e2, r, h, h(id));
            } else {
                assert(r == prop_loop(e, g, this, ps, i + 1, fuel));
                assert forall|a: int| lo <= a < e.len() && #[trigger] g.children_set(e[a].0).contains(e[idx].0)
                    implies this <= e[a].1.spec_propagated() || exists|m: int| i + 1 <= m < ps.len() && ps[m] == e[a].0 by {
                    if !(this <= e[a].1.spec_propagated()) {
                        let m = choose|m: int| i <= m < ps.len() && ps[m] == e[a].0;
                        if m == i {
                            assert(e[a].0 == e[j].0);
                        }
                    }
                }
                lemma_loop(e, g, h, idx, this, ps, i + 1, fuel, lo, ex);
            }
        } else {
            assert(r == prop_loop(e, g, this, ps, i + 1, fuel));
            assert forall|a: int| lo <= a < e.len() && #[trigger] g.children_set(e[a].0).contains(e[idx].0)
                implies this <= e[a].1.spec_propagated() || exists|m: int| i + 1 <= m < ps.len() && ps[m] == e[a].0 by {
                if !(this <= e[a].1.spec_propagated()) {
                    let m = choose|m: int| i <= m < ps.len() && ps[m] == e[a].0;
                    if m == i {
                        assert(e[a].0 == p);
                        assert(has_entry(e, p));
                    }
                }
            }
            lemma_loop(e, g, h, idx, this, ps, i + 1, fuel, lo, ex);
        }
    } else {
        assert(r == e);
        assert(grown(e, e));
        assert(fixed_below(e, e, h, h(id)));
        assert forall|a: int, b: int| lo <= a < e.len() && 0 <= b < e.len() && !ex.contains(e[b].0)
            && #[trigger] g.children_set(e[a].0).contains(e[b].0)
            implies e[b].1.spec_propagated() <= e[a].1.spec_propagated() by {
            if e[b].0 == id {
                assert(b == idx);
            } else {
                assert(!ex.insert(id).contains(e[b].0));
            }
        }
    }
}

/// Every entry's propagated priority is the highest of its own priority and its children's
/// propagated priorities.
pub open spec fn settled(e: Seq<(NodeId, Priority)>, g: NodeGraph) -> bool {
    forall|k: int| 0 <= k < e.len() ==> is_max_prop(e, g, (#[trigger] e[k]).0, e[k].1.spec_priority(), e[k].1.spec_propagated())
}

/// The update steps on entries `i - 1` down to `0`, each touched, settle every entry, given
/// that the entries from `i` on already are at least their own priorities and their children.
proof fn lemma_update(e: Seq<(NodeId, Priority)>, g: NodeGraph, h: spec_fn(NodeId) -> nat, i: int, fuel: nat)
    requires
        unique_entries(e),
        0 <= i <= e.len(),
        forall|a: int, b: int| 0 <= a < b < e.len() ==> (#[trigger] e[a]).1.spec_priority() <= (#[trigger] e[b]).1.spec_priority(),
        forall|k: int| 0 <= k < i ==> (#[trigger] e[k]).1.spec_touched(),
        not_above_children(e, g),
        dominates(e, g, i, Set::empty()),
        forall|a: int| i <= a < e.len() ==> (#[trigger] e[a]).1.spec_propagated() >= e[a].1.spec_priority(),
        levelled(g, h),
        forall|k: int| 0 <= k < e.len() ==> h((#[trigger] e[k]).0) <= fuel,
    ensures
        settled(update_from(e, g, i, fuel), g),
    decreases i,
{
    if i == 0 {
        assert forall|k: int| 0 <= k < e.len() implies is_max_prop(e, g, (#[trigger] e[k]).0, e[k].1.spec_priority(), e[k].1.spec_propagated()) by {
            let v = e[k].1.spec_propagated();
            assert forall|j: int| 0 <= j < e.len() && #[trigger] g.children_set(e[k].0).contains(e[j].0)
                implies e[j].1.spec_propagated() <= v by {
                assert(!Set::<NodeId>::empty().contains(e[j].0));
            }
            if !(v <= e[k].1.spec_priority()) {
                let c = choose|c: int| 0 <= c < e.len() && #[trigger] g.children_set(e[k].0).contains(e[c].0)
                    && v <= e[c].1.spec_propagated();
                assert(!Set::<NodeId>::empty().contains(e[c].0));
                assert(e[c].1.spec_propagated() <= v);
                assert(child_has(e, g, e[k].0, v));
            }
        }
    } else {
        let idx = i - 1;
        let id = e[idx].0;
        let own = e[idx].1.spec_priority();
        let e1 = set_max_spec(e, g, idx);
        lemma_recompute(e, g, h, idx);
        let v = e1[idx].1.spec_propagated();
        let e2 = e1.update(idx, (e1[idx].0, e1[idx].1.untouched()));
        assert(e2[idx].1.spec_propagated() == v);
        assert(e2[idx].1.spec_priority() == own);
        assert(!e2[idx].1.spec_touched());
        assert(forall|k: int| 0 <= k < e.len() && k != idx ==> #[trigger] e2[k] == e[k]);
        assert(e2[idx].0 == id);
        assert(unique_entries(e2)) by {
            assert forall|a: int, b: int| 0 <= a < b < e2.len() implies (#[trigger] e2[a]).0 != (#[trigger] e2[b]).0 by {
                assert(e2[a].0 == e[a].0 && e2[b].0 == e[b].0);
            }
        }
        assert forall|c: int| 0 <= c < e.len() && #[trigger] g.children_set(id).contains(e[c].0) implies c != idx by {
            lemma_child_level(g, h, id, e[c].0);
        }
        assert(is_max_prop(e2, g, id, own, v)) by {
            assert forall|c: int| 0 <= c < e2.len() && #[trigger] g.children_set(id).contains(e2[c].0)
                implies e2[c].1.spec_propagated() <= v by {
                assert(e2[c].0 == e[c].0);
                assert(c != idx);
                assert(bounds_children(e, g, id, v));
            }
            if v != own {
                let c = choose|c: int| 0 <= c < e.len() && #[trigger] g.children_set(id).contains(e[c].0)
                    && e[c].1.spec_propagated() == v;
                assert(c != idx);
                assert(e2[c] == e[c]);
            }
        }
        assert(not_above_children(e2, g)) by {
            assert forall|k: int| 0 <= k < e2.len() implies (#[trigger] e2[k]).1.spec_propagated() <= e2[k].1.spec_priority()
                || exists|c: int| 0 <= c < e2.len() && #[trigger] g.children_set(e2[k].0).contains(e2[c].0)
                    && e2[k].1.spec_propagated() <= e2[c].1.spec_propagated() by {
                assert(e2[k].0 == e1[k].0 && e2[k].1.spec_propagated() == e1[k].1.spec_propagated()
                    && e2[k].1.spec_priority() == e1[k].1.spec_priority());
                if !(e1[k].1.spec_propagated() <= e1[k].1.spec_priority()) {
                    let c = choose|c: int| 0 <= c < e1.len() && #[trigger] g.children_set(e1[k].0).contains(e1[c].0)
                        && e1[k].1.spec_propagated() <= e1[c].1.spec_propagated();
                    assert(e2[c].0 == e1[c].0 && e2[c].1.spec_propagated() == e1[c].1.spec_propagated());
                }
            }
        }
        assert forall|k: int| 0 <= k < e2.len() implies h((#[trigger] e2[k]).0) <= fuel by {
            assert(e2[k].0 == e[k].0);
        }
        assert(update_from(e, g, i, fuel) == update_from(update_step(e, g, idx, fuel), g, idx, fuel));
        if v > own {
            lemma_max_prop(e2, g, id, own, v);
            let e3 = set_max_spec(e2, g, idx);
            assert(e3 =~= e2) by {
                assert(e2[idx].1.with_propagated(v) == e2[idx].1);
            }
            assert(update_step(e, g, idx, fuel) == prop_spec(e3, g, idx, fuel));
            assert(dominates(e3, g, idx, Set::<NodeId>::empty().insert(id))) by {
                assert forall|a: int, b: int| idx <= a < e3.len() && 0 <= b < e3.len() && !Set::<NodeId>::empty().insert(id).contains(e3[b].0)
                    && #[trigger] g.children_set(e3[a].0).contains(e3[b].0)
                    implies e3[b].1.spec_propagated() <= e3[a].1.spec_propagated() by {
                    assert(b != idx);
                    assert(e3[b] == e[b]);
                    if a == idx {
                        assert(g.children_set(id).contains(e2[b].0));
                    } else {
                        assert(e3[a] == e[a]);
                        assert(!Set::<NodeId>::empty().contains(e[b].0));
                    }
                }
            }
            assert forall|k: int| 0 <= k < e3.len() implies h((#[trigger] e3[k]).0) <= h(e3[idx].0) + fuel by {
                assert(h(e3[k].0) <= fuel);
            }
            lemma_prop(e3, g, h, idx, fuel, idx, Set::empty());
            let r = prop_spec(e3, g, idx, fuel);
            lemma_same_unique(e3, r);
            assert(dominates(r, g, idx, Set::empty()));
            assert forall|a: int, b: int| 0 <= a < b < r.len() implies (#[trigger] r[a]).1.spec_priority() <= (#[trigger] r[b]).1.spec_priority() by {
                assert(r[a].1.spec_priority() == e3[a].1.spec_priority());
                assert(r[b].1.spec_priority() == e3[b].1.spec_priority());
                assert(e3[a].1.spec_priority() == e[a].1.spec_priority());
                assert(e3[b].1.spec_priority() == e[b].1.spec_priority());
            }
            assert forall|k: int| 0 <= k < idx implies (#[trigger] r[k]).1.spec_touched() by {
                assert(r[k].1.spec_touched() == e3[k].1.spec_touched());
                assert(e3[k] == e[k]);
            }
            assert forall|a: int| idx <= a < r.len() implies (#[trigger] r[a]).1.spec_propagated() >= r[a].1.spec_priority() by {
                assert(r[a].1.spec_priority() == e3[a].1.spec_priority());
                assert(e3[a].1.spec_propagated() <= r[a].1.spec_propagated());
                if a != idx {
                    assert(e3[a] == e[a]);
                }
            }
            assert forall|k: int| 0 <= k < r.len() implies h((#[trigger] r[k]).0) <= fuel by {
                assert(r[k].0 == e3[k].0);
                assert(h(e3[k].0) <= fuel);
            }
            lemma_update(r, g, h, idx, fuel);
        } else {
            assert(update_step(e, g, idx, fuel) == e2);
            assert(dominates(e2, g, idx, Set::empty())) by {
                assert forall|a: int, b: int| idx <= a < e2.len() && 0 <= b < e2.len() && !Set::<NodeId>::empty().contains(e2[b].0)
                    && #[trigger] g.children_set(e2[a].0).contains(e2[b].0)
                    implies e2[b].1.spec_propagated() <= e2[a].1.spec_propagated() by {
                    if a == idx {
                        assert(g.children_set(id).contains(e2[b].0));
                    } else if b == idx {
                        assert(e2[a] == e[a]);
                        assert(e[b].1.spec_priority() <= e[a].1.spec_priority());
                    } else {
                        assert(e2[a] == e[a]);
                        assert(e2[b] == e[b]);
                    }
                }
            }
            assert forall|a: int, b: int| 0 <= a < b < e2.len() implies (#[trigger] e2[a]).1.spec_priority() <= (#[trigger] e2[b]).1.spec_priority() by {
                assert(e2[a].1.spec_priority() == e[a].1.spec_priority());
                assert(e2[b].1.spec_priority() == e[b].1.spec_priority());
            }
            assert forall|k: int| 0 <= k < idx implies (#[trigger] e2[k]).1.spec_touched() by {
                assert(e2[k] == e[k]);
            }
            assert forall|a: int| idx <= a < e2.len() implies (#[trigger] e2[a]).1.spec_propagated() >= e2[a].1.spec_priority() by {
                if a != idx {
                    assert(e2[a] == e[a]);
                }
            }
            lemma_update(e2, g, h, idx, fuel);
        }
    }
}

/// Whether entry `k` belongs to a child of the node of some entry.
pub open spec fn has_parent_entry(e: Seq<(NodeId, Priority)>, g: NodeGraph, k: int) -> bool {
    exists|a: int| 0 <= a < e.len() && #[trigger] g.children_set(e[a].0).contains(e[k].0)
}

/// No entry of a child of another entry's node has a propagated priority above both its own
/// priority and the propagated priority of every child. (Entries of nodes that no entry's node
/// points to are free: nothing reads them before the update recomputes them.)
pub open spec fn children_not_above(e: Seq<(NodeId, Priority)>, g: NodeGraph) -> bool {
    forall|k: int| 0 <= k < e.len() && has_parent_entry(e, g, k) ==>
        (#[trigger] e[k]).1.spec_propagated() <= e[k].1.spec_priority()
        || exists|j: int| 0 <= j < e.len() && #[trigger] g.children_set(e[k].0).contains(e[j].0)
            && e[k].1.spec_propagated() <= e[j].1.spec_propagated()
}

/// Two entry lists that differ at most in the propagated priorities of entries before `lo`
/// whose nodes no entry's node points to.
spec fn agree(e: Seq<(NodeId, Priority)>, r: Seq<(NodeId, Priority)>, g: NodeGraph, lo: int) -> bool {
    &&& same_but_propagated(e, r)
    &&& forall|k: int| 0 <= k < e.len() && (lo <= k || has_parent_entry(e, g, k)) ==> e[k] == #[trigger] r[k]
}

proof fn lemma_same_trans(a: Seq<(NodeId, Priority)>, b: Seq<(NodeId, Priority)>, c: Seq<(NodeId, Priority)>)
    requires
        same_but_propagated(a, b),
        same_but_propagated(b, c),
    ensures
        same_but_propagated(a, c),
{
    assert forall|k: int| 0 <= k < a.len() implies (#[trigger] a[k]).0 == c[k].0
        && a[k].1.spec_priority() == c[k].1.spec_priority() && a[k].1.spec_touched() == c[k].1.spec_touched() by {
        assert(a[k].0 == b[k].0);
        assert(b[k].0 == c[k].0);
    }
}

proof fn lemma_same_parent_entry(a: Seq<(NodeId, Priority)>, b: Seq<(NodeId, Priority)>, g: NodeGraph)
    requires
        a.len() == b.len(),
        forall|k: int| 0 <= k < a.len() ==> (#[trigger] a[k]).0 == b[k].0,
    ensures
        forall|k: int| 0 <= k < a.len() ==> (has_parent_entry(a, g, k) <==> #[trigger] has_parent_entry(b, g, k)),
{
    assert forall|k: int| 0 <= k < a.len() implies (has_parent_entry(a, g, k) <==> #[trigger] has_parent_entry(b, g, k)) by {
        assert(a[k].0 == b[k].0);
        if has_parent_entry(a, g, k) {
            let x = choose|x: int| 0 <= x < a.len() && #[trigger] g.children_set(a[x].0).contains(a[k].0);
            assert(a[x].0 == b[x].0);
            assert(g.children_set(b[x].0).contains(b[k].0));
        }
        if has_parent_entry(b, g, k) {
            let x = choose|x: int| 0 <= x < b.len() && #[trigger] g.children_set(b[x].0).contains(b[k].0);
            assert(a[x].0 == b[x].0);
            assert(g.children_set(a[x].0).contains(a[k].0));
        }
    }
}

/// Recomputing an entry reads only entries of its children, on which agreeing lists agree.
proof fn lemma_agree_max(e: Seq<(NodeId, Priority)>, r: Seq<(NodeId, Priority)>, g: NodeGraph, lo: int, j: int, own: i8)
    requires
        agree(e, r, g, lo),
        0 <= j < e.len(),
    ensures
        max_prop(e, g, e[j].0, own) == max_prop(r, g, e[j].0, own),
{
    let id = e[j].0;
    lemma_max_prop_exists(e, g, id, own);
    let v = max_prop(e, g, id, own);
    assert forall|c: int| 0 <= c < r.len() && #[trigger] g.children_set(id).contains(r[c].0)
        implies r[c].1.spec_propagated() <= v by {
        assert(e[c].0 == r[c].0);
        assert(has_parent_entry(e, g, c));
        assert(e[c] == r[c]);
    }
    if v != own {
        let c = choose|c: int| 0 <= c < e.len() && #[trigger] g.children_set(id).contains(e[c].0)
            && e[c].1.spec_propagated() == v;
        assert(has_parent_entry(e, g, c));
        assert(e[c] == r[c]);
        assert(child_has(r, g, id, v));
    }
    assert(is_max_prop(r, g, id, own, v));
    lemma_max_prop(r, g, id, own, v);
}

/// Carrying a priority up from an entry that no entry's node points to changes nothing.
proof fn lemma_loop_no_entries(e: Seq<(NodeId, Priority)>, g: NodeGraph, this: i8, ps: Seq<NodeId>, i: int, fuel: nat)
    requires
        0 <= i <= ps.len(),
        forall|m: int| i <= m < ps.len() ==> !has_entry(e, #[trigger] ps[m]),
    ensures
        prop_loop(e, g, this, ps, i, fuel) == e,
    decreases ps.len() - i,
{
    if i < ps.len() {
        assert(!has_entry(e, ps[i]));
        lemma_loop_no_entries(e, g, this, ps, i + 1, fuel);
    }
}

proof fn lemma_prop_root(e: Seq<(NodeId, Priority)>, g: NodeGraph, j: int, fuel: nat)
    requires
        0 <= j < e.len(),
        !has_parent_entry(e, g, j),
    ensures
        prop_spec(e, g, j, fuel) == e,
{
    lemma_parents_seq_lists(g, e[j].0);
    let ps = parents_seq(g, e[j].0);
    assert forall|m: int| 0 <= m < ps.len() implies !has_entry(e, #[trigger] ps[m]) by {
        assert(ps.contains(ps[m]));
        lemma_parent_child(g, ps[m], e[j].0);
        if has_entry(e, ps[m]) {
            let a = choose|a: int| 0 <= a < e.len() && (#[trigger] e[a]).0 == ps[m];
            assert(g.children_set(e[a].0).contains(e[j].0));
        }
    }
    lemma_loop_no_entries(e, g, e[j].1.spec_propagated(), ps, 0, fuel);
}

/// One change of entry `j`'s propagated priority in each of two agreeing lists, to the same
/// value where `j` must agree, keeps them agreeing.
proof fn lemma_agree_set(e: Seq<(NodeId, Priority)>, r: Seq<(NodeId, Priority)>, g: NodeGraph, lo: int, j: int,
    ve: i8, vr: i8)
    requires
        agree(e, r, g, lo),
        0 <= j < e.len(),
        (lo <= j || has_parent_entry(e, g, j)) ==> ve == vr,
    ensures
        agree(e.update(j, (e[j].0, e[j].1.with_propagated(ve))), r.update(j, (r[j].0, r[j].1.with_propagated(vr))), g, lo),
        same_but_propagated(e, e.update(j, (e[j].0, e[j].1.with_propagated(ve)))),
        same_but_propagated(r, r.update(j, (r[j].0, r[j].1.with_propagated(vr)))),
{
    let e1 = e.update(j, (e[j].0, e[j].1.with_propagated(ve)));
    let r1 = r.update(j, (r[j].0, r[j].1.with_propagated(vr)));
    assert(same_but_propagated(e, e1));
    assert(same_but_propagated(r, r1));
    lemma_same_trans(e1, e, r);
    lemma_same_trans(e1, r, r1);
    lemma_same_parent_entry(e, e1, g);
    assert forall|k: int| 0 <= k < e1.len() && (lo <= k || has_parent_entry(e1, g, k)) implies e1[k] == #[trigger] r1[k] by {
        assert(has_parent_entry(e, g, k) == has_parent_entry(e1, g, k));
        if k != j {
            assert(e[k] == r[k]);
        } else {
            assert(e[j].1.with_propagated(ve) == r[j].1.with_propagated(vr));
        }
    }
}

proof fn lemma_agree_prop(e: Seq<(NodeId, Priority)>, r: Seq<(NodeId, Priority)>, g: NodeGraph, idx: int, fuel: nat, lo: int)
    requires
        unique_entries(e),
        agree(e, r, g, lo),
        0 <= idx < e.len(),
        e[idx].1.spec_propagated() == r[idx].1.spec_propagated(),
    ensures
        agree(prop_spec(e, g, idx, fuel), prop_spec(r, g, idx, fuel), g, lo),
        same_but_propagated(e, prop_spec(e, g, idx, fuel)),
        same_but_propagated(r, prop_spec(r, g, idx, fuel)),
    decreases fuel, 1int, 0int,
{
    assert(e[idx].0 == r[idx].0);
    lemma_agree_loop(e, r, g, e[idx].1.spec_propagated(), parents_seq(g, e[idx].0), 0, fuel, lo);
}

proof fn lemma_agree_loop(e: Seq<(NodeId, Priority)>, r: Seq<(NodeId, Priority)>, g: NodeGraph, this: i8,
    ps: Seq<NodeId>, i: int, fuel: nat, lo: int)
    requires
        unique_entries(e),
        agree(e, r, g, lo),
        0 <= i <= ps.len(),
    ensures
        agree(prop_loop(e, g, this, ps, i, fuel), prop_loop(r, g, this, ps, i, fuel), g, lo),
        same_but_propagated(e, prop_loop(e, g, this, ps, i, fuel)),
        same_but_propagated(r, prop_loop(r, g, this, ps, i, fuel)),
    decreases fuel, 0int, ps.len() - i,
{
    if i < ps.len() {
        let p = ps[i];
        assert(unique_entries(r)) by {
            assert forall|x: int, y: int| 0 <= x < y < r.len() implies (#[trigger] r[x]).0 != (#[trigger] r[y]).0 by {
                assert(e[x].0 == r[x].0 && e[y].0 == r[y].0);
            }
        }
        if has_entry(e, p) {
            let j = choose|k: int| 0 <= k < e.len() && (#[trigger] e[k]).0 == p;
            assert(r[j].0 == p);
            lemma_unique_first(e, p, j);
            lemma_unique_first(r, p, j);
            assert(has_entry(r, p));
            let must = lo <= j || has_parent_entry(e, g, j);
            let old_e = e[j].1.spec_propagated();
            let old_r = r[j].1.spec_propagated();
            let ve = if old_e < this { this } else if old_e > this { max_prop(e, g, e[j].0, e[j].1.spec_priority()) } else { old_e };
            let vr = if old_r < this { this } else if old_r > this { max_prop(r, g, r[j].0, r[j].1.spec_priority()) } else { old_r };
            if must {
                assert(e[j] == r[j]);
                lemma_agree_max(e, r, g, lo, j, e[j].1.spec_priority());
            }
            lemma_agree_set(e, r, g, lo, j, ve, vr);
            let e1 = e.update(j, (e[j].0, e[j].1.with_propagated(ve)));
            let r1 = r.update(j, (r[j].0, r[j].1.with_propagated(vr)));
            assert(e1[j].1.spec_propagated() == ve);
            assert(r1[j].1.spec_propagated() == vr);
            lemma_same_unique(e, e1);
            lemma_same_parent_entry(e, e1, g);
            let e2 = if old_e != this && fuel > 0 { prop_spec(e1, g, j, (fuel - 1) as nat) } else if old_e != this { e1 } else { e };
            let r2 = if old_r != this && fuel > 0 { prop_spec(r1, g, j, (fuel - 1) as nat) } else if old_r != this { r1 } else { r };
            if old_e == this {
                assert(e[j].1.with_propagated(ve) == e[j].1);
                assert(e1 =~= e);
            }
            if old_r == this {
                assert(r[j].1.with_propagated(vr) == r[j].1);
                assert(r1 =~= r);
            }
            if old_e > this {
                assert(set_max_spec(e, g, j) == e1);
            }
            if old_r > this {
                assert(set_max_spec(r, g, j) == r1);
            }
            assert(prop_loop(e, g, this, ps, i, fuel) == prop_loop(e2, g, this, ps, i + 1, fuel));
            assert(prop_loop(r, g, this, ps, i, fuel) == prop_loop(r2, g, this, ps, i + 1, fuel));
            if fuel > 0 {
                if must {
                    lemma_agree_prop(e1, r1, g, j, (fuel - 1) as nat, lo);
                } else {
                    assert(!has_parent_entry(e1, g, j));
                    lemma_prop_root(e1, g, j, (fuel - 1) as nat);
                    lemma_same_parent_entry(e1, r1, g);
                    assert(!has_parent_entry(r1, g, j));
                    lemma_prop_root(r1, g, j, (fuel - 1) as nat);
                }
            }
            assert(agree(e2, r2, g, lo));
            assert(same_but_propagated(e1, e2)) by {
                if !(old_e != this && fuel > 0) {
                    assert(e2 == e1);
                }
            }
            assert(same_but_propagated(r1, r2)) by {
                if !(old_r != this && fuel > 0) {
                    assert(r2 == r1);
                }
            }
            lemma_same_trans(e, e1, e2);
            lemma_same_trans(r, r1, r2);
            lemma_same_unique(e, e2);
            lemma_agree_loop(e2, r2, g, this, ps, i + 1, fuel, lo);
            lemma_same_trans(e, e2, prop_loop(e2, g, this, ps, i + 1, fuel));
            lemma_same_trans(r, r2, prop_loop(r2, g, this, ps, i + 1, fuel));
        } else {
            assert(!has_entry(r, p)) by {
                if has_entry(r, p) {
                    let k = choose|k: int| 0 <= k < r.len() && (#[trigger] r[k]).0 == p;
                    assert(e[k].0 == p);
                }
            }
            lemma_agree_loop(e, r, g, this, ps, i + 1, fuel, lo);
        }
    } else {
        assert(same_but_propagated(e, e));
        assert(same_but_propagated(r, r));
    }
}

/// Update steps from two agreeing lists, whose entries not yet stepped over are all touched,
/// end in the same entries.
proof fn lemma_agree_update(e: Seq<(NodeId, Priority)>, r: Seq<(NodeId, Priority)>, g: NodeGraph, i: int, fuel: nat)
    requires
        unique_entries(e),
        0 <= i <= e.len(),
        agree(e, r, g, i),
        forall|k: int| 0 <= k < i ==> (#[trigger] e[k]).1.spec_touched(),
    ensures
        update_from(e, g, i, fuel) == update_from(r, g, i, fuel),
    decreases i,
{
    if i == 0 {
        assert(e =~= r) by {
            assert forall|k: int| 0 <= k < e.len() implies e[k] == r[k] by {
                assert(e[k] == r[k]);
            }
        }
    } else {
        let idx = i - 1;
        let own = e[idx].1.spec_priority();
        assert(r[idx].1.spec_touched());
        lemma_agree_max(e, r, g, i, idx, own);
        let v = max_prop(e, g, e[idx].0, own);
        assert(r[idx].0 == e[idx].0 && r[idx].1.spec_priority() == own);
        lemma_agree_set(e, r, g, i, idx, v, v);
        let e1 = set_max_spec(e, g, idx);
        let r1 = set_max_spec(r, g, idx);
        assert(e1[idx] == r1[idx]);
        let e2 = e1.update(idx, (e1[idx].0, e1[idx].1.untouched()));
        let r2 = r1.update(idx, (r1[idx].0, r1[idx].1.untouched()));
        assert(e1[idx] == r1[idx]);
        assert(e2[idx] == r2[idx]);
        assert(e2[idx].1.spec_propagated() == v && e2[idx].1.spec_priority() == own);
        lemma_same_parent_entry(e, e2, g);
        assert(agree(e2, r2, g, idx));
        assert(unique_entries(e2)) by {
            assert forall|x: int, y: int| 0 <= x < y < e2.len() implies (#[trigger] e2[x]).0 != (#[trigger] e2[y]).0 by {
                assert(e2[x].0 == e[x].0 && e2[y].0 == e[y].0);
            }
        }
        let n = update_step(e, g, idx, fuel);
        let m = update_step(r, g, idx, fuel);
        if v > own {
            lemma_agree_max(e2, r2, g, idx, idx, own);
            lemma_agree_set(e2, r2, g, idx, idx, max_prop(e2, g, e2[idx].0, own), max_prop(r2, g, r2[idx].0, own));
            let e3 = set_max_spec(e2, g, idx);
            let r3 = set_max_spec(r2, g, idx);
            lemma_same_unique(e2, e3);
            lemma_agree_prop(e3, r3, g, idx, fuel, idx);
            assert(n == prop_spec(e3, g, idx, fuel));
            assert(m == prop_spec(r3, g, idx, fuel));
            lemma_same_trans(e2, e3, n);
        } else {
            assert(n == e2);
            assert(m == r2);
        }
        assert(same_but_propagated(e2, n));
        lemma_same_unique(e2, n);
        assert forall|k: int| 0 <= k < idx implies (#[trigger] n[k]).1.spec_touched() by {
            assert(n[k].1.spec_touched() == e2[k].1.spec_touched());
            assert(e2[k] == e[k]);
        }
        lemma_agree_update(n, m, g, idx, fuel);
    }
}

/// Propagation reaches the nodes above: on a graph without cycles (one that gives each node a
/// level below the number of nodes, higher above than below every edge), when every priority is
/// touched and no entry of a child of another entry's node is above both its own priority and
/// all its children's propagated priorities, an update leaves every propagated priority equal to
/// the highest of the node's own priority and its children's propagated priorities.
pub proof fn law_update_settles_every_priority(s: Seq<(NodeId, Priority)>, g: NodeGraph, h: spec_fn(NodeId) -> nat)
    requires
        unique_entries(s),
        forall|a: int, b: int| 0 <= a < b < s.len() ==> (#[trigger] s[a]).1.spec_priority() <= (#[trigger] s[b]).1.spec_priority(),
        forall|k: int| 0 <= k < s.len() ==> (#[trigger] s[k]).1.spec_touched(),
        children_not_above(s, g),
        levelled(g, h),
        forall|k: int| 0 <= k < s.len() ==> h((#[trigger] s[k]).0) < g.nodes@.len(),
    ensures
        settled(update_from(s, g, s.len() as int, g.nodes@.len() as nat), g),
{
    let t = Seq::new(s.len(), |k: int| if has_parent_entry(s, g, k) { s[k] } else {
        (s[k].0, s[k].1.with_propagated(s[k].1.spec_priority())) });
    assert(same_but_propagated(s, t));
    lemma_same_parent_entry(s, t, g);
    assert(agree(s, t, g, s.len() as int));
    assert(unique_entries(t)) by {
        assert forall|x: int, y: int| 0 <= x < y < t.len() implies (#[trigger] t[x]).0 != (#[trigger] t[y]).0 by {
            assert(s[x].0 == t[x].0 && s[y].0 == t[y].0);
        }
    }
    assert forall|a: int, b: int| 0 <= a < b < t.len() implies (#[trigger] t[a]).1.spec_priority() <= (#[trigger] t[b]).1.spec_priority() by {
        assert(s[a].1.spec_priority() <= s[b].1.spec_priority());
    }
    assert forall|k: int| 0 <= k < t.len() implies (#[trigger] t[k]).1.spec_touched() by {
        assert(s[k].1.spec_touched());
    }
    assert(not_above_children(t, g)) by {
        assert forall|k: int| 0 <= k < t.len() implies (#[trigger] t[k]).1.spec_propagated() <= t[k].1.spec_priority()
            || exists|j: int| 0 <= j < t.len() && #[trigger] g.children_set(t[k].0).contains(t[j].0)
                && t[k].1.spec_propagated() <= t[j].1.spec_propagated() by {
            if has_parent_entry(s, g, k) {
                assert(t[k] == s[k]);
                if !(s[k].1.spec_propagated() <= s[k].1.spec_priority()) {
                    let j = choose|j: int| 0 <= j < s.len() && #[trigger] g.children_set(s[k].0).contains(s[j].0)
                        && s[k].1.spec_propagated() <= s[j].1.spec_propagated();
                    assert(has_parent_entry(s, g, j));
                    assert(t[j] == s[j]);
                    assert(g.children_set(t[k].0).contains(t[j].0));
                }
            } else {
                assert(t[k].1.spec_propagated() == t[k].1.spec_priority());
            }
        }
    }
    assert forall|k: int| 0 <= k < t.len() implies h((#[trigger] t[k]).0) <= g.nodes@.len() as nat by {
        assert(t[k].0 == s[k].0);
        assert(h(s[k].0) < g.nodes@.len());
    }
    lemma_update(t, g, h, t.len() as int, g.nodes@.len() as nat);
    lemma_agree_update(s, t, g, s.len() as int, g.nodes@.len() as nat);
}

/// Propagation settles: once no priority is touched, as after an update, a further update
/// leaves every entry as it is.
pub proof fn law_update_settles(s: Seq<(NodeId, Priority)>, g: NodeGraph, i: int, fuel: nat)
    requires
        i <= s.len(),
        forall|k: int| 0 <= k < s.len() ==> !(#[trigger] s[k]).1.spec_touched(),
    ensures
        update_from(s, g, i, fuel) == s,
    decreases i,
{
    if i > 0 {
        assert(!s[i - 1].1.spec_touched());
        assert(update_step(s, g, i - 1, fuel) == s);
        law_update_settles(s, g, i - 1, fuel);
    }
}

proof fn lemma_same_unique(a: Seq<(NodeId, Priority)>, b: Seq<(NodeId, Priority)>)
    requires
        same_but_propagated(a, b),
        unique_entries(a),
    ensures
        unique_entries(b),
        forall|id: NodeId| has_entry(a, id) <==> has_entry(b, id),
{
    assert forall|i: int, j: int| 0 <= i < j < b.len() implies (#[trigger] b[i]).0 != (#[trigger] b[j]).0 by {
        assert(a[i].0 == b[i].0 && a[j].0 == b[j].0);
    }
    assert forall|id: NodeId| has_entry(a, id) <==> has_entry(b, id) by {
        if has_entry(a, id) {
            let k = choose|k: int| 0 <= k < a.len() && (#[trigger] a[k]).0 == id;
            assert(b[k].0 == id);
        }
        if has_entry(b, id) {
            let k = choose|k: int| 0 <= k < b.len() && (#[trigger] b[k]).0 == id;
            assert(a[k].0 == id);
        }
    }
}

/// The entries ordered by their own priority, lowest first (ties in any order).
fn sort_by_priority(src: &Vec<(NodeId, Priority)>) -> (r: Vec<(NodeId, Priority)>)
    requires
        unique_entries(src@),
    ensures
        r@.len() == src@.len(),
        unique_entries(r@),
        forall|x: (NodeId, Priority)| r@.contains(x) <==> src@.contains(x),
        forall|i: int, j: int| 0 <= i < j < r@.len() ==>
            (#[trigger] r@[i]).1.spec_priority() <= (#[trigger] r@[j]).1.spec_priority(),
{
    let mut v: Vec<(NodeId, Priority)> = Vec::new();
    let mut i: usize = 0;
    while i < src.len()
        invariant
            i <= src.len(),
            v@.len() == i,
            unique_entries(src@),
            unique_entries(v@),
            forall|x: (NodeId, Priority)| v@.contains(x) <==> src@.take(i as int).contains(x),
            forall|a: int, b: int| 0 <= a < b < v@.len() ==>
                (#[trigger] v@[a]).1.spec_priority() <= (#[trigger] v@[b]).1.spec_priority(),
        decreases src.len() - i,
    {
        let e = src[i];
        let mut p: usize = v.len();
        while p > 0 && v[p - 1].1.priority() > e.1.priority()
            invariant
                p <= v.len(),
                forall|t: int| p <= t < v@.len() ==> (#[trigger] v@[t]).1.spec_priority() > e.1.spec_priority(),
            decreases p,
        {
            p = p - 1;
        }
        let ghost before = v@;
        v.insert(p, e);
        proof {
            let t1 = src@.take(i + 1);
            let t0 = src@.take(i as int);
            assert(t1 =~= t0.push(e));
            assert forall|x: (NodeId, Priority)| v@.contains(x) <==> t1.contains(x) by {
                if v@.contains(x) {
                    let k = choose|k: int| 0 <= k < v@.len() && v@[k] == x;
                    if k < p {
                        assert(before[k] == x);
                        assert(before.contains(x));
                    } else if k > p {
                        assert(before[k - 1] == x);
                        assert(before.contains(x));
                    }
                    if x != e {
                        let m = choose|m: int| 0 <= m < i && t0[m] == x;
                        assert(t1[m] == x);
                    } else {
                        assert(t1[i as int] == x);
                    }
                }
                if t1.contains(x) {
                    let m = choose|m: int| 0 <= m < i + 1 && t1[m] == x;
                    if m < i {
                        assert(t0[m] == x);
                        assert(before.contains(x));
                        let k = choose|k: int| 0 <= k < before.len() && before[k] == x;
                        if k < p {
                            assert(v@[k] == x);
                        } else {
                            assert(v@[k + 1] == x);
                        }
                    } else {
                        assert(v@[p as int] == x);
                    }
                }
            }
            assert forall|k: int| 0 <= k < before.len() implies (#[trigger] before[k]).0 != e.0 by {
                assert(before.contains(before[k]));
                let m = choose|m: int| 0 <= m < i && t0[m] == before[k];
                assert(src@[m] == before[k]);
                assert(src@[i as int] == e);
            }
            assert forall|a: int, b: int| 0 <= a < b < v@.len() implies (#[trigger] v@[a]).0 != (#[trigger] v@[b]).0 by {
                if b < p {
                    assert(v@[a] == before[a] && v@[b] == before[b]);
                } else if b == p {
                    assert(v@[a] == before[a]);
                } else if a == p {
                    assert(v@[b] == before[b - 1]);
                } else if a < p {
                    assert(v@[a] == before[a] && v@[b] == before[b - 1]);
                } else {
                    assert(v@[a] == before[a - 1] && v@[b] == before[b - 1]);
                }
            }
            assert forall|a: int, b: int| 0 <= a < b < v@.len() implies
                (#[trigger] v@[a]).1.spec_priority() <= (#[trigger] v@[b]).1.spec_priority() by {
                if b < p {
                    assert(v@[a] == before[a] && v@[b] == before[b]);
                } else if b == p {
                    if a < p && p > 0 {
                        assert(v@[a] == before[a]);
                        assert(before[a].1.spec_priority() <= before[p - 1].1.spec_priority());
                    }
                } else if a == p {
                    assert(v@[b] == before[b - 1]);
                } else if a < p {
                    assert(v@[a] == before[a] && v@[b] == before[b - 1]);
                } else {
                    assert(v@[a] == before[a - 1] && v@[b] == before[b - 1]);
                }
            }
        }
        i = i + 1;
    }
    proof {
        assert(src@.take(i as int) =~= src@);
    }
    v
}

/// The priorities of the nodes of a graph, and how they carry over to the nodes above.
///
/// A node's propagated priority is the highest of its own priority and the propagated
/// priorities of its children, so a node that feeds an important node becomes important.
#[derive(Debug)]
pub struct PriorityPropagator {
    priorities: Vec<(NodeId, Priority)>,
}

impl PriorityPropagator {
    pub closed spec fn entries(self) -> Seq<(NodeId, Priority)> {
        self.priorities@
    }

    /// Entries belong to distinct nodes and every propagated priority is settled.
    pub open spec fn wf(self) -> bool {
        &&& unique_entries(self.entries())
        &&& forall|k: int| 0 <= k < self.entries().len() ==> (#[trigger] self.entries()[k]).1.inv()
    }

    pub fn new() -> (p: Self)
        ensures
            p.entries() == Seq::<(NodeId, Priority)>::empty(),
            p.wf(),
    {
        PriorityPropagator { priorities: Vec::new() }
    }

    /// The entries, in their current order.
    pub fn priorities(&self) -> (r: &Vec<(NodeId, Priority)>)
        ensures
            r@ == self.entries(),
    {
        &self.priorities
    }

    /// The position of the entry of `node_id`, if there is one.
    fn prio_of_node_id(&self, node_id: NodeId) -> (r: Option<usize>)
        ensures
            match r {
                Some(k) => k < self.entries().len() && self.entries()[k as int].0 == node_id
                    && forall|j: int| 0 <= j < k ==> (#[trigger] self.entries()[j]).0 != node_id,
                None => !has_entry(self.entries(), node_id),
            },
    {
        let mut k: usize = 0;
        while k < self.priorities.len()
            invariant
                k <= self.priorities.len(),
                forall|j: int| 0 <= j < k ==> (#[trigger] self.priorities@[j]).0 != node_id,
            decreases self.priorities.len() - k,
        {
            if self.priorities[k].0 == node_id {
                return Some(k);
            }
            k = k + 1;
        }
        None
    }

    /// Adds the priority of `node_id`, unless the node has one already.
    pub fn push_priority(&mut self, node_id: NodeId, priority: Priority)
        ensures
            has_entry(old(self).entries(), node_id) ==> final(self).entries() == old(self).entries(),
            !has_entry(old(self).entries(), node_id) ==> final(self).entries() == old(self).entries().push((node_id, priority)),
            old(self).wf() && priority.inv() ==> final(self).wf(),
    {
        if self.prio_of_node_id(node_id).is_none() {
            self.priorities.push((node_id, priority));
            proof {
                assert forall|i: int, j: int| 0 <= i < j < self.entries().len() && unique_entries(old(self).entries())
                    implies (#[trigger] self.entries()[i]).0 != (#[trigger] self.entries()[j]).0 by {
                    if j == self.entries().len() - 1 {
                        assert(old(self).entries()[i] == self.entries()[i]);
                    } else {
                        assert(old(self).entries()[i] == self.entries()[i]);
                        assert(old(self).entries()[j] == self.entries()[j]);
                    }
                }
                assert forall|k: int| 0 <= k < self.entries().len() && old(self).wf() && priority.inv()
                    implies (#[trigger] self.entries()[k]).1.inv() by {
                    if k < old(self).entries().len() {
                        assert(old(self).entries()[k] == self.entries()[k]);
                    }
                }
            }
        }
    }

    /// Sets the propagated priority of entry `idx` to the highest of its own priority and
    /// the propagated priorities of its children, and returns it.
    fn set_max_prio(&mut self, idx: usize, g: &NodeGraph) -> (r: i8)
        requires
            idx < old(self).entries().len(),
            unique_entries(old(self).entries()),
            g.edges_valid(),
        ensures
            final(self).entries() == set_max_spec(old(self).entries(), *g, idx as int),
            same_but_propagated(old(self).entries(), final(self).entries()),
            forall|k: int| 0 <= k < final(self).entries().len() && k != idx ==> #[trigger] final(self).entries()[k] == old(self).entries()[k],
            final(self).entries()[idx as int].1.spec_propagated() == r,
            r >= old(self).entries()[idx as int].1.spec_priority(),
            bounds_children(old(self).entries(), *g, old(self).entries()[idx as int].0, r),
            r == old(self).entries()[idx as int].1.spec_priority()
                || child_has(old(self).entries(), *g, old(self).entries()[idx as int].0, r),
            final(self).entries()[idx as int].1.inv(),
    {
        let ghost orig = self.entries();
        let id = self.priorities[idx].0;
        let own = self.priorities[idx].1.priority();
        let mut m: i8 = own;
        match g.get_children(id) {
            Ok(children) => {
                let mut t: usize = 0;
                while t < children.len()
                    invariant
                        t <= children.len(),
                        self.entries() == orig,
                        unique_entries(orig),
                        forall|c: NodeId| children@.contains(c) <==> g.children_set(id).contains(c),
                        m >= own,
                        forall|j: int| 0 <= j < orig.len() && (exists|u: int| 0 <= u < t && children@[u] == (#[trigger] orig[j]).0)
                            ==> orig[j].1.spec_propagated() <= m,
                        m == own || child_has(orig, *g, id, m),
                    decreases children.len() - t,
                {
                    let c = children[t];
                    match self.prio_of_node_id(c) {
                        Some(j) => {
                            let p = self.priorities[j].1.propagated_priority();
                            if p > m {
                                proof {
                                    assert(children@.contains(c));
                                    assert(g.children_set(id).contains(orig[j as int].0));
                                }
                                m = p;
                            }
                            proof {
                                assert forall|j2: int| 0 <= j2 < orig.len() && (exists|u: int| 0 <= u < t + 1 && children@[u] == (#[trigger] orig[j2]).0)
                                    implies orig[j2].1.spec_propagated() <= m by {
                                    let u = choose|u: int| 0 <= u < t + 1 && children@[u] == orig[j2].0;
                                    if u == t {
                                        if j2 != j {
                                            assert(orig[j2].0 == orig[j as int].0);
                                        }
                                    }
                                }
                            }
                        }
                        None => {
                            proof {
                                assert forall|j2: int| 0 <= j2 < orig.len() && (exists|u: int| 0 <= u < t + 1 && children@[u] == (#[trigger] orig[j2]).0)
                                    implies orig[j2].1.spec_propagated() <= m by {
                                    let u = choose|u: int| 0 <= u < t + 1 && children@[u] == orig[j2].0;
                                    if u == t {
                                        assert(has_entry(orig, c));
                                    }
                                }
                            }
                        }
                    }
                    t = t + 1;
                }
                proof {
                    assert forall|j: int| 0 <= j < orig.len() && #[trigger] g.children_set(id).contains(orig[j].0)
                        implies orig[j].1.spec_propagated() <= m by {
                        assert(children@.contains(orig[j].0));
                        let u = choose|u: int| 0 <= u < children@.len() && children@[u] == orig[j].0;
                    }
                }
            }
            Err(_) => {
                proof {
                    assert forall|j: int| 0 <= j < orig.len() && #[trigger] g.children_set(id).contains(orig[j].0)
                        implies orig[j].1.spec_propagated() <= m by {
                        let k = choose|k: int| 0 <= k < g.edges@.len() && g.edges@[k].output_id == id && g.edges@[k].input_id == orig[j].0;
                        assert(g.has_node(g.edges@[k].output_id));
                    }
                }
            }
        }
        let mut p = self.priorities[idx].1;
        p.set_propagated(m);
        self.priorities.set(idx, (id, p));
        proof {
            lemma_max_prop(orig, *g, id, own, m);
            assert(self.entries() =~= set_max_spec(orig, *g, idx as int));
        }
        m
    }

    /// Raises the parents of entry `idx` to its propagated priority, recomputes the ones that
    /// were above it, and carries on upwards through at most `fuel` levels.
    fn propagate_priority(&mut self, idx: usize, g: &NodeGraph, fuel: usize)
        requires
            idx < old(self).entries().len(),
            unique_entries(old(self).entries()),
            g.edges_valid(),
        ensures
            final(self).entries() == prop_spec(old(self).entries(), *g, idx as int, fuel as nat),
            same_but_propagated(old(self).entries(), final(self).entries()),
            keeps_inv(old(self).entries(), final(self).entries()),
        decreases fuel,
    {
        let ghost orig = self.entries();
        let this_prop = self.priorities[idx].1.propagated_priority();
        let this_id = self.priorities[idx].0;
        let parents = g.get_parents(this_id);
        proof {
            lemma_parents_seq(*g, this_id, parents@);
        }
        let mut i: usize = 0;
        while i < parents.len()
            invariant
                i <= parents.len(),
                prop_loop(self.entries(), *g, this_prop, parents@, i as int, fuel as nat)
                    == prop_spec(orig, *g, idx as int, fuel as nat),
                same_but_propagated(orig, self.entries()),
                keeps_inv(orig, self.entries()),
                unique_entries(orig),
                g.edges_valid(),
            decreases parents.len() - i,
        {
            let ghost before = self.entries();
            proof {
                lemma_same_unique(orig, before);
            }
            if let Some(j) = self.prio_of_node_id(parents[i]) {
                proof {
                    lemma_first_entry(before, parents@[i as int], j as int);
                }
                let old_p = self.priorities[j].1.propagated_priority();
                if old_p < this_prop {
                    let mut p = self.priorities[j].1;
                    p.set_propagated(this_prop);
                    self.priorities.set(j, (self.priorities[j].0, p));
                    proof {
                        assert forall|k: int| 0 <= k < orig.len() && (#[trigger] orig[k]).1.inv() implies self.entries()[k].1.inv() by {
                            assert(before[k].1.inv());
                        }
                        assert(same_but_propagated(orig, self.entries()));
                        lemma_same_unique(orig, self.entries());
                    }
                    if fuel > 0 {
                        self.propagate_priority(j, g, fuel - 1);
                    }
                } else if old_p > this_prop {
                    self.set_max_prio(j, g);
                    proof {
                        assert forall|k: int| 0 <= k < orig.len() && (#[trigger] orig[k]).1.inv() implies self.entries()[k].1.inv() by {
                            assert(before[k].1.inv());
                        }
                        lemma_same_unique(orig, self.entries());
                    }
                    if fuel > 0 {
                        self.propagate_priority(j, g, fuel - 1);
                    }
                }
                proof {
                    assert forall|k: int| 0 <= k < orig.len() && (#[trigger] orig[k]).1.inv() implies self.entries()[k].1.inv() by {
                        assert(before[k].1.inv());
                    }
                }
            }
            proof {
                assert(prop_loop(before, *g, this_prop, parents@, i as int, fuel as nat)
                    == prop_loop(self.entries(), *g, this_prop, parents@, i + 1, fuel as nat));
            }
            i = i + 1;
        }
    }

    /// Drops the entries of nodes that are neither in the graph nor among `held`.
    fn retain_graph_nodes(&mut self, g: &NodeGraph, held: &Vec<NodeId>)
        requires
            old(self).wf(),
        ensures
            final(self).wf(),
            forall|id: NodeId| has_entry(final(self).entries(), id) <==> (has_entry(old(self).entries(), id) && kept_id(*g, held@, id)),
            forall|k: int| 0 <= k < final(self).entries().len() ==> old(self).entries().contains(#[trigger] final(self).entries()[k]),
            forall|x: (NodeId, Priority)| #[trigger] final(self).entries().contains(x) <==> old(self).entries().contains(x) && kept_id(*g, held@, x.0),
    {
        let ghost orig = self.entries();
        let mut k: usize = 0;
        let mut kept: Vec<(NodeId, Priority)> = Vec::new();
        while k < self.priorities.len()
            invariant
                k <= self.priorities.len(),
                self.entries() == orig,
                unique_entries(orig),
                forall|i: int| 0 <= i < kept@.len() ==> kept_id(*g, held@, (#[trigger] kept@[i]).0),
                forall|i: int| 0 <= i < kept@.len() ==> exists|j: int| 0 <= j < k && orig[j] == #[trigger] kept@[i],
                forall|j: int| 0 <= j < k && kept_id(*g, held@, (#[trigger] orig[j]).0) ==> kept@.contains(orig[j]),
                forall|i: int, j: int| 0 <= i < j < kept@.len() ==> (#[trigger] kept@[i]).0 != (#[trigger] kept@[j]).0,
                forall|i: int, j: int| 0 <= i < kept@.len() && k <= j < orig.len() ==> (#[trigger] kept@[i]).0 != (#[trigger] orig[j]).0,
            decreases self.priorities.len() - k,
        {
            let e = self.priorities[k];
            if g.has_node_with_id(e.0).is_ok() || contains_id(held, e.0) {
                let ghost before = kept@;
                kept.push(e);
                proof {
                    assert(kept@[kept@.len() - 1] == orig[k as int]);
                    assert forall|j: int| 0 <= j < k + 1 && kept_id(*g, held@, (#[trigger] orig[j]).0) implies kept@.contains(orig[j]) by {
                        if j < k {
                            let i = choose|i: int| 0 <= i < before.len() && before[i] == orig[j];
                            assert(kept@[i] == orig[j]);
                        } else {
                            assert(kept@[kept@.len() - 1] == orig[j]);
                        }
                    }
                    assert forall|i: int| 0 <= i < kept@.len() implies exists|j: int| 0 <= j < k + 1 && orig[j] == #[trigger] kept@[i] by {
                        if i < before.len() {
                            assert(kept@[i] == before[i]);
                        } else {
                            assert(orig[k as int] == kept@[i]);
                        }
                    }
                    assert forall|i: int| 0 <= i < kept@.len() implies kept_id(*g, held@, (#[trigger] kept@[i]).0) by {
                        if i < before.len() {
                            assert(kept@[i] == before[i]);
                        }
                    }
                    assert forall|i: int, j: int| 0 <= i < kept@.len() && k + 1 <= j < orig.len() implies
                        (#[trigger] kept@[i]).0 != (#[trigger] orig[j]).0 by {
                        if i < before.len() {
                            assert(kept@[i] == before[i]);
                        } else {
                            assert(kept@[i] == orig[k as int]);
                        }
                    }
                    assert forall|i: int, j: int| 0 <= i < j < kept@.len() implies
                        (#[trigger] kept@[i]).0 != (#[trigger] kept@[j]).0 by {
                        if j == before.len() {
                            assert(kept@[j] == orig[k as int]);
                            assert(kept@[i] == before[i]);
                        } else {
                            assert(kept@[i] == before[i] && kept@[j] == before[j]);
                        }
                    }
                }
            }
            k = k + 1;
        }
        self.priorities = kept;
        proof {
            assert forall|id: NodeId| has_entry(self.entries(), id) <==> (has_entry(orig, id) && kept_id(*g, held@, id)) by {
                if has_entry(self.entries(), id) {
                    let i = choose|i: int| 0 <= i < self.entries().len() && (#[trigger] self.entries()[i]).0 == id;
                    let j = choose|j: int| 0 <= j < k && orig[j] == #[trigger] kept@[i];
                    assert(orig[j].0 == id);
                    assert(kept_id(*g, held@, kept@[i].0));
                }
                if has_entry(orig, id) && kept_id(*g, held@, id) {
                    let j = choose|j: int| 0 <= j < orig.len() && (#[trigger] orig[j]).0 == id;
                    assert(kept@.contains(orig[j]));
                    let i = choose|i: int| 0 <= i < kept@.len() && kept@[i] == orig[j];
                    assert(self.entries()[i].0 == id);
                }
            }
            assert forall|i: int| 0 <= i < self.entries().len() implies orig.contains(#[trigger] self.entries()[i]) by {
                let j = choose|j: int| 0 <= j < k && orig[j] == #[trigger] kept@[i];
                assert(orig[j] == self.entries()[i]);
            }
            assert forall|i: int| 0 <= i < self.entries().len() implies (#[trigger] self.entries()[i]).1.inv() by {
                let j = choose|j: int| 0 <= j < k && orig[j] == #[trigger] kept@[i];
                assert(orig[j].1.inv());
            }
            assert forall|x: (NodeId, Priority)| #[trigger] self.entries().contains(x) <==> orig.contains(x) && kept_id(*g, held@, x.0) by {
                if self.entries().contains(x) {
                    let i = choose|i: int| 0 <= i < self.entries().len() && self.entries()[i] == x;
                    let j = choose|j: int| 0 <= j < k && orig[j] == #[trigger] kept@[i];
                    assert(kept_id(*g, held@, kept@[i].0));
                }
                if orig.contains(x) && kept_id(*g, held@, x.0) {
                    let j = choose|j: int| 0 <= j < orig.len() && orig[j] == x;
                    assert(kept_id(*g, held@, orig[j].0));
                }
            }
        }
    }

    /// Brings the propagated priorities up to date after priorities or edges changed.
    ///
    /// Entries of nodes that left the graph are dropped, except those of nodes in `held` (whose
    /// priorities something outside the propagator, such as a pack at work, still holds); the
    /// rest are ordered by their own
    /// priority, lowest first. Then, from the highest priority down, every touched entry takes
    /// the highest of its own priority and its children's propagated priorities; where that is
    /// above its own priority, the change is carried up to its parents.
    pub fn update(&mut self, g: &NodeGraph, held: &Vec<NodeId>)
        requires
            old(self).wf(),
            g.edges_valid(),
        ensures
            final(self).wf(),
            forall|id: NodeId| has_entry(final(self).entries(), id) <==> (has_entry(old(self).entries(), id) && kept_id(*g, held@, id)),
            forall|k: int| 0 <= k < final(self).entries().len() ==> kept_from(old(self).entries(), #[trigger] final(self).entries()[k]),
            forall|i: int, j: int| 0 <= i < j < final(self).entries().len() ==>
                (#[trigger] final(self).entries()[i]).1.spec_priority() <= (#[trigger] final(self).entries()[j]).1.spec_priority(),
            forall|k: int| 0 <= k < final(self).entries().len() ==> !(#[trigger] final(self).entries()[k]).1.spec_touched(),
            exists|s: Seq<(NodeId, Priority)>| {
                &&& unique_entries(s)
                &&& forall|x: (NodeId, Priority)| #[trigger] s.contains(x) <==> old(self).entries().contains(x) && kept_id(*g, held@, x.0)
                &&& forall|a: int, b: int| 0 <= a < b < s.len() ==> (#[trigger] s[a]).1.spec_priority() <= (#[trigger] s[b]).1.spec_priority()
                &&& final(self).entries() == update_from(s, *g, s.len() as int, g.nodes@.len() as nat)
            },
    {
        let ghost orig = self.entries();
        self.retain_graph_nodes(g, held);
        let ghost retained = self.entries();
        let sorted_vec = sort_by_priority(&self.priorities);
        self.priorities = sorted_vec;
        let ghost sorted = self.entries();
        proof {
            assert forall|k: int| 0 <= k < sorted.len() implies (#[trigger] sorted[k]).1.inv() by {
                assert(retained.contains(sorted[k]));
                let j = choose|j: int| 0 <= j < retained.len() && retained[j] == sorted[k];
            }
            assert forall|id: NodeId| has_entry(sorted, id) <==> has_entry(retained, id) by {
                if has_entry(sorted, id) {
                    let k = choose|k: int| 0 <= k < sorted.len() && (#[trigger] sorted[k]).0 == id;
                    assert(retained.contains(sorted[k]));
                    let j = choose|j: int| 0 <= j < retained.len() && retained[j] == sorted[k];
                }
                if has_entry(retained, id) {
                    let k = choose|k: int| 0 <= k < retained.len() && (#[trigger] retained[k]).0 == id;
                    assert(sorted.contains(retained[k]));
                    let j = choose|j: int| 0 <= j < sorted.len() && sorted[j] == retained[k];
                }
            }
            assert forall|k: int| 0 <= k < sorted.len() implies exists|j: int| 0 <= j < orig.len()
                && orig[j].0 == (#[trigger] sorted[k]).0 && orig[j].1.spec_priority() == sorted[k].1.spec_priority() by {
                assert(retained.contains(sorted[k]));
                let j = choose|j: int| 0 <= j < retained.len() && retained[j] == sorted[k];
                assert(orig.contains(retained[j]));
                let j2 = choose|j2: int| 0 <= j2 < orig.len() && orig[j2] == retained[j];
            }
        }
        let fuel = g.nodes.len();
        proof {
            assert forall|k: int| 0 <= k < sorted.len() implies (#[trigger] self.entries()[k]).0 == sorted[k].0 by {}
        }
        let mut i: usize = self.priorities.len();
        while i > 0
            invariant
                i <= self.entries().len(),
                self.entries().len() == sorted.len(),
                unique_entries(sorted),
                g.edges_valid(),
                forall|k: int| 0 <= k < sorted.len() ==> (#[trigger] self.entries()[k]).0 == sorted[k].0
                    && self.entries()[k].1.spec_priority() == sorted[k].1.spec_priority(),
                forall|k: int| 0 <= k < sorted.len() ==> (#[trigger] self.entries()[k]).1.inv(),
                forall|k: int| i <= k < sorted.len() ==> !(#[trigger] self.entries()[k]).1.spec_touched(),
                forall|k: int| 0 <= k < i ==> (#[trigger] self.entries()[k]).1.spec_touched() == sorted[k].1.spec_touched(),
                update_from(self.entries(), *g, i as int, fuel as nat) == update_from(sorted, *g, sorted.len() as int, fuel as nat),
                fuel == g.nodes@.len(),
            decreases i,
        {
            let idx = i - 1;
            proof {
                assert forall|a: int, b: int| 0 <= a < b < self.entries().len() implies
                    (#[trigger] self.entries()[a]).0 != (#[trigger] self.entries()[b]).0 by {
                    assert(self.entries()[a].0 == sorted[a].0 && self.entries()[b].0 == sorted[b].0);
                }
            }
            let ghost s_in = self.entries();
            if self.priorities[idx].1.is_touched() {
                let ghost s0 = self.entries();
                let new_prio = self.set_max_prio(idx, g);
                let ghost sa = self.entries();
                let mut p = self.priorities[idx].1;
                let id = self.priorities[idx].0;
                p.untouch();
                self.priorities.set(idx, (id, p));
                let ghost s1 = self.entries();
                proof {
                    assert(s1 == sa.update(idx as int, (id, p)));
                    assert forall|k: int| 0 <= k < sorted.len() implies (#[trigger] s1[k]).0 == s_in[k].0
                        && s1[k].1.spec_priority() == s_in[k].1.spec_priority()
                        && (k != idx ==> s1[k].1.spec_touched() == s_in[k].1.spec_touched()) by {
                        assert(sa[k].0 == s_in[k].0);
                    }
                    assert(!s1[idx as int].1.spec_touched());
                    assert forall|k: int| 0 <= k < sorted.len() implies (#[trigger] self.entries()[k]).1.inv() by {
                        if k != idx {
                            assert(s1[k] == s0[k]);
                        }
                    }
                    assert forall|a: int, b: int| 0 <= a < b < self.entries().len() implies
                        (#[trigger] self.entries()[a]).0 != (#[trigger] self.entries()[b]).0 by {
                        assert(self.entries()[a].0 == sorted[a].0 && self.entries()[b].0 == sorted[b].0);
                    }
                }
                if new_prio > self.priorities[idx].1.priority() {
                    self.set_max_prio(idx, g);
                    let ghost s2 = self.entries();
                    proof {
                        lemma_same_unique(s1, s2);
                    }
                    self.propagate_priority(idx, g, fuel);
                    proof {
                        assert forall|k: int| 0 <= k < sorted.len() implies (#[trigger] self.entries()[k]).1.inv() by {
                            if k != idx {
                                assert(s2[k] == s1[k]);
                            }
                            assert(s2[k].1.inv());
                        }
                        assert forall|k: int| 0 <= k < sorted.len() implies (#[trigger] self.entries()[k]).0 == s1[k].0
                            && self.entries()[k].1.spec_priority() == s1[k].1.spec_priority()
                            && self.entries()[k].1.spec_touched() == s1[k].1.spec_touched() by {
                            assert(s2[k].0 == s1[k].0);
                        }
                    }
                }
                proof {
                    assert forall|k: int| 0 <= k < sorted.len() implies (#[trigger] self.entries()[k]).0 == sorted[k].0
                        && self.entries()[k].1.spec_priority() == sorted[k].1.spec_priority() by {
                        assert(s1[k].0 == s_in[k].0);
                    }
                    assert forall|k: int| idx <= k < sorted.len() implies !(#[trigger] self.entries()[k]).1.spec_touched() by {
                        assert(s1[k].0 == s_in[k].0);
                    }
                    assert forall|k: int| 0 <= k < idx implies (#[trigger] self.entries()[k]).1.spec_touched() == sorted[k].1.spec_touched() by {
                        assert(s1[k].0 == s_in[k].0);
                    }
                }
            }
            proof {
                assert(self.entries() == update_step(s_in, *g, idx as int, fuel as nat));
                assert(update_from(s_in, *g, i as int, fuel as nat) == update_from(self.entries(), *g, idx as int, fuel as nat));
            }
            i = idx;
        }
        proof {
            assert(self.entries() == update_from(sorted, *g, sorted.len() as int, fuel as nat));
            assert forall|a: int, b: int| 0 <= a < b < self.entries().len() implies
                (#[trigger] self.entries()[a]).0 != (#[trigger] self.entries()[b]).0 by {
                assert(self.entries()[a].0 == sorted[a].0 && self.entries()[b].0 == sorted[b].0);
            }
            assert forall|id: NodeId| has_entry(self.entries(), id) <==> has_entry(sorted, id) by {
                if has_entry(self.entries(), id) {
                    let k = choose|k: int| 0 <= k < self.entries().len() && (#[trigger] self.entries()[k]).0 == id;
                    assert(sorted[k].0 == id);
                }
                if has_entry(sorted, id) {
                    let k = choose|k: int| 0 <= k < sorted.len() && (#[trigger] sorted[k]).0 == id;
                    assert(self.entries()[k].0 == id);
                }
            }
            assert forall|k: int| 0 <= k < self.entries().len() implies kept_from(old(self).entries(), #[trigger] self.entries()[k]) by {
                assert(self.entries()[k].0 == sorted[k].0);
                let j = choose|j: int| 0 <= j < orig.len()
                    && orig[j].0 == (#[trigger] sorted[k]).0 && orig[j].1.spec_priority() == sorted[k].1.spec_priority();
                assert(0 <= j < orig.len() && orig[j].0 == self.entries()[k].0
                    && orig[j].1.spec_priority() == self.entries()[k].1.spec_priority());
            }
            assert forall|a: int, b: int| 0 <= a < b < self.entries().len() implies
                (#[trigger] self.entries()[a]).1.spec_priority() <= (#[trigger] self.entries()[b]).1.spec_priority() by {
                assert(self.entries()[a].1.spec_priority() == sorted[a].1.spec_priority());
                assert(self.entries()[b].1.spec_priority() == sorted[b].1.spec_priority());
            }
        }
    }

    /// The priority of `node_id`, if it has one.
    pub fn priority_of(&self, node_id: NodeId) -> (r: Option<Priority>)
        ensures
            match r {
                Some(p) => exists|k: int| 0 <= k < self.entries().len() && #[trigger] self.entries()[k] == (node_id, p),
                None => !has_entry(self.entries(), node_id),
            },
    {
        match self.prio_of_node_id(node_id) {
            Some(k) => Some(self.priorities[k].1),
            None => None,
        }
    }

    /// Marks the priority of `node_id` (if it has one) for propagation.
    pub fn touch(&mut self, node_id: NodeId)
        ensures
            final(self).entries().len() == old(self).entries().len(),
            forall|k: int| 0 <= k < old(self).entries().len() ==> {
                &&& (#[trigger] final(self).entries()[k]).0 == old(self).entries()[k].0
                &&& final(self).entries()[k].1.spec_priority() == old(self).entries()[k].1.spec_priority()
                &&& final(self).entries()[k].1.spec_propagated() == old(self).entries()[k].1.spec_propagated()
                &&& final(self).entries()[k].1.spec_touched() == (old(self).entries()[k].1.spec_touched()
                    || (old(self).entries()[k].0 == node_id && k == first_entry(old(self).entries(), node_id)))
            },
            old(self).wf() ==> final(self).wf(),
    {
        match self.prio_of_node_id(node_id) {
            Some(k) => {
                let mut p = self.priorities[k].1;
                p.touch();
                let id = self.priorities[k].0;
                self.priorities.set(k, (id, p));
                proof {
                    assert(k == first_entry(old(self).entries(), node_id)) by {
                        lemma_first_entry(old(self).entries(), node_id, k as int);
                    }
                    if old(self).wf() {
                        assert forall|i: int, j: int| 0 <= i < j < self.entries().len() implies
                            (#[trigger] self.entries()[i]).0 != (#[trigger] self.entries()[j]).0 by {
                            assert(old(self).entries()[i].0 == self.entries()[i].0);
                            assert(old(self).entries()[j].0 == self.entries()[j].0);
                        }
                        assert forall|i: int| 0 <= i < self.entries().len() implies (#[trigger] self.entries()[i]).1.inv() by {
                            assert(old(self).entries()[i].1.inv());
                        }
                    }
                }
            }
            None => {}
        }
    }

    /// Sets the own priority of `node_id`, if it has one; returns whether it has.
    pub fn set_priority(&mut self, node_id: NodeId, val: i8) -> (found: bool)
        ensures
            found == has_entry(old(self).entries(), node_id),
            final(self).entries().len() == old(self).entries().len(),
            forall|k: int| 0 <= k < old(self).entries().len() ==> {
                &&& (#[trigger] final(self).entries()[k]).0 == old(self).entries()[k].0
                &&& final(self).entries()[k].1.spec_propagated() == old(self).entries()[k].1.spec_propagated()
                &&& if old(self).entries()[k].0 == node_id && k == first_entry(old(self).entries(), node_id) {
                    &&& final(self).entries()[k].1.spec_priority() == val
                    &&& final(self).entries()[k].1.spec_touched() == (old(self).entries()[k].1.spec_touched()
                        || old(self).entries()[k].1.spec_priority() != val)
                } else {
                    final(self).entries()[k].1 == old(self).entries()[k].1
                }
            },
            old(self).wf() ==> final(self).wf(),
    {
        match self.prio_of_node_id(node_id) {
            Some(k) => {
                let mut p = self.priorities[k].1;
                p.set_priority(val);
                let id = self.priorities[k].0;
                self.priorities.set(k, (id, p));
                proof {
                    assert(k == first_entry(old(self).entries(), node_id)) by {
                        lemma_first_entry(old(self).entries(), node_id, k as int);
                    }
                    if old(self).wf() {
                        assert forall|i: int, j: int| 0 <= i < j < self.entries().len() implies
                            (#[trigger] self.entries()[i]).0 != (#[trigger] self.entries()[j]).0 by {
                            assert(old(self).entries()[i].0 == self.entries()[i].0);
                            assert(old(self).entries()[j].0 == self.entries()[j].0);
                        }
                        assert forall|i: int| 0 <= i < self.entries().len() implies (#[trigger] self.entries()[i]).1.inv() by {
                            assert(old(self).entries()[i].1.inv());
                        }
                    }
                }
                true
            }
            None => false,
        }
    }
}

} // verus!
