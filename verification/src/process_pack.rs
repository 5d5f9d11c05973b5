use vstd::prelude::*;
use crate::live_graph::NodeState;
use crate::node_graph::NodeId;

verus! {

/// A node waiting to be processed, in one of the live graphs, with its propagated priority.
#[derive(Clone, Copy, Debug, PartialEq, Eq, Structural)]
pub struct ProcessPack {
    pub node_id: NodeId,
    pub graph_id: u64,
    pub priority: i8,
}

/// What the engine is to do after an update of the packs being processed, in order.
#[derive(Clone, Copy, Debug, PartialEq, Eq, Structural)]
pub enum PackAction {
    /// Lower the cancel flag of the pack's node, so that it can be processed.
    Uncancel(ProcessPack),
    /// Raise the cancel flag of the pack's node: it makes room for a more important one.
    Cancel(ProcessPack),
    /// Start processing the pack's node.
    Start(ProcessPack),
}

/// The number of CPUs of this machine.
#[verifier::external_body]
fn cpu_count() -> (r: usize)
    ensures
        r >= 1,
{
    num_cpus::get()
}

/// How many packs of `s` have a priority below `pr`, counted from the front: where a pack with
/// priority `pr` goes in the ascending `s`.
pub open spec fn first_not_below(s: Seq<ProcessPack>, pr: i8) -> int
    decreases s.len(),
{
    if s.len() == 0 {
        0
    } else if s[0].priority < pr {
        1 + first_not_below(s.drop_first(), pr)
    } else {
        0
    }
}

/// `s` with `x` inserted before the first pack whose priority is not below that of `x`.
pub open spec fn insert_sorted(s: Seq<ProcessPack>, x: ProcessPack) -> Seq<ProcessPack> {
    s.insert(first_not_below(s, x.priority), x)
}

/// Ascending by priority.
pub open spec fn sorted_packs(s: Seq<ProcessPack>) -> bool {
    forall|i: int, j: int| 0 <= i < j < s.len() ==> (#[trigger] s[i]).priority <= (#[trigger] s[j]).priority
}

/// The packs being processed, and the actions taken, after considering the candidates `cands`
/// in turn, given at most `max` packs at a time: a candidate is taken while there is room, or
/// in place of the least important pack when it is more important than that one; the first
/// candidate that is neither ends the round.
pub open spec fn schedule(packs: Seq<ProcessPack>, cands: Seq<ProcessPack>, max: nat) -> (Seq<ProcessPack>, Seq<PackAction>)
    decreases cands.len(),
{
    if cands.len() == 0 {
        (packs, seq![])
    } else {
        let c = cands[0];
        if packs.len() < max {
            let r = schedule(insert_sorted(packs, c), cands.drop_first(), max);
            (r.0, seq![PackAction::Uncancel(c), PackAction::Start(c)] + r.1)
        } else if packs.len() > 0 && c.priority > packs[0].priority {
            let p1 = insert_sorted(packs, c);
            let r = schedule(p1.drop_first(), cands.drop_first(), max);
            (r.0, seq![PackAction::Uncancel(c), PackAction::Cancel(p1[0]), PackAction::Start(c)] + r.1)
        } else {
            (packs, seq![])
        }
    }
}

/// The candidates whose node is still there, in order: those with `true` at their place in
/// `present`.
pub open spec fn present_only(cands: Seq<ProcessPack>, present: Seq<bool>) -> Seq<ProcessPack>
    decreases cands.len(),
{
    if cands.len() == 0 {
        seq![]
    } else {
        let prev = present_only(cands.drop_last(), present.drop_last());
        if present.len() == cands.len() && present.last() { prev.push(cands.last()) } else { prev }
    }
}

/// The packs that are still being worked on, in order, with their current priorities: those
/// whose node is still there and not clean.
pub open spec fn still_busy(packs: Seq<ProcessPack>, current: Seq<Option<(NodeState, i8)>>) -> Seq<ProcessPack>
    decreases packs.len(),
{
    if packs.len() == 0 || current.len() < packs.len() {
        seq![]
    } else {
        let prev = still_busy(packs.drop_last(), current);
        let k = packs.len() - 1;
        match current[k] {
            Some((s, pr)) => if s != NodeState::Clean {
                prev.push(ProcessPack { priority: pr, ..packs[k] })
            } else {
                prev
            },
            None => prev,
        }
    }
}

/// `s` is `t` ordered by priority.
pub open spec fn sorted_perm(s: Seq<ProcessPack>, t: Seq<ProcessPack>) -> bool {
    s.to_multiset() == t.to_multiset() && sorted_packs(s)
}

/// The first `n` packs of `s` (all of them when there are fewer).
pub open spec fn truncated(s: Seq<ProcessPack>, n: nat) -> Seq<ProcessPack> {
    if n <= s.len() { s.subrange(0, n as int) } else { s }
}

proof fn lemma_first_not_below(s: Seq<ProcessPack>, pr: i8, p: int)
    requires
        0 <= p <= s.len(),
        forall|j: int| 0 <= j < p ==> (#[trigger] s[j]).priority < pr,
        p == s.len() || s[p].priority >= pr,
    ensures
        first_not_below(s, pr) == p,
    decreases p,
{
    if p > 0 {
        let t = s.drop_first();
        assert forall|j: int| 0 <= j < p - 1 implies (#[trigger] t[j]).priority < pr by {
            assert(t[j] == s[j + 1]);
        }
        if p < s.len() {
            assert(t[p - 1] == s[p]);
        }
        lemma_first_not_below(t, pr, p - 1);
        assert(s[0].priority < pr);
    }
}

/// Inserts `x` before the first pack whose priority is not below that of `x`.
fn insert_by_priority(v: &mut Vec<ProcessPack>, x: ProcessPack)
    ensures
        final(v)@ == insert_sorted(old(v)@, x),
{
    let mut p: usize = 0;
    while p < v.len() && v[p].priority < x.priority
        invariant
            p <= v.len(),
            v@ == old(v)@,
            forall|j: int| 0 <= j < p ==> (#[trigger] v@[j]).priority < x.priority,
        decreases v.len() - p,
    {
        p = p + 1;
    }
    proof {
        lemma_first_not_below(v@, x.priority, p as int);
    }
    v.insert(p, x);
}

/// The packs ordered by priority (ties in any order).
fn sort_by_priority(src: &Vec<ProcessPack>) -> (r: Vec<ProcessPack>)
    ensures
        sorted_perm(r@, src@),
{
    let mut v: Vec<ProcessPack> = Vec::new();
    let mut i: usize = 0;
    proof {
        broadcast use vstd::seq_lib::group_to_multiset_ensures;
        assert(src@.take(0) =~= Seq::<ProcessPack>::empty());
        assert(v@ =~= Seq::<ProcessPack>::empty());
    }
    while i < src.len()
        invariant
            i <= src.len(),
            v@.to_multiset() == src@.take(i as int).to_multiset(),
            sorted_packs(v@),
        decreases src.len() - i,
    {
        let e = src[i];
        let mut p: usize = v.len();
        while p > 0 && v[p - 1].priority > e.priority
            invariant
                p <= v.len(),
                forall|t: int| p <= t < v@.len() ==> (#[trigger] v@[t]).priority > e.priority,
            decreases p,
        {
            p = p - 1;
        }
        let ghost before = v@;
        v.insert(p, e);
        proof {
            broadcast use vstd::seq_lib::group_to_multiset_ensures;
            assert(src@.take(i + 1) =~= src@.take(i as int).push(e));
            assert(v@.remove(p as int) =~= before);
            assert(v@[p as int] == e);
            assert(v@.remove(p as int).to_multiset() =~= v@.to_multiset().remove(e));
            assert(v@.to_multiset().count(e) > 0);
            assert(v@.to_multiset() =~= before.to_multiset().insert(e));
            assert forall|a: int, b: int| 0 <= a < b < v@.len() implies (#[trigger] v@[a]).priority <= (#[trigger] v@[b]).priority by {
                if b < p {
                    assert(v@[a] == before[a] && v@[b] == before[b]);
                } else if b == p {
                    if a < p && p > 0 {
                        assert(v@[a] == before[a]);
                        assert(before[a].priority <= before[p - 1].priority);
                    }
                } else if a == p {
                    assert(v@[b] == before[b - 1]);
                } else if a < p {
                    assert(v@[a] == before[a] && v@[b] == before[b - 1]);
                } else {
                    assert(v@[a] == before[a - 1] && v@[b] == before[b - 1]);
                }
            }
        }
        i = i + 1;
    }
    proof {
        assert(src@.take(i as int) =~= src@);
    }
    v
}

proof fn lemma_insert_sorted(s: Seq<ProcessPack>, x: ProcessPack)
    requires
        sorted_packs(s),
    ensures
        sorted_packs(insert_sorted(s, x)),
        insert_sorted(s, x).len() == s.len() + 1,
{
    let p = first_not_below(s, x.priority);
    lemma_first_not_below_facts(s, x.priority);
    let t = insert_sorted(s, x);
    assert forall|i: int, j: int| 0 <= i < j < t.len() implies (#[trigger] t[i]).priority <= (#[trigger] t[j]).priority by {
        if j < p {
            assert(t[i] == s[i] && t[j] == s[j]);
        } else if j == p {
            assert(t[i] == s[i]);
        } else if i == p {
            assert(t[j] == s[j - 1]);
        } else if i < p {
            assert(t[i] == s[i] && t[j] == s[j - 1]);
        } else {
            assert(t[i] == s[i - 1] && t[j] == s[j - 1]);
        }
    }
}

proof fn lemma_first_not_below_facts(s: Seq<ProcessPack>, pr: i8)
    requires
        sorted_packs(s),
    ensures
        0 <= first_not_below(s, pr) <= s.len(),
        forall|j: int| 0 <= j < first_not_below(s, pr) ==> (#[trigger] s[j]).priority < pr,
        forall|j: int| first_not_below(s, pr) <= j < s.len() ==> (#[trigger] s[j]).priority >= pr,
    decreases s.len(),
{
    if s.len() > 0 {
        let t = s.drop_first();
        assert(sorted_packs(t)) by {
            assert forall|i: int, j: int| 0 <= i < j < t.len() implies (#[trigger] t[i]).priority <= (#[trigger] t[j]).priority by {
                assert(t[i] == s[i + 1] && t[j] == s[j + 1]);
            }
        }
        lemma_first_not_below_facts(t, pr);
        if s[0].priority < pr {
            assert forall|j: int| 0 <= j < first_not_below(s, pr) implies (#[trigger] s[j]).priority < pr by {
                if j > 0 {
                    assert(s[j] == t[j - 1]);
                }
            }
            assert forall|j: int| first_not_below(s, pr) <= j < s.len() implies (#[trigger] s[j]).priority >= pr by {
                assert(s[j] == t[j - 1]);
            }
        } else {
            assert forall|j: int| 0 <= j < s.len() implies (#[trigger] s[j]).priority >= pr by {
                if j > 0 {
                    assert(s[0].priority <= s[j].priority);
                }
            }
        }
    }
}

/// The packs being processed stay ordered by priority and never grow beyond `max`.
pub proof fn law_schedule_bounded(packs: Seq<ProcessPack>, cands: Seq<ProcessPack>, max: nat)
    requires
        sorted_packs(packs),
        packs.len() <= max,
    ensures
        sorted_packs(schedule(packs, cands, max).0),
        schedule(packs, cands, max).0.len() <= max,
    decreases cands.len(),
{
    if cands.len() > 0 {
        let c = cands[0];
        if packs.len() < max {
            lemma_insert_sorted(packs, c);
            law_schedule_bounded(insert_sorted(packs, c), cands.drop_first(), max);
        } else if packs.len() > 0 && c.priority > packs[0].priority {
            lemma_insert_sorted(packs, c);
            let p1 = insert_sorted(packs, c);
            let p2 = p1.drop_first();
            assert(sorted_packs(p2)) by {
                assert forall|i: int, j: int| 0 <= i < j < p2.len() implies (#[trigger] p2[i]).priority <= (#[trigger] p2[j]).priority by {
                    assert(p2[i] == p1[i + 1] && p2[j] == p1[j + 1]);
                }
            }
            law_schedule_bounded(p2, cands.drop_first(), max);
        }
    }
}

/// A pack that is being processed and at least as important as every candidate still to come
/// stays among the packs being processed.
proof fn lemma_stays(packs: Seq<ProcessPack>, cands: Seq<ProcessPack>, max: nat, x: ProcessPack)
    requires
        sorted_packs(packs),
        packs.contains(x),
        forall|j: int| 0 <= j < cands.len() ==> (#[trigger] cands[j]).priority <= x.priority,
    ensures
        schedule(packs, cands, max).0.contains(x),
    decreases cands.len(),
{
    if cands.len() > 0 {
        let c = cands[0];
        let rest = cands.drop_first();
        assert forall|j: int| 0 <= j < rest.len() implies (#[trigger] rest[j]).priority <= x.priority by {
            assert(rest[j] == cands[j + 1]);
        }
        let p = first_not_below(packs, c.priority);
        lemma_first_not_below_facts(packs, c.priority);
        lemma_insert_sorted(packs, c);
        let p1 = insert_sorted(packs, c);
        let i = choose|i: int| 0 <= i < packs.len() && packs[i] == x;
        assert(p1 == packs.insert(p, c));
        let k = if i < p { i } else { i + 1 };
        assert(p1[k] == x);
        if packs.len() < max {
            assert(p1.contains(x));
            lemma_stays(p1, rest, max, x);
        } else if packs.len() > 0 && c.priority > packs[0].priority {
            assert(p >= 1);
            assert(i != 0);
            assert(k >= 1);
            assert(p1.drop_first()[k - 1] == x);
            assert(sorted_packs(p1.drop_first())) by {
                assert forall|a: int, b: int| 0 <= a < b < p1.drop_first().len() implies
                    (#[trigger] p1.drop_first()[a]).priority <= (#[trigger] p1.drop_first()[b]).priority by {
                    assert(p1.drop_first()[a] == p1[a + 1] && p1.drop_first()[b] == p1[b + 1]);
                }
            }
            lemma_stays(p1.drop_first(), rest, max, x);
        }
    }
}

/// Every pack that an update starts is one of the candidates.
pub proof fn law_started_are_candidates(packs: Seq<ProcessPack>, cands: Seq<ProcessPack>, max: nat, k: int)
    requires
        0 <= k < schedule(packs, cands, max).1.len(),
        schedule(packs, cands, max).1[k] is Start,
    ensures
        cands.contains(schedule(packs, cands, max).1[k]->Start_0),
    decreases cands.len(),
{
    if cands.len() > 0 {
        let c = cands[0];
        let rest = cands.drop_first();
        let acts = schedule(packs, cands, max).1;
        if packs.len() < max {
            let r = schedule(insert_sorted(packs, c), rest, max);
            assert(acts == seq![PackAction::Uncancel(c), PackAction::Start(c)] + r.1);
            if k >= 2 {
                assert(acts[k] == r.1[k - 2]);
                law_started_are_candidates(insert_sorted(packs, c), rest, max, k - 2);
                let j = choose|j: int| 0 <= j < rest.len() && rest[j] == r.1[k - 2]->Start_0;
                assert(cands[j + 1] == rest[j]);
            } else {
                assert(cands[0] == c);
            }
        } else if packs.len() > 0 && c.priority > packs[0].priority {
            let p1 = insert_sorted(packs, c);
            let r = schedule(p1.drop_first(), rest, max);
            assert(acts == seq![PackAction::Uncancel(c), PackAction::Cancel(p1[0]), PackAction::Start(c)] + r.1);
            if k >= 3 {
                assert(acts[k] == r.1[k - 3]);
                law_started_are_candidates(p1.drop_first(), rest, max, k - 3);
                let j = choose|j: int| 0 <= j < rest.len() && rest[j] == r.1[k - 3]->Start_0;
                assert(cands[j + 1] == rest[j]);
            } else {
                assert(cands[0] == c);
            }
        }
    }
}

/// With the candidates from the most important down, every pack that an update starts is among
/// the packs being processed afterwards, and packs are started from the most important down.
pub proof fn law_started_stay(packs: Seq<ProcessPack>, cands: Seq<ProcessPack>, max: nat)
    requires
        sorted_packs(packs),
        forall|i: int, j: int| 0 <= i < j < cands.len() ==> (#[trigger] cands[i]).priority >= (#[trigger] cands[j]).priority,
    ensures
        forall|k: int| 0 <= k < schedule(packs, cands, max).1.len() && (#[trigger] schedule(packs, cands, max).1[k]) is Start
            ==> schedule(packs, cands, max).0.contains(schedule(packs, cands, max).1[k]->Start_0),
        forall|i: int, j: int| 0 <= i < j < schedule(packs, cands, max).1.len()
            && (#[trigger] schedule(packs, cands, max).1[i]) is Start && (#[trigger] schedule(packs, cands, max).1[j]) is Start
            ==> (schedule(packs, cands, max).1[i]->Start_0).priority >= (schedule(packs, cands, max).1[j]->Start_0).priority,
    decreases cands.len(),
{
    if cands.len() > 0 {
        let c = cands[0];
        let rest = cands.drop_first();
        assert forall|i: int, j: int| 0 <= i < j < rest.len() implies (#[trigger] rest[i]).priority >= (#[trigger] rest[j]).priority by {
            assert(rest[i] == cands[i + 1] && rest[j] == cands[j + 1]);
        }
        assert forall|j: int| 0 <= j < rest.len() implies (#[trigger] rest[j]).priority <= c.priority by {
            assert(rest[j] == cands[j + 1]);
        }
        let res = schedule(packs, cands, max);
        lemma_insert_sorted(packs, c);
        let p1 = insert_sorted(packs, c);
        lemma_first_not_below_facts(packs, c.priority);
        assert(p1[first_not_below(packs, c.priority)] == c);
        if packs.len() < max {
            let r = schedule(p1, rest, max);
            law_started_stay(p1, rest, max);
            assert(res.1 == seq![PackAction::Uncancel(c), PackAction::Start(c)] + r.1);
            assert(res.0 == r.0);
            lemma_stays(p1, rest, max, c);
            assert forall|k: int| 0 <= k < res.1.len() && (#[trigger] res.1[k]) is Start implies res.0.contains(res.1[k]->Start_0) by {
                if k >= 2 {
                    assert(res.1[k] == r.1[k - 2]);
                }
            }
            assert forall|i: int, j: int| 0 <= i < j < res.1.len() && (#[trigger] res.1[i]) is Start && (#[trigger] res.1[j]) is Start
                implies (res.1[i]->Start_0).priority >= (res.1[j]->Start_0).priority by {
                assert(res.1[j] == r.1[j - 2]);
                if i >= 2 {
                    assert(res.1[i] == r.1[i - 2]);
                } else {
                    law_started_are_candidates(p1, rest, max, j - 2);
                }
            }
        } else if packs.len() > 0 && c.priority > packs[0].priority {
            let q = p1.drop_first();
            assert(sorted_packs(q)) by {
                assert forall|a: int, b: int| 0 <= a < b < q.len() implies (#[trigger] q[a]).priority <= (#[trigger] q[b]).priority by {
                    assert(q[a] == p1[a + 1] && q[b] == p1[b + 1]);
                }
            }
            let pos = first_not_below(packs, c.priority);
            assert(pos >= 1);
            assert(q[pos - 1] == c);
            let r = schedule(q, rest, max);
            law_started_stay(q, rest, max);
            assert(res.1 == seq![PackAction::Uncancel(c), PackAction::Cancel(p1[0]), PackAction::Start(c)] + r.1);
            assert(res.0 == r.0);
            lemma_stays(q, rest, max, c);
            assert forall|k: int| 0 <= k < res.1.len() && (#[trigger] res.1[k]) is Start implies res.0.contains(res.1[k]->Start_0) by {
                if k >= 3 {
                    assert(res.1[k] == r.1[k - 3]);
                }
            }
            assert forall|i: int, j: int| 0 <= i < j < res.1.len() && (#[trigger] res.1[i]) is Start && (#[trigger] res.1[j]) is Start
                implies (res.1[i]->Start_0).priority >= (res.1[j]->Start_0).priority by {
                assert(res.1[j] == r.1[j - 3]);
                if i >= 3 {
                    assert(res.1[i] == r.1[i - 3]);
                } else {
                    law_started_are_candidates(q, rest, max, j - 3);
                }
            }
        }
    }
}

/// A candidate taken in the place of a pack is more important than the pack it displaces.
pub proof fn law_displaced_less_important(packs: Seq<ProcessPack>, c: ProcessPack, max: nat)
    requires
        sorted_packs(packs),
        packs.len() >= max,
        packs.len() > 0,
        c.priority > packs[0].priority,
    ensures
        insert_sorted(packs, c)[0] == packs[0],
        insert_sorted(packs, c)[0].priority < c.priority,
{
    lemma_first_not_below_facts(packs, c.priority);
}

/// When no more packs fit, the next candidate displaces the least important pack being processed
/// exactly when it is more important than that pack: it is uncancelled, the least important pack
/// is cancelled and the candidate is started; otherwise the round ends with nothing to do.
pub proof fn law_full_displaces_least(packs: Seq<ProcessPack>, cands: Seq<ProcessPack>, max: nat)
    requires
        sorted_packs(packs),
        packs.len() >= max,
        cands.len() > 0,
    ensures
        (exists|i: int| 0 <= i < packs.len() && (#[trigger] packs[i]).priority < cands[0].priority) ==> {
            let acts = schedule(packs, cands, max).1;
            &&& acts.len() >= 3
            &&& acts[0] == PackAction::Uncancel(cands[0])
            &&& acts[2] == PackAction::Start(cands[0])
            &&& acts[1] matches PackAction::Cancel(x) && packs.contains(x) && x.priority < cands[0].priority
                && forall|j: int| 0 <= j < packs.len() ==> x.priority <= (#[trigger] packs[j]).priority
        },
        (forall|i: int| 0 <= i < packs.len() ==> (#[trigger] packs[i]).priority >= cands[0].priority)
            ==> schedule(packs, cands, max) == (packs, Seq::<PackAction>::empty()),
{
    let c = cands[0];
    if exists|i: int| 0 <= i < packs.len() && (#[trigger] packs[i]).priority < c.priority {
        let i = choose|i: int| 0 <= i < packs.len() && (#[trigger] packs[i]).priority < c.priority;
        assert(packs[0].priority <= packs[i].priority) by {
            if i > 0 {
                assert(packs[0].priority <= packs[i].priority);
            }
        }
        law_displaced_less_important(packs, c, max);
        let p1 = insert_sorted(packs, c);
        let r = schedule(p1.drop_first(), cands.drop_first(), max);
        assert(schedule(packs, cands, max).1 == seq![PackAction::Uncancel(c), PackAction::Cancel(p1[0]), PackAction::Start(c)] + r.1);
        assert(packs.contains(packs[0]));
        assert forall|j: int| 0 <= j < packs.len() implies packs[0].priority <= (#[trigger] packs[j]).priority by {
            if j > 0 {
                assert(packs[0].priority <= packs[j].priority);
            }
        }
    }
    if forall|i: int| 0 <= i < packs.len() ==> (#[trigger] packs[i]).priority >= c.priority {
        if packs.len() > 0 {
            assert(packs[0].priority >= c.priority);
        }
    }
}

/// The nodes being processed, at most `max_count` at a time, the least important first.
#[derive(Debug)]
pub struct ProcessPackManager {
    process_packs: Vec<ProcessPack>,
    max_count: usize,
}

impl ProcessPackManager {
    pub closed spec fn packs(self) -> Seq<ProcessPack> {
        self.process_packs@
    }

    pub closed spec fn spec_max_count(self) -> usize {
        self.max_count
    }

    /// A manager for as many nodes at a time as the machine has CPUs.
    pub fn new() -> (m: Self)
        ensures
            m.packs() == Seq::<ProcessPack>::empty(),
            m.spec_max_count() >= 1,
    {
        Self { process_packs: Vec::new(), max_count: cpu_count() }
    }

    /// A manager for at most `max_count` nodes at a time.
    pub fn with_max_count(max_count: usize) -> (m: Self)
        ensures
            m.packs() == Seq::<ProcessPack>::empty(),
            m.spec_max_count() == max_count,
    {
        Self { process_packs: Vec::new(), max_count }
    }

    pub fn max_count(&self) -> (r: usize)
        ensures
            r == self.spec_max_count(),
    {
        self.max_count
    }

    pub fn set_max_count(&mut self, max_count: usize)
        ensures
            final(self).spec_max_count() == max_count,
            final(self).packs() == old(self).packs(),
    {
        self.max_count = max_count;
    }

    /// The packs being processed, the least important first.
    pub fn process_packs(&self) -> (r: &Vec<ProcessPack>)
        ensures
            r@ == self.packs(),
    {
        &self.process_packs
    }

    /// Drops the packs whose node is gone (`None`) or clean, and takes the current priority of
    /// the others; `current` describes the packs in order.
    fn remove_clean(&self, current: &Vec<Option<(NodeState, i8)>>) -> (r: Vec<ProcessPack>)
        requires
            current@.len() == self.packs().len(),
        ensures
            r@ == still_busy(self.packs(), current@),
    {
        let mut kept: Vec<ProcessPack> = Vec::new();
        let mut i: usize = 0;
        while i < self.process_packs.len()
            invariant
                i <= self.process_packs.len(),
                current@.len() == self.process_packs@.len(),
                kept@ == still_busy(self.process_packs@.take(i as int), current@),
            decreases self.process_packs.len() - i,
        {
            proof {
                assert(self.process_packs@.take(i + 1).drop_last() =~= self.process_packs@.take(i as int));
            }
            match current[i] {
                Some((s, pr)) => {
                    if s != NodeState::Clean {
                        let p = self.process_packs[i];
                        kept.push(ProcessPack { node_id: p.node_id, graph_id: p.graph_id, priority: pr });
                    }
                }
                None => {}
            }
            i = i + 1;
        }
        proof {
            assert(self.process_packs@.take(i as int) =~= self.process_packs@);
        }
        kept
    }

    /// Takes new candidates for processing and says what to do: the packs whose node is gone
    /// or clean are dropped and the rest are ordered by their current priority (`current`
    /// describes them in order) and cut down to `max_count`; then the candidates whose node is
    /// still there (`present`, in the order of the candidates) are taken, the most important
    /// first, as `schedule` says. A candidate whose node is gone is passed over.
    pub fn update(&mut self, candidates: Vec<ProcessPack>, present: &Vec<bool>, current: &Vec<Option<(NodeState, i8)>>) -> (r: Vec<PackAction>)
        requires
            present@.len() == candidates@.len(),
            present_only(candidates@, present@).len() == 0 || old(self).spec_max_count() >= 1,
            current@.len() == old(self).packs().len(),
        ensures
            final(self).spec_max_count() == old(self).spec_max_count(),
            exists|s1: Seq<ProcessPack>, s2: Seq<ProcessPack>| {
                &&& sorted_perm(s1, still_busy(old(self).packs(), current@))
                &&& sorted_perm(s2, present_only(candidates@, present@))
                &&& (final(self).packs(), r@) == schedule(truncated(s1, old(self).spec_max_count() as nat), s2.reverse(),
                    old(self).spec_max_count() as nat)
            },
    {
        let busy = self.remove_clean(current);
        let mut packs = sort_by_priority(&busy);
        let ghost s1 = packs@;
        packs.truncate(self.max_count);
        let mut kept: Vec<ProcessPack> = Vec::new();
        let mut k: usize = 0;
        while k < candidates.len()
            invariant
                k <= candidates.len(),
                present@.len() == candidates@.len(),
                kept@ == present_only(candidates@.take(k as int), present@.take(k as int)),
            decreases candidates.len() - k,
        {
            proof {
                assert(candidates@.take(k + 1).drop_last() =~= candidates@.take(k as int));
                assert(present@.take(k + 1).drop_last() =~= present@.take(k as int));
            }
            if present[k] {
                kept.push(candidates[k]);
            }
            k = k + 1;
        }
        proof {
            assert(candidates@.take(k as int) =~= candidates@);
            assert(present@.take(k as int) =~= present@);
        }
        let cands = sort_by_priority(&kept);
        let ghost s2 = cands@;
        let ghost p0 = packs@;
        let ghost rr = s2.reverse();
        let ghost max = self.max_count as nat;
        let mut actions: Vec<PackAction> = Vec::new();
        let mut i: usize = cands.len();
        let mut done = false;
        proof {
            broadcast use vstd::seq_lib::group_to_multiset_ensures;
            assert(cands@.len() == kept@.len()) by {
                assert(cands@.to_multiset().len() == kept@.to_multiset().len());
            }
            assert(p0 == truncated(s1, max));
            assert(rr.skip(0) =~= rr);
            assert(actions@ + schedule(packs@, rr, max).1 =~= schedule(packs@, rr, max).1);
        }
        while i > 0 && !done
            invariant
                i <= cands.len(),
                cands@ == s2,
                rr == s2.reverse(),
                max == self.max_count,
                cands@.len() == 0 || max >= 1,
                schedule(p0, rr, max) == (schedule(packs@, rr.skip(cands.len() - i), max).0,
                    actions@ + schedule(packs@, rr.skip(cands.len() - i), max).1),
                done ==> schedule(packs@, rr.skip(cands.len() - i), max) == (packs@, Seq::<PackAction>::empty()),
            decreases i + (if done { 0int } else { 1int }),
        {
            let c = cands[i - 1];
            let ghost rest = rr.skip(cands.len() - i);
            let ghost a0 = actions@;
            let ghost q0 = packs@;
            proof {
                assert(rest.len() > 0);
                assert(rest[0] == c);
                assert(rest.drop_first() =~= rr.skip(cands.len() - (i - 1)));
            }
            if packs.len() < self.max_count {
                insert_by_priority(&mut packs, c);
                actions.push(PackAction::Uncancel(c));
                actions.push(PackAction::Start(c));
                proof {
                    assert(actions@ =~= a0 + seq![PackAction::Uncancel(c), PackAction::Start(c)]);
                    let r2 = schedule(packs@, rest.drop_first(), max);
                    assert(schedule(q0, rest, max) == (r2.0, seq![PackAction::Uncancel(c), PackAction::Start(c)] + r2.1));
                    assert(a0 + (seq![PackAction::Uncancel(c), PackAction::Start(c)] + r2.1) =~= actions@ + r2.1);
                }
                i = i - 1;
            } else if c.priority > packs[0].priority {
                insert_by_priority(&mut packs, c);
                let ghost p1 = packs@;
                let removed = packs.remove(0);
                actions.push(PackAction::Uncancel(c));
                actions.push(PackAction::Cancel(removed));
                actions.push(PackAction::Start(c));
                proof {
                    assert(packs@ =~= p1.drop_first());
                    let r2 = schedule(packs@, rest.drop_first(), max);
                    assert(schedule(q0, rest, max) == (r2.0, seq![PackAction::Uncancel(c), PackAction::Cancel(p1[0]), PackAction::Start(c)] + r2.1));
                    assert(a0 + (seq![PackAction::Uncancel(c), PackAction::Cancel(p1[0]), PackAction::Start(c)] + r2.1) =~= actions@ + r2.1);
                }
                i = i - 1;
            } else {
                done = true;
            }
        }
        proof {
            if !done {
                assert(rr.skip(cands.len() - i).len() == 0);
            }
            assert(actions@ + Seq::<PackAction>::empty() =~= actions@);
        }
        self.process_packs = packs;
        proof {
            assert(sorted_perm(s1, still_busy(old(self).packs(), current@)));
            assert(sorted_perm(s2, present_only(candidates@, present@)));
            assert((self.packs(), actions@) == schedule(truncated(s1, max), s2.reverse(), max));
            assert(max == old(self).spec_max_count() as nat);
            assert(self.spec_max_count() == old(self).spec_max_count());
        }
        actions
    }
}

} // verus!
