use vstd::prelude::*;

verus! {

/// What the buffer queue knows of one buffer: its id, its size in bytes, whether it is in
/// memory (else in storage), whether it was asked for while in storage, and whether anything
/// besides the queue still uses it.
#[derive(Clone, Copy, Debug, PartialEq, Eq, Structural)]
pub struct BufferEntry {
    pub id: u64,
    pub bytes: usize,
    pub in_memory: bool,
    pub requested: bool,
    pub alive: bool,
}

/// The queue after one round, and the buffers to move: into memory, and into storage.
#[derive(Debug)]
pub struct MemoryPlan {
    pub queue: Vec<BufferEntry>,
    pub to_memory: Vec<u64>,
    pub to_storage: Vec<u64>,
}

/// Whether the queue holds a buffer with this id.
pub open spec fn queued(q: Seq<BufferEntry>, id: u64) -> bool {
    exists|k: int| 0 <= k < q.len() && (#[trigger] q[k]).id == id
}

/// The queue after taking in the incoming buffers, the last one first: a buffer already queued
/// is skipped, one in memory goes to the back (used last), one in storage to the front.
pub open spec fn incoming_into(q: Seq<BufferEntry>, inc: Seq<BufferEntry>) -> Seq<BufferEntry>
    decreases inc.len(),
{
    if inc.len() == 0 {
        q
    } else {
        let e = inc.last();
        let q1 = if queued(q, e.id) { q } else if e.in_memory { q.push(e) } else { seq![e] + q };
        incoming_into(q1, inc.drop_last())
    }
}

/// Whether the round moves this buffer into memory: it is used, in storage, and asked for.
pub open spec fn fetched(e: BufferEntry) -> bool {
    e.alive && !e.in_memory && e.requested
}

/// The buffers that stay where they are in the queue, in order: those still used that are not
/// fetched.
pub open spec fn staying(q: Seq<BufferEntry>) -> Seq<BufferEntry>
    decreases q.len(),
{
    if q.len() == 0 {
        seq![]
    } else {
        let prev = staying(q.drop_last());
        let e = q.last();
        if e.alive && !fetched(e) { prev.push(e) } else { prev }
    }
}

/// The fetched buffers, in order, as they are once in memory.
pub open spec fn fetched_seq(q: Seq<BufferEntry>) -> Seq<BufferEntry>
    decreases q.len(),
{
    if q.len() == 0 {
        seq![]
    } else {
        let prev = fetched_seq(q.drop_last());
        let e = q.last();
        if fetched(e) { prev.push(BufferEntry { in_memory: true, ..e }) } else { prev }
    }
}

/// The bytes in memory of the buffers still used.
pub open spec fn mem_bytes(q: Seq<BufferEntry>) -> int
    decreases q.len(),
{
    if q.len() == 0 {
        0
    } else {
        mem_bytes(q.drop_last()) + if q.last().alive && q.last().in_memory { q.last().bytes as int } else { 0 }
    }
}

/// The ids of the buffers, in order.
pub open spec fn ids_of(q: Seq<BufferEntry>) -> Seq<u64> {
    q.map_values(|e: BufferEntry| e.id)
}

/// From the front of the queue, while more than `threshold` bytes are in memory, each buffer
/// in memory goes to storage: the queue after that, and the ids of the buffers moved.
pub open spec fn evict(q: Seq<BufferEntry>, bytes: int, threshold: int) -> (Seq<BufferEntry>, Seq<u64>)
    decreases q.len(),
{
    if q.len() == 0 || bytes <= threshold {
        (q, seq![])
    } else {
        let e = q[0];
        if e.in_memory {
            let rest = evict(q.drop_first(), if bytes >= e.bytes { bytes - e.bytes } else { 0 }, threshold);
            (seq![BufferEntry { in_memory: false, ..e }] + rest.0, seq![e.id] + rest.1)
        } else {
            let rest = evict(q.drop_first(), bytes, threshold);
            (seq![e] + rest.0, rest.1)
        }
    }
}

/// Whether no two buffers of the queue have the same id.
pub open spec fn distinct_ids(q: Seq<BufferEntry>) -> bool {
    forall|i: int, j: int| 0 <= i < j < q.len() ==> (#[trigger] q[i]).id != (#[trigger] q[j]).id
}

/// Taking in buffers keeps the ids of the queue distinct, and afterwards every incoming buffer
/// is queued, and every buffer queued before still is.
pub proof fn law_incoming_distinct(q: Seq<BufferEntry>, inc: Seq<BufferEntry>)
    ensures
        distinct_ids(q) ==> distinct_ids(incoming_into(q, inc)),
        forall|k: int| 0 <= k < inc.len() ==> queued(incoming_into(q, inc), (#[trigger] inc[k]).id),
        forall|id: u64| queued(q, id) ==> queued(incoming_into(q, inc), id),
    decreases inc.len(),
{
    if inc.len() > 0 {
        let e = inc.last();
        let q1 = if queued(q, e.id) { q } else if e.in_memory { q.push(e) } else { seq![e] + q };
        assert(queued(q1, e.id)) by {
            if !queued(q, e.id) {
                if e.in_memory {
                    assert(q1[q.len() as int] == e);
                } else {
                    assert(q1[0] == e);
                }
            }
        }
        assert forall|id: u64| queued(q, id) implies queued(q1, id) by {
            let k = choose|k: int| 0 <= k < q.len() && (#[trigger] q[k]).id == id;
            if !queued(q, e.id) {
                if e.in_memory {
                    assert(q1[k] == q[k]);
                } else {
                    assert(q1[k + 1] == q[k]);
                }
            }
        }
        if distinct_ids(q) && !queued(q, e.id) {
            assert forall|i: int, j: int| 0 <= i < j < q1.len() implies (#[trigger] q1[i]).id != (#[trigger] q1[j]).id by {
                if e.in_memory {
                    if j == q.len() {
                        assert(q1[i] == q[i]);
                        assert(q[i].id != e.id);
                    } else {
                        assert(q1[i] == q[i] && q1[j] == q[j]);
                    }
                } else {
                    if i == 0 {
                        assert(q1[j] == q[j - 1]);
                        assert(q[j - 1].id != e.id);
                    } else {
                        assert(q1[i] == q[i - 1] && q1[j] == q[j - 1]);
                    }
                }
            }
        }
        law_incoming_distinct(q1, inc.drop_last());
        assert forall|k: int| 0 <= k < inc.len() implies queued(incoming_into(q, inc), (#[trigger] inc[k]).id) by {
            if k < inc.len() - 1 {
                assert(inc[k] == inc.drop_last()[k]);
            }
        }
    }
}

/// Takes in the incoming buffers (see `incoming_into`).
pub fn take_incoming(queue: &mut Vec<BufferEntry>, incoming: Vec<BufferEntry>)
    ensures
        final(queue)@ == incoming_into(old(queue)@, incoming@),
        distinct_ids(old(queue)@) ==> distinct_ids(final(queue)@),
        forall|k: int| 0 <= k < incoming@.len() ==> queued(final(queue)@, (#[trigger] incoming@[k]).id),
{
    proof {
        law_incoming_distinct(old(queue)@, incoming@);
    }
    let mut incoming = incoming;
    let ghost inc0 = incoming@;
    while incoming.len() > 0
        invariant
            incoming_into(queue@, incoming@) == incoming_into(old(queue)@, inc0),
        decreases incoming.len(),
    {
        let ghost q0 = queue@;
        let ghost i0 = incoming@;
        let e = incoming.pop().unwrap();
        let mut found = false;
        let mut k: usize = 0;
        while k < queue.len()
            invariant
                k <= queue.len(),
                queue@ == q0,
                found <==> exists|j: int| 0 <= j < k && (#[trigger] queue@[j]).id == e.id,
            decreases queue.len() - k,
        {
            if queue[k].id == e.id {
                found = true;
            }
            k = k + 1;
        }
        if !found {
            if e.in_memory {
                queue.push(e);
            } else {
                queue.insert(0, e);
            }
        }
        proof {
            assert(i0.drop_last() =~= incoming@);
            assert(i0.last() == e);
            assert(found <==> queued(q0, e.id)) by {
                if queued(q0, e.id) {
                    let j = choose|j: int| 0 <= j < q0.len() && (#[trigger] q0[j]).id == e.id;
                    assert(q0[j].id == e.id);
                }
            }
            if !found && !e.in_memory {
                assert(queue@ =~= seq![e] + q0);
            }
        }
    }
    proof {
        assert(incoming_into(queue@, incoming@) == queue@);
    }
}

/// One round of the buffer queue: buffers no longer used leave the queue, asked-for buffers in
/// storage move into memory and to the back (the one nearest the back first), and then, from
/// the front, buffers in memory move to storage while the buffers counted in memory at the
/// start of the round take more than `threshold` bytes.
pub fn plan_memory(queue: &Vec<BufferEntry>, threshold: usize) -> (r: MemoryPlan)
    requires
        mem_bytes(queue@) <= usize::MAX,
    ensures
        r.to_memory@ == ids_of(fetched_seq(queue@).reverse()),
        (r.queue@, r.to_storage@) == evict(staying(queue@) + fetched_seq(queue@).reverse(), mem_bytes(queue@), threshold as int),
        forall|i: int| 0 <= i < r.to_memory@.len() ==> asked_in_storage(queue@, #[trigger] r.to_memory@[i]),
        forall|k: int| 0 <= k < queue@.len() && (#[trigger] queue@[k]).alive && !queue@[k].in_memory && !queue@[k].requested
            ==> r.queue@.contains(queue@[k]),
{
    proof {
        law_only_requested_fetched(queue@, threshold as int);
    }
    let mut stay: Vec<BufferEntry> = Vec::new();
    let mut fetch: Vec<BufferEntry> = Vec::new();
    let mut bytes: usize = 0;
    let mut i: usize = 0;
    while i < queue.len()
        invariant
            i <= queue.len(),
            mem_bytes(queue@) <= usize::MAX,
            stay@ == staying(queue@.take(i as int)),
            fetch@ == fetched_seq(queue@.take(i as int)),
            bytes == mem_bytes(queue@.take(i as int)),
        decreases queue.len() - i,
    {
        let e = queue[i];
        proof {
            assert(queue@.take(i + 1).drop_last() =~= queue@.take(i as int));
            assert(queue@.take(i + 1).last() == e);
            lemma_mem_bytes_prefix(queue@, i + 1);
        }
        if e.alive && e.in_memory {
            bytes = bytes + e.bytes;
        }
        if e.alive && !e.in_memory && e.requested {
            fetch.push(BufferEntry { id: e.id, bytes: e.bytes, in_memory: true, requested: e.requested, alive: e.alive });
        } else if e.alive {
            stay.push(e);
        }
        i = i + 1;
    }
    proof {
        assert(queue@.take(i as int) =~= queue@);
    }
    let mut to_memory: Vec<u64> = Vec::new();
    let ghost base = stay@;
    let mut j: usize = fetch.len();
    while j > 0
        invariant
            j <= fetch.len(),
            fetch@ == fetched_seq(queue@),
            base == staying(queue@),
            stay@ == base + fetch@.reverse().take((fetch.len() - j) as int),
            to_memory@ == ids_of(fetch@.reverse().take((fetch.len() - j) as int)),
        decreases j,
    {
        let e = fetch[j - 1];
        proof {
            let n = fetch.len() - j;
            assert(fetch@.reverse()[n as int] == e);
            assert(fetch@.reverse().take(n + 1) =~= fetch@.reverse().take(n as int).push(e));
            assert(ids_of(fetch@.reverse().take(n + 1)) =~= ids_of(fetch@.reverse().take(n as int)).push(e.id));
            assert(base + fetch@.reverse().take(n + 1) =~= (base + fetch@.reverse().take(n as int)).push(e));
        }
        stay.push(e);
        to_memory.push(e.id);
        j = j - 1;
    }
    proof {
        assert(fetch@.reverse().take(fetch.len() as int) =~= fetch@.reverse());
    }
    let mut q = stay;
    let ghost full = q@;
    let mut to_storage: Vec<u64> = Vec::new();
    proof {
        assert(full.skip(0) =~= full);
        assert(q@.take(0) + evict(full, bytes as int, threshold as int).0 =~= evict(full, bytes as int, threshold as int).0);
        assert(to_storage@ + evict(full, bytes as int, threshold as int).1 =~= evict(full, bytes as int, threshold as int).1);
    }
    let mut k: usize = 0;
    while k < q.len() && bytes > threshold
        invariant
            k <= q.len(),
            q@.len() == full.len(),
            evict(full, mem_bytes(queue@), threshold as int) == (q@.take(k as int) + evict(full.skip(k as int), bytes as int, threshold as int).0,
                to_storage@ + evict(full.skip(k as int), bytes as int, threshold as int).1),
            q@.skip(k as int) == full.skip(k as int),
        decreases q.len() - k,
    {
        let e = q[k];
        let ghost rest = full.skip(k as int);
        proof {
            assert(rest[0] == e);
            assert(rest.drop_first() =~= full.skip(k + 1));
        }
        if e.in_memory {
            bytes = if bytes >= e.bytes { bytes - e.bytes } else { 0 };
            q.set(k, BufferEntry { id: e.id, bytes: e.bytes, in_memory: false, requested: e.requested, alive: e.alive });
            to_storage.push(e.id);
        }
        proof {
            assert(q@.take(k + 1) =~= q@.take(k as int).push(q@[k as int]));
            assert(q@.skip(k + 1) =~= full.skip(k + 1));
        }
        k = k + 1;
    }
    proof {
        let rest = full.skip(k as int);
        assert(evict(rest, bytes as int, threshold as int) == (rest, Seq::<u64>::empty()));
        assert(q@.take(k as int) + rest =~= q@);
        assert(to_storage@ + Seq::<u64>::empty() =~= to_storage@);
    }
    MemoryPlan { queue: q, to_memory, to_storage }
}

/// Whether some entry of `q` with this id is used, in storage and asked for.
pub open spec fn asked_in_storage(q: Seq<BufferEntry>, id: u64) -> bool {
    exists|k: int| 0 <= k < q.len() && (#[trigger] q[k]).id == id && q[k].requested && q[k].alive && !q[k].in_memory
}

/// Every fetched buffer comes from an entry that is used, in storage and asked for.
proof fn lemma_fetched_from(q: Seq<BufferEntry>)
    ensures
        forall|i: int| 0 <= i < fetched_seq(q).len() ==> asked_in_storage(q, (#[trigger] fetched_seq(q)[i]).id),
    decreases q.len(),
{
    if q.len() > 0 {
        let prev = q.drop_last();
        lemma_fetched_from(prev);
        let f = fetched_seq(q);
        assert forall|i: int| 0 <= i < f.len() implies asked_in_storage(q, (#[trigger] f[i]).id) by {
            if i < fetched_seq(prev).len() {
                assert(f[i] == fetched_seq(prev)[i]);
                assert(asked_in_storage(prev, fetched_seq(prev)[i].id));
                let k = choose|k: int| 0 <= k < prev.len() && (#[trigger] prev[k]).id == f[i].id
                    && prev[k].requested && prev[k].alive && !prev[k].in_memory;
                assert(q[k] == prev[k]);
            } else {
                assert(q[q.len() - 1] == q.last());
            }
        }
    }
}

/// Every used buffer that is not fetched stays, as it is.
proof fn lemma_staying_keeps(q: Seq<BufferEntry>)
    ensures
        forall|k: int| 0 <= k < q.len() && (#[trigger] q[k]).alive && !fetched(q[k]) ==> staying(q).contains(q[k]),
    decreases q.len(),
{
    if q.len() > 0 {
        let prev = q.drop_last();
        lemma_staying_keeps(prev);
        assert forall|k: int| 0 <= k < q.len() && (#[trigger] q[k]).alive && !fetched(q[k]) implies staying(q).contains(q[k]) by {
            if k < prev.len() {
                assert(q[k] == prev[k]);
                let j = choose|j: int| 0 <= j < staying(prev).len() && staying(prev)[j] == prev[k];
                assert(staying(q)[j] == staying(prev)[j]);
            } else {
                assert(q[k] == q.last());
                assert(staying(q)[staying(q).len() - 1] == q[k]);
            }
        }
    }
}

/// Moving buffers to storage leaves every buffer that is already in storage as it is.
proof fn lemma_evict_keeps_stored(q: Seq<BufferEntry>, bytes: int, threshold: int)
    ensures
        forall|k: int| 0 <= k < q.len() && !(#[trigger] q[k]).in_memory ==> evict(q, bytes, threshold).0.contains(q[k]),
    decreases q.len(),
{
    if q.len() > 0 && bytes > threshold {
        let e = q[0];
        let t = q.drop_first();
        let b2 = if e.in_memory { if bytes >= e.bytes { bytes - e.bytes } else { 0 } } else { bytes };
        lemma_evict_keeps_stored(t, b2, threshold);
        let r = evict(q, bytes, threshold).0;
        let rest = evict(t, b2, threshold).0;
        assert forall|k: int| 0 <= k < q.len() && !(#[trigger] q[k]).in_memory implies r.contains(q[k]) by {
            if k == 0 {
                assert(r[0] == e);
            } else {
                assert(q[k] == t[k - 1]);
                let j = choose|j: int| 0 <= j < rest.len() && rest[j] == t[k - 1];
                assert(r[j + 1] == rest[j]);
            }
        }
    } else {
        assert forall|k: int| 0 <= k < q.len() && !(#[trigger] q[k]).in_memory implies evict(q, bytes, threshold).0.contains(q[k]) by {
            assert(evict(q, bytes, threshold).0[k] == q[k]);
        }
    }
}

/// Only asked-for buffers come back from storage: every buffer that a round moves into memory
/// was used, in storage and asked for, and every used buffer in storage that nobody asked for
/// stays in the queue, in storage, as it was.
pub proof fn law_only_requested_fetched(queue: Seq<BufferEntry>, threshold: int)
    ensures
        forall|i: int| 0 <= i < ids_of(fetched_seq(queue).reverse()).len()
            ==> asked_in_storage(queue, #[trigger] ids_of(fetched_seq(queue).reverse())[i]),
        forall|k: int| 0 <= k < queue.len() && (#[trigger] queue[k]).alive && !queue[k].in_memory && !queue[k].requested
            ==> evict(staying(queue) + fetched_seq(queue).reverse(), mem_bytes(queue), threshold).0.contains(queue[k]),
{
    lemma_fetched_from(queue);
    let f = fetched_seq(queue);
    let ids = ids_of(f.reverse());
    assert forall|i: int| 0 <= i < ids.len() implies asked_in_storage(queue, #[trigger] ids[i]) by {
        let n = f.len() - 1 - i;
        assert(ids[i] == f.reverse()[i].id);
        assert(f.reverse()[i] == f[n]);
        assert(asked_in_storage(queue, f[n].id));
    }
    lemma_staying_keeps(queue);
    let full = staying(queue) + f.reverse();
    lemma_evict_keeps_stored(full, mem_bytes(queue), threshold);
    assert forall|k: int| 0 <= k < queue.len() && (#[trigger] queue[k]).alive && !queue[k].in_memory && !queue[k].requested
        implies evict(full, mem_bytes(queue), threshold).0.contains(queue[k]) by {
        assert(!fetched(queue[k]));
        assert(staying(queue).contains(queue[k]));
        let j = choose|j: int| 0 <= j < staying(queue).len() && staying(queue)[j] == queue[k];
        assert(full[j] == queue[k]);
    }
}

proof fn lemma_mem_bytes_prefix(q: Seq<BufferEntry>, n: int)
    requires
        0 <= n <= q.len(),
    ensures
        0 <= mem_bytes(q.take(n)) <= mem_bytes(q),
    decreases q.len(),
{
    if q.len() > 0 {
        if n == q.len() {
            assert(q.take(n) =~= q);
            lemma_mem_bytes_nonneg(q);
        } else {
            assert(q.take(n) =~= q.drop_last().take(n));
            lemma_mem_bytes_prefix(q.drop_last(), n);
        }
    }
}

proof fn lemma_mem_bytes_nonneg(q: Seq<BufferEntry>)
    ensures
        mem_bytes(q) >= 0,
    decreases q.len(),
{
    if q.len() > 0 {
        lemma_mem_bytes_nonneg(q.drop_last());
    }
}

} // verus!
