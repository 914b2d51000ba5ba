//! What holds of the queue whatever is done with it.

use crate::descriptor::Descriptor;
use crate::fake::{
    spec_fake_device_accepts, spec_length_to_write, spec_scatter, spec_scatter_fits, spec_write,
};
use crate::model::{
    lemma_add_descriptors, lemma_add_wf, lemma_device_write_used_wf, lemma_recycle_wf,
    spec_all_below, spec_linked, spec_walk, QueueView, Segment,
};
use crate::{lemma_slot_in_ring, spec_is_power_of_two, spec_slot};
use vstd::prelude::*;
use vstd::wrapping::u16_specs::wrapping_add;

verus! {

/// One thing that is done with a queue.
pub enum Operation {
    /// The driver submits a chain of these segments.
    Add { segs: Seq<Segment> },
    /// The device reports a completion.
    DeviceWriteUsed { id: u32, len: u32 },
    /// The driver takes the oldest completion, expecting the chain `token`.
    PopUsed { token: u16 },
}

impl QueueView {
    /// Whether the operation is one that the queue's functions admit: the
    /// segments of a chain were shared at addresses of the machine, and a
    /// completion that the driver takes names a chain in flight.
    pub open spec fn spec_admits(self, op: Operation) -> bool {
        match op {
            Operation::Add { segs } => forall|k: int|
                0 <= k < segs.len() ==> (#[trigger] segs[k]).addr <= usize::MAX,
            Operation::DeviceWriteUsed { id, len } => true,
            Operation::PopUsed { token } => self.spec_peek_used() == Some(token)
                ==> self.chains.contains_key(token),
        }
    }

    /// The queue after the operation. A chain that does not fit, and a
    /// completion that is not there or is that of another chain, leave the
    /// queue as it was.
    pub open spec fn spec_apply(self, op: Operation) -> QueueView {
        match op {
            Operation::Add { segs } => if 0 < segs.len() <= self.spec_available_desc() {
                self.spec_add(segs)
            } else {
                self
            },
            Operation::DeviceWriteUsed { id, len } => self.spec_device_write_used(id, len),
            Operation::PopUsed { token } => if self.spec_peek_used() == Some(token) {
                self.spec_pop_used(token)
            } else {
                self
            },
        }
    }

    /// The queue after the operations, one after the other.
    pub open spec fn spec_run(self, ops: Seq<Operation>) -> QueueView
        decreases ops.len(),
    {
        if ops.len() == 0 {
            self
        } else {
            self.spec_run(ops.drop_last()).spec_apply(ops.last())
        }
    }

    /// Whether each of the operations is admitted by the queue that the
    /// operations before it have left.
    pub open spec fn spec_run_admitted(self, ops: Seq<Operation>) -> bool
        decreases ops.len(),
    {
        if ops.len() == 0 {
            true
        } else {
            self.spec_run_admitted(ops.drop_last()) && self.spec_run(ops.drop_last()).spec_admits(
                ops.last(),
            )
        }
    }
}

/// In a well-formed queue the number of descriptors in use lies between
/// zero and the queue size, and the free descriptors are the rest.
pub proof fn lemma_counters(q: QueueView)
    requires
        q.wf(),
    ensures
        0 <= q.num_used <= q.queue_size,
        q.spec_available_desc() == q.queue_size - q.num_used,
        q.spec_available_desc() == q.free.len(),
{
}

/// Along a linked list, a walk from one of its descriptors meets the rest
/// of the list.
pub proof fn lemma_walk_linked(desc: Seq<Descriptor>, list: Seq<u16>, from: int)
    requires
        spec_linked(desc, list),
        0 <= from <= list.len(),
    ensures
        from < list.len() ==> spec_walk(desc, list[from], (list.len() - from) as nat) == list.skip(
            from,
        ),
    decreases list.len() - from,
{
    if from < list.len() {
        let rest = (list.len() - from - 1) as nat;
        if from + 1 < list.len() {
            lemma_walk_linked(desc, list, from + 1);
            assert(desc[list[from] as int].next == list[from + 1]);
            assert(seq![list[from]] + list.skip(from + 1) =~= list.skip(from));
        } else {
            assert(spec_walk(desc, desc[list[from] as int].next, 0) =~= Seq::<u16>::empty());
            assert(seq![list[from]] + Seq::<u16>::empty() =~= list.skip(from));
        }
    }
}

/// In a well-formed queue, a walk from the head of the free list along
/// `next` meets as many descriptors as are free, all of them distinct and
/// all of them descriptors of the queue.
pub proof fn lemma_free_list_walk(q: QueueView)
    requires
        q.wf(),
    ensures
        spec_walk(q.desc, q.free_head, q.spec_available_desc() as nat) == q.free,
        spec_walk(q.desc, q.free_head, q.spec_available_desc() as nat).len()
            == q.spec_available_desc(),
        spec_walk(q.desc, q.free_head, q.spec_available_desc() as nat).no_duplicates(),
        spec_all_below(
            spec_walk(q.desc, q.free_head, q.spec_available_desc() as nat),
            q.queue_size as int,
        ),
{
    if q.free.len() > 0 {
        lemma_walk_linked(q.desc, q.free, 0);
        assert(q.free.skip(0) =~= q.free);
    } else {
        assert(spec_walk(q.desc, q.free_head, 0) =~= q.free);
    }
}

/// Each operation that a well-formed queue admits leaves it well-formed.
pub proof fn lemma_apply_wf(q: QueueView, op: Operation)
    requires
        q.wf(),
        q.spec_admits(op),
    ensures
        q.spec_apply(op).wf(),
{
    match op {
        Operation::Add { segs } => {
            if 0 < segs.len() <= q.spec_available_desc() {
                lemma_add_wf(q, segs);
            }
        },
        Operation::DeviceWriteUsed { id, len } => {
            lemma_device_write_used_wf(q, id, len);
        },
        Operation::PopUsed { token } => {
            if q.spec_peek_used() == Some(token) {
                lemma_pop_used_wf(q, token);
            }
        },
    }
}

/// Taking a completion keeps the queue well-formed and frees the
/// descriptors of its chain.
pub proof fn lemma_pop_used_wf(q: QueueView, token: u16)
    requires
        q.wf(),
        q.chains.contains_key(token),
    ensures
        q.spec_pop_used(token).wf(),
        q.spec_pop_used(token).spec_available_desc() == q.spec_available_desc()
            + q.chains[token].len(),
        q.spec_pop_used(token).last_used_idx == wrapping_add(q.last_used_idx, 1),
{
    lemma_recycle_wf(q, token);
    let r = q.spec_recycle(token);
    let p = q.spec_pop_used(token);
    assert forall|head: u16| #[trigger] p.chains.contains_key(head) implies p.chain_wf(
        head,
        p.chains[head],
    ) by {
        assert(r.chain_wf(head, r.chains[head]));
    }
    assert forall|i: u16| i < p.queue_size implies #[trigger] p.free.contains(i)
        || p.spec_in_flight(i) by {
        if !r.free.contains(i) {
            assert(r.spec_in_flight(i));
            let h = choose|h: u16| r.chains.contains_key(h) && #[trigger] r.chains[h].contains(i);
            assert(p.chains.contains_key(h) && p.chains[h].contains(i));
        }
    }
}

/// After any operations that the queue admitted, one after the other, the
/// queue is well-formed: the number of descriptors in use is at most the
/// queue size, and a walk along the free list meets exactly the free
/// descriptors, each once.
pub proof fn lemma_run_keeps_invariants(q: QueueView, ops: Seq<Operation>)
    requires
        q.wf(),
        q.spec_run_admitted(ops),
    ensures
        q.spec_run(ops).wf(),
        0 <= q.spec_run(ops).num_used <= q.spec_run(ops).queue_size,
        q.spec_run(ops).queue_size == q.queue_size,
        q.spec_run(ops).spec_available_desc() == q.queue_size - q.spec_run(ops).num_used,
        spec_walk(
            q.spec_run(ops).desc,
            q.spec_run(ops).free_head,
            q.spec_run(ops).spec_available_desc() as nat,
        ) == q.spec_run(ops).free,
        q.spec_run(ops).free.len() == q.spec_run(ops).spec_available_desc(),
        q.spec_run(ops).free.no_duplicates(),
        spec_all_below(q.spec_run(ops).free, q.queue_size as int),
    decreases ops.len(),
{
    if ops.len() > 0 {
        lemma_run_keeps_invariants(q, ops.drop_last());
        lemma_apply_wf(q.spec_run(ops.drop_last()), ops.last());
    }
    lemma_free_list_walk(q.spec_run(ops));
}

/// Asking whether a completion is there does not depend on what was
/// submitted in between: a chain that is added changes neither the answer
/// nor the count of completions taken. Only a completion that is taken
/// moves that count, by one.
pub proof fn lemma_poll_stable(q: QueueView, segs: Seq<Segment>, token: u16)
    ensures
        q.spec_add(segs).spec_can_pop() == q.spec_can_pop(),
        q.spec_add(segs).spec_peek_used() == q.spec_peek_used(),
        q.spec_add(segs).last_used_idx == q.last_used_idx,
        q.spec_pop_used(token).last_used_idx == wrapping_add(q.last_used_idx, 1),
{
}

/// Running indices that follow each other fall into slots that follow each
/// other around the ring, also where the index wraps from 2^16 - 1 to 0.
pub proof fn lemma_slot_advances(idx: u16, size: u16)
    requires
        spec_is_power_of_two(size),
    ensures
        spec_slot(wrapping_add(idx, 1), size) == (spec_slot(idx, size) + 1) % (size as int),
        wrapping_add(0xffff, 1) == 0,
        spec_slot(0, size) == 0,
        spec_slot(0xffff, size) == size - 1,
{
    let next: u16 = wrapping_add(idx, 1);
    assert(next == if idx == 0xffff {
        0u16
    } else {
        (idx + 1) as u16
    });
    assert((size == 0x1 || size == 0x2 || size == 0x4 || size == 0x8 || size == 0x10 || size == 0x20
        || size == 0x40 || size == 0x80 || size == 0x100 || size == 0x200 || size == 0x400 || size
        == 0x800 || size == 0x1000 || size == 0x2000 || size == 0x4000 || size == 0x8000) && next
        == (if idx == 0xffff {
        0u16
    } else {
        (idx + 1) as u16
    }) ==> (next & ((size - 1) as u16)) as int == (((idx & ((size - 1) as u16)) + 1) as int) % (
    size as int) && 0u16 & ((size - 1) as u16) == 0 && 0xffffu16 & ((size - 1) as u16) == size - 1)
        by (bit_vector);
}

/// The chain that a new available index makes known to the device is
/// written in full: the slot that the index has just passed holds the head
/// of a chain in flight, and each descriptor of that chain holds its
/// segment and the link to the next one.
pub proof fn lemma_published_chain_is_written(q: QueueView, segs: Seq<Segment>)
    requires
        q.wf(),
        0 < segs.len() <= q.spec_available_desc(),
        forall|k: int| 0 <= k < segs.len() ==> (#[trigger] segs[k]).addr <= usize::MAX,
    ensures
        ({
            let r = q.spec_add(segs);
            let head = r.avail.ring[spec_slot(q.avail.idx, q.queue_size) as int];
            &&& r.avail.idx == wrapping_add(q.avail.idx, 1)
            &&& head == q.free_head
            &&& r.chains.contains_key(head)
            &&& r.chains[head].len() == segs.len()
            &&& r.chain_wf(head, r.chains[head])
            &&& forall|k: int|
                0 <= k < segs.len() ==> {
                    let d = r.desc[#[trigger] r.chains[head][k] as int];
                    &&& d.addr == segs[k].addr
                    &&& d.len == segs[k].len
                    &&& d.flags == crate::descriptor::spec_chain_flags(
                        segs[k].direction,
                        k + 1 < segs.len(),
                    )
                    &&& k + 1 < segs.len() ==> d.next == r.chains[head][k + 1]
                }
        }),
{
    let r = q.spec_add(segs);
    let chain = q.free.take(segs.len() as int);
    lemma_add_wf(q, segs);
    lemma_add_descriptors(q, segs);
    lemma_slot_in_ring(q.avail_idx, q.queue_size);
    assert(r.chain_wf(q.free_head, chain));
    assert forall|k: int| 0 <= k < segs.len() implies {
        let d = r.desc[#[trigger] chain[k] as int];
        &&& d.addr == segs[k].addr
        &&& d.len == segs[k].len
        &&& d.flags == crate::descriptor::spec_chain_flags(segs[k].direction, k + 1 < segs.len())
        &&& k + 1 < segs.len() ==> d.next == chain[k + 1]
    } by {
        assert(chain[k] == q.free[k]);
        if k + 1 < segs.len() {
            assert(chain[k + 1] == q.free[k + 1]);
        }
    }
}

/// A chain that is submitted, completed by the device and taken by the
/// driver comes back with the length that the device reported, and leaves
/// as many descriptors free as there were.
///
/// This holds where nothing else is outstanding: the device has completed
/// what was submitted before, and the driver has taken it.
pub proof fn lemma_round_trip(q: QueueView, segs: Seq<Segment>, len: u32)
    requires
        q.wf(),
        0 < segs.len() <= q.spec_available_desc(),
        forall|k: int| 0 <= k < segs.len() ==> (#[trigger] segs[k]).addr <= usize::MAX,
        q.used.idx == q.avail_idx,
        q.last_used_idx == q.used.idx,
    ensures
        ({
            let token = q.free_head;
            let submitted = q.spec_add(segs);
            let completed = submitted.spec_device_write_used(token as u32, len);
            let taken = completed.spec_pop_used(token);
            &&& !submitted.spec_can_pop()
            &&& submitted.avail.idx != submitted.used.idx
            &&& submitted.spec_device_next_head() == token
            &&& submitted.chains.contains_key(token)
            &&& submitted.chains[token] == q.free.take(segs.len() as int)
            &&& completed.spec_peek_used() == Some(token)
            &&& completed.spec_next_used().len == len
            &&& completed.chains.contains_key(token)
            &&& taken.wf()
            &&& taken.spec_available_desc() == q.spec_available_desc()
            &&& !taken.spec_can_pop()
            &&& taken.used.idx == taken.avail_idx
        }),
{
    let token = q.free_head;
    let submitted = q.spec_add(segs);
    let completed = submitted.spec_device_write_used(token as u32, len);
    lemma_add_wf(q, segs);
    lemma_slot_in_ring(q.avail_idx, q.queue_size);
    lemma_slot_in_ring(q.used.idx, q.queue_size);
    lemma_device_write_used_wf(submitted, token as u32, len);
    lemma_pop_used_wf(completed, token);
}

/// The bytes that are read back from the buffers of `chain` when `total`
/// bytes were written across them: from each buffer in turn as many as it
/// took.
pub open spec fn spec_gather(mem: Seq<u8>, desc: Seq<Descriptor>, chain: Seq<u16>, total: nat) -> Seq<
    u8,
>
    decreases chain.len(),
{
    if chain.len() == 0 {
        Seq::empty()
    } else {
        let d = desc[chain[0] as int];
        let l = spec_length_to_write(total, d.len);
        Seq::new(l, |j: int| mem[d.addr + j]) + spec_gather(
            mem,
            desc,
            chain.skip(1),
            (total - l) as nat,
        )
    }
}

/// No two buffers of `chain` share a byte.
pub open spec fn spec_buffers_disjoint(desc: Seq<Descriptor>, chain: Seq<u16>) -> bool {
    forall|i: int, j: int|
        0 <= i < j < chain.len() ==> {
            let a = desc[#[trigger] chain[i] as int];
            let b = desc[#[trigger] chain[j] as int];
            a.addr + a.len <= b.addr || b.addr + b.len <= a.addr
        }
}

/// Writing across a chain leaves every byte outside its buffers as it was,
/// and the memory as large as it was.
pub proof fn lemma_scatter_frame(
    mem: Seq<u8>,
    desc: Seq<Descriptor>,
    chain: Seq<u16>,
    data: Seq<u8>,
    x: int,
)
    requires
        forall|k: int|
            0 <= k < chain.len() ==> {
                let d = desc[#[trigger] chain[k] as int];
                x < d.addr || d.addr + d.len <= x
            },
    ensures
        spec_scatter(mem, desc, chain, data).len() == mem.len(),
        0 <= x < mem.len() ==> spec_scatter(mem, desc, chain, data)[x] == mem[x],
    decreases chain.len(),
{
    if chain.len() > 0 {
        let d = desc[chain[0] as int];
        let l = spec_length_to_write(data.len(), d.len) as int;
        let tail = chain.skip(1);
        assert forall|k: int| 0 <= k < tail.len() implies {
            let e = desc[#[trigger] tail[k] as int];
            x < e.addr || e.addr + e.len <= x
        } by {
            assert(tail[k] == chain[k + 1]);
        }
        lemma_scatter_frame(spec_write(mem, d.addr as int, data.take(l)), desc, tail, data.skip(l), x);
    }
}

/// What the device wrote across the buffers of a chain is what the driver
/// reads back from them, where the buffers do not overlap.
pub proof fn lemma_scatter_gather(
    mem: Seq<u8>,
    desc: Seq<Descriptor>,
    chain: Seq<u16>,
    data: Seq<u8>,
)
    requires
        spec_scatter_fits(mem.len(), desc, chain, data),
        spec_buffers_disjoint(desc, chain),
    ensures
        spec_gather(spec_scatter(mem, desc, chain, data), desc, chain, data.len()) == data,
    decreases chain.len(),
{
    if chain.len() == 0 {
        assert(data =~= Seq::<u8>::empty());
    } else {
        let d = desc[chain[0] as int];
        let l = spec_length_to_write(data.len(), d.len) as int;
        let tail = chain.skip(1);
        let first = spec_write(mem, d.addr as int, data.take(l));
        let after = spec_scatter(mem, desc, chain, data);
        assert(after == spec_scatter(first, desc, tail, data.skip(l)));
        assert forall|i: int, j: int| 0 <= i < j < tail.len() implies {
            let a = desc[#[trigger] tail[i] as int];
            let b = desc[#[trigger] tail[j] as int];
            a.addr + a.len <= b.addr || b.addr + b.len <= a.addr
        } by {
            assert(tail[i] == chain[i + 1] && tail[j] == chain[j + 1]);
        }
        lemma_scatter_gather(first, desc, tail, data.skip(l));
        let head_part = Seq::new(l as nat, |j: int| after[d.addr + j]);
        assert(head_part =~= data.take(l)) by {
            assert forall|j: int| 0 <= j < l implies after[d.addr + j] == data[j] by {
                assert forall|k: int| 0 <= k < tail.len() implies {
                    let e = desc[#[trigger] tail[k] as int];
                    d.addr + j < e.addr || e.addr + e.len <= d.addr + j
                } by {
                    assert(tail[k] == chain[k + 1]);
                    let a = desc[chain[0] as int];
                    let b = desc[chain[k + 1] as int];
                    assert(a.addr + a.len <= b.addr || b.addr + b.len <= a.addr);
                }
                lemma_scatter_frame(first, desc, tail, data.skip(l), d.addr + j);
            }
        }
        assert((data.len() - l) as nat == data.skip(l).len());
        assert(data.take(l) + data.skip(l) =~= data);
    }
}

/// A chain in flight is left alone by whatever is submitted: it stays in
/// flight, and each of its descriptors is as it was.
pub proof fn lemma_add_keeps_chains(q: QueueView, other: u16, segs: Seq<Segment>)
    requires
        q.wf(),
        q.chains.contains_key(other),
        0 < segs.len() <= q.spec_available_desc(),
    ensures
        q.spec_add(segs).chains.contains_key(other),
        q.spec_add(segs).chains[other] == q.chains[other],
        forall|k: int|
            0 <= k < q.chains[other].len() ==> q.spec_add(segs).desc[#[trigger] q.chains[other][k] as int]
                == q.desc[q.chains[other][k] as int],
{
    let c = q.chains[other];
    let taken = q.free.take(segs.len() as int);
    assert(q.chain_wf(other, c));
    lemma_add_descriptors(q, segs);
    assert(taken[0] != other) by {
        assert(c[0] == other && !q.free.contains(c[0]));
        assert(taken[0] == q.free[0]);
    }
    assert forall|k: int| 0 <= k < c.len() implies q.spec_add(segs).desc[#[trigger] c[k] as int]
        == q.desc[c[k] as int] by {
        assert(!q.free.contains(c[k]));
        if taken.contains(c[k]) {
            let at = taken.index_of(c[k]);
            assert(q.free[at] == c[k]);
        }
    }
}

/// A chain in flight is left alone when another chain is taken back: it
/// stays in flight, and each of its descriptors is as it was.
pub proof fn lemma_pop_used_keeps_chains(q: QueueView, other: u16, token: u16)
    requires
        q.wf(),
        q.chains.contains_key(other),
        q.chains.contains_key(token),
        token != other,
    ensures
        q.spec_pop_used(token).chains.contains_key(other),
        q.spec_pop_used(token).chains[other] == q.chains[other],
        forall|k: int|
            0 <= k < q.chains[other].len() ==> q.spec_pop_used(token).desc[#[trigger] q.chains[other][k] as int]
                == q.desc[q.chains[other][k] as int],
{
    let c = q.chains[other];
    assert(q.chain_wf(other, c));
    assert(q.chain_wf(token, q.chains[token]));
    assert forall|k: int| 0 <= k < c.len() implies q.spec_pop_used(token).desc[
        #[trigger] c[k] as int] == q.desc[c[k] as int] by {
        if q.chains[token].contains(c[k]) {
            let at = q.chains[token].index_of(c[k]);
            assert(q.chains[token][at] == c[k]);
        }
    }
}

/// A chain of buffers that the device writes, handed to the fake device
/// and taken back: the driver gets the length of the data, and reads the
/// data back from the chain's buffers, where these do not overlap.
///
/// This holds where nothing else is outstanding: the device has completed
/// what was submitted before, and the driver has taken it.
pub proof fn lemma_round_trip_with_fake_device(
    q: QueueView,
    segs: Seq<Segment>,
    mem: Seq<u8>,
    data: Seq<u8>,
)
    requires
        q.wf(),
        0 < segs.len() <= q.spec_available_desc(),
        forall|k: int| 0 <= k < segs.len() ==> (#[trigger] segs[k]).addr <= usize::MAX,
        q.used.idx == q.avail_idx,
        q.last_used_idx == q.used.idx,
        spec_scatter_fits(
            mem.len(),
            q.spec_add(segs).desc,
            q.free.take(segs.len() as int),
            data,
        ),
        spec_buffers_disjoint(q.spec_add(segs).desc, q.free.take(segs.len() as int)),
    ensures
        ({
            let token = q.free_head;
            let chain = q.free.take(segs.len() as int);
            let submitted = q.spec_add(segs);
            let completed = submitted.spec_device_write_used(token as u32, data.len() as u32);
            let written = spec_scatter(mem, submitted.desc, chain, data);
            let taken = completed.spec_pop_used(token);
            &&& spec_fake_device_accepts(submitted, mem.len(), data)
            &&& submitted.spec_device_next_head() == token
            &&& submitted.chains[token] == chain
            &&& completed.spec_peek_used() == Some(token)
            &&& completed.spec_next_used().len == data.len() as u32
            &&& spec_gather(written, submitted.desc, chain, data.len()) == data
            &&& taken.wf()
            &&& taken.spec_available_desc() == q.spec_available_desc()
        }),
{
    lemma_round_trip(q, segs, data.len() as u32);
    lemma_scatter_gather(mem, q.spec_add(segs).desc, q.free.take(segs.len() as int), data);
}

} // verus!
