//! The queue as a mathematical value, and what each operation makes of it.
//!
//! The executable queue refers to these functions in its contracts. The
//! lemmas here show that every operation keeps a well-formed queue
//! well-formed.

use crate::descriptor::{spec_chain_flags, DescFlags, Descriptor, NEXT, WRITE};
use crate::hal::{Buffer, BufferDirection};
use crate::ring::{AvailRing, AvailRingView, UsedElem, UsedRing, UsedRingView};
use crate::{spec_is_power_of_two, spec_slot, Error};
use vstd::prelude::*;
use vstd::wrapping::u16_specs::wrapping_add;

verus! {

/// A buffer as the device sees it: where it was shared, its length in 32
/// bits, and who writes it.
pub struct Segment {
    pub addr: u64,
    pub len: u32,
    pub direction: BufferDirection,
}

/// The input buffers followed by the output buffers, each with its direction.
pub open spec fn spec_input_output(inputs: Seq<Buffer>, outputs: Seq<Buffer>) -> Seq<
    (Buffer, BufferDirection),
> {
    Seq::new(
        inputs.len() + outputs.len(),
        |k: int|
            if k < inputs.len() {
                (inputs[k], BufferDirection::DriverToDevice)
            } else {
                (outputs[k - inputs.len()], BufferDirection::DeviceToDriver)
            },
    )
}

/// The buffers as the device sees them, once each was shared at the address
/// of the same position in `addrs`.
pub open spec fn spec_segments(bufs: Seq<(Buffer, BufferDirection)>, addrs: Seq<usize>) -> Seq<
    Segment,
> {
    Seq::new(
        bufs.len(),
        |k: int| Segment { addr: addrs[k] as u64, len: bufs[k].0.len as u32, direction: bufs[k].1 },
    )
}

/// No buffer has the address zero.
pub open spec fn spec_no_null(bufs: Seq<Buffer>) -> bool {
    forall|i: int| 0 <= i < bufs.len() ==> (#[trigger] bufs[i]).addr != 0
}

/// The descriptor of one buffer of a chain. `more` says that another
/// descriptor follows. The link of the descriptor is kept: a chain runs along
/// the links that the free list had.
pub open spec fn spec_chain_descriptor(old: Descriptor, seg: Segment, more: bool) -> Descriptor {
    Descriptor {
        addr: seg.addr,
        len: seg.len,
        flags: spec_chain_flags(seg.direction, more),
        next: old.next,
    }
}

/// Every element of `s` is below `bound`.
pub open spec fn spec_all_below(s: Seq<u16>, bound: int) -> bool {
    forall|i: int| 0 <= i < s.len() ==> #[trigger] s[i] < bound
}

/// Each descriptor of `list` but the last links to the one after it.
pub open spec fn spec_linked(desc: Seq<Descriptor>, list: Seq<u16>) -> bool {
    forall|i: int, j: int|
        0 <= i && j == i + 1 && j < list.len() ==> desc[#[trigger] list[i] as int].next
            == #[trigger] list[j]
}

/// The descriptors that are met from `head` on by following `next`, `n` of them.
pub open spec fn spec_walk(desc: Seq<Descriptor>, head: u16, n: nat) -> Seq<u16>
    decreases n,
{
    if n == 0 {
        Seq::empty()
    } else {
        seq![head] + spec_walk(desc, desc[head as int].next, (n - 1) as nat)
    }
}

/// The queue as a mathematical value.
///
/// Beside the fields of the executable queue it names two things that the
/// descriptors only imply: the free list in the order in which it is
/// walked, and the chains that were handed to the device and not yet taken
/// back, each under the index of its first descriptor.
pub struct QueueView {
    pub queue_idx: u16,
    pub queue_size: u16,
    pub desc: Seq<Descriptor>,
    pub avail: AvailRingView,
    pub used: UsedRingView,
    pub num_used: u16,
    pub free_head: u16,
    pub avail_idx: u16,
    pub last_used_idx: u16,
    pub free: Seq<u16>,
    pub chains: Map<u16, Seq<u16>>,
    pub dma_vaddr: usize,
    pub dma_paddr: usize,
    pub dma_pages: usize,
}

impl QueueView {
    /// A queue of `queue_size` descriptors that has not been used yet: every
    /// descriptor is free and links to the one after it, and all counters
    /// are zero.
    pub open spec fn spec_new(
        queue_idx: u16,
        queue_size: u16,
        dma_vaddr: usize,
        dma_paddr: usize,
        dma_pages: usize,
    ) -> QueueView {
        QueueView {
            queue_idx,
            queue_size,
            desc: Seq::new(
                queue_size as nat,
                |i: int|
                    Descriptor {
                        addr: 0,
                        len: 0,
                        flags: DescFlags(0),
                        next: if i + 1 < queue_size {
                            (i + 1) as u16
                        } else {
                            0
                        },
                    },
            ),
            avail: AvailRing::spec_new(queue_size),
            used: UsedRing::spec_new(queue_size),
            num_used: 0,
            free_head: 0,
            avail_idx: 0,
            last_used_idx: 0,
            free: Seq::new(queue_size as nat, |i: int| i as u16),
            chains: Map::empty(),
            dma_vaddr,
            dma_paddr,
            dma_pages,
        }
    }

    /// The free list is a list of distinct descriptors that starts at
    /// `free_head` and runs along `next`.
    pub open spec fn free_wf(self) -> bool {
        &&& self.free.no_duplicates()
        &&& spec_all_below(self.free, self.queue_size as int)
        &&& self.free.len() > 0 ==> self.free[0] == self.free_head
        &&& spec_linked(self.desc, self.free)
    }

    /// `chain` is a chain in flight with head `head`: distinct descriptors,
    /// none of them free, each with `NEXT` and the link to its successor,
    /// the last without `NEXT`.
    pub open spec fn chain_wf(self, head: u16, chain: Seq<u16>) -> bool {
        &&& chain.len() > 0
        &&& chain[0] == head
        &&& chain.no_duplicates()
        &&& spec_all_below(chain, self.queue_size as int)
        &&& spec_linked(self.desc, chain)
        &&& forall|k: int|
            0 <= k < chain.len() ==> (#[trigger] self.desc[chain[k] as int]).flags.spec_contains(
                DescFlags(NEXT),
            ) == (k + 1 < chain.len())
        &&& forall|k: int|
            0 <= k < chain.len() ==> (#[trigger] self.desc[chain[k] as int]).addr <= usize::MAX
        &&& forall|k: int| 0 <= k < chain.len() ==> !self.free.contains(#[trigger] chain[k])
    }

    /// Every chain in flight is well-formed, and no descriptor lies on two chains.
    pub open spec fn chains_wf(self) -> bool {
        &&& forall|head: u16| #[trigger]
            self.chains.contains_key(head) ==> self.chain_wf(head, self.chains[head])
        &&& forall|h1: u16, h2: u16, i: int, j: int|
            self.chains.contains_key(h1) && self.chains.contains_key(h2) && h1 != h2 && 0 <= i
                < self.chains[h1].len() && 0 <= j < self.chains[h2].len()
                ==> #[trigger] self.chains[h1][i] != #[trigger] self.chains[h2][j]
    }

    /// Whether the descriptor lies on a chain that the device holds.
    pub open spec fn spec_in_flight(self, i: u16) -> bool {
        exists|head: u16| self.chains.contains_key(head) && #[trigger] self.chains[head].contains(i)
    }

    /// Every descriptor of the queue is either free or on a chain in
    /// flight: none is lost.
    pub open spec fn all_accounted(self) -> bool {
        forall|i: u16|
            i < self.queue_size ==> #[trigger] self.free.contains(i) || self.spec_in_flight(i)
    }

    /// What holds of a queue at all times.
    pub open spec fn wf(self) -> bool {
        &&& spec_is_power_of_two(self.queue_size)
        &&& self.desc.len() == self.queue_size
        &&& self.avail.ring.len() == self.queue_size
        &&& self.used.ring.len() == self.queue_size
        &&& self.avail.idx == self.avail_idx
        &&& self.num_used <= self.queue_size
        &&& self.free.len() == self.queue_size - self.num_used
        &&& self.free_wf()
        &&& self.chains_wf()
        &&& self.all_accounted()
    }

    /// Whether a chain of `n_inputs` and `n_outputs` buffers can be
    /// submitted, and the error if it cannot.
    pub open spec fn spec_add_check(self, n_inputs: nat, n_outputs: nat) -> Result<(), Error> {
        if n_inputs == 0 && n_outputs == 0 {
            Err(Error::InvalidParam)
        } else if n_inputs + n_outputs + self.num_used > self.queue_size {
            Err(Error::QueueFull)
        } else {
            Ok(())
        }
    }

    /// The number of descriptors that a chain can still take.
    pub open spec fn spec_available_desc(self) -> int {
        self.queue_size - self.num_used
    }

    /// The queue after a chain of the segments `segs` was submitted.
    ///
    /// The chain takes the first descriptors of the free list, in order.
    /// Each gets its segment, and `NEXT` unless it is the last. The head
    /// goes into the slot of the available ring that the running index
    /// names, and the index moves on by one, wrapping at 2^16.
    pub open spec fn spec_add(self, segs: Seq<Segment>) -> QueueView
        recommends
            0 < segs.len() <= self.free.len(),
    {
        let n = segs.len() as int;
        let chain = self.free.take(n);
        QueueView {
            desc: Seq::new(
                self.desc.len(),
                |i: int|
                    if chain.contains(i as u16) {
                        let k = chain.index_of(i as u16);
                        spec_chain_descriptor(self.desc[i], segs[k], k + 1 < n)
                    } else {
                        self.desc[i]
                    },
            ),
            avail: AvailRingView {
                idx: wrapping_add(self.avail_idx, 1),
                ring: self.avail.ring.update(
                    spec_slot(self.avail_idx, self.queue_size) as int,
                    chain[0],
                ),
                ..self.avail
            },
            num_used: (self.num_used + n) as u16,
            free_head: self.desc[chain[n - 1] as int].next,
            avail_idx: wrapping_add(self.avail_idx, 1),
            free: self.free.skip(n),
            chains: self.chains.insert(chain[0], chain),
            ..self
        }
    }

    /// The queue after the chain with head `head` went back to the free list.
    ///
    /// The chain's descriptors lose address and length, keep their flags,
    /// and stand at the front of the free list in the chain's order; the
    /// last of them links to what was the head of the free list.
    pub open spec fn spec_recycle(self, head: u16) -> QueueView
        recommends
            self.chains.contains_key(head),
    {
        let chain = self.chains[head];
        QueueView {
            desc: Seq::new(
                self.desc.len(),
                |i: int|
                    if chain.contains(i as u16) {
                        Descriptor {
                            addr: 0,
                            len: 0,
                            flags: self.desc[i].flags,
                            next: if i == chain.last() {
                                self.free_head
                            } else {
                                self.desc[i].next
                            },
                        }
                    } else {
                        self.desc[i]
                    },
            ),
            num_used: (self.num_used - chain.len()) as u16,
            free_head: head,
            free: chain + self.free,
            chains: self.chains.remove(head),
            ..self
        }
    }

    /// Whether the used ring holds a completion that the driver has not taken.
    pub open spec fn spec_can_pop(self) -> bool {
        self.last_used_idx != self.used.idx
    }

    /// The oldest completion that the driver has not taken.
    pub open spec fn spec_next_used(self) -> UsedElem {
        self.used.ring[spec_slot(self.last_used_idx, self.queue_size) as int]
    }

    /// The head of the chain of the oldest completion, as 16 bits.
    pub open spec fn spec_next_token(self) -> u16 {
        self.spec_next_used().id as u16
    }

    /// What `peek_used` returns.
    pub open spec fn spec_peek_used(self) -> Option<u16> {
        if self.spec_can_pop() {
            Some(self.spec_next_token())
        } else {
            None
        }
    }

    /// The queue after the driver took the oldest completion, that of the
    /// chain with head `token`.
    pub open spec fn spec_pop_used(self, token: u16) -> QueueView {
        QueueView { last_used_idx: wrapping_add(self.last_used_idx, 1), ..self.spec_recycle(token) }
    }

    /// The queue after the device reported a completion: the element goes
    /// into the slot that the used index names, and the index moves on by
    /// one, wrapping at 2^16.
    pub open spec fn spec_device_write_used(self, id: u32, len: u32) -> QueueView {
        QueueView {
            used: UsedRingView {
                idx: wrapping_add(self.used.idx, 1),
                ring: self.used.ring.update(
                    spec_slot(self.used.idx, self.queue_size) as int,
                    UsedElem { id, len },
                ),
                ..self.used
            },
            ..self
        }
    }

    /// The head of the chain that an in-order device takes next.
    pub open spec fn spec_device_next_head(self) -> u16 {
        self.avail.ring[spec_slot(self.used.idx, self.queue_size) as int]
    }
}

/// Distinct numbers below a bound are no more than the bound.
pub proof fn lemma_distinct_below(s: Seq<u16>, bound: nat)
    requires
        s.no_duplicates(),
        spec_all_below(s, bound as int),
    ensures
        s.len() <= bound,
    decreases bound,
{
    if bound == 0 {
        if s.len() > 0 {
            assert(s[0] < 0);
        }
    } else {
        let top = (bound - 1) as u16;
        if s.contains(top) {
            let at = s.index_of(top);
            let rest = s.remove(at);
            assert forall|i: int| 0 <= i < rest.len() implies #[trigger] rest[i] < bound - 1 by {
                if i < at {
                    assert(rest[i] == s[i]);
                } else {
                    assert(rest[i] == s[i + 1]);
                }
            }
            assert(rest.no_duplicates()) by {
                assert forall|i: int, j: int|
                    0 <= i < rest.len() && 0 <= j < rest.len() && i != j implies rest[i]
                    != rest[j] by {
                    let ii = if i < at {
                        i
                    } else {
                        i + 1
                    };
                    let jj = if j < at {
                        j
                    } else {
                        j + 1
                    };
                    assert(rest[i] == s[ii] && rest[j] == s[jj]);
                }
            }
            lemma_distinct_below(rest, (bound - 1) as nat);
        } else {
            assert forall|i: int| 0 <= i < s.len() implies #[trigger] s[i] < bound - 1 by {
                assert(s.contains(s[i]));
            }
            lemma_distinct_below(s, (bound - 1) as nat);
        }
    }
}

/// A new queue is well-formed.
pub proof fn lemma_new_wf(
    queue_idx: u16,
    queue_size: u16,
    dma_vaddr: usize,
    dma_paddr: usize,
    dma_pages: usize,
)
    requires
        spec_is_power_of_two(queue_size),
    ensures
        QueueView::spec_new(queue_idx, queue_size, dma_vaddr, dma_paddr, dma_pages).wf(),
{
    let q = QueueView::spec_new(queue_idx, queue_size, dma_vaddr, dma_paddr, dma_pages);
    assert forall|i: u16| i < q.queue_size implies #[trigger] q.free.contains(i) by {
        assert(q.free[i as int] == i);
    }
}

/// What `spec_add` makes of each descriptor: those of the new chain hold
/// their segments, all others are as before.
pub proof fn lemma_add_descriptors(q: QueueView, segs: Seq<Segment>)
    requires
        q.wf(),
        0 < segs.len() <= q.free.len(),
    ensures
        forall|k: int|
            0 <= k < segs.len() ==> #[trigger] q.spec_add(segs).desc[q.free[k] as int]
                == spec_chain_descriptor(q.desc[q.free[k] as int], segs[k], k + 1 < segs.len()),
        forall|i: int|
            0 <= i < q.queue_size && !q.free.take(segs.len() as int).contains(i as u16)
                ==> #[trigger] q.spec_add(segs).desc[i] == q.desc[i],
        q.spec_add(segs).desc.len() == q.queue_size,
{
    let n = segs.len() as int;
    let chain = q.free.take(n);
    assert forall|k: int| 0 <= k < n implies #[trigger] q.spec_add(segs).desc[q.free[k] as int]
        == spec_chain_descriptor(q.desc[q.free[k] as int], segs[k], k + 1 < n) by {
        assert(chain[k] == q.free[k]);
        assert(chain.contains(q.free[k]));
        let at = chain.index_of(q.free[k]);
        assert(chain[at] == q.free[at]);
        assert(at == k);
    }
}

/// Submitting a chain keeps the queue well-formed, and puts the chain in flight.
pub proof fn lemma_add_wf(q: QueueView, segs: Seq<Segment>)
    requires
        q.wf(),
        0 < segs.len() <= q.free.len(),
        forall|k: int| 0 <= k < segs.len() ==> (#[trigger] segs[k]).addr <= usize::MAX,
    ensures
        q.spec_add(segs).wf(),
        q.spec_add(segs).chains.contains_key(q.free_head),
        q.spec_add(segs).chains[q.free_head] == q.free.take(segs.len() as int),
        !q.chains.contains_key(q.free_head),
{
    let n = segs.len() as int;
    let chain = q.free.take(n);
    let r = q.spec_add(segs);
    lemma_add_descriptors(q, segs);
    assert(chain[0] == q.free[0]);
    // The head was free, so it is the head of no chain in flight.
    if q.chains.contains_key(q.free_head) {
        assert(q.chain_wf(q.free_head, q.chains[q.free_head]));
        assert(q.chains[q.free_head][0] == q.free_head);
        assert(q.free.contains(q.free[0]));
    }
    assert forall|i: int| 0 <= i < r.free.len() implies !chain.contains(#[trigger] r.free[i]) by {
        if chain.contains(r.free[i]) {
            let at = chain.index_of(r.free[i]);
            assert(q.free[at] == q.free[i + n]);
        }
    }
    assert(r.free_wf()) by {
        assert forall|i: int, j: int| 0 <= i && j == i + 1 && j < r.free.len() implies r.desc[
            #[trigger] r.free[i] as int].next == #[trigger] r.free[j] by {
            assert(r.free[i] == q.free[i + n] && r.free[j] == q.free[j + n]);
            assert(!chain.contains(r.free[i]));
        }
        if r.free.len() > 0 {
            assert(r.free[0] == q.free[n]);
            assert(chain[n - 1] == q.free[n - 1]);
        }
    }
    assert(r.chain_wf(chain[0], chain)) by {
        lemma_chain_flag_facts();
        assert forall|i: int, j: int| 0 <= i && j == i + 1 && j < chain.len() implies r.desc[
            #[trigger] chain[i] as int].next == #[trigger] chain[j] by {
            assert(chain[i] == q.free[i] && chain[j] == q.free[j]);
        }
        assert forall|k: int| 0 <= k < chain.len() implies (#[trigger] r.desc[chain[k] as int]).flags.spec_contains(
            DescFlags(NEXT),
        ) == (k + 1 < chain.len()) by {
            assert(chain[k] == q.free[k]);
        }
        assert forall|k: int| 0 <= k < chain.len() implies (#[trigger] r.desc[chain[k] as int]).addr
            <= usize::MAX by {
            assert(chain[k] == q.free[k]);
        }
        assert forall|k: int| 0 <= k < chain.len() implies !r.free.contains(
            #[trigger] chain[k],
        ) by {
            if r.free.contains(chain[k]) {
                let at = r.free.index_of(chain[k]);
                assert(q.free[at + n] == q.free[k]);
            }
        }
    }
    assert forall|head: u16| #[trigger] r.chains.contains_key(head) implies r.chain_wf(
        head,
        r.chains[head],
    ) by {
        if head != chain[0] {
            let c = q.chains[head];
            assert(q.chain_wf(head, c));
            assert forall|k: int| 0 <= k < c.len() implies r.desc[#[trigger] c[k] as int]
                == q.desc[c[k] as int] && !r.free.contains(c[k]) by {
                assert(!q.free.contains(c[k]));
                if chain.contains(c[k]) {
                    let at = chain.index_of(c[k]);
                    assert(q.free[at] == c[k]);
                }
                if r.free.contains(c[k]) {
                    let at = r.free.index_of(c[k]);
                    assert(q.free[at + n] == c[k]);
                }
            }
        }
    }
    crate::lemma_slot_in_ring(q.avail_idx, q.queue_size);
    assert forall|h1: u16, h2: u16, i: int, j: int|
        r.chains.contains_key(h1) && r.chains.contains_key(h2) && h1 != h2 && 0 <= i
            < r.chains[h1].len() && 0 <= j < r.chains[h2].len() implies #[trigger] r.chains[h1][i]
        != #[trigger] r.chains[h2][j] by {
        if h1 == chain[0] {
            assert(q.chain_wf(h2, q.chains[h2]));
            assert(!q.free.contains(q.chains[h2][j]));
            assert(chain[i] == q.free[i]);
        } else if h2 == chain[0] {
            assert(q.chain_wf(h1, q.chains[h1]));
            assert(!q.free.contains(q.chains[h1][i]));
            assert(chain[j] == q.free[j]);
        }
    }
    assert forall|i: u16| i < r.queue_size implies #[trigger] r.free.contains(i)
        || r.spec_in_flight(i) by {
        if q.free.contains(i) {
            let m = q.free.index_of(i);
            if m < n {
                assert(chain[m] == i);
                assert(r.chains[chain[0]].contains(i));
            } else {
                assert(r.free[m - n] == i);
            }
        } else {
            assert(q.spec_in_flight(i));
            let h = choose|h: u16| q.chains.contains_key(h) && #[trigger] q.chains[h].contains(i);
            assert(r.chains.contains_key(h) && r.chains[h].contains(i));
        }
    }
}

/// What the flags of a chain's descriptors say of `NEXT` and `WRITE`.
pub proof fn lemma_chain_flag_facts()
    ensures
        forall|direction: BufferDirection, more: bool| #[trigger]
            spec_chain_flags(direction, more).spec_contains(DescFlags(NEXT)) == more,
        forall|direction: BufferDirection, more: bool| #[trigger]
            spec_chain_flags(direction, more).spec_contains(DescFlags(WRITE)) == (direction
                == BufferDirection::DeviceToDriver),
{
    assert forall|direction: BufferDirection, more: bool| #[trigger]
        spec_chain_flags(direction, more).spec_contains(DescFlags(NEXT)) == more by {
        crate::descriptor::lemma_chain_flags(direction, more);
    }
    assert forall|direction: BufferDirection, more: bool| #[trigger]
        spec_chain_flags(direction, more).spec_contains(DescFlags(WRITE)) == (direction
            == BufferDirection::DeviceToDriver) by {
        crate::descriptor::lemma_chain_flags(direction, more);
    }
}

/// A chain in flight is no longer than the number of descriptors in use.
pub proof fn lemma_chain_within_used(q: QueueView, head: u16)
    requires
        q.wf(),
        q.chains.contains_key(head),
    ensures
        0 < q.chains[head].len() <= q.num_used,
        (q.chains[head] + q.free).no_duplicates(),
{
    let chain = q.chains[head];
    let all = chain + q.free;
    assert(q.chain_wf(head, chain));
    assert forall|i: int, j: int| 0 <= i < all.len() && 0 <= j < all.len() && i != j implies all[i]
        != all[j] by {
        if i < chain.len() && j >= chain.len() {
            assert(!q.free.contains(chain[i]));
            assert(q.free[j - chain.len()] == all[j]);
        } else if j < chain.len() && i >= chain.len() {
            assert(!q.free.contains(chain[j]));
            assert(q.free[i - chain.len()] == all[i]);
        }
    }
    assert forall|i: int| 0 <= i < all.len() implies #[trigger] all[i] < q.queue_size by {
        if i < chain.len() {
            assert(all[i] == chain[i]);
        } else {
            assert(all[i] == q.free[i - chain.len()]);
        }
    }
    lemma_distinct_below(all, q.queue_size as nat);
}

/// Taking a chain back keeps the queue well-formed, and gives its
/// descriptors back to the free list.
pub proof fn lemma_recycle_wf(q: QueueView, head: u16)
    requires
        q.wf(),
        q.chains.contains_key(head),
    ensures
        q.spec_recycle(head).wf(),
        q.spec_recycle(head).free.len() == q.free.len() + q.chains[head].len(),
        !q.spec_recycle(head).chains.contains_key(head),
{
    let chain = q.chains[head];
    let n = chain.len() as int;
    let r = q.spec_recycle(head);
    lemma_chain_within_used(q, head);
    assert(q.chain_wf(head, chain));
    assert forall|k: int| 0 <= k < n implies #[trigger] r.desc[chain[k] as int] == (Descriptor {
        addr: 0,
        len: 0,
        flags: q.desc[chain[k] as int].flags,
        next: if k == n - 1 {
            q.free_head
        } else {
            q.desc[chain[k] as int].next
        },
    }) by {
        assert(chain.contains(chain[k]));
        if k != n - 1 && chain[k] == chain.last() {
            assert(chain[k] == chain[n - 1]);
        }
    }
    assert(r.free_wf()) by {
        assert forall|i: int, j: int| 0 <= i && j == i + 1 && j < r.free.len() implies r.desc[
            #[trigger] r.free[i] as int].next == #[trigger] r.free[j] by {
            if j < n {
                assert(r.free[i] == chain[i] && r.free[j] == chain[j]);
            } else if i < n {
                assert(r.free[i] == chain[i] && r.free[j] == q.free[0]);
            } else {
                assert(r.free[i] == q.free[i - n] && r.free[j] == q.free[j - n]);
                assert(q.free.contains(q.free[i - n]));
                if chain.contains(r.free[i]) {
                    let at = chain.index_of(r.free[i]);
                    assert(!q.free.contains(chain[at]));
                }
            }
        }
        assert(r.free[0] == chain[0]);
        assert forall|i: int| 0 <= i < r.free.len() implies #[trigger] r.free[i]
            < q.queue_size by {
            if i < n {
                assert(r.free[i] == chain[i]);
            } else {
                assert(r.free[i] == q.free[i - n]);
            }
        }
    }
    assert forall|h: u16| #[trigger] r.chains.contains_key(h) implies r.chain_wf(
        h,
        r.chains[h],
    ) by {
        let c = q.chains[h];
        assert(q.chain_wf(h, c));
        assert forall|k: int| 0 <= k < c.len() implies r.desc[#[trigger] c[k] as int]
            == q.desc[c[k] as int] && !r.free.contains(c[k]) by {
            if chain.contains(c[k]) {
                let at = chain.index_of(c[k]);
                assert(chain[at] == c[k]);
            }
            if r.free.contains(c[k]) {
                let at = r.free.index_of(c[k]);
                if at < n {
                    assert(chain[at] == c[k]);
                } else {
                    assert(q.free[at - n] == c[k]);
                    assert(q.free.contains(c[k]));
                }
            }
        }
    }
    assert forall|i: u16| i < r.queue_size implies #[trigger] r.free.contains(i)
        || r.spec_in_flight(i) by {
        if q.free.contains(i) {
            let m = q.free.index_of(i);
            assert(r.free[m + n] == i);
        } else {
            assert(q.spec_in_flight(i));
            let h = choose|h: u16| q.chains.contains_key(h) && #[trigger] q.chains[h].contains(i);
            if h == head {
                let m = chain.index_of(i);
                assert(r.free[m] == i);
            } else {
                assert(r.chains.contains_key(h) && r.chains[h].contains(i));
            }
        }
    }
}

/// A completion that the device reports changes the used ring only.
pub proof fn lemma_device_write_used_wf(q: QueueView, id: u32, len: u32)
    requires
        q.wf(),
    ensures
        q.spec_device_write_used(id, len).wf(),
{
    crate::lemma_slot_in_ring(q.used.idx, q.queue_size);
    let r = q.spec_device_write_used(id, len);
    assert forall|head: u16| #[trigger] r.chains.contains_key(head) implies r.chain_wf(
        head,
        r.chains[head],
    ) by {
        assert(q.chain_wf(head, q.chains[head]));
    }
    assert forall|i: u16| i < r.queue_size implies #[trigger] r.free.contains(i)
        || r.spec_in_flight(i) by {
        if !q.free.contains(i) {
            assert(q.spec_in_flight(i));
            let h = choose|h: u16| q.chains.contains_key(h) && #[trigger] q.chains[h].contains(i);
            assert(r.chains.contains_key(h) && r.chains[h].contains(i));
        }
    }
}

} // verus!
