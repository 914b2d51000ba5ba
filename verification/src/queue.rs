//! The queue itself: the three rings, the free list, and the life cycle of a
//! chain of buffers.

use crate::descriptor::{lemma_chain_flags, DescFlags, Descriptor, NEXT};
use crate::fence::fence_seq_cst;
use crate::hal::{Buffer, BufferDirection, Hal};
use crate::layout::VirtQueueLayout;
use crate::model::{
    lemma_add_descriptors, lemma_add_wf, lemma_chain_within_used, lemma_device_write_used_wf,
    lemma_new_wf, lemma_recycle_wf, spec_input_output, spec_no_null, spec_segments, QueueView,
};
use crate::ring::{AvailRing, UsedElem, UsedRing};
use crate::transport::Transport;
use crate::{is_power_of_two, slot, spec_is_power_of_two, Error, PAGE_SIZE};
use core::marker::PhantomData;
use vstd::prelude::*;

verus! {

/// The input buffers followed by the output buffers, each with the
/// direction in which it is shared.
///
/// No buffer may have the address zero.
pub fn input_output_iter(inputs: &[Buffer], outputs: &[Buffer]) -> (r: Vec<
    (Buffer, BufferDirection),
>)
    requires
        spec_no_null(inputs@),
        spec_no_null(outputs@),
    ensures
        r@ == spec_input_output(inputs@, outputs@),
        forall|k: int| 0 <= k < r@.len() ==> (#[trigger] r@[k]).0.addr != 0,
{
    let mut r: Vec<(Buffer, BufferDirection)> = Vec::new();
    let mut i: usize = 0;
    while i < inputs.len()
        invariant
            i <= inputs.len(),
            r@.len() == i,
            forall|k: int|
                0 <= k < i ==> r@[k] == (inputs@[k], BufferDirection::DriverToDevice),
        decreases inputs.len() - i,
    {
        r.push((inputs[i], BufferDirection::DriverToDevice));
        i += 1;
    }
    let mut j: usize = 0;
    while j < outputs.len()
        invariant
            j <= outputs.len(),
            r@.len() == inputs.len() + j,
            forall|k: int|
                0 <= k < inputs.len() ==> r@[k] == (inputs@[k], BufferDirection::DriverToDevice),
            forall|k: int|
                0 <= k < j ==> r@[inputs.len() + k] == (
                    outputs@[k],
                    BufferDirection::DeviceToDriver,
                ),
        decreases outputs.len() - j,
    {
        r.push((outputs[j], BufferDirection::DeviceToDriver));
        j += 1;
    }
    assert(r@ =~= spec_input_output(inputs@, outputs@));
    r
}

/// A split virtqueue, as the driver holds it.
///
/// `H` is the platform that shares the buffers with the device.
pub struct VirtQueue<H: Hal> {
    /// The virtual address of the region that was allocated for the rings.
    dma_vaddr: usize,
    /// The physical address of that region.
    dma_paddr: usize,
    /// The size of that region in pages.
    dma_pages: usize,
    /// The descriptor table.
    desc: Vec<Descriptor>,
    /// The available ring.
    avail: AvailRing,
    /// The used ring.
    used: UsedRing,
    /// The index of the queue on its device.
    queue_idx: u16,
    /// The number of descriptors, and of slots in either ring.
    queue_size: u16,
    /// The number of descriptors that are lent to the device.
    num_used: u16,
    /// The first descriptor of the free list.
    free_head: u16,
    /// The number of chains submitted, modulo 2^16.
    avail_idx: u16,
    /// The number of completions taken, modulo 2^16.
    last_used_idx: u16,
    /// The free list in the order in which it is walked.
    free: Ghost<Seq<u16>>,
    /// The chains in flight, each under its head.
    chains: Ghost<Map<u16, Seq<u16>>>,
    hal: PhantomData<H>,
}

impl<H: Hal> View for VirtQueue<H> {
    type V = QueueView;

    closed spec fn view(&self) -> QueueView {
        QueueView {
            queue_idx: self.queue_idx,
            queue_size: self.queue_size,
            desc: self.desc@,
            avail: self.avail@,
            used: self.used@,
            num_used: self.num_used,
            free_head: self.free_head,
            avail_idx: self.avail_idx,
            last_used_idx: self.last_used_idx,
            free: self.free@,
            chains: self.chains@,
            dma_vaddr: self.dma_vaddr,
            dma_paddr: self.dma_paddr,
            dma_pages: self.dma_pages,
        }
    }
}

impl<H: Hal> VirtQueue<H> {
    /// What holds of a queue at all times: see [`QueueView::wf`].
    pub open spec fn wf(&self) -> bool {
        self@.wf()
    }

    /// Whether a queue of `size` descriptors can be made, given what the
    /// transport said, and the error if it cannot.
    pub open spec fn spec_check_new(already_used: bool, max_queue_size: u32, size: u16) -> Result<
        (),
        Error,
    > {
        if already_used {
            Err(Error::AlreadyUsed)
        } else if !spec_is_power_of_two(size) || max_queue_size < size {
            Err(Error::InvalidParam)
        } else {
            Ok(())
        }
    }

    /// Decides whether a queue of `size` descriptors can be made.
    ///
    /// `already_used` is what the transport said of the queue index, and
    /// `max_queue_size` the largest size that it accepts. A queue index that
    /// is in use comes first; then the size must be a power of two and no
    /// larger than the maximum.
    pub fn check_new(already_used: bool, max_queue_size: u32, size: u16) -> (r: Result<(), Error>)
        ensures
            r == Self::spec_check_new(already_used, max_queue_size, size),
    {
        if already_used {
            return Err(Error::AlreadyUsed);
        }
        if !is_power_of_two(size) || max_queue_size < size as u32 {
            return Err(Error::InvalidParam);
        }
        Ok(())
    }

    /// Makes the queue with index `idx` and `size` descriptors over a region
    /// that was allocated at `dma_vaddr` / `dma_paddr`.
    ///
    /// Every descriptor is free. Descriptor `i` links to `i + 1`; the last
    /// one links nowhere yet.
    pub fn with_region(
        idx: u16,
        size: u16,
        dma_vaddr: usize,
        dma_paddr: usize,
        dma_pages: usize,
    ) -> (q: Self)
        requires
            spec_is_power_of_two(size),
        ensures
            q.wf(),
            q@ == QueueView::spec_new(idx, size, dma_vaddr, dma_paddr, dma_pages),
    {
        let mut desc: Vec<Descriptor> = Vec::new();
        let mut i: u16 = 0;
        while i < size
            invariant
                i <= size,
                size <= 0x8000,
                desc@.len() == i,
                forall|j: int|
                    0 <= j < i ==> desc@[j] == (Descriptor {
                        addr: 0,
                        len: 0,
                        flags: DescFlags(0),
                        next: if j + 1 < size {
                            (j + 1) as u16
                        } else {
                            0
                        },
                    }),
            decreases size - i,
        {
            let mut d: Descriptor = Descriptor::zeroed();
            if i + 1 < size {
                d.next = i + 1;
            }
            desc.push(d);
            i += 1;
        }
        let q = VirtQueue {
            dma_vaddr,
            dma_paddr,
            dma_pages,
            desc,
            avail: AvailRing::new(size),
            used: UsedRing::new(size),
            queue_idx: idx,
            queue_size: size,
            num_used: 0,
            free_head: 0,
            avail_idx: 0,
            last_used_idx: 0,
            free: Ghost(Seq::new(size as nat, |i: int| i as u16)),
            chains: Ghost(Map::empty()),
            hal: PhantomData,
        };
        proof {
            let spec = QueueView::spec_new(idx, size, dma_vaddr, dma_paddr, dma_pages);
            lemma_new_wf(idx, size, dma_vaddr, dma_paddr, dma_pages);
            assert(q@.desc =~= spec.desc);
            assert(q@.free =~= spec.free);
            assert(q@.chains =~= spec.chains);
        }
        q
    }

    /// Makes the queue with index `idx` and `size` descriptors on a device.
    ///
    /// The transport is asked whether the index is in use and how large a
    /// queue may be; [`VirtQueue::check_new`] decides on the answers. If the
    /// queue can be made, the region for the rings is allocated, sized by
    /// [`VirtQueueLayout::new`], and the transport is told where the
    /// descriptor table, the available ring and the used ring lie.
    pub fn new<T: Transport>(transport: &mut T, idx: u16, size: u16) -> (r: Result<Self, Error>)
        ensures
            match r {
                Ok(q) => {
                    &&& spec_is_power_of_two(size)
                    &&& q.wf()
                    &&& q@ == QueueView::spec_new(
                        idx,
                        size,
                        q@.dma_vaddr,
                        q@.dma_paddr,
                        (VirtQueueLayout::spec_new(size).size / 0x1000) as usize,
                    )
                },
                Err(e) => e == Error::AlreadyUsed || e == Error::InvalidParam,
            },
            !spec_is_power_of_two(size) ==> r is Err,
    {
        let already_used: bool = transport.queue_used(idx);
        let max_queue_size: u32 = transport.max_queue_size();
        match Self::check_new(already_used, max_queue_size, size) {
            Err(e) => {
                return Err(e);
            },
            Ok(()) => {},
        }
        let layout: VirtQueueLayout = VirtQueueLayout::new(size);
        let pages: usize = layout.size / PAGE_SIZE;
        let (vaddr, paddr) = H::dma_alloc(pages);
        transport.queue_set(
            idx,
            size as u32,
            paddr,
            paddr.wrapping_add(layout.avail_offset),
            paddr.wrapping_add(layout.used_offset),
        );
        Ok(Self::with_region(idx, size, vaddr, paddr, pages))
    }

    /// The number of descriptors, and of slots in either ring.
    pub fn size(&self) -> (r: u16)
        ensures
            r == self@.queue_size,
    {
        self.queue_size
    }

    /// The index of the queue on its device.
    pub fn queue_idx(&self) -> (r: u16)
        ensures
            r == self@.queue_idx,
    {
        self.queue_idx
    }

    /// The number of free descriptors.
    pub fn available_desc(&self) -> (r: usize)
        requires
            self.wf(),
        ensures
            r == self@.spec_available_desc(),
            r == self@.free.len(),
            r <= self@.queue_size,
    {
        (self.queue_size - self.num_used) as usize
    }

    /// The first descriptor of the free list. It is a descriptor of the
    /// queue as long as one is free.
    pub fn free_head(&self) -> (r: u16)
        ensures
            r == self@.free_head,
    {
        self.free_head
    }

    /// The descriptor table, as the device reads it.
    pub fn descriptors(&self) -> (r: &Vec<Descriptor>)
        ensures
            r@ == self@.desc,
    {
        &self.desc
    }

    /// The available ring, as the device reads it.
    pub fn avail_ring(&self) -> (r: &AvailRing)
        ensures
            r@ == self@.avail,
    {
        &self.avail
    }

    /// The used ring, as the driver reads it.
    pub fn used_ring(&self) -> (r: &UsedRing)
        ensures
            r@ == self@.used,
    {
        &self.used
    }

    /// The physical address of the region that was allocated for the rings.
    pub fn dma_paddr(&self) -> (r: usize)
        ensures
            r == self@.dma_paddr,
    {
        self.dma_paddr
    }

    /// The virtual address of the region that was allocated for the rings.
    pub fn dma_vaddr(&self) -> (r: usize)
        ensures
            r == self@.dma_vaddr,
    {
        self.dma_vaddr
    }

    /// The size in pages of the region that was allocated for the rings.
    pub fn dma_pages(&self) -> (r: usize)
        ensures
            r == self@.dma_pages,
    {
        self.dma_pages
    }

    /// Whether the used ring holds a completion that was not taken yet.
    ///
    /// A fence comes first, so that the index is read as the device left it.
    /// The queue is not changed: asked again, the answer is the same until
    /// the device reports another completion or the driver takes one.
    pub fn can_pop(&self) -> (r: bool)
        ensures
            r == self@.spec_can_pop(),
    {
        fence_seq_cst();
        self.last_used_idx != self.used.idx
    }

    /// The token of the oldest completion that was not taken yet, if there
    /// is one. The queue is not changed.
    pub fn peek_used(&self) -> (r: Option<u16>)
        requires
            self.wf(),
        ensures
            r == self@.spec_peek_used(),
    {
        if self.can_pop() {
            let last_used_slot: u16 = slot(self.last_used_idx, self.queue_size);
            Some(#[verifier::truncate] (self.used.ring[last_used_slot as usize].id as u16))
        } else {
            None
        }
    }

    /// Submits a chain of buffers to the device and returns its token.
    ///
    /// The chain holds the input buffers, which the device reads, followed
    /// by the output buffers, which it writes. It takes descriptors from
    /// the front of the free list, one for each buffer in order, and each
    /// buffer is shared with the device by `H::share` as its descriptor is
    /// filled. The head of the chain goes into the available ring; a fence
    /// orders that before the new available index, and a second fence
    /// orders the index before whatever notifies the device afterwards.
    ///
    /// With no buffer at all the result is `InvalidParam`, with more
    /// buffers than free descriptors `QueueFull`, and the queue is as it
    /// was. Otherwise the token is the old head of the free list, and the
    /// queue is [`QueueView::spec_add`] of the buffers, each at the address
    /// that `H::share` returned for it.
    ///
    /// The buffers must stay as they are until the token comes back from
    /// [`VirtQueue::pop_used`]. A chain that is submitted has no buffer
    /// with the address zero.
    pub fn add(&mut self, inputs: &[Buffer], outputs: &[Buffer]) -> (r: Result<u16, Error>)
        requires
            old(self).wf(),
            old(self)@.spec_add_check(inputs@.len(), outputs@.len()) is Ok ==> spec_no_null(
                inputs@,
            ) && spec_no_null(outputs@),
        ensures
            final(self).wf(),
            old(self)@.spec_add_check(inputs@.len(), outputs@.len()) matches Err(e) ==> r == Err::<
                u16,
                Error,
            >(e) && final(self)@ == old(self)@,
            old(self)@.spec_add_check(inputs@.len(), outputs@.len()) is Ok ==> {
                &&& r == Ok::<u16, Error>(old(self)@.free_head)
                &&& exists|addrs: Seq<usize>|
                    addrs.len() == inputs@.len() + outputs@.len() && final(self)@ == old(
                        self,
                    )@.spec_add(#[trigger] spec_segments(spec_input_output(inputs@, outputs@), addrs))
                &&& final(self)@.chains.contains_key(old(self)@.free_head)
                &&& final(self)@.chains[old(self)@.free_head].len() == inputs@.len()
                    + outputs@.len()
                &&& final(self)@.spec_available_desc() == old(self)@.spec_available_desc()
                    - inputs@.len() - outputs@.len()
            },
    {
        if inputs.len() == 0 && outputs.len() == 0 {
            return Err(Error::InvalidParam);
        }
        let available: usize = (self.queue_size - self.num_used) as usize;
        if inputs.len() > available || outputs.len() > available - inputs.len() {
            return Err(Error::QueueFull);
        }
        let bufs: Vec<(Buffer, BufferDirection)> = input_output_iter(inputs, outputs);
        let n: usize = bufs.len();
        let ghost q0 = self@;
        let ghost mut addrs: Seq<usize> = Seq::empty();

        // Take descriptors from the free list, one for each buffer.
        let head: u16 = self.free_head;
        let mut last: u16 = self.free_head;
        let mut i: usize = 0;
        while i < n
            invariant
                q0.wf(),
                n == bufs@.len(),
                forall|k: int| 0 <= k < bufs@.len() ==> (#[trigger] bufs@[k]).0.addr != 0,
                0 < n <= q0.free.len(),
                i <= n,
                addrs.len() == i,
                self.desc@.len() == q0.queue_size,
                self@ == (QueueView { desc: self.desc@, free_head: self.free_head, ..q0 }),
                i < n ==> self.free_head == q0.free[i as int],
                i > 0 ==> last == q0.free[i - 1] && self.free_head == q0.desc[q0.free[i
                    - 1] as int].next,
                forall|k: int|
                    0 <= k < i ==> #[trigger] self.desc@[q0.free[k] as int]
                        == crate::model::spec_chain_descriptor(
                        q0.desc[q0.free[k] as int],
                        spec_segments(bufs@, addrs)[k],
                        true,
                    ),
                forall|m: int|
                    i <= m < q0.free.len() ==> #[trigger] self.desc@[q0.free[m] as int]
                        == q0.desc[q0.free[m] as int],
                forall|j: int|
                    0 <= j < q0.queue_size && !q0.free.contains(j as u16) ==> #[trigger] self.desc@[j]
                        == q0.desc[j],
            decreases n - i,
        {
            let (buffer, direction) = bufs[i];
            let at: u16 = self.free_head;
            let mut d: Descriptor = self.desc[at as usize];
            let ghost d0 = d;
            d.set_buf::<H>(buffer, direction, DescFlags(NEXT));
            proof {
                let paddr = choose|paddr: usize|
                    d == d0.spec_set_shared_buf(paddr, buffer.len, direction, DescFlags(NEXT));
                lemma_chain_flags(direction, true);
                let ghost before = addrs;
                addrs = addrs.push(paddr);
                assert forall|k: int| 0 <= k < i implies spec_segments(bufs@, addrs)[k]
                    == spec_segments(bufs@, before)[k] by {}
                assert(q0.free.contains(q0.free[i as int]));
            }
            self.desc.set(at as usize, d);
            last = at;
            self.free_head = d.next;
            i += 1;
        }

        // The chain ends at the last descriptor that was taken.
        let mut d: Descriptor = self.desc[last as usize];
        let ghost last_direction = bufs@[n - 1].1;
        proof {
            lemma_chain_flags(last_direction, true);
        }
        d.flags.remove(DescFlags(NEXT));
        self.desc.set(last as usize, d);
        self.num_used += n as u16;

        let avail_slot: u16 = slot(self.avail_idx, self.queue_size);
        self.avail.ring.set(avail_slot as usize, head);

        // The device must see the descriptors and the ring slot before the index.
        fence_seq_cst();

        self.avail_idx = self.avail_idx.wrapping_add(1);
        self.avail.idx = self.avail_idx;

        // The device must see the index before it is notified.
        fence_seq_cst();

        self.free = Ghost(q0.free.skip(n as int));
        self.chains = Ghost(q0.chains.insert(head, q0.free.take(n as int)));
        proof {
            let segs = spec_segments(bufs@, addrs);
            let r = q0.spec_add(segs);
            lemma_add_descriptors(q0, segs);
            lemma_add_wf(q0, segs);
            assert forall|j: int| 0 <= j < q0.queue_size implies self@.desc[j] == r.desc[j] by {
                if q0.free.take(n as int).contains(j as u16) {
                    let k = q0.free.take(n as int).index_of(j as u16);
                    assert(q0.free[k] == j as u16);
                } else if q0.free.contains(j as u16) {
                    let m = q0.free.index_of(j as u16);
                    if m < n {
                        assert(q0.free.take(n as int)[m] == j as u16);
                    }
                }
            }
            assert(self@.desc =~= r.desc);
            assert(self@.avail.ring =~= r.avail.ring);
            assert(self@.free =~= r.free);
            assert(self@.chains =~= r.chains);
            assert(self@ == r);
        }
        Ok(head)
    }

    /// Gives the descriptors of the chain with head `head` back to the free
    /// list, and unshares the chain's buffers.
    ///
    /// The chain's descriptors come to stand at the front of the free list.
    /// `inputs` and `outputs` are the buffers that the chain was submitted
    /// with: unsharing may copy data back into them.
    fn recycle_descriptors(&mut self, head: u16, inputs: &[Buffer], outputs: &[Buffer])
        requires
            old(self).wf(),
            old(self)@.chains.contains_key(head),
            old(self)@.chains[head].len() == inputs@.len() + outputs@.len(),
            spec_no_null(inputs@),
            spec_no_null(outputs@),
        ensures
            final(self).wf(),
            final(self)@ == old(self)@.spec_recycle(head),
    {
        let ghost q0 = self@;
        let ghost chain = q0.chains[head];
        proof {
            lemma_chain_within_used(q0, head);
            assert(q0.chain_wf(head, chain));
        }
        let original_free_head: u16 = self.free_head;
        self.free_head = head;
        let mut next: Option<u16> = Some(head);
        let bufs: Vec<(Buffer, BufferDirection)> = input_output_iter(inputs, outputs);
        let n: usize = bufs.len();
        let mut i: usize = 0;
        while i < n
            invariant
                q0.wf(),
                q0.chains.contains_key(head),
                chain == q0.chains[head],
                q0.chain_wf(head, chain),
                n == bufs@.len(),
                forall|k: int| 0 <= k < bufs@.len() ==> (#[trigger] bufs@[k]).0.addr != 0,
                n == chain.len(),
                n <= q0.num_used,
                i <= n,
                original_free_head == q0.free_head,
                self.desc@.len() == q0.queue_size,
                self@ == (QueueView {
                    desc: self.desc@,
                    free_head: head,
                    num_used: (q0.num_used - i) as u16,
                    ..q0
                }),
                next == (if i < n {
                    Some(chain[i as int])
                } else {
                    None
                }),
                forall|k: int|
                    0 <= k < i ==> #[trigger] self.desc@[chain[k] as int] == (Descriptor {
                        addr: 0,
                        len: 0,
                        flags: q0.desc[chain[k] as int].flags,
                        next: if k == n - 1 {
                            q0.free_head
                        } else {
                            q0.desc[chain[k] as int].next
                        },
                    }),
                forall|k: int|
                    i <= k < n ==> #[trigger] self.desc@[chain[k] as int] == q0.desc[chain[k] as int],
                forall|j: int|
                    0 <= j < q0.queue_size && !chain.contains(j as u16) ==> #[trigger] self.desc@[j]
                        == q0.desc[j],
            decreases n - i,
        {
            let (buffer, direction) = bufs[i];
            let at: u16 = next.unwrap();
            let mut d: Descriptor = self.desc[at as usize];
            let paddr: u64 = d.addr;
            d.unset_buf();
            self.num_used -= 1;
            next = d.next();
            if next.is_none() {
                d.next = original_free_head;
            }
            proof {
                assert(chain.contains(chain[i as int]));
                if i + 1 < n {
                    assert(q0.desc[chain[i as int] as int].next == chain[i + 1]);
                }
            }
            self.desc.set(at as usize, d);

            // Unsharing may copy the device's data back into the buffer.
            H::unshare(paddr as usize, buffer, direction);
            i += 1;
        }
        self.free = Ghost(chain + q0.free);
        self.chains = Ghost(q0.chains.remove(head));
        proof {
            let r = q0.spec_recycle(head);
            lemma_recycle_wf(q0, head);
            assert forall|j: int| 0 <= j < q0.queue_size implies self@.desc[j] == r.desc[j] by {
                if chain.contains(j as u16) {
                    let k = chain.index_of(j as u16);
                    assert(chain[k] == j as u16);
                    if k != n - 1 && chain[k] == chain.last() {
                        assert(chain[k] == chain[n - 1]);
                    }
                }
            }
            assert(self@.desc =~= r.desc);
            assert(self@.free =~= r.free);
            assert(self@.chains =~= r.chains);
            assert(self@ == r);
        }
    }

    /// Takes the oldest completion off the used ring, if it is that of the
    /// chain `token`, and returns the number of bytes that the device wrote.
    ///
    /// With nothing to take the result is `NotReady`; if the completion
    /// names another chain it is `WrongToken`; either way the queue is as
    /// it was. Otherwise the chain's descriptors go back to the free list,
    /// its buffers are unshared by `H::unshare`, and the completion counts
    /// as taken.
    ///
    /// `inputs` and `outputs` are the buffers that the chain was submitted
    /// with, as many as then.
    pub fn pop_used(&mut self, token: u16, inputs: &[Buffer], outputs: &[Buffer]) -> (r: Result<
        u32,
        Error,
    >)
        requires
            old(self).wf(),
            old(self)@.spec_peek_used() == Some(token) ==> {
                &&& old(self)@.chains.contains_key(token)
                &&& old(self)@.chains[token].len() == inputs@.len() + outputs@.len()
                &&& spec_no_null(inputs@)
                &&& spec_no_null(outputs@)
            },
        ensures
            final(self).wf(),
            !old(self)@.spec_can_pop() ==> r == Err::<u32, Error>(Error::NotReady) && final(self)@
                == old(self)@,
            old(self)@.spec_can_pop() && old(self)@.spec_next_token() != token ==> r == Err::<
                u32,
                Error,
            >(Error::WrongToken) && final(self)@ == old(self)@,
            old(self)@.spec_peek_used() == Some(token) ==> {
                &&& r == Ok::<u32, Error>(old(self)@.spec_next_used().len)
                &&& final(self)@ == old(self)@.spec_pop_used(token)
                &&& final(self)@.spec_available_desc() == old(self)@.spec_available_desc()
                    + inputs@.len() + outputs@.len()
                &&& !final(self)@.chains.contains_key(token)
            },
    {
        if !self.can_pop() {
            return Err(Error::NotReady);
        }
        // No fence is needed here: `can_pop` has issued one.

        let last_used_slot: u16 = slot(self.last_used_idx, self.queue_size);
        let index: u16 = #[verifier::truncate]
        (self.used.ring[last_used_slot as usize].id as u16);
        let len: u32 = self.used.ring[last_used_slot as usize].len;

        if index != token {
            // The device has finished with another chain than the one expected.
            return Err(Error::WrongToken);
        }
        self.recycle_descriptors(index, inputs, outputs);
        self.last_used_idx = self.last_used_idx.wrapping_add(1);

        Ok(len)
    }

    /// Records a completion as the device does: writes the element into the
    /// slot of the used ring that the used index names, and moves the index
    /// on by one.
    ///
    /// This is the device's half of the protocol. Nothing is asked of `id`:
    /// a device may name any chain.
    pub fn device_write_used(&mut self, id: u32, len: u32)
        requires
            old(self).wf(),
        ensures
            final(self).wf(),
            final(self)@ == old(self)@.spec_device_write_used(id, len),
    {
        proof {
            lemma_device_write_used_wf(self@, id, len);
        }
        let next_slot: u16 = slot(self.used.idx, self.queue_size);
        self.used.ring.set(next_slot as usize, UsedElem { id, len });
        self.used.idx = self.used.idx.wrapping_add(1);
    }
}

} // verus!
