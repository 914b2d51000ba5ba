//! The two rings beside the descriptor table: the available ring, which the
//! driver writes, and the used ring, which the device writes.

use vstd::prelude::*;

verus! {

/// One completion: the head of the chain that the device has finished with,
/// and the number of bytes that it wrote into the chain's buffers.
#[derive(Debug, Clone, Copy, PartialEq, Eq, Structural)]
pub struct UsedElem {
    /// The index of the first descriptor of the chain.
    pub id: u32,
    /// The bytes written, over all buffers of the chain.
    pub len: u32,
}

/// The available ring: the chains that the driver offers to the device.
#[derive(Debug)]
pub struct AvailRing {
    /// Unused.
    pub flags: u16,
    /// The number of chains offered so far, modulo 2^16. It never goes back.
    pub idx: u16,
    /// The heads of the offered chains, one slot per descriptor of the queue.
    pub ring: Vec<u16>,
    /// Unused.
    pub used_event: u16,
}

/// The available ring as a mathematical value.
pub struct AvailRingView {
    pub flags: u16,
    pub idx: u16,
    pub ring: Seq<u16>,
    pub used_event: u16,
}

impl View for AvailRing {
    type V = AvailRingView;

    open spec fn view(&self) -> AvailRingView {
        AvailRingView {
            flags: self.flags,
            idx: self.idx,
            ring: self.ring@,
            used_event: self.used_event,
        }
    }
}

impl AvailRing {
    /// A ring of `queue_size` slots in which nothing was offered yet.
    pub open spec fn spec_new(queue_size: u16) -> AvailRingView {
        AvailRingView {
            flags: 0,
            idx: 0,
            ring: Seq::new(queue_size as nat, |i: int| 0u16),
            used_event: 0,
        }
    }

    /// Makes a ring of `queue_size` slots, all fields zero.
    pub fn new(queue_size: u16) -> (r: AvailRing)
        ensures
            r@ == Self::spec_new(queue_size),
    {
        let mut ring: Vec<u16> = Vec::new();
        let mut i: u16 = 0;
        while i < queue_size
            invariant
                i <= queue_size,
                ring@ == Seq::new(i as nat, |j: int| 0u16),
            decreases queue_size - i,
        {
            ring.push(0);
            i += 1;
        }
        AvailRing { flags: 0, idx: 0, ring, used_event: 0 }
    }
}

/// The used ring: the chains that the device has finished with.
#[derive(Debug)]
pub struct UsedRing {
    /// Unused.
    pub flags: u16,
    /// The number of chains completed so far, modulo 2^16.
    pub idx: u16,
    /// The completions, one slot per descriptor of the queue.
    pub ring: Vec<UsedElem>,
    /// Unused.
    pub avail_event: u16,
}

/// The used ring as a mathematical value.
pub struct UsedRingView {
    pub flags: u16,
    pub idx: u16,
    pub ring: Seq<UsedElem>,
    pub avail_event: u16,
}

impl View for UsedRing {
    type V = UsedRingView;

    open spec fn view(&self) -> UsedRingView {
        UsedRingView {
            flags: self.flags,
            idx: self.idx,
            ring: self.ring@,
            avail_event: self.avail_event,
        }
    }
}

impl UsedRing {
    /// A ring of `queue_size` slots in which nothing was completed yet.
    pub open spec fn spec_new(queue_size: u16) -> UsedRingView {
        UsedRingView {
            flags: 0,
            idx: 0,
            ring: Seq::new(queue_size as nat, |i: int| UsedElem { id: 0, len: 0 }),
            avail_event: 0,
        }
    }

    /// Makes a ring of `queue_size` slots, all fields zero.
    pub fn new(queue_size: u16) -> (r: UsedRing)
        ensures
            r@ == Self::spec_new(queue_size),
    {
        let mut ring: Vec<UsedElem> = Vec::new();
        let mut i: u16 = 0;
        while i < queue_size
            invariant
                i <= queue_size,
                ring@ == Seq::new(i as nat, |j: int| UsedElem { id: 0, len: 0 }),
            decreases queue_size - i,
        {
            ring.push(UsedElem { id: 0, len: 0 });
            i += 1;
        }
        UsedRing { flags: 0, idx: 0, ring, avail_event: 0 }
    }
}

} // verus!
