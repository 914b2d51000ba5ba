//! The split virtqueue engine of a guest-side VirtIO driver.
//!
//! A virtqueue carries buffers between a driver and a device through three
//! rings: the descriptor table and the available ring, which the driver
//! writes, and the used ring, which the device writes. This crate holds the
//! driver's side of that protocol: the layout of the rings, the free list of
//! descriptors, and the submit / peek / pop life cycle of a chain of buffers.
//!
//! The rings are held as owned values, so that every step of the protocol
//! is an ordinary function with a contract. The device is whoever calls
//! [`queue::VirtQueue::device_write_used`], or the in-order
//! [`fake::fake_write_to_queue`].

use vstd::prelude::*;

pub mod descriptor;
pub mod fake;
mod fence;
pub mod hal;
pub mod laws;
pub mod layout;
pub mod model;
pub mod queue;
pub mod ring;
pub mod transport;

verus! {

/// The page size, in bytes, that the ring layout is aligned to.
pub const PAGE_SIZE: usize = 0x1000;

/// What a queue operation can fail with.
#[derive(Debug, Clone, Copy, PartialEq, Eq, Structural)]
pub enum Error {
    /// The queue index is already configured on the transport.
    AlreadyUsed,
    /// The queue size is invalid, or no buffer was given.
    InvalidParam,
    /// There are not enough free descriptors for the chain.
    QueueFull,
    /// The used ring holds no new completion.
    NotReady,
    /// The next completion is that of another chain.
    WrongToken,
}

/// The smallest multiple of the page size that is not below `size`.
pub open spec fn spec_align_up(size: int) -> int {
    if size % 0x1000 == 0 {
        size
    } else {
        size + 0x1000 - size % 0x1000
    }
}

/// Rounds `size` up to a whole number of pages.
pub fn align_up(size: usize) -> (r: usize)
    requires
        spec_align_up(size as int) <= usize::MAX,
    ensures
        r == spec_align_up(size as int),
{
    let rem: usize = size % PAGE_SIZE;
    if rem == 0 {
        size
    } else {
        size - rem + PAGE_SIZE
    }
}

/// Whether `n` is one of the sixteen powers of two that a `u16` can hold.
pub open spec fn spec_is_power_of_two(n: u16) -> bool {
    n == 0x1 || n == 0x2 || n == 0x4 || n == 0x8 || n == 0x10 || n == 0x20 || n == 0x40 || n == 0x80
        || n == 0x100 || n == 0x200 || n == 0x400 || n == 0x800 || n == 0x1000 || n == 0x2000
        || n == 0x4000 || n == 0x8000
}

/// Tells whether `n` is a power of two, by clearing its lowest set bit.
pub fn is_power_of_two(n: u16) -> (r: bool)
    ensures
        r == spec_is_power_of_two(n),
{
    assert((n != 0 && n & ((n - 1) as u16) == 0) <==> (n == 0x1 || n == 0x2 || n == 0x4 || n == 0x8 || n
        == 0x10 || n == 0x20 || n == 0x40 || n == 0x80 || n == 0x100 || n == 0x200 || n == 0x400
        || n == 0x800 || n == 0x1000 || n == 0x2000 || n == 0x4000 || n == 0x8000))
        by (bit_vector);
    n != 0 && n & (n - 1) == 0
}

/// The ring slot that a 16-bit running index falls into, in a ring of `size` slots.
pub open spec fn spec_slot(idx: u16, size: u16) -> u16 {
    idx & ((size - 1) as u16)
}

/// Every slot lies inside the ring.
pub proof fn lemma_slot_in_ring(idx: u16, size: u16)
    requires
        size > 0,
    ensures
        spec_slot(idx, size) < size,
{
    assert(size > 0 ==> idx & ((size - 1) as u16) < size) by (bit_vector);
}

/// Computes the ring slot of a running index by masking with `size - 1`.
pub fn slot(idx: u16, size: u16) -> (r: u16)
    requires
        size > 0,
    ensures
        r == spec_slot(idx, size),
        r < size,
{
    proof {
        lemma_slot_in_ring(idx, size);
    }
    idx & (size - 1)
}

} // verus!
