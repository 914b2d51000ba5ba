//! What the queue asks of the platform: memory for the rings, and addresses
//! that the device can use for the driver's buffers.

use vstd::prelude::*;

verus! {

/// Which side writes a buffer.
#[derive(Debug, Clone, Copy, PartialEq, Eq, Structural)]
pub enum BufferDirection {
    /// The driver wrote the buffer and the device only reads it.
    DriverToDevice,
    /// The device writes the buffer and the driver reads it afterwards.
    DeviceToDriver,
}

/// A span of the driver's memory: where it starts and how many bytes it holds.
#[derive(Debug, Clone, Copy, PartialEq, Eq, Structural)]
pub struct Buffer {
    /// The address of the first byte. Zero is no address.
    pub addr: usize,
    /// The number of bytes.
    pub len: usize,
}

/// The platform's memory services.
///
/// Nothing is promised of what an implementation returns: the queue's
/// contracts hold of every outcome.
pub trait Hal {
    /// Allocates `pages` contiguous pages for the rings and returns the
    /// virtual and the physical address of the first.
    fn dma_alloc(pages: usize) -> (usize, usize)
        requires
            pages > 0,
    ;

    /// Gives back pages that `dma_alloc` returned.
    fn dma_dealloc(paddr: usize, vaddr: usize, pages: usize);

    /// Makes a buffer addressable by the device and returns the address that
    /// the device must use for it. The address stays valid until `unshare`.
    ///
    /// The queue shares no buffer with the address zero.
    fn share(buffer: Buffer, direction: BufferDirection) -> usize
        requires
            buffer.addr != 0,
    ;

    /// Ends what `share` began, with the same buffer and direction and the
    /// address that `share` returned.
    fn unshare(paddr: usize, buffer: Buffer, direction: BufferDirection)
        requires
            buffer.addr != 0,
    ;
}

} // verus!
