//! What the queue asks of the transport that reaches the device's registers.

use crate::layout::VirtQueueLayout;
use crate::spec_is_power_of_two;
use vstd::prelude::*;
use vstd::wrapping::usize_specs::wrapping_add;

verus! {

/// The registers of a device, as far as a queue needs them.
///
/// Nothing is promised of what an implementation returns: the queue's
/// contracts hold of every outcome.
pub trait Transport {
    /// Whether the queue with this index is already configured.
    fn queue_used(&mut self, queue: u16) -> bool;

    /// The largest queue size that the device accepts.
    fn max_queue_size(&self) -> u32;

    /// Tells the device where the three rings of a queue lie.
    ///
    /// The queue hands over a size that is a power of two, and the
    /// addresses of one region: the available ring and the used ring lie
    /// behind the descriptor table at the offsets of [`VirtQueueLayout`].
    fn queue_set(
        &mut self,
        queue: u16,
        size: u32,
        descriptors: usize,
        driver_area: usize,
        device_area: usize,
    )
        requires
            size <= 0x8000,
            spec_is_power_of_two(size as u16),
            driver_area == wrapping_add(
                descriptors,
                VirtQueueLayout::spec_new(size as u16).avail_offset,
            ),
            device_area == wrapping_add(
                descriptors,
                VirtQueueLayout::spec_new(size as u16).used_offset,
            ),
    ;

    /// Tells the device that the queue holds new buffers.
    fn notify(&mut self, queue: u16);
}

} // verus!
