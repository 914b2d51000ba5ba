//! Where the three rings lie inside the one region that is shared with the device.

use crate::{align_up, spec_align_up, spec_is_power_of_two};
use vstd::prelude::*;

verus! {

/// The size in bytes of one descriptor: address, length, flags and next index.
pub const DESCRIPTOR_SIZE: usize = 16;

/// The size in bytes of one entry of the used ring: chain head and written length.
pub const USED_ELEM_SIZE: usize = 8;

/// The bytes taken by the descriptor table of a queue of `queue_size` entries.
pub open spec fn spec_desc_size(queue_size: int) -> int {
    16 * queue_size
}

/// The bytes taken by the available ring: flags, index, one 16-bit entry per
/// descriptor, and the used-event word.
pub open spec fn spec_avail_size(queue_size: int) -> int {
    2 * (3 + queue_size)
}

/// The bytes taken by the used ring: flags, index, the avail-event word, and
/// one eight-byte entry per descriptor.
pub open spec fn spec_used_size(queue_size: int) -> int {
    6 + 8 * queue_size
}

/// The offsets of the rings of a queue, and the size of the whole region.
#[derive(Debug, Clone, Copy, PartialEq, Eq, Structural)]
pub struct VirtQueueLayout {
    /// Where the available ring starts. The descriptor table starts at 0.
    pub avail_offset: usize,
    /// Where the used ring starts; a multiple of the page size.
    pub used_offset: usize,
    /// The size of the region; a multiple of the page size.
    pub size: usize,
}

impl VirtQueueLayout {
    /// The layout of a queue of `queue_size` descriptors, as a mathematical value.
    pub open spec fn spec_new(queue_size: u16) -> VirtQueueLayout {
        let desc = spec_desc_size(queue_size as int);
        let avail = spec_avail_size(queue_size as int);
        let used = spec_used_size(queue_size as int);
        VirtQueueLayout {
            avail_offset: desc as usize,
            used_offset: spec_align_up(desc + avail) as usize,
            size: (spec_align_up(desc + avail) + spec_align_up(used)) as usize,
        }
    }

    /// Computes the layout of a queue of `queue_size` descriptors.
    ///
    /// The descriptor table comes first, the available ring follows it
    /// directly, and the used ring starts on the next page boundary.
    pub fn new(queue_size: u16) -> (layout: VirtQueueLayout)
        requires
            spec_is_power_of_two(queue_size),
        ensures
            layout == Self::spec_new(queue_size),
            layout.avail_offset == 16 * queue_size,
            layout.used_offset == spec_align_up(16 * queue_size + 2 * (3 + queue_size)),
            layout.size == layout.used_offset + spec_align_up(6 + 8 * queue_size),
            layout.used_offset % 0x1000 == 0,
            layout.size % 0x1000 == 0,
            0 < layout.size <= 0xD2000,
    {
        let queue_size: usize = queue_size as usize;
        let desc: usize = DESCRIPTOR_SIZE * queue_size;
        let avail: usize = 2 * (3 + queue_size);
        let used: usize = 2 * 3 + USED_ELEM_SIZE * queue_size;
        let used_offset: usize = align_up(desc + avail);
        VirtQueueLayout { avail_offset: desc, used_offset, size: used_offset + align_up(used) }
    }
}

} // verus!
