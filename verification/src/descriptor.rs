//! One entry of the descriptor table, and its flags.

use crate::hal::{Buffer, BufferDirection, Hal};
use vstd::prelude::*;

verus! {

/// The flag bit of a descriptor whose chain goes on at its `next`.
pub const NEXT: u16 = 1;

/// The flag bit of a descriptor whose buffer the device writes.
pub const WRITE: u16 = 2;

/// The flag bit of a descriptor whose buffer holds a table of descriptors.
/// The queue never sets it.
pub const INDIRECT: u16 = 4;

/// The flags of a descriptor, one bit each.
#[derive(Debug, Clone, Copy, PartialEq, Eq, Structural)]
pub struct DescFlags(pub u16);

impl DescFlags {
    /// Whether every bit of `other` is set in `self`.
    pub open spec fn spec_contains(self, other: DescFlags) -> bool {
        self.0 & other.0 == other.0
    }

    /// The bits of either.
    pub open spec fn spec_union(self, other: DescFlags) -> DescFlags {
        DescFlags(self.0 | other.0)
    }

    /// The bits of `self` that are not bits of `other`.
    pub open spec fn spec_remove(self, other: DescFlags) -> DescFlags {
        DescFlags(self.0 & !other.0)
    }

    /// No flag.
    pub fn empty() -> (r: DescFlags)
        ensures
            r.0 == 0,
    {
        DescFlags(0)
    }

    /// The raw bits.
    pub fn bits(&self) -> (r: u16)
        ensures
            r == self.0,
    {
        self.0
    }

    /// Whether every bit of `other` is set in `self`.
    pub fn contains(&self, other: DescFlags) -> (r: bool)
        ensures
            r == self.spec_contains(other),
    {
        self.0 & other.0 == other.0
    }

    /// The flags of `self` together with those of `other`.
    pub fn union(self, other: DescFlags) -> (r: DescFlags)
        ensures
            r == self.spec_union(other),
    {
        DescFlags(self.0 | other.0)
    }

    /// Clears the flags of `other` in `self`.
    pub fn remove(&mut self, other: DescFlags)
        ensures
            *final(self) == old(self).spec_remove(other),
    {
        self.0 = self.0 & !other.0;
    }
}

/// The flags of a descriptor in a chain: `NEXT` if another descriptor
/// follows, `WRITE` if the device writes the buffer.
pub open spec fn spec_chain_flags(direction: BufferDirection, more: bool) -> DescFlags {
    DescFlags(
        if more {
            if direction == BufferDirection::DeviceToDriver {
                3
            } else {
                1
            }
        } else {
            if direction == BufferDirection::DeviceToDriver {
                2
            } else {
                0
            }
        },
    )
}

/// How the flags of a chain come about from the flag constants: by union
/// with `WRITE` for a buffer that the device writes, and by removing `NEXT`
/// on the last descriptor; and what `contains` says of them.
pub proof fn lemma_chain_flags(direction: BufferDirection, more: bool)
    ensures
        DescFlags(NEXT).spec_union(
            if direction == BufferDirection::DeviceToDriver {
                DescFlags(WRITE)
            } else {
                DescFlags(0)
            },
        ) == spec_chain_flags(direction, true),
        spec_chain_flags(direction, true).spec_remove(DescFlags(NEXT)) == spec_chain_flags(
            direction,
            false,
        ),
        spec_chain_flags(direction, more).spec_contains(DescFlags(NEXT)) == more,
        spec_chain_flags(direction, more).spec_contains(DescFlags(WRITE)) == (direction
            == BufferDirection::DeviceToDriver),
{
    assert(1u16 | 2u16 == 3u16) by (bit_vector);
    assert(1u16 | 0u16 == 1u16) by (bit_vector);
    assert(3u16 & !1u16 == 2u16) by (bit_vector);
    assert(1u16 & !1u16 == 0u16) by (bit_vector);
    assert(0u16 & 1u16 == 0u16 && 1u16 & 1u16 == 1u16 && 2u16 & 1u16 == 0u16 && 3u16 & 1u16
        == 1u16) by (bit_vector);
    assert(0u16 & 2u16 == 0u16 && 1u16 & 2u16 == 0u16 && 2u16 & 2u16 == 2u16 && 3u16 & 2u16
        == 2u16) by (bit_vector);
}

/// One entry of the descriptor table: a buffer and the link to the next entry.
#[derive(Debug, Clone, Copy, PartialEq, Eq, Structural)]
pub struct Descriptor {
    /// The address that the device uses for the buffer.
    pub addr: u64,
    /// The length of the buffer in bytes.
    pub len: u32,
    /// The flags.
    pub flags: DescFlags,
    /// The index of the next descriptor: of the chain where `NEXT` is set,
    /// of the free list where the descriptor is free.
    pub next: u16,
}

impl Descriptor {
    /// The next descriptor of the chain, if the chain goes on.
    pub open spec fn spec_next(self) -> Option<u16> {
        if self.flags.spec_contains(DescFlags(NEXT)) {
            Some(self.next)
        } else {
            None
        }
    }

    /// The descriptor of a shared buffer: the address that came from
    /// sharing, the buffer's length cut to 32 bits, `extra_flags` and, for a
    /// buffer that the device writes, `WRITE`. The link is kept.
    pub open spec fn spec_set_shared_buf(
        self,
        paddr: usize,
        len: usize,
        direction: BufferDirection,
        extra_flags: DescFlags,
    ) -> Descriptor {
        Descriptor {
            addr: paddr as u64,
            len: len as u32,
            flags: extra_flags.spec_union(
                if direction == BufferDirection::DeviceToDriver {
                    DescFlags(WRITE)
                } else {
                    DescFlags(0)
                },
            ),
            next: self.next,
        }
    }

    /// A descriptor with no buffer, no flag and link 0.
    pub fn zeroed() -> (d: Descriptor)
        ensures
            d == (Descriptor { addr: 0, len: 0, flags: DescFlags(0), next: 0 }),
    {
        Descriptor { addr: 0, len: 0, flags: DescFlags::empty(), next: 0 }
    }

    /// Shares the buffer with the device and records it in the descriptor.
    ///
    /// The address is whatever `H::share` returned for the buffer; the rest
    /// is as in [`Descriptor::set_shared_buf`].
    pub fn set_buf<H: Hal>(
        &mut self,
        buf: Buffer,
        direction: BufferDirection,
        extra_flags: DescFlags,
    )
        requires
            buf.addr != 0,
        ensures
            exists|paddr: usize|
                *final(self) == old(self).spec_set_shared_buf(
                    paddr,
                    buf.len,
                    direction,
                    extra_flags,
                ),
    {
        let paddr: usize = H::share(buf, direction);
        self.set_shared_buf(paddr, buf.len, direction, extra_flags);
    }

    /// Records a buffer that was shared at `paddr`.
    pub fn set_shared_buf(
        &mut self,
        paddr: usize,
        len: usize,
        direction: BufferDirection,
        extra_flags: DescFlags,
    )
        ensures
            *final(self) == old(self).spec_set_shared_buf(paddr, len, direction, extra_flags),
    {
        self.addr = paddr as u64;
        self.len = #[verifier::truncate]
        (len as u32);
        self.flags = extra_flags.union(
            match direction {
                BufferDirection::DeviceToDriver => DescFlags(WRITE),
                BufferDirection::DriverToDevice => DescFlags::empty(),
            },
        );
    }

    /// Sets the address and the length to 0.
    ///
    /// This is for a descriptor that the device has finished with.
    pub fn unset_buf(&mut self)
        ensures
            *final(self) == (Descriptor { addr: 0, len: 0, ..*old(self) }),
    {
        self.addr = 0;
        self.len = 0;
    }

    /// The index of the next descriptor of the chain if `NEXT` is set, and
    /// `None` at the end of the chain.
    pub fn next(&self) -> (r: Option<u16>)
        ensures
            r == self.spec_next(),
    {
        if self.flags.contains(DescFlags(NEXT)) {
            Some(self.next)
        } else {
            None
        }
    }
}

} // verus!
