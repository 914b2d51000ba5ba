//! A device for tests: it takes the chains in the order in which they were
//! submitted and fills them with given bytes.
//!
//! The device's memory is a vector of bytes, and an address is an index
//! into it.

use crate::descriptor::{DescFlags, Descriptor, WRITE};
use crate::hal::Hal;
use crate::model::QueueView;
use crate::queue::VirtQueue;
use crate::slot;
use vstd::prelude::*;

verus! {

/// The number of bytes that go into a buffer of `capacity` bytes when
/// `remaining` bytes are left to write.
pub open spec fn spec_length_to_write(remaining: nat, capacity: u32) -> nat {
    if remaining <= capacity {
        remaining
    } else {
        capacity as nat
    }
}

/// The memory after `bytes` were written at `addr`.
pub open spec fn spec_write(mem: Seq<u8>, addr: int, bytes: Seq<u8>) -> Seq<u8> {
    Seq::new(
        mem.len(),
        |x: int|
            if addr <= x < addr + bytes.len() {
                bytes[x - addr]
            } else {
                mem[x]
            },
    )
}

/// The memory after `data` was written across the buffers of `chain`: each
/// buffer in turn takes as many of the remaining bytes as it holds.
pub open spec fn spec_scatter(
    mem: Seq<u8>,
    desc: Seq<Descriptor>,
    chain: Seq<u16>,
    data: Seq<u8>,
) -> Seq<u8>
    decreases chain.len(),
{
    if chain.len() == 0 {
        mem
    } else {
        let d = desc[chain[0] as int];
        let l = spec_length_to_write(data.len(), d.len) as int;
        spec_scatter(spec_write(mem, d.addr as int, data.take(l)), desc, chain.skip(1), data.skip(l))
    }
}

/// Whether `data` can be written across the buffers of `chain`: the device
/// may write every buffer, what it writes lies in a memory of `mem_len`
/// bytes, and no byte is left over at the end of the chain.
pub open spec fn spec_scatter_fits(
    mem_len: nat,
    desc: Seq<Descriptor>,
    chain: Seq<u16>,
    data: Seq<u8>,
) -> bool
    decreases chain.len(),
{
    if chain.len() == 0 {
        data.len() == 0
    } else {
        let d = desc[chain[0] as int];
        let l = spec_length_to_write(data.len(), d.len) as int;
        &&& d.flags.spec_contains(DescFlags(WRITE))
        &&& l > 0 ==> d.addr + l <= mem_len
        &&& spec_scatter_fits(mem_len, desc, chain.skip(1), data.skip(l))
    }
}

/// Whether the fake device can complete the next chain with `data`: a chain
/// was submitted that it has not completed, the chain is in flight, and the
/// data can be written across it.
pub open spec fn spec_fake_device_accepts(q: QueueView, mem_len: nat, data: Seq<u8>) -> bool {
    &&& q.avail.idx != q.used.idx
    &&& q.chains.contains_key(q.spec_device_next_head())
    &&& spec_scatter_fits(mem_len, q.desc, q.chains[q.spec_device_next_head()], data)
}

/// Copies `bytes[from .. from + len]` into `memory` at `addr`.
fn write_memory(memory: &mut Vec<u8>, addr: usize, bytes: &[u8], from: usize, len: usize)
    requires
        from + len <= bytes.len(),
        len > 0 ==> addr + len <= old(memory).len(),
    ensures
        final(memory)@ == spec_write(old(memory)@, addr as int, bytes@.skip(from as int).take(len as int)),
{
    let ghost mem0 = memory@;
    let mut j: usize = 0;
    while j < len
        invariant
            j <= len,
            from + len <= bytes.len(),
            len > 0 ==> addr + len <= mem0.len(),
            memory.len() == mem0.len(),
            forall|x: int|
                0 <= x < mem0.len() ==> memory@[x] == if addr <= x < addr + j {
                    bytes@[from + x - addr]
                } else {
                    mem0[x]
                },
        decreases len - j,
    {
        memory.set(addr + j, bytes[from + j]);
        j += 1;
    }
    assert(memory@ =~= spec_write(mem0, addr as int, bytes@.skip(from as int).take(len as int)));
}

/// Acts as the device on the next chain of the queue: writes `data` into
/// the chain's buffers and reports the chain as used.
///
/// The device takes the chains in the order of the available ring, so the
/// used index names the slot of the next one. It walks the chain from its
/// head, gives each buffer as many of the remaining bytes as it holds, and
/// records the head and the length of `data` in the used ring.
///
/// `memory` is the memory that the descriptors' addresses refer to. The
/// buffers of the chain must all be writable by the device and must hold
/// `data`: see [`spec_fake_device_accepts`].
pub fn fake_write_to_queue<H: Hal>(queue: &mut VirtQueue<H>, memory: &mut Vec<u8>, data: &[u8])
    requires
        old(queue).wf(),
        spec_fake_device_accepts(old(queue)@, old(memory)@.len(), data@),
    ensures
        final(queue).wf(),
        final(queue)@ == old(queue)@.spec_device_write_used(
            old(queue)@.spec_device_next_head() as u32,
            data@.len() as u32,
        ),
        final(memory)@ == spec_scatter(
            old(memory)@,
            old(queue)@.desc,
            old(queue)@.chains[old(queue)@.spec_device_next_head()],
            data@,
        ),
{
    let ghost q0 = queue@;
    let ghost mem0 = memory@;
    let queue_size: u16 = queue.size();
    // The device uses the chains in order, so the used index names the next one.
    let next_slot: u16 = slot(queue.used_ring().idx, queue_size);
    let head_descriptor_index: u16 = queue.avail_ring().ring[next_slot as usize];
    let ghost chain = q0.chains[head_descriptor_index];
    proof {
        assert(q0.chain_wf(head_descriptor_index, chain));
        assert(chain.skip(0) =~= chain);
        assert(data@.skip(0) =~= data@);
    }

    let mut at: u16 = head_descriptor_index;
    let mut written: usize = 0;
    let mut more: bool = true;
    let ghost mut k: int = 0;
    while more
        invariant
            queue@ == q0,
            q0.wf(),
            q0.chain_wf(head_descriptor_index, chain),
            memory@.len() == mem0.len(),
            written <= data@.len(),
            0 <= k <= chain.len(),
            more ==> k < chain.len() && at == chain[k],
            !more ==> k == chain.len(),
            spec_scatter_fits(mem0.len(), q0.desc, chain.skip(k), data@.skip(written as int)),
            spec_scatter(memory@, q0.desc, chain.skip(k), data@.skip(written as int))
                == spec_scatter(mem0, q0.desc, chain, data@),
        decreases chain.len() - k + if more { 1int } else { 0int },
    {
        let descriptor: Descriptor = queue.descriptors()[at as usize];
        let buffer_length: usize = descriptor.len as usize;
        let remaining: usize = data.len() - written;
        let length_to_write: usize = if remaining < buffer_length {
            remaining
        } else {
            buffer_length
        };
        proof {
            assert(chain.skip(k)[0] == chain[k]);
            assert(chain.skip(k).skip(1) =~= chain.skip(k + 1));
            assert(data@.skip(written as int).skip(length_to_write as int) =~= data@.skip(
                written + length_to_write,
            ));
            assert(descriptor.addr <= usize::MAX);
        }
        write_memory(memory, descriptor.addr as usize, data, written, length_to_write);
        written = written + length_to_write;
        match descriptor.next() {
            Some(next) => {
                proof {
                    assert(q0.desc[chain[k] as int].next == chain[k + 1]);
                    k = k + 1;
                }
                at = next;
            },
            None => {
                proof {
                    k = k + 1;
                }
                more = false;
            },
        }
    }
    // Mark the chain as used.
    queue.device_write_used(
        head_descriptor_index as u32,
        #[verifier::truncate]
        (data.len() as u32),
    );
}

} // verus!
