use virtqueue::descriptor::{DescFlags, Descriptor, INDIRECT, NEXT, WRITE};
use virtqueue::fake::fake_write_to_queue;
use virtqueue::hal::{Buffer, BufferDirection, Hal};
use virtqueue::layout::VirtQueueLayout;
use virtqueue::queue::{input_output_iter, VirtQueue};
use virtqueue::ring::{AvailRing, UsedElem, UsedRing};
use virtqueue::transport::Transport;
use virtqueue::{align_up, is_power_of_two, slot, Error, PAGE_SIZE};

/// A transport that remembers what it was told.
struct FakeTransport {
    max_queue_size: u32,
    queues: Vec<(u16, u32, usize, usize, usize)>,
    notified: Vec<u16>,
}

impl FakeTransport {
    fn new(max_queue_size: u32) -> Self {
        FakeTransport { max_queue_size, queues: Vec::new(), notified: Vec::new() }
    }
}

impl Transport for FakeTransport {
    fn queue_used(&mut self, queue: u16) -> bool {
        self.queues.iter().any(|q| q.0 == queue)
    }

    fn max_queue_size(&self) -> u32 {
        self.max_queue_size
    }

    fn queue_set(
        &mut self,
        queue: u16,
        size: u32,
        descriptors: usize,
        driver_area: usize,
        device_area: usize,
    ) {
        self.queues.push((queue, size, descriptors, driver_area, device_area));
    }

    fn notify(&mut self, queue: u16) {
        self.notified.push(queue);
    }
}

/// A platform on which the device uses the driver's own addresses.
struct FakeHal;

const FAKE_REGION: usize = 0x4000_0000;

impl Hal for FakeHal {
    fn dma_alloc(_pages: usize) -> (usize, usize) {
        (FAKE_REGION, FAKE_REGION)
    }

    fn dma_dealloc(_paddr: usize, _vaddr: usize, _pages: usize) {}

    fn share(buffer: Buffer, _direction: BufferDirection) -> usize {
        buffer.addr
    }

    fn unshare(_paddr: usize, _buffer: Buffer, _direction: BufferDirection) {}
}

/// A platform on which every buffer is shared at its address plus a
/// megabyte.
struct OffsetHal;

impl Hal for OffsetHal {
    fn dma_alloc(_pages: usize) -> (usize, usize) {
        (0x7000, 0x9000)
    }

    fn dma_dealloc(_paddr: usize, _vaddr: usize, _pages: usize) {}

    fn share(buffer: Buffer, _direction: BufferDirection) -> usize {
        buffer.addr + 0x10_0000
    }

    fn unshare(_paddr: usize, _buffer: Buffer, _direction: BufferDirection) {}
}

fn new_queue(size: u16) -> VirtQueue<FakeHal> {
    let mut transport = FakeTransport::new(size as u32);
    VirtQueue::<FakeHal>::new(&mut transport, 0, size).unwrap_or_else(|e| panic!("{:?}", e))
}

/// Puts `bytes` into the memory at `addr` and returns the buffer.
fn place(memory: &mut Vec<u8>, addr: usize, bytes: &[u8]) -> Buffer {
    memory[addr..addr + bytes.len()].copy_from_slice(bytes);
    Buffer { addr, len: bytes.len() }
}

/// The descriptors that are met from the head of the free list on.
fn walk_free_list(queue: &VirtQueue<FakeHal>) -> Vec<u16> {
    let mut walked = Vec::new();
    let mut at = queue.free_head();
    for _ in 0..queue.available_desc() {
        walked.push(at);
        at = queue.descriptors()[at as usize].next;
    }
    walked
}

fn assert_free_list_sound(queue: &VirtQueue<FakeHal>) {
    let walked = walk_free_list(queue);
    assert_eq!(walked.len(), queue.available_desc());
    let mut sorted = walked.clone();
    sorted.sort();
    sorted.dedup();
    assert_eq!(sorted.len(), walked.len());
    assert!(walked.iter().all(|i| *i < queue.size()));
    assert!(queue.available_desc() <= queue.size() as usize);
}

#[test]
fn invalid_queue_size() {
    let mut transport = FakeTransport::new(4);
    // Size not a power of 2.
    assert_eq!(
        VirtQueue::<FakeHal>::new(&mut transport, 0, 3).err().unwrap(),
        Error::InvalidParam
    );
}

#[test]
fn queue_too_big() {
    let mut transport = FakeTransport::new(4);
    assert_eq!(
        VirtQueue::<FakeHal>::new(&mut transport, 0, 5).err().unwrap(),
        Error::InvalidParam
    );
}

#[test]
fn queue_already_used() {
    let mut transport = FakeTransport::new(4);
    assert!(VirtQueue::<FakeHal>::new(&mut transport, 0, 4).is_ok());
    assert_eq!(
        VirtQueue::<FakeHal>::new(&mut transport, 0, 4).err().unwrap(),
        Error::AlreadyUsed
    );
}

#[test]
fn add_empty() {
    let mut queue = new_queue(4);
    assert_eq!(queue.add(&[], &[]).unwrap_err(), Error::InvalidParam);
}

#[test]
fn add_too_many() {
    let mut queue = new_queue(4);
    assert_eq!(queue.available_desc(), 4);
    let empty = Buffer { addr: 16, len: 0 };
    assert_eq!(queue.add(&[empty, empty, empty], &[empty, empty]).unwrap_err(), Error::QueueFull);
}

#[test]
fn add_buffers() {
    let mut queue = new_queue(4);
    assert_eq!(queue.size(), 4);
    assert_eq!(queue.available_desc(), 4);

    // Add a buffer chain consisting of two device-readable parts followed by two
    // device-writable parts.
    let mut memory = vec![0u8; 64];
    let inputs = [place(&mut memory, 16, &[1, 2]), place(&mut memory, 18, &[3])];
    let outputs = [place(&mut memory, 32, &[0, 0]), place(&mut memory, 34, &[0])];
    let token = queue.add(&inputs, &outputs).unwrap();

    assert_eq!(queue.available_desc(), 0);
    assert!(!queue.can_pop());

    let first_descriptor_index = queue.avail_ring().ring[0];
    assert_eq!(first_descriptor_index, token);
    assert_eq!(queue.descriptors()[first_descriptor_index as usize].len, 2);
    assert_eq!(queue.descriptors()[first_descriptor_index as usize].flags, DescFlags(NEXT));
    let second_descriptor_index = queue.descriptors()[first_descriptor_index as usize].next;
    assert_eq!(queue.descriptors()[second_descriptor_index as usize].len, 1);
    assert_eq!(queue.descriptors()[second_descriptor_index as usize].flags, DescFlags(NEXT));
    let third_descriptor_index = queue.descriptors()[second_descriptor_index as usize].next;
    assert_eq!(queue.descriptors()[third_descriptor_index as usize].len, 2);
    assert_eq!(
        queue.descriptors()[third_descriptor_index as usize].flags,
        DescFlags(NEXT | WRITE)
    );
    let fourth_descriptor_index = queue.descriptors()[third_descriptor_index as usize].next;
    assert_eq!(queue.descriptors()[fourth_descriptor_index as usize].len, 1);
    assert_eq!(queue.descriptors()[fourth_descriptor_index as usize].flags, DescFlags(WRITE));
}

#[test]
fn construction_validation() {
    let mut transport = FakeTransport::new(4);
    assert_eq!(
        VirtQueue::<FakeHal>::new(&mut transport, 0, 3).err().unwrap(),
        Error::InvalidParam
    );
    assert_eq!(
        VirtQueue::<FakeHal>::new(&mut transport, 0, 5).err().unwrap(),
        Error::InvalidParam
    );
    assert_eq!(
        VirtQueue::<FakeHal>::new(&mut transport, 0, 0).err().unwrap(),
        Error::InvalidParam
    );
    assert_eq!(
        VirtQueue::<FakeHal>::new(&mut transport, 0, 8).err().unwrap(),
        Error::InvalidParam
    );
    assert!(transport.queues.is_empty());
    let queue = VirtQueue::<FakeHal>::new(&mut transport, 0, 4).ok().unwrap();
    assert_eq!(queue.size(), 4);
    assert_eq!(queue.queue_idx(), 0);
    assert_eq!(
        VirtQueue::<FakeHal>::new(&mut transport, 0, 4).err().unwrap(),
        Error::AlreadyUsed
    );
    // A queue index that is in use is reported before a bad size.
    assert_eq!(
        VirtQueue::<FakeHal>::new(&mut transport, 0, 3).err().unwrap(),
        Error::AlreadyUsed
    );
    // Another index is still free.
    assert!(VirtQueue::<FakeHal>::new(&mut transport, 1, 2).is_ok());
}

#[test]
fn check_new_decides() {
    assert_eq!(VirtQueue::<FakeHal>::check_new(true, 4, 4), Err(Error::AlreadyUsed));
    assert_eq!(VirtQueue::<FakeHal>::check_new(true, 4, 3), Err(Error::AlreadyUsed));
    assert_eq!(VirtQueue::<FakeHal>::check_new(false, 4, 3), Err(Error::InvalidParam));
    assert_eq!(VirtQueue::<FakeHal>::check_new(false, 4, 0), Err(Error::InvalidParam));
    assert_eq!(VirtQueue::<FakeHal>::check_new(false, 4, 8), Err(Error::InvalidParam));
    assert_eq!(VirtQueue::<FakeHal>::check_new(false, 4, 4), Ok(()));
    assert_eq!(VirtQueue::<FakeHal>::check_new(false, 4, 1), Ok(()));
    assert_eq!(VirtQueue::<FakeHal>::check_new(false, 0x1_0000, 0x8000), Ok(()));
}

#[test]
fn new_tells_the_transport_where_the_rings_lie() {
    let mut transport = FakeTransport::new(256);
    let queue = VirtQueue::<OffsetHal>::new(&mut transport, 3, 256).ok().unwrap();
    // 256 descriptors take a page, the available ring starts behind them,
    // and the used ring on the next page boundary.
    assert_eq!(transport.queues, vec![(3, 256, 0x9000, 0x9000 + 4096, 0x9000 + 8192)]);
    assert_eq!(queue.dma_paddr(), 0x9000);
    assert_eq!(queue.dma_vaddr(), 0x7000);
    assert_eq!(queue.dma_pages(), 3);
    assert_eq!(queue.queue_idx(), 3);
    assert!(transport.notified.is_empty());
}

#[test]
fn new_queue_is_a_free_list() {
    let queue = new_queue(8);
    assert_eq!(queue.size(), 8);
    assert_eq!(queue.available_desc(), 8);
    assert_eq!(queue.free_head(), 0);
    assert_eq!(walk_free_list(&queue), vec![0, 1, 2, 3, 4, 5, 6, 7]);
    for i in 0..7 {
        assert_eq!(
            queue.descriptors()[i],
            Descriptor { addr: 0, len: 0, flags: DescFlags(0), next: i as u16 + 1 }
        );
    }
    assert_eq!(queue.avail_ring().idx, 0);
    assert_eq!(queue.avail_ring().ring, vec![0u16; 8]);
    assert_eq!(queue.used_ring().idx, 0);
    assert_eq!(queue.used_ring().ring, vec![UsedElem { id: 0, len: 0 }; 8]);
    assert!(!queue.can_pop());
    assert_eq!(queue.peek_used(), None);
}

#[test]
fn overfull_add_leaves_queue_unchanged() {
    let mut queue = new_queue(4);
    let b = Buffer { addr: 16, len: 1 };
    assert_eq!(queue.add(&[b, b, b], &[b, b]), Err(Error::QueueFull));
    assert_eq!(queue.available_desc(), 4);
    assert_eq!(queue.avail_ring().idx, 0);
    assert_eq!(queue.free_head(), 0);
    // One descriptor too many is too many, the exact number is not.
    assert_eq!(queue.add(&[b], &[]), Ok(0));
    assert_eq!(queue.add(&[b, b], &[b, b]), Err(Error::QueueFull));
    assert_eq!(queue.available_desc(), 3);
    assert_eq!(queue.add(&[b, b], &[b]), Ok(1));
    assert_eq!(queue.available_desc(), 0);
    assert_eq!(queue.add(&[b], &[]), Err(Error::QueueFull));
    assert_eq!(queue.add(&[], &[]), Err(Error::InvalidParam));
}

#[test]
fn chain_layout() {
    let mut queue = new_queue(4);
    let mut memory = vec![0u8; 64];
    let inputs = [place(&mut memory, 16, &[1, 2]), place(&mut memory, 18, &[3])];
    let outputs = [place(&mut memory, 32, &[0, 0]), place(&mut memory, 34, &[0])];
    assert_eq!(queue.add(&inputs, &outputs), Ok(0));
    assert_eq!(queue.avail_ring().ring[0], 0);
    assert_eq!(queue.avail_ring().idx, 1);
    let d = queue.descriptors();
    assert_eq!(d[0], Descriptor { addr: 16, len: 2, flags: DescFlags(NEXT), next: 1 });
    assert_eq!(d[1], Descriptor { addr: 18, len: 1, flags: DescFlags(NEXT), next: 2 });
    assert_eq!(d[2], Descriptor { addr: 32, len: 2, flags: DescFlags(NEXT | WRITE), next: 3 });
    assert_eq!(d[3].addr, 34);
    assert_eq!(d[3].len, 1);
    assert_eq!(d[3].flags, DescFlags(WRITE));
    assert_eq!(queue.available_desc(), 0);
    assert!(!queue.can_pop());
    assert_eq!(queue.peek_used(), None);
}

#[test]
fn descriptors_hold_the_shared_address() {
    let mut transport = FakeTransport::new(4);
    let mut queue = VirtQueue::<OffsetHal>::new(&mut transport, 0, 4).ok().unwrap();
    let input = Buffer { addr: 0x40, len: 5 };
    let output = Buffer { addr: 0x80, len: 7 };
    assert_eq!(queue.add(&[input], &[output]), Ok(0));
    assert_eq!(queue.descriptors()[0].addr, 0x10_0040);
    assert_eq!(queue.descriptors()[1].addr, 0x10_0080);
    assert_eq!(queue.descriptors()[0].len, 5);
    assert_eq!(queue.descriptors()[1].len, 7);
}

#[test]
fn round_trip_with_fake_device() {
    let mut queue = new_queue(4);
    let mut memory = vec![0u8; 64];
    let outputs = [place(&mut memory, 32, &[0, 0]), place(&mut memory, 34, &[0])];
    let token = queue.add(&[], &outputs).unwrap();
    assert_eq!(token, 0);
    assert_eq!(queue.available_desc(), 2);
    assert!(!queue.can_pop());

    fake_write_to_queue(&mut queue, &mut memory, &[0xAA, 0xBB, 0xCC]);

    assert!(queue.can_pop());
    assert_eq!(queue.peek_used(), Some(0));
    assert_eq!(queue.used_ring().idx, 1);
    assert_eq!(queue.used_ring().ring[0], UsedElem { id: 0, len: 3 });
    assert_eq!(queue.pop_used(0, &[], &outputs), Ok(3));
    assert_eq!(memory[32..34], [0xAA, 0xBB]);
    assert_eq!(memory[34..35], [0xCC]);
    assert_eq!(queue.available_desc(), 4);
    assert!(!queue.can_pop());
    assert_eq!(queue.peek_used(), None);
    // The descriptors of the chain have lost their buffers.
    assert_eq!(queue.descriptors()[0].addr, 0);
    assert_eq!(queue.descriptors()[0].len, 0);
    assert_eq!(queue.descriptors()[1].addr, 0);
    assert_eq!(queue.descriptors()[1].len, 0);
    assert_free_list_sound(&queue);
}

#[test]
fn round_trip_of_inputs_and_outputs() {
    let mut queue = new_queue(4);
    let mut memory = vec![0u8; 64];
    let inputs = [place(&mut memory, 16, &[1, 2]), place(&mut memory, 18, &[3])];
    let outputs = [place(&mut memory, 32, &[0, 0]), place(&mut memory, 34, &[0])];
    assert_eq!(queue.add(&inputs, &outputs), Ok(0));
    assert_eq!(queue.pop_used(0, &inputs, &outputs), Err(Error::NotReady));

    // A device that reads the inputs and writes three bytes across the outputs.
    let d = queue.descriptors();
    let (first, second) = (d[2].addr as usize, d[3].addr as usize);
    memory[first..first + 2].copy_from_slice(&[0xAA, 0xBB]);
    memory[second..second + 1].copy_from_slice(&[0xCC]);
    queue.device_write_used(0, 3);

    assert!(queue.can_pop());
    assert_eq!(queue.peek_used(), Some(0));
    assert_eq!(queue.pop_used(0, &inputs, &outputs), Ok(3));
    assert_eq!(memory[outputs[0].addr..outputs[0].addr + 2], [0xAA, 0xBB]);
    assert_eq!(memory[outputs[1].addr..outputs[1].addr + 1], [0xCC]);
    assert_eq!(memory[16..19], [1, 2, 3]);
    assert_eq!(queue.available_desc(), 4);
    assert_eq!(walk_free_list(&queue), vec![0, 1, 2, 3]);
}

#[test]
fn fake_device_fills_buffers_in_turn() {
    let mut queue = new_queue(8);
    let mut memory = vec![0x11u8; 64];
    let outputs = [
        Buffer { addr: 40, len: 3 },
        Buffer { addr: 8, len: 0 },
        Buffer { addr: 20, len: 2 },
        Buffer { addr: 50, len: 4 },
    ];
    assert_eq!(queue.add(&[], &outputs), Ok(0));
    fake_write_to_queue(&mut queue, &mut memory, &[1, 2, 3, 4, 5, 6]);
    assert_eq!(memory[40..43], [1, 2, 3]);
    assert_eq!(memory[20..22], [4, 5]);
    assert_eq!(memory[50..54], [6, 0x11, 0x11, 0x11]);
    assert_eq!(memory[8], 0x11);
    assert_eq!(memory.iter().filter(|b| **b != 0x11).count(), 6);
    assert_eq!(queue.pop_used(0, &[], &outputs), Ok(6));

    // No bytes at all is a completion too.
    assert_eq!(queue.add(&[], &outputs[..1]), Ok(0));
    fake_write_to_queue(&mut queue, &mut memory, &[]);
    assert_eq!(queue.pop_used(0, &[], &outputs[..1]), Ok(0));
    assert_eq!(memory[40..43], [1, 2, 3]);
}

#[test]
fn fake_device_takes_chains_in_order() {
    let mut queue = new_queue(4);
    let mut memory = vec![0u8; 64];
    let a = [Buffer { addr: 16, len: 4 }];
    let b = [Buffer { addr: 32, len: 4 }];
    let token_a = queue.add(&[], &a).unwrap();
    let token_b = queue.add(&[], &b).unwrap();
    assert_eq!((token_a, token_b), (0, 1));
    fake_write_to_queue(&mut queue, &mut memory, &[1]);
    fake_write_to_queue(&mut queue, &mut memory, &[2, 3]);
    assert_eq!(memory[16], 1);
    assert_eq!(memory[32..34], [2, 3]);
    assert_eq!(queue.used_ring().ring[0], UsedElem { id: 0, len: 1 });
    assert_eq!(queue.used_ring().ring[1], UsedElem { id: 1, len: 2 });
    assert_eq!(queue.pop_used(token_a, &[], &a), Ok(1));
    assert_eq!(queue.pop_used(token_b, &[], &b), Ok(2));
    assert_eq!(queue.available_desc(), 4);
}

#[test]
fn wrong_token() {
    let mut queue = new_queue(4);
    let mut memory = vec![0u8; 64];
    let a = [Buffer { addr: 16, len: 4 }, Buffer { addr: 20, len: 4 }];
    let b = [Buffer { addr: 32, len: 4 }];
    let token_a = queue.add(&[], &a).unwrap();
    let token_b = queue.add(&[], &b).unwrap();
    assert_ne!(token_a, token_b);
    // The device completes A first.
    fake_write_to_queue(&mut queue, &mut memory, &[9, 9, 9, 9, 9]);
    assert_eq!(queue.peek_used(), Some(token_a));
    assert_eq!(queue.pop_used(token_b, &[], &b), Err(Error::WrongToken));
    // Nothing has changed.
    assert_eq!(queue.available_desc(), 1);
    assert_eq!(queue.peek_used(), Some(token_a));
    assert_eq!(queue.pop_used(token_a, &[], &a), Ok(5));
    assert_eq!(queue.available_desc(), 3);
    assert_eq!(queue.pop_used(token_b, &[], &b), Err(Error::NotReady));
    assert_free_list_sound(&queue);
}

#[test]
fn completions_out_of_order() {
    let mut queue = new_queue(8);
    let a = [Buffer { addr: 16, len: 1 }, Buffer { addr: 17, len: 1 }];
    let b = [Buffer { addr: 32, len: 1 }];
    let c = [Buffer { addr: 48, len: 1 }, Buffer { addr: 49, len: 1 }, Buffer { addr: 50, len: 1 }];
    let token_a = queue.add(&a, &[]).unwrap();
    let token_b = queue.add(&b, &[]).unwrap();
    let token_c = queue.add(&[], &c).unwrap();
    assert_eq!((token_a, token_b, token_c), (0, 2, 3));
    assert_eq!(queue.available_desc(), 2);
    assert_free_list_sound(&queue);

    // The device finishes B, then C, then A.
    queue.device_write_used(token_b as u32, 0);
    queue.device_write_used(token_c as u32, 3);
    queue.device_write_used(token_a as u32, 0);

    assert_eq!(queue.peek_used(), Some(token_b));
    assert_eq!(queue.pop_used(token_a, &a, &[]), Err(Error::WrongToken));
    assert_eq!(queue.pop_used(token_b, &b, &[]), Ok(0));
    assert_eq!(walk_free_list(&queue), vec![2, 6, 7]);
    assert_free_list_sound(&queue);

    assert_eq!(queue.pop_used(token_c, &[], &c), Ok(3));
    assert_eq!(walk_free_list(&queue), vec![3, 4, 5, 2, 6, 7]);
    // The chain A is still as it was submitted.
    assert_eq!(queue.descriptors()[0], Descriptor { addr: 16, len: 1, flags: DescFlags(NEXT), next: 1 });
    assert_eq!(queue.descriptors()[1].addr, 17);
    assert_eq!(queue.descriptors()[1].flags, DescFlags(0));

    assert_eq!(queue.pop_used(token_a, &a, &[]), Ok(0));
    assert_eq!(walk_free_list(&queue), vec![0, 1, 3, 4, 5, 2, 6, 7]);
    assert_eq!(queue.available_desc(), 8);
    assert_free_list_sound(&queue);

    // The free list is used in its new order.
    assert_eq!(queue.add(&a, &c), Ok(0));
    let d = queue.descriptors();
    assert_eq!((d[0].next, d[1].next, d[3].next, d[4].next), (1, 3, 4, 5));
    assert_eq!(d[5].flags, DescFlags(WRITE));
    assert_eq!(queue.free_head(), 2);
    assert_eq!(walk_free_list(&queue), vec![2, 6, 7]);
}

#[test]
fn can_pop_is_idempotent() {
    let mut queue = new_queue(2);
    let b = [Buffer { addr: 16, len: 1 }];
    for _ in 0..5 {
        assert!(!queue.can_pop());
    }
    assert_eq!(queue.add(&[], &b), Ok(0));
    for _ in 0..5 {
        assert!(!queue.can_pop());
    }
    queue.device_write_used(0, 1);
    for _ in 0..5 {
        assert!(queue.can_pop());
        assert_eq!(queue.peek_used(), Some(0));
    }
    // Polling has taken nothing: the completion is still the first one.
    assert_eq!(queue.pop_used(0, &[], &b), Ok(1));
    assert!(!queue.can_pop());
}

#[test]
fn counters_stay_in_bounds() {
    let mut queue = new_queue(4);
    let b = Buffer { addr: 16, len: 1 };
    let mut tokens: Vec<(u16, usize)> = Vec::new();
    // A fixed but irregular sequence of submissions and completions.
    for step in 0..200usize {
        let n = 1 + (step * 7 + step / 3) % 4;
        let bufs = vec![b; n];
        match queue.add(&bufs, &[]) {
            Ok(token) => {
                tokens.push((token, n));
                queue.device_write_used(token as u32, step as u32);
            },
            Err(e) => {
                assert_eq!(e, Error::QueueFull);
                assert!(n > queue.available_desc());
                let (token, m) = tokens.remove(0);
                assert_eq!(queue.peek_used(), Some(token));
                let before = queue.available_desc();
                assert!(queue.pop_used(token, &vec![b; m], &[]).is_ok());
                assert_eq!(queue.available_desc(), before + m);
            },
        }
        let in_flight: usize = tokens.iter().map(|t| t.1).sum();
        assert_eq!(queue.available_desc(), 4 - in_flight);
        assert_free_list_sound(&queue);
    }
}

#[test]
fn queue_of_size_one() {
    let mut queue = new_queue(1);
    assert_eq!(queue.size(), 1);
    assert_eq!(queue.available_desc(), 1);
    let mut memory = vec![0u8; 32];
    let b = [Buffer { addr: 8, len: 2 }];
    for round in 0..3u8 {
        assert_eq!(queue.add(&[], &b), Ok(0));
        assert_eq!(queue.add(&[], &b), Err(Error::QueueFull));
        assert_eq!(queue.available_desc(), 0);
        assert_eq!(queue.descriptors()[0].flags, DescFlags(WRITE));
        fake_write_to_queue(&mut queue, &mut memory, &[round, round]);
        assert_eq!(queue.pop_used(0, &[], &b), Ok(2));
        assert_eq!(memory[8..10], [round, round]);
        assert_eq!(queue.available_desc(), 1);
    }
    assert_eq!(queue.avail_ring().idx, 3);
    assert_eq!(queue.avail_ring().ring, vec![0]);
}

#[test]
fn queue_of_size_two() {
    let mut queue = new_queue(2);
    let a = [Buffer { addr: 8, len: 2 }];
    assert_eq!(queue.add(&a, &[]), Ok(0));
    assert_eq!(queue.add(&[], &a), Ok(1));
    assert_eq!(queue.add(&a, &[]), Err(Error::QueueFull));
    assert_eq!(queue.avail_ring().ring, vec![0, 1]);
    queue.device_write_used(1, 2);
    queue.device_write_used(0, 0);
    assert_eq!(queue.pop_used(1, &[], &a), Ok(2));
    assert_eq!(queue.pop_used(0, &a, &[]), Ok(0));
    assert_eq!(walk_free_list(&queue), vec![0, 1]);
    // A chain over both descriptors.
    assert_eq!(queue.add(&a, &a), Ok(0));
    assert_eq!(queue.avail_ring().ring, vec![0, 1]);
    assert_eq!(queue.avail_ring().idx, 3);
    assert_eq!(queue.available_desc(), 0);
}

#[test]
fn queue_of_the_largest_size() {
    let mut transport = FakeTransport::new(0x8000);
    let mut queue = VirtQueue::<FakeHal>::new(&mut transport, 0, 0x8000).ok().unwrap();
    assert_eq!(transport.queues, vec![(0, 0x8000, FAKE_REGION, FAKE_REGION + 0x80000, FAKE_REGION + 0x91000)]);
    assert_eq!(queue.dma_pages(), 0xD2);
    assert_eq!(queue.available_desc(), 0x8000);
    let bufs = vec![Buffer { addr: 16, len: 1 }; 0x8000];
    // A chain that takes every descriptor.
    assert_eq!(queue.add(&bufs[..0x4000], &bufs[0x4000..]), Ok(0));
    assert_eq!(queue.available_desc(), 0);
    assert_eq!(queue.descriptors()[0x3fff].flags, DescFlags(NEXT));
    assert_eq!(queue.descriptors()[0x4000].flags, DescFlags(NEXT | WRITE));
    assert_eq!(queue.descriptors()[0x7ffe].next, 0x7fff);
    assert_eq!(queue.descriptors()[0x7fff].flags, DescFlags(WRITE));
    assert_eq!(queue.add(&bufs[..1], &[]), Err(Error::QueueFull));
    queue.device_write_used(0, 77);
    assert_eq!(queue.pop_used(0, &bufs[..0x4000], &bufs[0x4000..]), Ok(77));
    assert_eq!(queue.available_desc(), 0x8000);
    assert_free_list_sound(&queue);
    assert_eq!(queue.add(&bufs[..1], &[]), Ok(0));
}

#[test]
fn chains_of_one_and_of_all_descriptors() {
    let mut queue = new_queue(4);
    let mut memory = vec![0u8; 64];
    let b = Buffer { addr: 16, len: 4 };
    // A single input.
    assert_eq!(queue.add(&[b], &[]), Ok(0));
    assert_eq!(queue.descriptors()[0].flags, DescFlags(0));
    queue.device_write_used(0, 0);
    assert_eq!(queue.pop_used(0, &[b], &[]), Ok(0));
    // A single output.
    assert_eq!(queue.add(&[], &[b]), Ok(0));
    assert_eq!(queue.descriptors()[0].flags, DescFlags(WRITE));
    fake_write_to_queue(&mut queue, &mut memory, &[1, 2, 3, 4]);
    assert_eq!(queue.pop_used(0, &[], &[b]), Ok(4));
    assert_eq!(memory[16..20], [1, 2, 3, 4]);
    // As many buffers as the queue has descriptors.
    assert_eq!(queue.add(&[b, b, b, b], &[]), Ok(0));
    assert_eq!(queue.available_desc(), 0);
    queue.device_write_used(0, 0);
    assert_eq!(queue.pop_used(0, &[b, b, b, b], &[]), Ok(0));
    assert_eq!(queue.add(&[], &[b, b, b, b]), Ok(0));
    assert_eq!(queue.available_desc(), 0);
    fake_write_to_queue(&mut queue, &mut memory, &[7; 16]);
    assert_eq!(queue.pop_used(0, &[], &[b, b, b, b]), Ok(16));
    assert_eq!(queue.available_desc(), 4);
}

#[test]
fn indices_wrap_at_two_to_the_sixteenth() {
    let mut queue = new_queue(2);
    let mut memory = vec![0u8; 32];
    let b = [Buffer { addr: 8, len: 1 }];
    for round in 0..0x1_0003u32 {
        assert_eq!(queue.avail_ring().idx, round as u16);
        assert_eq!(queue.used_ring().idx, round as u16);
        let token = queue.add(&[], &b).unwrap();
        // The head lands in the slot that the index names.
        assert_eq!(queue.avail_ring().ring[(round % 2) as usize], token);
        assert!(!queue.can_pop());
        fake_write_to_queue(&mut queue, &mut memory, &[round as u8]);
        assert!(queue.can_pop());
        assert_eq!(queue.used_ring().ring[(round % 2) as usize], UsedElem { id: token as u32, len: 1 });
        assert_eq!(queue.pop_used(token, &[], &b), Ok(1));
        assert_eq!(memory[8], round as u8);
    }
    assert_eq!(queue.avail_ring().idx, 3);
    assert_eq!(queue.used_ring().idx, 3);
    assert_eq!(queue.available_desc(), 2);
}

#[test]
fn pending_completion_across_the_wrap() {
    let mut queue = new_queue(4);
    let b = [Buffer { addr: 8, len: 1 }];
    for _ in 0..0xffff {
        let token = queue.add(&b, &[]).unwrap();
        queue.device_write_used(token as u32, 0);
        assert_eq!(queue.pop_used(token, &b, &[]), Ok(0));
    }
    assert_eq!(queue.avail_ring().idx, 0xffff);
    let first = queue.add(&b, &[]).unwrap();
    assert_eq!(queue.avail_ring().idx, 0);
    assert_eq!(queue.avail_ring().ring[3], first);
    let second = queue.add(&b, &[]).unwrap();
    assert_eq!(queue.avail_ring().idx, 1);
    assert_eq!(queue.avail_ring().ring[0], second);
    queue.device_write_used(first as u32, 5);
    assert_eq!(queue.used_ring().idx, 0);
    // The used index is back at 0 and differs from the count of what was taken.
    assert!(queue.can_pop());
    queue.device_write_used(second as u32, 6);
    assert_eq!(queue.pop_used(first, &b, &[]), Ok(5));
    assert!(queue.can_pop());
    assert_eq!(queue.pop_used(second, &b, &[]), Ok(6));
    assert!(!queue.can_pop());
}

#[test]
fn token_is_the_low_half_of_the_used_id() {
    let mut queue = new_queue(4);
    let b = [Buffer { addr: 8, len: 1 }];
    assert_eq!(queue.add(&b, &[]), Ok(0));
    assert_eq!(queue.add(&b, &[]), Ok(1));
    queue.device_write_used(0x5_0001, 9);
    assert_eq!(queue.peek_used(), Some(1));
    assert_eq!(queue.pop_used(0, &b, &[]), Err(Error::WrongToken));
    assert_eq!(queue.pop_used(1, &b, &[]), Ok(9));
}

#[test]
fn buffer_length_is_cut_to_32_bits() {
    let mut queue = new_queue(2);
    let long = (0x1_0000_0005u64 as usize) as u64;
    let b = [Buffer { addr: 8, len: long as usize }];
    assert_eq!(queue.add(&b, &[]), Ok(0));
    assert_eq!(queue.descriptors()[0].len as u64, long % 0x1_0000_0000);
    assert_eq!(queue.descriptors()[0].len, 5);
}

#[test]
fn layout_of_the_rings() {
    assert_eq!(PAGE_SIZE, 4096);
    assert_eq!(
        VirtQueueLayout::new(1),
        VirtQueueLayout { avail_offset: 16, used_offset: 4096, size: 8192 }
    );
    assert_eq!(
        VirtQueueLayout::new(4),
        VirtQueueLayout { avail_offset: 64, used_offset: 4096, size: 8192 }
    );
    // 256 descriptors fill a page; the available ring needs a second one.
    assert_eq!(
        VirtQueueLayout::new(256),
        VirtQueueLayout { avail_offset: 4096, used_offset: 8192, size: 12288 }
    );
    // 16 * 512 = 8192, 2 * 515 = 1030, 6 + 8 * 512 = 4102.
    assert_eq!(
        VirtQueueLayout::new(512),
        VirtQueueLayout { avail_offset: 8192, used_offset: 12288, size: 12288 + 8192 }
    );
    assert_eq!(
        VirtQueueLayout::new(0x8000),
        VirtQueueLayout { avail_offset: 524288, used_offset: 593920, size: 860160 }
    );
    let mut size: u16 = 1;
    loop {
        let layout = VirtQueueLayout::new(size);
        let q = size as usize;
        assert_eq!(layout.avail_offset, 16 * q);
        assert!(layout.used_offset >= 16 * q + 2 * (3 + q));
        assert!(layout.used_offset < 16 * q + 2 * (3 + q) + PAGE_SIZE);
        assert_eq!(layout.used_offset % PAGE_SIZE, 0);
        assert!(layout.size >= layout.used_offset + 6 + 8 * q);
        assert!(layout.size < layout.used_offset + 6 + 8 * q + PAGE_SIZE);
        assert_eq!(layout.size % PAGE_SIZE, 0);
        if size == 0x8000 {
            break;
        }
        size *= 2;
    }
}

#[test]
fn align_up_rounds_to_pages() {
    assert_eq!(align_up(0), 0);
    assert_eq!(align_up(1), 4096);
    assert_eq!(align_up(4095), 4096);
    assert_eq!(align_up(4096), 4096);
    assert_eq!(align_up(4097), 8192);
    assert_eq!(align_up(589830), 593920);
}

#[test]
fn powers_of_two() {
    let powers: Vec<u16> = (0..16).map(|k| 1u16 << k).collect();
    for n in 0..=u16::MAX {
        assert_eq!(is_power_of_two(n), powers.contains(&n), "{}", n);
        assert_eq!(is_power_of_two(n), n.is_power_of_two());
    }
}

#[test]
fn slots_go_round_the_ring() {
    assert_eq!(slot(0, 4), 0);
    assert_eq!(slot(3, 4), 3);
    assert_eq!(slot(4, 4), 0);
    assert_eq!(slot(0xffff, 4), 3);
    assert_eq!(slot(0xffff, 1), 0);
    assert_eq!(slot(0x8001, 0x8000), 1);
    for idx in 0..=u16::MAX {
        assert_eq!(slot(idx, 8) as u32, idx as u32 % 8);
        assert_eq!(slot(idx.wrapping_add(1), 8), (slot(idx, 8) + 1) % 8);
    }
}

#[test]
fn flags() {
    assert_eq!((NEXT, WRITE, INDIRECT), (1, 2, 4));
    assert_eq!(DescFlags::empty(), DescFlags(0));
    assert_eq!(DescFlags(NEXT).bits(), 1);
    assert_eq!(DescFlags(NEXT).union(DescFlags(WRITE)), DescFlags(3));
    assert_eq!(DescFlags(NEXT).union(DescFlags::empty()), DescFlags(NEXT));
    assert!(DescFlags(3).contains(DescFlags(NEXT)));
    assert!(DescFlags(3).contains(DescFlags(WRITE)));
    assert!(DescFlags(3).contains(DescFlags(3)));
    assert!(!DescFlags(3).contains(DescFlags(INDIRECT)));
    assert!(!DescFlags(WRITE).contains(DescFlags(NEXT)));
    assert!(!DescFlags(NEXT).contains(DescFlags(3)));
    assert!(DescFlags(0).contains(DescFlags(0)));
    let mut f = DescFlags(NEXT | WRITE);
    f.remove(DescFlags(NEXT));
    assert_eq!(f, DescFlags(WRITE));
    f.remove(DescFlags(NEXT));
    assert_eq!(f, DescFlags(WRITE));
    f.remove(DescFlags(WRITE | INDIRECT));
    assert_eq!(f, DescFlags(0));
}

#[test]
fn descriptor_setters() {
    let mut d = Descriptor::zeroed();
    assert_eq!(d, Descriptor { addr: 0, len: 0, flags: DescFlags(0), next: 0 });
    d.next = 7;
    d.set_shared_buf(0x1234, 9, BufferDirection::DeviceToDriver, DescFlags(NEXT));
    assert_eq!(d, Descriptor { addr: 0x1234, len: 9, flags: DescFlags(3), next: 7 });
    assert_eq!(d.next(), Some(7));
    d.set_shared_buf(0x99, 1, BufferDirection::DriverToDevice, DescFlags(NEXT));
    assert_eq!(d, Descriptor { addr: 0x99, len: 1, flags: DescFlags(1), next: 7 });
    d.set_shared_buf(0x99, 1, BufferDirection::DriverToDevice, DescFlags::empty());
    assert_eq!(d.flags, DescFlags(0));
    assert_eq!(d.next(), None);
    d.set_buf::<OffsetHal>(Buffer { addr: 0x20, len: 3 }, BufferDirection::DeviceToDriver, DescFlags::empty());
    assert_eq!(d, Descriptor { addr: 0x10_0020, len: 3, flags: DescFlags(WRITE), next: 7 });
    d.unset_buf();
    assert_eq!(d, Descriptor { addr: 0, len: 0, flags: DescFlags(WRITE), next: 7 });
}

#[test]
fn inputs_come_before_outputs() {
    let a = Buffer { addr: 1, len: 10 };
    let b = Buffer { addr: 2, len: 20 };
    let c = Buffer { addr: 3, len: 30 };
    assert_eq!(
        input_output_iter(&[a, b], &[c]),
        vec![
            (a, BufferDirection::DriverToDevice),
            (b, BufferDirection::DriverToDevice),
            (c, BufferDirection::DeviceToDriver),
        ]
    );
    assert_eq!(input_output_iter(&[], &[c, a]), vec![
        (c, BufferDirection::DeviceToDriver),
        (a, BufferDirection::DeviceToDriver),
    ]);
    assert_eq!(input_output_iter(&[], &[]), vec![]);
}

#[test]
fn new_rings_are_zero() {
    let avail = AvailRing::new(4);
    assert_eq!((avail.flags, avail.idx, avail.used_event), (0, 0, 0));
    assert_eq!(avail.ring, vec![0, 0, 0, 0]);
    let used = UsedRing::new(2);
    assert_eq!((used.flags, used.idx, used.avail_event), (0, 0, 0));
    assert_eq!(used.ring, vec![UsedElem { id: 0, len: 0 }; 2]);
}

#[test]
fn with_region_needs_no_transport() {
    let mut queue = VirtQueue::<FakeHal>::with_region(5, 2, 0x1000, 0x2000, 2);
    assert_eq!((queue.queue_idx(), queue.size()), (5, 2));
    assert_eq!((queue.dma_vaddr(), queue.dma_paddr(), queue.dma_pages()), (0x1000, 0x2000, 2));
    assert_eq!(queue.add(&[Buffer { addr: 8, len: 1 }], &[]), Ok(0));
    assert_eq!(queue.available_desc(), 1);
}
