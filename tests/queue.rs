use virtio_drivers::{Buffer, BufferDirection, Error, Hal, PhysAddr, Transport, VirtQueue};

/// A custodian that maps each buffer to a fixed offset and records the calls.
struct FakeHal {
    shared: Vec<(PhysAddr, u64, u32)>,
    unshared: Vec<(PhysAddr, u64, u32)>,
}

const OFFSET: u64 = 0x8000_0000;

impl FakeHal {
    fn new() -> FakeHal {
        FakeHal { shared: Vec::new(), unshared: Vec::new() }
    }
}

impl Hal for FakeHal {
    fn share(&mut self, buf: Buffer) -> PhysAddr {
        assert_ne!(buf.direction, BufferDirection::Both);
        let paddr = buf.vaddr + OFFSET;
        self.shared.push((paddr, buf.vaddr, buf.len));
        paddr
    }

    fn unshare(&mut self, paddr: PhysAddr, buf: Buffer) {
        assert_eq!(paddr, buf.vaddr + OFFSET);
        self.unshared.push((paddr, buf.vaddr, buf.len));
    }
}

fn out_buf(vaddr: u64, len: u32) -> Buffer {
    Buffer { vaddr, len, direction: BufferDirection::DriverToDevice }
}

fn in_buf(vaddr: u64, len: u32) -> Buffer {
    Buffer { vaddr, len, direction: BufferDirection::DeviceToDriver }
}

#[test]
fn test_test() {
    assert_eq!(1, 1);
}

#[test]
fn invalid_queue_size() {
    // Size not a power of 2.
    assert_eq!(VirtQueue::new(3, 4).err(), Some(Error::InvalidParam));
}

#[test]
fn new_accepts_exactly_powers_of_two_within_bounds() {
    for size in [1usize, 2, 4, 8, 16, 1024, 32768] {
        let q = VirtQueue::new(size, 32768).unwrap();
        assert_eq!(q.size() as usize, size);
        assert_eq!(q.num_free(), size);
        assert_eq!(q.avail_idx(), 0);
        assert_eq!(q.used_idx(), 0);
    }
    for size in [0usize, 3, 5, 6, 12, 100, 65536, 1 << 20] {
        assert_eq!(VirtQueue::new(size, u32::MAX).err(), Some(Error::InvalidParam));
    }
    // Larger than the transport allows.
    assert_eq!(VirtQueue::new(32, 16).err(), Some(Error::InvalidParam));
    assert!(VirtQueue::new(16, 16).is_ok());
}

#[test]
fn example_two_buffer_round_trip() {
    let mut hal = FakeHal::new();
    let mut q = VirtQueue::new(16, 16).unwrap();
    let token = q.add(&mut hal, &[out_buf(0x1000, 4), in_buf(0x2000, 8)]).unwrap();
    assert_eq!(token, 0);
    assert_eq!(q.num_free(), 14);
    assert_eq!(q.avail_idx(), 1);
    assert_eq!(q.avail_entry(0), token);
    assert!(q.is_in_flight(token));
    q.device_push_used(0, 8);
    assert_eq!(q.used_idx(), 1);
    assert_eq!(q.pop_used(&mut hal, 0), Ok(Some(8)));
    assert_eq!(q.num_free(), 16);
    assert!(!q.is_in_flight(token));
    assert_eq!(hal.shared.len(), 2);
    assert_eq!(hal.unshared, hal.shared);
}

#[test]
fn successive_adds_give_distinct_tokens() {
    let mut hal = FakeHal::new();
    let mut q = VirtQueue::new(16, 16).unwrap();
    let a = q.add(&mut hal, &[out_buf(0x1000, 4)]).unwrap();
    let b = q.add(&mut hal, &[out_buf(0x1000, 4)]).unwrap();
    assert_ne!(a, b);
}

#[test]
fn tokens_are_unique_until_full() {
    let mut hal = FakeHal::new();
    let mut q = VirtQueue::new(8, 8).unwrap();
    let mut tokens = Vec::new();
    for i in 0..8u64 {
        let t = q.add(&mut hal, &[out_buf(0x1000 * (i + 1), 16)]).unwrap();
        assert!(!tokens.contains(&t));
        tokens.push(t);
    }
    assert_eq!(q.num_free(), 0);
    assert_eq!(q.add(&mut hal, &[out_buf(0x9000, 16)]), Err(Error::QueueFull));
    assert_eq!(q.num_free(), 0);
}

#[test]
fn chain_longer_than_free_list_is_queue_full() {
    let mut hal = FakeHal::new();
    let mut q = VirtQueue::new(4, 4).unwrap();
    q.add(&mut hal, &[out_buf(0x1000, 1), out_buf(0x2000, 1), out_buf(0x3000, 1)]).unwrap();
    assert_eq!(q.add(&mut hal, &[out_buf(0x4000, 1), out_buf(0x5000, 1)]), Err(Error::QueueFull));
    assert!(q.add(&mut hal, &[out_buf(0x4000, 1)]).is_ok());
}

#[test]
fn invalid_requests_are_refused() {
    let mut hal = FakeHal::new();
    let mut q = VirtQueue::new(4, 4).unwrap();
    assert_eq!(q.add(&mut hal, &[]), Err(Error::InvalidParam));
    assert_eq!(q.add(&mut hal, &[out_buf(0x1000, 0)]), Err(Error::InvalidParam));
    let both = Buffer { vaddr: 0x1000, len: 4, direction: BufferDirection::Both };
    assert_eq!(q.add(&mut hal, &[out_buf(0x2000, 4), both]), Err(Error::InvalidParam));
    let five: Vec<Buffer> = (0..5u64).map(|i| out_buf(0x1000 * (i + 1), 4)).collect();
    assert_eq!(q.add(&mut hal, &five), Err(Error::InvalidParam));
    assert_eq!(q.num_free(), 4);
    assert_eq!(q.avail_idx(), 0);
    assert!(hal.shared.is_empty());
}

#[test]
fn wrong_token_changes_nothing() {
    let mut hal = FakeHal::new();
    let mut q = VirtQueue::new(4, 4).unwrap();
    let a = q.add(&mut hal, &[out_buf(0x1000, 4)]).unwrap();
    let b = q.add(&mut hal, &[in_buf(0x2000, 4)]).unwrap();
    q.device_push_used(a as u32, 0);
    assert_eq!(q.pop_used(&mut hal, b), Err(Error::WrongToken));
    assert_eq!(q.num_free(), 2);
    assert_eq!(q.last_used_idx(), 0);
    assert!(q.is_in_flight(a) && q.is_in_flight(b));
    assert!(hal.unshared.is_empty());
    assert_eq!(q.pop_used(&mut hal, a), Ok(Some(0)));
}

#[test]
fn completion_for_a_chain_not_in_flight_is_already_used() {
    let mut hal = FakeHal::new();
    let mut q = VirtQueue::new(4, 4).unwrap();
    let a = q.add(&mut hal, &[out_buf(0x1000, 4)]).unwrap();
    let idle = (a + 1) % 4;
    q.device_push_used(idle as u32, 4);
    assert_eq!(q.pop_used(&mut hal, idle), Err(Error::AlreadyUsed));
    assert_eq!(q.num_free(), 3);
    assert_eq!(q.last_used_idx(), 0);
}

#[test]
fn pop_after_pop_finds_nothing() {
    let mut hal = FakeHal::new();
    let mut q = VirtQueue::new(4, 4).unwrap();
    assert_eq!(q.pop_used(&mut hal, 0), Ok(None));
    let t = q.add(&mut hal, &[in_buf(0x1000, 32)]).unwrap();
    q.device_push_used(t as u32, 32);
    assert_eq!(q.peek_used().map(|e| (e.id, e.len)), Some((t as u32, 32)));
    assert_eq!(q.pop_used(&mut hal, t), Ok(Some(32)));
    assert_eq!(q.peek_used(), None);
    assert_eq!(q.pop_used(&mut hal, t), Ok(None));
    assert_eq!(q.num_free(), 4);
    assert_eq!(hal.unshared.len(), 1);
}

fn cycle(q: &mut VirtQueue, hal: &mut FakeHal, n: u32) {
    for i in 0..n {
        let t = q.add(hal, &[out_buf(0x1000, 4), in_buf(0x2000, 8)]).unwrap();
        q.device_push_used(t as u32, i % 9);
        assert_eq!(q.pop_used(hal, t), Ok(Some(i % 9)));
        assert_eq!(q.pop_used(hal, t), Ok(None));
    }
}

#[test]
fn three_rounds_of_the_ring() {
    let mut hal = FakeHal::new();
    let mut q = VirtQueue::new(16, 16).unwrap();
    cycle(&mut q, &mut hal, 16 * 3);
    assert_eq!(q.avail_idx(), 48);
    assert_eq!(q.used_idx(), 48);
    assert_eq!(q.last_used_idx(), 48);
    assert_eq!(q.num_free(), 16);
}

#[test]
fn indices_wrap_past_u16() {
    let mut hal = FakeHal::new();
    let mut q = VirtQueue::new(4, 4).unwrap();
    cycle(&mut q, &mut hal, 65536 + 5);
    assert_eq!(q.avail_idx(), 5);
    assert_eq!(q.used_idx(), 5);
    assert_eq!(q.last_used_idx(), 5);
    assert_eq!(q.num_free(), 4);
    // Two completions outstanding across the wrap are both seen.
    let a = q.add(&mut hal, &[out_buf(0x1000, 4)]).unwrap();
    let b = q.add(&mut hal, &[out_buf(0x2000, 4)]).unwrap();
    q.device_push_used(a as u32, 1);
    q.device_push_used(b as u32, 2);
    assert_eq!(q.pop_used(&mut hal, a), Ok(Some(1)));
    assert_eq!(q.pop_used(&mut hal, b), Ok(Some(2)));
    assert_eq!(q.pop_used(&mut hal, b), Ok(None));
}

struct Doorbell {
    rung: Vec<u16>,
}

impl Transport for Doorbell {
    fn notify(&mut self, queue: u16) {
        self.rung.push(queue);
    }
}

#[test]
fn notification_follows_the_device_flag() {
    let mut bell = Doorbell { rung: Vec::new() };
    let mut q = VirtQueue::new(4, 4).unwrap();
    assert!(q.should_notify());
    assert!(q.notify(&mut bell, 2));
    q.device_set_used_flags(1);
    assert!(!q.should_notify());
    assert!(!q.notify(&mut bell, 2));
    q.device_set_used_flags(0);
    assert!(q.should_notify());
    assert!(q.notify(&mut bell, 3));
    assert_eq!(bell.rung, vec![2, 3]);
}
