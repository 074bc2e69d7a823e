use vstd::prelude::*;
use crate::error::Error;
use crate::layout::{le_bytes, le_value, lemma_le_bytes_len, lemma_le_round_trip, lemma_le_value_bound, pow256, push_le, read_le};

verus! {

/// A physical address as the device sees it.
pub type PhysAddr = u64;

/// The flag bit that links a descriptor to the next one of its chain.
pub const DESC_F_NEXT: u16 = 1;
/// The flag bit that marks a buffer as written by the device.
pub const DESC_F_WRITE: u16 = 2;
/// The flag bit that marks a buffer as holding a table of indirect descriptors.
pub const DESC_F_INDIRECT: u16 = 4;

/// The direction in which a buffer is lent to the device.
#[derive(Copy, Clone, Debug, PartialEq, Eq, Structural)]
pub enum BufferDirection {
    /// The driver writes the buffer and the device reads it.
    DriverToDevice,
    /// The device writes the buffer and the driver reads it.
    DeviceToDriver,
    /// Both read and write it; never legal for a single descriptor.
    Both,
}

/// Descriptor flags, a set of `NEXT`, `WRITE` and `INDIRECT` held in 16 bits.
#[derive(Copy, Clone, Debug, PartialEq, Eq, Structural)]
pub struct DescFlags {
    pub bits: u16,
}

impl DescFlags {
    pub open spec fn has(self, bit: u16) -> bool {
        self.bits & bit == bit
    }

    /// The empty set of flags.
    pub fn empty() -> (r: DescFlags)
        ensures
            r.bits == 0,
    {
        DescFlags { bits: 0 }
    }

    /// The set that holds `NEXT` alone.
    pub fn next_only() -> (r: DescFlags)
        ensures
            r.bits == DESC_F_NEXT,
    {
        DescFlags { bits: DESC_F_NEXT }
    }

    /// Whether every flag of `other` is in `self`.
    pub fn contains(&self, other: DescFlags) -> (r: bool)
        ensures
            r == self.has(other.bits),
    {
        self.bits & other.bits == other.bits
    }

    /// The union of two sets of flags.
    pub fn union(&self, other: DescFlags) -> (r: DescFlags)
        ensures
            r.bits == self.bits | other.bits,
    {
        DescFlags { bits: self.bits | other.bits }
    }
}

/// One slot of the descriptor table: 16 bytes, laid out as address, length,
/// flags and next index.
#[derive(Copy, Clone, Debug)]
pub struct Descriptor {
    pub addr: u64,
    pub len: u32,
    pub flags: DescFlags,
    pub next: u16,
}

/// Whether a descriptor with these flags continues its chain.
pub open spec fn links(flags: DescFlags) -> bool {
    flags.has(DESC_F_NEXT)
}

/// The flags that `set_buf` composes for a buffer.
pub open spec fn buf_flags(extra: DescFlags, direction: BufferDirection) -> u16 {
    if direction == BufferDirection::DeviceToDriver {
        extra.bits | DESC_F_WRITE
    } else {
        extra.bits
    }
}

/// The size of a descriptor in the table, in bytes.
pub const DESCRIPTOR_SIZE: usize = 16;

/// The bytes of a descriptor in the table: address (8), length (4), flags
/// (2) and next (2), each little-endian.
pub open spec fn descriptor_bytes(d: Descriptor) -> Seq<u8> {
    le_bytes(d.addr as nat, 8) + le_bytes(d.len as nat, 4) + le_bytes(d.flags.bits as nat, 2) + le_bytes(
        d.next as nat,
        2,
    )
}

/// The descriptor that the 16 bytes `s` hold.
pub open spec fn descriptor_of(s: Seq<u8>) -> Descriptor {
    Descriptor {
        addr: le_value(s.subrange(0, 8)) as u64,
        len: le_value(s.subrange(8, 12)) as u32,
        flags: DescFlags { bits: le_value(s.subrange(12, 14)) as u16 },
        next: le_value(s.subrange(14, 16)) as u16,
    }
}

proof fn lemma_pow256_values()
    ensures
        pow256(2) == 0x10000,
        pow256(4) == 0x1_0000_0000,
        pow256(8) == 0x1_0000_0000_0000_0000,
{
    reveal_with_fuel(pow256, 9);
}

/// Writing a descriptor out and reading it back gives the same descriptor.
pub proof fn lemma_descriptor_round_trip(d: Descriptor)
    ensures
        descriptor_bytes(d).len() == DESCRIPTOR_SIZE,
        descriptor_of(descriptor_bytes(d)) == d,
{
    lemma_pow256_values();
    lemma_le_bytes_len(d.addr as nat, 8);
    lemma_le_bytes_len(d.len as nat, 4);
    lemma_le_bytes_len(d.flags.bits as nat, 2);
    lemma_le_bytes_len(d.next as nat, 2);
    lemma_le_round_trip(d.addr as nat, 8);
    lemma_le_round_trip(d.len as nat, 4);
    lemma_le_round_trip(d.flags.bits as nat, 2);
    lemma_le_round_trip(d.next as nat, 2);
    let s = descriptor_bytes(d);
    assert(s.subrange(0, 8) =~= le_bytes(d.addr as nat, 8));
    assert(s.subrange(8, 12) =~= le_bytes(d.len as nat, 4));
    assert(s.subrange(12, 14) =~= le_bytes(d.flags.bits as nat, 2));
    assert(s.subrange(14, 16) =~= le_bytes(d.next as nat, 2));
}

impl Descriptor {
    /// The descriptor's 16 bytes as the device reads them.
    pub fn to_bytes(&self) -> (r: Vec<u8>)
        ensures
            r@ == descriptor_bytes(*self),
    {
        let mut out: Vec<u8> = Vec::new();
        push_le(&mut out, self.addr, 8);
        push_le(&mut out, self.len as u64, 4);
        push_le(&mut out, self.flags.bits as u64, 2);
        push_le(&mut out, self.next as u64, 2);
        assert(out@ =~= descriptor_bytes(*self));
        out
    }

    /// The descriptor that `b` holds, when `b` is exactly one descriptor long.
    pub fn from_bytes(b: &[u8]) -> (r: Option<Descriptor>)
        ensures
            r == (if b@.len() == DESCRIPTOR_SIZE { Some(descriptor_of(b@)) } else { None::<Descriptor> }),
    {
        if b.len() != DESCRIPTOR_SIZE {
            return None;
        }
        proof {
            lemma_pow256_values();
            lemma_le_value_bound(b@.subrange(8, 12));
            lemma_le_value_bound(b@.subrange(12, 14));
            lemma_le_value_bound(b@.subrange(14, 16));
        }
        let addr = read_le(b, 0, 8);
        let len = read_le(b, 8, 4);
        let flags = read_le(b, 12, 2);
        let next = read_le(b, 14, 2);
        Some(Descriptor { addr, len: len as u32, flags: DescFlags { bits: flags as u16 }, next: next as u16 })
    }

    /// A descriptor that holds no buffer.
    pub fn zeroed() -> (r: Descriptor)
        ensures
            r.addr == 0,
            r.len == 0,
            r.flags.bits == 0,
            r.next == 0,
    {
        Descriptor { addr: 0, len: 0, flags: DescFlags::empty(), next: 0 }
    }

    /// Sets the address, length and flags for a buffer that has been shared
    /// with the device at `addr`; `WRITE` is set exactly when the device
    /// writes the buffer.
    pub fn set_buf(&mut self, addr: PhysAddr, len: u32, direction: BufferDirection, extra_flags: DescFlags)
        requires
            direction != BufferDirection::Both,
        ensures
            final(self).addr == addr,
            final(self).len == len,
            final(self).flags.bits == buf_flags(extra_flags, direction),
            final(self).next == old(self).next,
    {
        self.addr = addr;
        self.len = len;
        self.flags = match direction {
            BufferDirection::DeviceToDriver => extra_flags.union(DescFlags { bits: DESC_F_WRITE }),
            _ => extra_flags,
        };
    }

    /// Sets the buffer address and length to 0.
    ///
    /// This must only be called once the device has finished using the descriptor.
    pub fn unset_buf(&mut self)
        ensures
            final(self).addr == 0,
            final(self).len == 0,
            final(self).flags == old(self).flags,
            final(self).next == old(self).next,
    {
        self.addr = 0;
        self.len = 0;
    }

    /// Returns the index of the next descriptor in the chain if the `NEXT` flag
    /// is set, or `None` if this descriptor ends its chain.
    pub fn next(&self) -> (r: Option<u16>)
        ensures
            r == (if links(self.flags) { Some(self.next) } else { None::<u16> }),
    {
        if self.flags.contains(DescFlags { bits: DESC_F_NEXT }) {
            Some(self.next)
        } else {
            None
        }
    }
}


/// A buffer of the driver, lent to the device for one request: where it
/// lies in the driver's memory, how many bytes it holds, and which way the
/// data flows.
#[derive(Copy, Clone, Debug, PartialEq, Eq, Structural)]
pub struct Buffer {
    pub vaddr: u64,
    pub len: u32,
    pub direction: BufferDirection,
}

/// The buffer custodian: makes driver buffers visible to the device and
/// takes them back. Every `share` is paired with exactly one `unshare`, made
/// only once the device has finished with the buffer.
pub trait Hal {
    /// Makes `buf` visible to the device and returns its device address.
    fn share(&mut self, buf: Buffer) -> PhysAddr
        requires
            buf.direction != BufferDirection::Both,
    ;

    /// Reverses `share`; for a buffer the device wrote, copies the data back
    /// into the driver's buffer first.
    fn unshare(&mut self, paddr: PhysAddr, buf: Buffer);
}

/// The transport a queue's device sits behind; here, its doorbell.
pub trait Transport {
    /// Tells the device that queue `queue` has new buffers.
    fn notify(&mut self, queue: u16);
}

/// One completion in the used ring: the head of the chain the device used
/// and how many bytes it wrote.
#[derive(Copy, Clone, Debug, PartialEq, Eq, Structural)]
pub struct UsedElem {
    pub id: u32,
    pub len: u32,
}

/// The largest queue size: descriptor indices are 16 bits wide.
pub const MAX_QUEUE_SIZE: usize = 32768;

/// The used ring flag by which the device asks not to be notified.
pub const USED_F_NO_NOTIFY: u16 = 1;

/// Whether `n` is a power of two.
pub open spec fn is_pow2(n: nat) -> bool
    decreases n,
{
    if n <= 1 {
        n == 1
    } else {
        n % 2 == 0 && is_pow2(n / 2)
    }
}

/// The sizes a queue can be built with, below the transport's maximum.
pub open spec fn valid_size(size: nat, max_size: nat) -> bool {
    is_pow2(size) && size <= max_size && size <= MAX_QUEUE_SIZE
}

/// A ring index after one more entry: it counts modulo 2^16.
pub open spec fn wrap_inc(x: u16) -> u16 {
    ((x + 1) % 0x10000) as u16
}

/// How far the index `to` runs ahead of `from`, counting modulo 2^16.
pub open spec fn wrap_dist(from: u16, to: u16) -> nat {
    ((to - from + 0x10000) % 0x10000) as nat
}

/// Whether `n` is a power of two, halving it while it is even.
pub fn is_power_of_two(n: usize) -> (r: bool)
    ensures
        r == is_pow2(n as nat),
{
    let mut m: usize = n;
    while m > 1 && m % 2 == 0
        invariant
            is_pow2(m as nat) == is_pow2(n as nat),
        decreases m,
    {
        m = m / 2;
    }
    m == 1
}

fn next_index(x: u16) -> (r: u16)
    ensures
        r == wrap_inc(x),
{
    if x == 0xffff {
        0
    } else {
        x + 1
    }
}

/// Whether the descriptors `c` form a chain in `table`: each but the last
/// links to the one after it, and the last ends the chain.
pub open spec fn chain_in(table: Seq<Descriptor>, c: Seq<u16>) -> bool {
    &&& c.len() >= 1
    &&& c.no_duplicates()
    &&& forall|i: int| 0 <= i < c.len() ==> (#[trigger] c[i]) < table.len()
    &&& forall|i: int|
        0 <= i < c.len() - 1 ==> links(table[#[trigger] c[i] as int].flags) && table[c[i] as int].next
            == c[i + 1]
    &&& !links(table[c[c.len() - 1] as int].flags)
}

/// The total length of the chains of `heads` in `chains`.
pub open spec fn chains_total(chains: Map<u16, Seq<u16>>, heads: Seq<u16>) -> nat
    decreases heads.len(),
{
    if heads.len() == 0 {
        0
    } else {
        chains[heads.last()].len() + chains_total(chains, heads.drop_last())
    }
}

proof fn lemma_total_insert(chains: Map<u16, Seq<u16>>, heads: Seq<u16>, t: u16, c: Seq<u16>)
    requires
        !heads.contains(t),
    ensures
        chains_total(chains.insert(t, c), heads.push(t)) == chains_total(chains, heads) + c.len(),
    decreases heads.len(),
{
    assert(heads.push(t).drop_last() == heads);
    lemma_total_frame(chains, chains.insert(t, c), heads);
}

proof fn lemma_total_frame(a: Map<u16, Seq<u16>>, b: Map<u16, Seq<u16>>, heads: Seq<u16>)
    requires
        forall|i: int| 0 <= i < heads.len() ==> a[#[trigger] heads[i]] == b[heads[i]],
    ensures
        chains_total(a, heads) == chains_total(b, heads),
    decreases heads.len(),
{
    if heads.len() > 0 {
        let rest = heads.drop_last();
        assert forall|i: int| 0 <= i < rest.len() implies a[#[trigger] rest[i]] == b[rest[i]] by {
            assert(rest[i] == heads[i]);
        }
        lemma_total_frame(a, b, rest);
        assert(a[heads.last()] == b[heads[heads.len() - 1]]);
    }
}

proof fn lemma_total_remove(chains: Map<u16, Seq<u16>>, heads: Seq<u16>, k: int)
    requires
        0 <= k < heads.len(),
        heads.no_duplicates(),
    ensures
        chains_total(chains.remove(heads[k]), heads.remove(k)) + chains[heads[k]].len() == chains_total(chains, heads),
    decreases heads.len(),
{
    let t = heads[k];
    let rest = heads.remove(k);
    assert forall|i: int| 0 <= i < rest.len() implies chains.remove(t)[#[trigger] rest[i]] == chains[rest[i]] by {
        if i < k {
            assert(rest[i] == heads[i]);
        } else {
            assert(rest[i] == heads[i + 1]);
        }
    }
    lemma_total_frame(chains.remove(t), chains, rest);
    if k == heads.len() - 1 {
        assert(rest == heads.drop_last());
    } else {
        let h = heads.drop_last();
        assert(h.no_duplicates()) by {
            assert forall|a: int, b: int| 0 <= a < h.len() && 0 <= b < h.len() && a != b implies h[a] != h[b] by {
                assert(h[a] == heads[a] && h[b] == heads[b]);
            }
        }
        lemma_total_remove(chains, h, k);
        assert(h[k] == t);
        assert(rest.drop_last() == h.remove(k));
        assert(rest.last() == heads.last());
        lemma_total_frame(chains.remove(t), chains, h.remove(k));
    }
}

/// A split virtqueue: the descriptor table with the driver's shadow copy,
/// the available ring, the used ring and the free descriptors.
pub struct VirtQueue {
    size: u16,
    /// The table the device reads; never read back for a decision.
    desc: Vec<Descriptor>,
    /// What the driver wrote to the table, which it alone trusts.
    desc_shadow: Vec<Descriptor>,
    /// The buffer each descriptor holds while its chain is in flight.
    lent: Vec<Buffer>,
    avail_flags: u16,
    avail_idx: u16,
    avail_ring: Vec<u16>,
    /// Written by the device.
    used_flags: u16,
    /// Written by the device.
    used_idx: u16,
    /// Written by the device.
    used_ring: Vec<UsedElem>,
    /// The free descriptors; the last one is handed out first.
    free: Vec<u16>,
    last_used_idx: u16,
    /// Which descriptors head a chain that the device holds.
    in_flight: Vec<bool>,
    /// The chain of each head in flight.
    chains: Ghost<Map<u16, Seq<u16>>>,
    /// The heads in flight, each once.
    heads: Ghost<Seq<u16>>,
}

impl VirtQueue {
    /// The number of descriptors, and of slots in each ring.
    pub closed spec fn size_spec(&self) -> nat {
        self.size as nat
    }

    /// How many descriptors are free.
    pub closed spec fn num_free_spec(&self) -> nat {
        self.free@.len()
    }

    /// The free descriptors in order; `add` takes them from the end.
    pub closed spec fn free_list_spec(&self) -> Seq<u16> {
        self.free@
    }

    /// The heads in flight, each once, in the order they were handed out.
    pub closed spec fn heads_spec(&self) -> Seq<u16> {
        self.heads@
    }

    /// The chain of every head in flight.
    pub closed spec fn chains_map_spec(&self) -> Map<u16, Seq<u16>> {
        self.chains@
    }

    /// How many descriptors the chains in flight hold together: the sum of
    /// the lengths of the chains of all heads in flight.
    pub open spec fn outstanding_spec(&self) -> nat {
        chains_total(self.chains_map_spec(), self.heads_spec())
    }

    /// Whether the chain recorded for `t` is the walk from `t` over the
    /// driver's shadow table: it starts at `t`, visits distinct descriptors
    /// below the size, each but the last has `NEXT` set and names the one
    /// after it, and the last has `NEXT` clear.
    pub open spec fn chain_linked(&self, t: u16) -> bool {
        let c = self.chain_spec(t);
        &&& c.len() >= 1
        &&& c[0] == t
        &&& c.no_duplicates()
        &&& forall|i: int| 0 <= i < c.len() ==> (#[trigger] c[i]) < self.size_spec()
        &&& forall|i: int|
            0 <= i < c.len() - 1 ==> links(self.shadow_spec(#[trigger] c[i] as int).flags)
                && self.shadow_spec(c[i] as int).next == c[i + 1]
        &&& !links(self.shadow_spec(c[c.len() - 1] as int).flags)
    }

    /// Whether descriptor `d` is free.
    pub open spec fn is_free_spec(&self, d: u16) -> bool {
        self.free_list_spec().contains(d)
    }

    /// Whether `t` heads a chain that the device holds.
    pub closed spec fn in_flight_spec(&self, t: u16) -> bool {
        self.chains@.dom().contains(t)
    }

    /// The descriptors of the chain headed by `t`, in order.
    pub closed spec fn chain_spec(&self, t: u16) -> Seq<u16> {
        self.chains@[t]
    }

    /// The buffer that descriptor `i` holds.
    pub closed spec fn lent_spec(&self, i: int) -> Buffer {
        self.lent@[i]
    }

    /// The driver's own record of descriptor `i`.
    pub closed spec fn shadow_spec(&self, i: int) -> Descriptor {
        self.desc_shadow@[i]
    }

    /// The descriptor `i` of the table the device reads.
    pub closed spec fn table_spec(&self, i: int) -> Descriptor {
        self.desc@[i]
    }

    pub closed spec fn avail_idx_spec(&self) -> u16 {
        self.avail_idx
    }

    pub closed spec fn avail_ring_spec(&self) -> Seq<u16> {
        self.avail_ring@
    }

    pub closed spec fn used_idx_spec(&self) -> u16 {
        self.used_idx
    }

    pub closed spec fn used_ring_spec(&self) -> Seq<UsedElem> {
        self.used_ring@
    }

    pub closed spec fn used_flags_spec(&self) -> u16 {
        self.used_flags
    }

    /// The used ring index up to which the driver has taken completions.
    pub closed spec fn last_used_spec(&self) -> u16 {
        self.last_used_idx
    }

    /// How many completions the device has published that the driver has not taken.
    pub open spec fn pending(&self) -> nat {
        wrap_dist(self.last_used_spec(), self.used_idx_spec())
    }

    /// The completion the driver takes next.
    pub open spec fn next_used(&self) -> UsedElem {
        self.used_ring_spec()[self.last_used_spec() as int % self.size_spec() as int]
    }

    /// The queue's invariant: the rings and tables have `size` slots; each
    /// chain in flight is linked in the shadow table from its head to its
    /// end; and every descriptor is either free or in exactly one chain.
    pub closed spec fn wf(&self) -> bool {
        let n = self.size as nat;
        &&& is_pow2(n) && n <= MAX_QUEUE_SIZE
        &&& self.desc@.len() == n
        &&& self.desc_shadow@.len() == n
        &&& self.lent@.len() == n
        &&& self.avail_ring@.len() == n
        &&& self.used_ring@.len() == n
        &&& self.in_flight@.len() == n
        &&& self.free@.no_duplicates()
        &&& forall|i: int| 0 <= i < self.free@.len() ==> (#[trigger] self.free@[i]) < n
        &&& forall|h: u16| h < n ==> (self.in_flight@[h as int] <==> #[trigger] self.chains@.dom().contains(h))
        &&& forall|h: u16| #[trigger] self.chains@.dom().contains(h) ==> h < n
        &&& forall|h: u16| #[trigger] self.chains@.dom().contains(h) ==> chain_in(self.desc_shadow@, self.chains@[h]) && self.chains@[h][0] == h
        &&& forall|h: u16, i: int| #[trigger] self.chains@.dom().contains(h) && 0 <= i < self.chains@[h].len()
            ==> !self.free@.contains(#[trigger] self.chains@[h][i])
        &&& forall|h1: u16, h2: u16, i: int, j: int|
            #[trigger] self.chains@.dom().contains(h1) && #[trigger] self.chains@.dom().contains(h2) && h1 != h2
            && 0 <= i < self.chains@[h1].len() && 0 <= j < self.chains@[h2].len()
            ==> #[trigger] self.chains@[h1][i] != #[trigger] self.chains@[h2][j]
        &&& forall|d: u16| d < n ==> #[trigger] self.free@.contains(d) || exists|h: u16|
            #[trigger] self.chains@.dom().contains(h) && self.chains@[h].contains(d)
        &&& self.heads@.no_duplicates()
        &&& forall|h: u16| #[trigger] self.heads@.contains(h) <==> self.chains@.dom().contains(h)
        &&& self.free@.len() + chains_total(self.chains@, self.heads@) == n
    }

    /// Whether `add` refuses `buffers` as a request: an empty list, more
    /// buffers than the queue has descriptors, an empty buffer, or a buffer
    /// lent both ways.
    pub open spec fn invalid_request(&self, buffers: Seq<Buffer>) -> bool {
        buffers.len() == 0 || buffers.len() > self.size_spec() || exists|i: int|
            0 <= i < buffers.len() && (#[trigger] buffers[i].len == 0 || buffers[i].direction
                == BufferDirection::Both)
    }

    /// Whether the ring side of the queue is the same in `self` and `other`:
    /// available ring, used ring and the driver's place in it.
    pub open spec fn same_rings(&self, other: &VirtQueue) -> bool {
        &&& self.size_spec() == other.size_spec()
        &&& self.avail_idx_spec() == other.avail_idx_spec()
        &&& self.avail_ring_spec() == other.avail_ring_spec()
        &&& self.used_idx_spec() == other.used_idx_spec()
        &&& self.used_ring_spec() == other.used_ring_spec()
        &&& self.used_flags_spec() == other.used_flags_spec()
        &&& self.last_used_spec() == other.last_used_spec()
    }

    /// Whether all that the driver writes and trusts is the same in `self`
    /// and `other`: descriptors, free list, chains in flight, the available
    /// ring and the driver's place in the used ring.
    pub open spec fn same_driver_side(&self, other: &VirtQueue) -> bool {
        &&& self.size_spec() == other.size_spec()
        &&& self.num_free_spec() == other.num_free_spec()
        &&& forall|h: u16| #[trigger] self.in_flight_spec(h) == other.in_flight_spec(h)
        &&& forall|h: u16| #[trigger] self.chain_spec(h) == other.chain_spec(h)
        &&& forall|i: int| #[trigger] self.shadow_spec(i) == other.shadow_spec(i)
        &&& forall|i: int| #[trigger] self.table_spec(i) == other.table_spec(i)
        &&& forall|i: int| #[trigger] self.lent_spec(i) == other.lent_spec(i)
        &&& self.avail_idx_spec() == other.avail_idx_spec()
        &&& self.avail_ring_spec() == other.avail_ring_spec()
        &&& self.last_used_spec() == other.last_used_spec()
    }

    /// Whether every chain in flight in `self`, other than `t`'s, is in
    /// flight in `other` with the same descriptors, and the other way round.
    pub open spec fn same_chains_but(&self, other: &VirtQueue, t: u16) -> bool {
        forall|h: u16| h != t ==> {
            &&& (#[trigger] self.in_flight_spec(h) <==> other.in_flight_spec(h))
            &&& (self.in_flight_spec(h) ==> self.chain_spec(h) == other.chain_spec(h))
        }
    }

    /// What `add` does: refuses an invalid request, reports a full queue,
    /// and otherwise takes a chain of free descriptors, one per buffer in
    /// order, and publishes its head in the next slot of the available ring.
    pub open spec fn add_spec(old: VirtQueue, buffers: Seq<Buffer>, new: VirtQueue, r: Result<u16, Error>) -> bool {
        &&& (r == Err::<u16, Error>(Error::InvalidParam)) == old.invalid_request(buffers)
        &&& (r == Err::<u16, Error>(Error::QueueFull)) == (!old.invalid_request(buffers)
            && buffers.len() > old.num_free_spec())
        &&& (r is Ok) == (!old.invalid_request(buffers) && buffers.len() <= old.num_free_spec())
        &&& r is Err ==> new == old
        &&& r matches Ok(t) ==> {
            &&& !old.in_flight_spec(t)
            &&& new.in_flight_spec(t)
            &&& new.chain_spec(t).len() == buffers.len()
            &&& new.chain_linked(t)
            &&& new.free_list_spec() == old.free_list_spec().subrange(
                0,
                old.num_free_spec() - buffers.len(),
            )
            &&& forall|i: int| 0 <= i < buffers.len() ==> #[trigger] new.chain_spec(t)[i]
                == old.free_list_spec()[old.num_free_spec() - 1 - i] && old.is_free_spec(new.chain_spec(t)[i])
                && !new.is_free_spec(new.chain_spec(t)[i])
            &&& new.num_free_spec() == old.num_free_spec() - buffers.len()
            &&& new.same_chains_but(&old, t)
            &&& forall|i: int| 0 <= i < buffers.len() ==> {
                let d = #[trigger] new.chain_spec(t)[i] as int;
                &&& new.lent_spec(d) == buffers[i]
                &&& new.shadow_spec(d).len == buffers[i].len
                &&& new.table_spec(d) == new.shadow_spec(d)
                &&& new.shadow_spec(d).flags.bits == buf_flags(
                    DescFlags { bits: if i + 1 < buffers.len() { DESC_F_NEXT } else { 0 } },
                    buffers[i].direction,
                )
            }
            &&& new.size_spec() == old.size_spec()
            &&& new.avail_idx_spec() == wrap_inc(old.avail_idx_spec())
            &&& new.avail_ring_spec() == old.avail_ring_spec().update(
                old.avail_idx_spec() as int % old.size_spec() as int,
                t,
            )
            &&& new.used_idx_spec() == old.used_idx_spec()
            &&& new.used_ring_spec() == old.used_ring_spec()
            &&& new.used_flags_spec() == old.used_flags_spec()
            &&& new.last_used_spec() == old.last_used_spec()
        }
    }

    /// What `pop_used` does with `token`: nothing pending gives `Ok(None)`; a
    /// completion of another chain gives `WrongToken`; a token not in flight
    /// gives `AlreadyUsed`; otherwise the chain is freed and the device's
    /// length returned. Only the last case changes the queue.
    pub open spec fn pop_used_spec(old: VirtQueue, token: u16, new: VirtQueue, r: Result<Option<u32>, Error>) -> bool {
        &&& old.pending() == 0 ==> r == Ok::<Option<u32>, Error>(None)
        &&& old.pending() > 0 && old.next_used().id != token as u32 ==> r == Err::<Option<u32>, Error>(
            Error::WrongToken,
        )
        &&& old.pending() > 0 && old.next_used().id == token as u32 && !old.in_flight_spec(token) ==> r
            == Err::<Option<u32>, Error>(Error::AlreadyUsed)
        &&& old.pending() > 0 && old.next_used().id == token as u32 && old.in_flight_spec(token) ==> r
            == Ok::<Option<u32>, Error>(Some(old.next_used().len))
        &&& !(r matches Ok(Some(_))) ==> new == old
        &&& r matches Ok(Some(_)) ==> {
            &&& !new.in_flight_spec(token)
            &&& old.chain_linked(token)
            &&& new.free_list_spec() == old.free_list_spec() + old.chain_spec(token)
            &&& forall|i: int| 0 <= i < old.chain_spec(token).len() ==> new.is_free_spec(
                #[trigger] old.chain_spec(token)[i],
            )
            &&& forall|d: u16| #[trigger] old.is_free_spec(d) ==> new.is_free_spec(d)
            &&& new.num_free_spec() == old.num_free_spec() + old.chain_spec(token).len()
            &&& new.same_chains_but(&old, token)
            &&& forall|i: int| 0 <= i < old.chain_spec(token).len() ==> {
                let d = #[trigger] old.chain_spec(token)[i] as int;
                &&& new.shadow_spec(d).addr == 0
                &&& new.shadow_spec(d).len == 0
                &&& new.table_spec(d) == new.shadow_spec(d)
            }
            &&& new.last_used_spec() == wrap_inc(old.last_used_spec())
            &&& new.size_spec() == old.size_spec()
            &&& new.avail_idx_spec() == old.avail_idx_spec()
            &&& new.avail_ring_spec() == old.avail_ring_spec()
            &&& new.used_idx_spec() == old.used_idx_spec()
            &&& new.used_ring_spec() == old.used_ring_spec()
            &&& new.used_flags_spec() == old.used_flags_spec()
        }
    }

    /// What the device does to publish a completion: it writes the next used
    /// ring slot and advances the used index; the driver's side stays.
    pub open spec fn device_push_used_spec(old: VirtQueue, id: u32, len: u32, new: VirtQueue) -> bool {
        &&& new.used_ring_spec() == old.used_ring_spec().update(
            old.used_idx_spec() as int % old.size_spec() as int,
            UsedElem { id, len },
        )
        &&& new.used_idx_spec() == wrap_inc(old.used_idx_spec())
        &&& new.used_flags_spec() == old.used_flags_spec()
        &&& new.same_driver_side(&old)
    }

    /// Submits the buffers as one chain of descriptors and publishes its head
    /// to the device; the head is the token of the request.
    ///
    /// Each buffer is shared with the device and gets one descriptor, in the
    /// order given; the device writes exactly those lent `DeviceToDriver`.
    /// Fails with `InvalidParam` on a request that can never be served and
    /// with `QueueFull` when fewer descriptors are free than buffers given;
    /// a failed call changes nothing.
    #[verifier::rlimit(80)]
    #[verifier::spinoff_prover]
    pub fn add<H: Hal>(&mut self, hal: &mut H, buffers: &[Buffer]) -> (r: Result<u16, Error>)
        requires
            old(self).wf(),
        ensures
            final(self).wf(),
            Self::add_spec(*old(self), buffers@, *final(self), r),

    {
        let n = buffers.len();
        if n == 0 || n > self.size as usize {
            return Err(Error::InvalidParam);
        }
        let mut i: usize = 0;
        while i < n
            invariant
                n == buffers@.len(),
                *self == *old(self),
                self.wf(),
                forall|k: int| 0 <= k < i ==> (#[trigger] buffers@[k]).len != 0 && buffers@[k].direction
                    != BufferDirection::Both,
            decreases n - i,
        {
            if buffers[i].len == 0 || buffers[i].direction == BufferDirection::Both {
                return Err(Error::InvalidParam);
            }
            i = i + 1;
        }
        if n > self.free.len() {
            return Err(Error::QueueFull);
        }
        let ghost old_q = *self;
        let ghost f0 = self.free@;
        // Take the descriptors off the free list, in chain order.
        let mut chain: Vec<u16> = Vec::new();
        while chain.len() < n
            invariant
                n <= f0.len(),
                chain@.len() <= n,
                self.free@ == f0.subrange(0, f0.len() - chain@.len()),
                forall|k: int| 0 <= k < chain@.len() ==> #[trigger] chain@[k] == f0[f0.len() - 1 - k],
                self.size == old_q.size,
                self.desc == old_q.desc,
                self.desc_shadow == old_q.desc_shadow,
                self.lent == old_q.lent,
                self.avail_idx == old_q.avail_idx,
                self.avail_ring == old_q.avail_ring,
                self.used_ring == old_q.used_ring,
                self.used_idx == old_q.used_idx,
                self.used_flags == old_q.used_flags,
                self.last_used_idx == old_q.last_used_idx,
                self.avail_flags == old_q.avail_flags,
                self.in_flight == old_q.in_flight,
                self.chains == old_q.chains,
                self.heads == old_q.heads,
            decreases n - chain@.len(),
        {
            let d = self.free.pop().unwrap();
            chain.push(d);
        }
        assert(chain@.no_duplicates()) by {
            assert forall|a: int, b: int| 0 <= a < chain@.len() && 0 <= b < chain@.len() && a != b
                implies chain@[a] != chain@[b] by {
                assert(chain@[a] == f0[f0.len() - 1 - a]);
                assert(chain@[b] == f0[f0.len() - 1 - b]);
            }
        }
        assert forall|k: int| 0 <= k < chain@.len() implies f0.contains(#[trigger] chain@[k]) && !self.free@.contains(chain@[k]) by {
            assert(chain@[k] == f0[f0.len() - 1 - k]);
            if self.free@.contains(chain@[k]) {
                let j = choose|j: int| 0 <= j < self.free@.len() && self.free@[j] == chain@[k];
                assert(f0[j] == f0[f0.len() - 1 - k]);
            }
        }
        // Share each buffer and write its descriptor, linked to the next.
        let mut j: usize = 0;
        while j < n
            invariant
                n == buffers@.len(),
                n == chain@.len(),
                j <= n,
                n <= f0.len(),
                old_q.wf(),
                chain@.no_duplicates(),
                forall|k: int| 0 <= k < n ==> #[trigger] chain@[k] < self.size,
                forall|k: int| 0 <= k < n ==> f0.contains(#[trigger] chain@[k]),
                forall|k: int| 0 <= k < n ==> (#[trigger] buffers@[k]).direction != BufferDirection::Both,
                f0 == old_q.free@,
                self.size == old_q.size,
                self.desc@.len() == old_q.desc@.len(),
                self.desc_shadow@.len() == old_q.desc_shadow@.len(),
                self.lent@.len() == old_q.lent@.len(),
                self.free@ == f0.subrange(0, f0.len() - n),
                self.avail_idx == old_q.avail_idx,
                self.avail_ring == old_q.avail_ring,
                self.used_ring == old_q.used_ring,
                self.used_idx == old_q.used_idx,
                self.used_flags == old_q.used_flags,
                self.last_used_idx == old_q.last_used_idx,
                self.avail_flags == old_q.avail_flags,
                self.in_flight == old_q.in_flight,
                self.chains == old_q.chains,
                self.heads == old_q.heads,
                forall|x: int| 0 <= x < self.desc_shadow@.len() && !chain@.contains(x as u16) ==> {
                    &&& #[trigger] self.desc_shadow@[x] == old_q.desc_shadow@[x]
                    &&& self.desc@[x] == old_q.desc@[x]
                    &&& self.lent@[x] == old_q.lent@[x]
                },
                forall|k: int| 0 <= k < j ==> {
                    let d = #[trigger] chain@[k] as int;
                    &&& self.lent@[d] == buffers@[k]
                    &&& self.desc_shadow@[d].len == buffers@[k].len
                    &&& self.desc@[d] == self.desc_shadow@[d]
                    &&& self.desc_shadow@[d].flags.bits == buf_flags(
                        DescFlags { bits: if k + 1 < n { DESC_F_NEXT } else { 0 } },
                        buffers@[k].direction,
                    )
                    &&& (k + 1 < n ==> links(self.desc_shadow@[d].flags) && self.desc_shadow@[d].next == chain@[k + 1])
                    &&& (k + 1 == n ==> !links(self.desc_shadow@[d].flags))
                },
            decreases n - j,
        {
            let d = chain[j] as usize;
            let buf = buffers[j];
            let addr = hal.share(buf);
            let mut entry = self.desc_shadow[d];
            let extra = if j + 1 < n { DescFlags::next_only() } else { DescFlags::empty() };
            entry.set_buf(addr, buf.len, buf.direction, extra);
            if j + 1 < n {
                entry.next = chain[j + 1];
            }
            proof {
                let b = extra.bits;
                assert(b == 1u16 ==> (b | 2u16) & 1u16 == 1u16 && b & 1u16 == 1u16) by (bit_vector);
                assert(b == 0u16 ==> (b | 2u16) & 1u16 != 1u16 && b & 1u16 != 1u16) by (bit_vector);
            }
            self.desc_shadow.set(d, entry);
            self.desc.set(d, entry);
            self.lent.set(d, buf);
            proof {
                assert forall|k: int| 0 <= k < j implies chain@[k] != d as u16 by {
                    assert(chain@[j as int] == d as u16);
                }
                assert forall|x: int| 0 <= x < self.desc_shadow@.len() && !chain@.contains(x as u16) implies {
                    &&& #[trigger] self.desc_shadow@[x] == old_q.desc_shadow@[x]
                    &&& self.desc@[x] == old_q.desc@[x]
                    &&& self.lent@[x] == old_q.lent@[x]
                } by {
                    if x == d {
                        assert(chain@[j as int] == x as u16);
                    }
                }
            }
            j = j + 1;
        }
        // Publish the head: the ring slot is written before the index that
        // makes it visible to the device.
        let head = chain[0];
        let slot = (self.avail_idx as usize) % (self.size as usize);
        self.avail_ring.set(slot, head);
        self.avail_idx = next_index(self.avail_idx);
        self.in_flight.set(head as usize, true);
        proof {
            lemma_total_insert(self.chains@, self.heads@, head, chain@);
            self.chains@ = self.chains@.insert(head, chain@);
            self.heads@ = self.heads@.push(head);
            assert forall|h: u16| #[trigger] self.heads@.contains(h) <==> self.chains@.dom().contains(h) by {
                if h != head && self.heads@.contains(h) {
                    let a = choose|a: int| 0 <= a < self.heads@.len() && self.heads@[a] == h;
                    assert(old_q.heads@[a] == h);
                }
                if h != head && old_q.heads@.contains(h) {
                    let a = choose|a: int| 0 <= a < old_q.heads@.len() && old_q.heads@[a] == h;
                    assert(self.heads@[a] == h);
                }
                assert(self.heads@[old_q.heads@.len() as int] == head);
            }
            assert(self.heads@.no_duplicates()) by {
                assert(!old_q.heads@.contains(head));
                assert forall|a: int, b: int| 0 <= a < self.heads@.len() && 0 <= b < self.heads@.len() && a != b
                    implies self.heads@[a] != self.heads@[b] by {
                    if a == old_q.heads@.len() as int {
                        assert(old_q.heads@.contains(self.heads@[b]));
                    } else if b == old_q.heads@.len() as int {
                        assert(old_q.heads@.contains(self.heads@[a]));
                    }
                }
            }
            assert(!old_q.chains@.dom().contains(head)) by {
                assert(f0.contains(chain@[0]));
            }
            assert(chain_in(self.desc_shadow@, chain@)) by {
                assert forall|k: int| 0 <= k < chain@.len() - 1 implies links(self.desc_shadow@[#[trigger] chain@[k] as int].flags)
                    && self.desc_shadow@[chain@[k] as int].next == chain@[k + 1] by {}
                let last = chain@.len() - 1;
                assert(!links(self.desc_shadow@[chain@[last] as int].flags));
            }
            assert forall|h: u16| #[trigger] self.chains@.dom().contains(h) && h != head
                implies chain_in(self.desc_shadow@, self.chains@[h]) by {
                let c = self.chains@[h];
                assert(chain_in(old_q.desc_shadow@, c));
                assert forall|x: int| 0 <= x < c.len() implies !chain@.contains(#[trigger] c[x]) by {
                    if chain@.contains(c[x]) {
                        let k = choose|k: int| 0 <= k < chain@.len() && chain@[k] == c[x];
                        assert(f0.contains(chain@[k]));
                    }
                }
                assert forall|x: int| 0 <= x < c.len() implies self.desc_shadow@[#[trigger] c[x] as int]
                    == old_q.desc_shadow@[c[x] as int] by {
                    assert(!chain@.contains(c[x]));
                }
            }
            assert forall|h: u16, i: int| #[trigger] self.chains@.dom().contains(h) && 0 <= i < self.chains@[h].len()
                implies !self.free@.contains(#[trigger] self.chains@[h][i]) by {
                if h == head {
                    assert(self.chains@[h][i] == chain@[i]);
                    assert(f0.contains(chain@[i]));
                    if self.free@.contains(chain@[i]) {
                        let a = choose|a: int| 0 <= a < self.free@.len() && self.free@[a] == chain@[i];
                        let b = choose|b: int| 0 <= b < f0.len() && f0[b] == chain@[i];
                        assert(f0[a] == chain@[i]);
                    }
                } else {
                    assert(old_q.chains@.dom().contains(h));
                    if self.free@.contains(self.chains@[h][i]) {
                        let a = choose|a: int| 0 <= a < self.free@.len() && self.free@[a] == self.chains@[h][i];
                        assert(f0[a] == self.chains@[h][i]);
                    }
                }
            }
            assert forall|h1: u16, h2: u16, i: int, j: int|
                #[trigger] self.chains@.dom().contains(h1) && #[trigger] self.chains@.dom().contains(h2) && h1 != h2
                && 0 <= i < self.chains@[h1].len() && 0 <= j < self.chains@[h2].len()
                implies #[trigger] self.chains@[h1][i] != #[trigger] self.chains@[h2][j] by {
                if h1 == head {
                    assert(f0.contains(chain@[i]));
                    assert(!old_q.free@.contains(old_q.chains@[h2][j]));
                } else if h2 == head {
                    assert(f0.contains(chain@[j]));
                    assert(!old_q.free@.contains(old_q.chains@[h1][i]));
                } else {
                }
            }
            assert forall|i: int| 0 <= i < self.free@.len() implies (#[trigger] self.free@[i]) < self.size by {
                assert(self.free@[i] == f0[i]);
            }
            assert(self.free@.no_duplicates()) by {
                assert forall|a: int, b: int| 0 <= a < self.free@.len() && 0 <= b < self.free@.len() && a != b
                    implies self.free@[a] != self.free@[b] by {
                    assert(self.free@[a] == f0[a] && self.free@[b] == f0[b]);
                }
            }
            assert forall|d: u16| d < self.size implies #[trigger] self.free@.contains(d) || exists|h: u16|
                #[trigger] self.chains@.dom().contains(h) && self.chains@[h].contains(d) by {
                if f0.contains(d) {
                    if !self.free@.contains(d) {
                        let a = choose|a: int| 0 <= a < f0.len() && f0[a] == d;
                        if a < f0.len() - n {
                            assert(self.free@[a] == d);
                        }
                        let k = f0.len() - 1 - a;
                        assert(chain@[k] == d);
                        assert(self.chains@[head][k] == d);
                        assert(self.chains@.dom().contains(head));
                    }
                } else {
                    assert(old_q.free@.contains(d) || exists|h: u16|
                        #[trigger] old_q.chains@.dom().contains(h) && old_q.chains@[h].contains(d));
                    let h = choose|h: u16| #[trigger] old_q.chains@.dom().contains(h) && old_q.chains@[h].contains(d);
                    assert(self.chains@.dom().contains(h));
                }
            }
        }
        assert forall|i: int| 0 <= i < n implies {
            let d = #[trigger] self.chain_spec(head)[i];
            &&& self.lent_spec(d as int) == buffers@[i]
            &&& self.shadow_spec(d as int).len == buffers@[i].len
            &&& self.table_spec(d as int) == self.shadow_spec(d as int)
            &&& self.shadow_spec(d as int).flags.bits == buf_flags(
                DescFlags { bits: if i + 1 < n { DESC_F_NEXT } else { 0 } },
                buffers@[i].direction,
            )
        } by {
            assert(self.chain_spec(head)[i] == chain@[i]);
        }
        Ok(head)
    }

    /// Takes the next completion from the used ring, expecting it to be for
    /// the chain headed by `token`.
    ///
    /// With no completion pending it returns `Ok(None)` and changes nothing.
    /// It fails with `WrongToken` when the completion names another chain, and
    /// with `AlreadyUsed` when `token` heads no chain in flight; either way
    /// nothing changes. Otherwise it unshares every buffer of the chain, frees
    /// its descriptors and returns the length the device reported.
    #[verifier::rlimit(100)]
    #[verifier::spinoff_prover]
    pub fn pop_used<H: Hal>(&mut self, hal: &mut H, token: u16) -> (r: Result<Option<u32>, Error>)
        requires
            old(self).wf(),
        ensures
            final(self).wf(),
            Self::pop_used_spec(*old(self), token, *final(self), r),

    {
        if self.last_used_idx == self.used_idx {
            proof {
                assert(self.pending() == 0);
            }
            return Ok(None);
        }
        proof {
            assert(self.pending() > 0);
        }
        let slot = (self.last_used_idx as usize) % (self.size as usize);
        let elem = self.used_ring[slot];
        if elem.id != token as u32 {
            return Err(Error::WrongToken);
        }
        if token >= self.size || !self.in_flight[token as usize] {
            return Err(Error::AlreadyUsed);
        }
        let ghost old_q = *self;
        let ghost c = self.chains@[token];
        proof {
            assert(self.in_flight@[token as int]);
            assert(self.chains@.dom().contains(token));
            assert(chain_in(self.desc_shadow@, c));
        }
        // Walk the shadow chain, never the table the device can write.
        let mut cur: u16 = token;
        let ghost mut k: int = 0;
        loop
            invariant_except_break
                0 <= k < c.len(),
                cur == c[k],
                self.free@ == old_q.free@ + c.subrange(0, k),
                forall|x: int| 0 <= x < self.desc_shadow@.len() && !c.subrange(0, k).contains(x as u16) ==> {
                    &&& #[trigger] self.desc_shadow@[x] == old_q.desc_shadow@[x]
                    &&& self.desc@[x] == old_q.desc@[x]
                },
                forall|i: int| 0 <= i < k ==> {
                    let d = #[trigger] c[i] as int;
                    &&& self.desc_shadow@[d].addr == 0
                    &&& self.desc_shadow@[d].len == 0
                    &&& self.desc@[d] == self.desc_shadow@[d]
                },
            invariant
                old_q.wf(),
                0 <= k < c.len(),
                chain_in(old_q.desc_shadow@, c),
                old_q.chains@.dom().contains(token),
                c == old_q.chains@[token],
                self.size == old_q.size,
                self.desc@.len() == old_q.desc@.len(),
                self.desc_shadow@.len() == old_q.desc_shadow@.len(),
                forall|x: int| 0 <= x < self.desc_shadow@.len() ==> {
                    &&& (#[trigger] self.desc_shadow@[x]).flags == old_q.desc_shadow@[x].flags
                    &&& self.desc_shadow@[x].next == old_q.desc_shadow@[x].next
                },
                self.lent == old_q.lent,
                self.avail_flags == old_q.avail_flags,
                self.avail_idx == old_q.avail_idx,
                self.avail_ring == old_q.avail_ring,
                self.used_ring == old_q.used_ring,
                self.used_idx == old_q.used_idx,
                self.used_flags == old_q.used_flags,
                self.last_used_idx == old_q.last_used_idx,
                self.in_flight == old_q.in_flight,
                self.chains == old_q.chains,
                self.heads == old_q.heads,
            ensures
                k == c.len() - 1,
                self.free@ == old_q.free@ + c.subrange(0, k + 1),
                forall|x: int| 0 <= x < self.desc_shadow@.len() && !c.contains(x as u16) ==> {
                    &&& #[trigger] self.desc_shadow@[x] == old_q.desc_shadow@[x]
                    &&& self.desc@[x] == old_q.desc@[x]
                },
                forall|i: int| 0 <= i < c.len() ==> {
                    let d = #[trigger] c[i] as int;
                    &&& self.desc_shadow@[d].addr == 0
                    &&& self.desc_shadow@[d].len == 0
                    &&& self.desc@[d] == self.desc_shadow@[d]
                },
            decreases c.len() - k,
        {
            let d = cur as usize;
            proof {
                assert(c[k] < old_q.desc_shadow@.len());
            }
            let mut entry = self.desc_shadow[d];
            hal.unshare(entry.addr, self.lent[d]);
            entry.unset_buf();
            self.desc_shadow.set(d, entry);
            self.desc.set(d, entry);
            self.free.push(cur);
            proof {
                assert(c.subrange(0, k + 1) == c.subrange(0, k).push(cur));
                assert(c.subrange(0, k + 1)[k] == cur);
                assert(c.subrange(0, k + 1).contains(cur));
                assert forall|x: int| 0 <= x < self.desc_shadow@.len() && !c.subrange(0, k + 1).contains(#[trigger] (x as u16))
                    implies x != d by {
                    if x == d {
                        assert(c.subrange(0, k + 1)[k] == cur);
                    }
                }
            }
            proof {
                assert forall|i: int| 0 <= i < k + 1 implies {
                    let d = #[trigger] c[i] as int;
                    &&& self.desc_shadow@[d].addr == 0
                    &&& self.desc_shadow@[d].len == 0
                    &&& self.desc@[d] == self.desc_shadow@[d]
                } by {}
                if k + 1 == c.len() {
                    assert(c.subrange(0, k + 1) == c);
                }
            }
            match entry.next() {
                Some(nx) => {
                    proof {
                        assert(k + 1 < c.len());
                    }
                    cur = nx;
                    proof {
                        k = k + 1;
                    }
                },
                None => {
                    break;
                },
            }
        }
        self.last_used_idx = next_index(self.last_used_idx);
        self.in_flight.set(token as usize, false);
        proof {
            assert(self.heads@.contains(token));
            let k = choose|k: int| 0 <= k < self.heads@.len() && self.heads@[k] == token;
            lemma_total_remove(self.chains@, self.heads@, k);
            self.chains@ = self.chains@.remove(token);
            self.heads@ = self.heads@.remove(k);
            assert(c.subrange(0, c.len() as int) == c);
            assert(self.free@ == old_q.free@ + c);
            assert forall|i: int| 0 <= i < c.len() implies self.free@.contains(#[trigger] c[i]) by {
                assert(self.free@[old_q.free@.len() + i] == c[i]);
            }
            assert forall|d: u16| #[trigger] old_q.free@.contains(d) implies self.free@.contains(d) by {
                let a = choose|a: int| 0 <= a < old_q.free@.len() && old_q.free@[a] == d;
                assert(self.free@[a] == d);
            }
            let hs = old_q.heads@;
            assert forall|h: u16| #[trigger] self.heads@.contains(h) <==> self.chains@.dom().contains(h) by {
                if self.heads@.contains(h) {
                    let a = choose|a: int| 0 <= a < self.heads@.len() && self.heads@[a] == h;
                    if a < k {
                        assert(hs[a] == h);
                    } else {
                        assert(hs[a + 1] == h);
                    }
                    assert(hs.contains(h));
                }
                if h != token && hs.contains(h) {
                    let a = choose|a: int| 0 <= a < hs.len() && hs[a] == h;
                    if a < k {
                        assert(self.heads@[a] == h);
                    } else {
                        assert(self.heads@[a - 1] == h);
                    }
                }
            }
            assert(self.heads@.no_duplicates()) by {
                assert forall|a: int, b: int| 0 <= a < self.heads@.len() && 0 <= b < self.heads@.len() && a != b
                    implies self.heads@[a] != self.heads@[b] by {
                    let a1 = if a < k { a } else { a + 1 };
                    let b1 = if b < k { b } else { b + 1 };
                    assert(self.heads@[a] == hs[a1] && self.heads@[b] == hs[b1]);
                }
            }
            assert forall|d: u16| d < self.size implies #[trigger] self.free@.contains(d) || exists|h: u16|
                #[trigger] self.chains@.dom().contains(h) && self.chains@[h].contains(d) by {
                if old_q.free@.contains(d) {
                    let a = choose|a: int| 0 <= a < old_q.free@.len() && old_q.free@[a] == d;
                    assert(self.free@[a] == d);
                } else {
                    let h = choose|h: u16| #[trigger] old_q.chains@.dom().contains(h) && old_q.chains@[h].contains(d);
                    if h == token {
                        let i = choose|i: int| 0 <= i < c.len() && c[i] == d;
                        assert(self.free@[old_q.free@.len() + i] == d);
                    } else {
                        assert(self.chains@.dom().contains(h));
                    }
                }
            }
        }
        Ok(Some(elem.len))
    }

    /// Returns the next completion without taking it, or `None` when the
    /// device has published none that the driver has not taken.
    pub fn peek_used(&self) -> (r: Option<UsedElem>)
        requires
            self.wf(),
        ensures
            r == (if self.pending() == 0 { None } else { Some(self.next_used()) }),
    {
        if self.last_used_idx == self.used_idx {
            None
        } else {
            Some(self.used_ring[(self.last_used_idx as usize) % (self.size as usize)])
        }
    }

    /// Whether the device wants to be notified of new buffers: it is, unless
    /// it set the no-notify flag in the used ring.
    pub fn should_notify(&self) -> (r: bool)
        ensures
            r == (self.used_flags_spec() & USED_F_NO_NOTIFY == 0),
    {
        self.used_flags & USED_F_NO_NOTIFY == 0
    }

    /// Rings the transport's doorbell for queue `queue` when the device wants
    /// to be notified; returns whether it did.
    pub fn notify<T: Transport>(&self, transport: &mut T, queue: u16) -> (r: bool)
        ensures
            r == (self.used_flags_spec() & USED_F_NO_NOTIFY == 0),
    {
        if self.should_notify() {
            transport.notify(queue);
            true
        } else {
            false
        }
    }

    /// The device's side: publishes a completion of chain `id` with `len`
    /// bytes written, in the next used ring slot, then advances the used index.
    /// Nothing the device writes here is trusted by the driver.
    pub fn device_push_used(&mut self, id: u32, len: u32)
        requires
            old(self).wf(),
        ensures
            final(self).wf(),
            Self::device_push_used_spec(*old(self), id, len, *final(self)),

    {
        let slot = (self.used_idx as usize) % (self.size as usize);
        self.used_ring.set(slot, UsedElem { id, len });
        self.used_idx = next_index(self.used_idx);
        proof {
            Self::lemma_device_write_keeps_wf(*old(self), *self);
        }
    }

    /// What the device writes, the used ring and its index and flags, has no
    /// part in the queue's invariant.
    proof fn lemma_device_write_keeps_wf(q0: VirtQueue, q1: VirtQueue)
        requires
            q0.wf(),
            q1.used_ring@.len() == q0.used_ring@.len(),
            q1.size == q0.size,
            q1.desc == q0.desc,
            q1.desc_shadow == q0.desc_shadow,
            q1.lent == q0.lent,
            q1.avail_ring == q0.avail_ring,
            q1.free == q0.free,
            q1.in_flight == q0.in_flight,
            q1.chains == q0.chains,
            q1.heads == q0.heads,
        ensures
            q1.wf(),
    {
        assert forall|d: u16| d < q1.size implies #[trigger] q1.free@.contains(d) || exists|h: u16|
            #[trigger] q1.chains@.dom().contains(h) && q1.chains@[h].contains(d) by {
            if !q0.free@.contains(d) {
                let h = choose|h: u16| #[trigger] q0.chains@.dom().contains(h) && q0.chains@[h].contains(d);
                assert(q1.chains@.dom().contains(h));
            }
        }
    }

    /// The device's side: sets the used ring flags.
    pub fn device_set_used_flags(&mut self, flags: u16)
        requires
            old(self).wf(),
        ensures
            final(self).wf(),
            final(self).used_flags_spec() == flags,
            final(self).used_idx_spec() == old(self).used_idx_spec(),
            final(self).used_ring_spec() == old(self).used_ring_spec(),
            final(self).same_driver_side(old(self)),
    {
        self.used_flags = flags;
        proof {
            Self::lemma_device_write_keeps_wf(*old(self), *self);
        }
    }

    /// The number of descriptors, and of slots in each ring.
    pub fn size(&self) -> (r: u16)
        ensures
            r == self.size_spec(),
    {
        self.size
    }

    /// How many descriptors are free.
    pub fn num_free(&self) -> (r: usize)
        ensures
            r == self.num_free_spec(),
    {
        self.free.len()
    }

    /// Whether `token` heads a chain that the device holds.
    pub fn is_in_flight(&self, token: u16) -> (r: bool)
        requires
            self.wf(),
        ensures
            r == self.in_flight_spec(token),
    {
        if token < self.size {
            proof {
                assert(self.in_flight@[token as int] <==> self.chains@.dom().contains(token));
            }
            self.in_flight[token as usize]
        } else {
            false
        }
    }

    /// The available ring index: how many chains the driver has published,
    /// modulo 2^16.
    pub fn avail_idx(&self) -> (r: u16)
        ensures
            r == self.avail_idx_spec(),
    {
        self.avail_idx
    }

    /// The chain head in slot `slot` of the available ring.
    pub fn avail_entry(&self, slot: u16) -> (r: u16)
        requires
            self.wf(),
            slot < self.size_spec(),
        ensures
            r == self.avail_ring_spec()[slot as int],
    {
        self.avail_ring[slot as usize]
    }

    /// The used ring index the device has published.
    pub fn used_idx(&self) -> (r: u16)
        ensures
            r == self.used_idx_spec(),
    {
        self.used_idx
    }

    /// The used ring index up to which the driver has taken completions.
    pub fn last_used_idx(&self) -> (r: u16)
        ensures
            r == self.last_used_spec(),
    {
        self.last_used_idx
    }

    /// A well-formed queue has a power-of-two size within the bound.
    pub proof fn lemma_wf_size(&self)
        requires
            self.wf(),
        ensures
            is_pow2(self.size_spec()),
            1 <= self.size_spec() <= MAX_QUEUE_SIZE,
            self.avail_ring_spec().len() == self.size_spec(),
            self.used_ring_spec().len() == self.size_spec(),
    {
    }

    /// No descriptor is lost or shared: in a well-formed queue each
    /// descriptor is either free or in the chain of exactly one head in
    /// flight, and never both.
    pub proof fn lemma_descriptor_accounting(&self)
        requires
            self.wf(),
        ensures
            forall|d: u16| d < self.size_spec() ==> #[trigger] self.is_free_spec(d) || exists|h: u16|
                #[trigger] self.in_flight_spec(h) && self.chain_spec(h).contains(d),
            forall|d: u16, h: u16| #[trigger] self.is_free_spec(d) && #[trigger] self.in_flight_spec(h)
                ==> !self.chain_spec(h).contains(d),
            forall|d: u16, h1: u16, h2: u16|
                #[trigger] self.in_flight_spec(h1) && #[trigger] self.in_flight_spec(h2) && h1 != h2
                && #[trigger] self.chain_spec(h1).contains(d) ==> !self.chain_spec(h2).contains(d),
            forall|d: u16| #[trigger] self.is_free_spec(d) ==> d < self.size_spec(),
            self.num_free_spec() + self.outstanding_spec() == self.size_spec(),
            self.heads_spec().no_duplicates(),
            forall|h: u16| #[trigger] self.heads_spec().contains(h) <==> self.in_flight_spec(h),
            forall|h: u16| #[trigger] self.chains_map_spec()[h] == self.chain_spec(h),
            forall|h: u16| #[trigger] self.in_flight_spec(h) ==> self.chain_linked(h) && h < self.size_spec(),
    {
        assert forall|h: u16| #[trigger] self.in_flight_spec(h) implies self.chain_linked(h) && h < self.size_spec() by {
            assert(chain_in(self.desc_shadow@, self.chains@[h]));
        }
        assert forall|d: u16, h: u16| #[trigger] self.is_free_spec(d) && #[trigger] self.in_flight_spec(h)
            implies !self.chain_spec(h).contains(d) by {
            if self.chain_spec(h).contains(d) {
                let i = choose|i: int| 0 <= i < self.chains@[h].len() && self.chains@[h][i] == d;
                assert(!self.free@.contains(self.chains@[h][i]));
            }
        }
        assert forall|d: u16, h1: u16, h2: u16|
            #[trigger] self.in_flight_spec(h1) && #[trigger] self.in_flight_spec(h2) && h1 != h2
            && #[trigger] self.chain_spec(h1).contains(d) implies !self.chain_spec(h2).contains(d) by {
            if self.chain_spec(h2).contains(d) {
                let i = choose|i: int| 0 <= i < self.chains@[h1].len() && self.chains@[h1][i] == d;
                let j = choose|j: int| 0 <= j < self.chains@[h2].len() && self.chains@[h2][j] == d;
                assert(self.chains@[h1][i] != self.chains@[h2][j]);
            }
        }
        assert forall|d: u16| #[trigger] self.is_free_spec(d) implies d < self.size_spec() by {
            let a = choose|a: int| 0 <= a < self.free@.len() && self.free@[a] == d;
            assert(self.free@[a] < self.size);
        }
        assert forall|d: u16| d < self.size_spec() implies #[trigger] self.is_free_spec(d) || exists|h: u16|
            #[trigger] self.in_flight_spec(h) && self.chain_spec(h).contains(d) by {
            assert(self.free@.contains(d) || exists|h: u16|
                #[trigger] self.chains@.dom().contains(h) && self.chains@[h].contains(d));
            if !self.free@.contains(d) {
                let h = choose|h: u16| #[trigger] self.chains@.dom().contains(h) && self.chains@[h].contains(d);
                assert(self.in_flight_spec(h));
            }
        }
    }

    /// Creates a queue of `size` descriptors for a transport that allows at
    /// most `max_size`. Fails with `InvalidParam` unless `size` is a power of
    /// two no larger than either bound. All descriptors start free.
    pub fn new(size: usize, max_size: u32) -> (r: Result<VirtQueue, Error>)
        ensures
            r is Ok <==> valid_size(size as nat, max_size as nat),
            r is Err ==> r == Err::<VirtQueue, Error>(Error::InvalidParam),
            r matches Ok(q) ==> q.wf() && q.size_spec() == size && q.num_free_spec() == size
                && (forall|t: u16| !q.in_flight_spec(t)) && q.avail_idx_spec() == 0 && q.used_idx_spec() == 0
                && q.last_used_spec() == 0 && q.used_flags_spec() == 0
                && q.free_list_spec().len() == size
                && (forall|k: int| 0 <= k < size ==> #[trigger] q.free_list_spec()[k] == size - 1 - k)
                && (forall|i: int| 0 <= i < size ==> {
                    &&& (#[trigger] q.shadow_spec(i)).addr == 0 && q.shadow_spec(i).len == 0
                    &&& q.shadow_spec(i).flags.bits == 0 && q.shadow_spec(i).next == 0
                    &&& q.table_spec(i) == q.shadow_spec(i)
                }),
    {
        if !is_power_of_two(size) || size > max_size as usize || size > MAX_QUEUE_SIZE {
            return Err(Error::InvalidParam);
        }
        let mut desc: Vec<Descriptor> = Vec::new();
        let mut desc_shadow: Vec<Descriptor> = Vec::new();
        let mut lent: Vec<Buffer> = Vec::new();
        let mut avail_ring: Vec<u16> = Vec::new();
        let mut used_ring: Vec<UsedElem> = Vec::new();
        let mut in_flight: Vec<bool> = Vec::new();
        let mut free: Vec<u16> = Vec::new();
        let mut i: usize = 0;
        while i < size
            invariant
                size <= MAX_QUEUE_SIZE,
                i <= size,
                desc@.len() == i,
                desc_shadow@.len() == i,
                forall|k: int| 0 <= k < i ==> {
                    &&& (#[trigger] desc_shadow@[k]).addr == 0 && desc_shadow@[k].len == 0
                    &&& desc_shadow@[k].flags.bits == 0 && desc_shadow@[k].next == 0
                    &&& desc@[k] == desc_shadow@[k]
                },
                lent@.len() == i,
                avail_ring@.len() == i,
                used_ring@.len() == i,
                in_flight@.len() == i,
                free@.len() == i,
                forall|k: int| 0 <= k < i ==> !(#[trigger] in_flight@[k]),
                forall|k: int| 0 <= k < i ==> (#[trigger] free@[k]) == (i - 1 - k) as u16,
            decreases size - i,
        {
            let zero = Descriptor::zeroed();
            desc.push(zero);
            desc_shadow.push(zero);
            lent.push(Buffer { vaddr: 0, len: 0, direction: BufferDirection::DriverToDevice });
            avail_ring.push(0);
            used_ring.push(UsedElem { id: 0, len: 0 });
            in_flight.push(false);
            free.insert(0, i as u16);
            i = i + 1;
        }
        let q = VirtQueue {
            size: size as u16,
            desc_shadow,
            desc,
            lent,
            avail_flags: 0,
            avail_idx: 0,
            avail_ring,
            used_flags: 0,
            used_idx: 0,
            used_ring,
            free,
            last_used_idx: 0,
            in_flight,
            chains: Ghost(Map::empty()),
            heads: Ghost(Seq::empty()),
        };
        assert(q.free@.no_duplicates()) by {
            assert forall|a: int, b: int| 0 <= a < q.free@.len() && 0 <= b < q.free@.len() && a != b
                implies q.free@[a] != q.free@[b] by {}
        }
        assert forall|d: u16| d < size implies #[trigger] q.free@.contains(d) by {
            assert(q.free@[size - 1 - d] == d);
        }
        Ok(q)
    }
}

} // verus!
