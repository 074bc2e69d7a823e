//! Laws that relate the queue's operations to one another.
use vstd::prelude::*;
use vstd::arithmetic::div_mod::{lemma_fundamental_div_mod, lemma_mod_multiples_basic};
use crate::error::Error;
use crate::queue::{is_pow2, wrap_dist, wrap_inc, Buffer, UsedElem, VirtQueue, MAX_QUEUE_SIZE};

verus! {

/// The ring index after `k` entries, starting from `x`, one `wrap_inc` at a time.
pub open spec fn wrap_iter(x: u16, k: nat) -> u16
    decreases k,
{
    if k == 0 {
        x
    } else {
        wrap_inc(wrap_iter(x, (k - 1) as nat))
    }
}

/// A power of two divides every power of two at least as large.
pub proof fn lemma_pow2_divides(n: nat, t: nat)
    requires
        is_pow2(n),
        is_pow2(t),
        n <= t,
    ensures
        t % n == 0,
    decreases n,
{
    if n > 1 {
        let a = t / 2;
        let b = n / 2;
        lemma_pow2_divides(b, a);
        lemma_fundamental_div_mod(a as int, b as int);
        let q = a / b;
        assert(t == q * n) by (nonlinear_arith)
            requires
                t == 2 * a,
                n == 2 * b,
                a == b * q + 0,
        ;
        lemma_mod_multiples_basic(q as int, n as int);
    }
}

/// Ring indices count modulo 2^16: after `k` entries from `x` the index is
/// `x + k` wrapped, the distance from `x` is exactly `k` as long as fewer
/// than 2^16 entries are outstanding, and the ring slot it names in a queue
/// of a valid size is the one an unwrapped counter would name.
pub proof fn lemma_index_wraparound(x: u16, k: nat, size: nat)
    requires
        is_pow2(size),
        size <= MAX_QUEUE_SIZE,
    ensures
        wrap_iter(x, k) == (x + k) % 0x10000,
        k < 0x10000 ==> wrap_dist(x, wrap_iter(x, k)) == k,
        wrap_iter(x, k) as int % size as int == (x + k) % size as int,
    decreases k,
{
    if k > 0 {
        lemma_index_wraparound(x, (k - 1) as nat, size);
    }
    assert(is_pow2(0x10000)) by {
        reveal_with_fuel(is_pow2, 18);
    }
    lemma_pow2_divides(size, 0x10000);
    let m = (x + k) / 0x10000;
    lemma_fundamental_div_mod(x + k, 0x10000);
    let c = 0x10000int / size as int;
    lemma_fundamental_div_mod(0x10000, size as int);
    assert(x + k == size * (m * c) + (x + k) % 0x10000) by (nonlinear_arith)
        requires
            x + k == 0x10000 * m + (x + k) % 0x10000,
            0x10000 == size * c + 0,
    ;
    vstd::arithmetic::div_mod::lemma_mod_multiples_vanish(m * c, (x + k) % 0x10000, size as int);
}

/// A token that `add` hands out is none of those still in flight, and they
/// all stay in flight; a valid request fails only when the queue has fewer
/// free descriptors than buffers, and then with `QueueFull`.
pub proof fn lemma_add_fresh_token(q0: VirtQueue, buffers: Seq<Buffer>, q1: VirtQueue, r: Result<u16, Error>)
    requires
        q0.wf(),
        VirtQueue::add_spec(q0, buffers, q1, r),
        !q0.invalid_request(buffers),
    ensures
        (r is Ok) == (buffers.len() <= q0.num_free_spec()),
        r is Err ==> r == Err::<u16, Error>(Error::QueueFull),
        r matches Ok(t) ==> forall|h: u16| #[trigger] q0.in_flight_spec(h) ==> h != t && q1.in_flight_spec(h),
{
}

/// Submitting a chain, letting the device complete exactly that chain, and
/// taking the completion with its token returns the device's length and
/// gives every descriptor back: as many are free as before the submission.
pub proof fn lemma_round_trip(
    q0: VirtQueue,
    buffers: Seq<Buffer>,
    q1: VirtQueue,
    t: u16,
    len: u32,
    q2: VirtQueue,
    q3: VirtQueue,
    r: Result<Option<u32>, Error>,
)
    requires
        q0.wf(),
        q0.pending() == 0,
        VirtQueue::add_spec(q0, buffers, q1, Ok(t)),
        VirtQueue::device_push_used_spec(q1, t as u32, len, q2),
        VirtQueue::pop_used_spec(q2, t, q3, r),
    ensures
        r == Ok::<Option<u32>, Error>(Some(len)),
        q3.num_free_spec() == q0.num_free_spec(),
        !q3.in_flight_spec(t),
        q3.pending() == 0,
        q3.avail_idx_spec() == wrap_inc(q0.avail_idx_spec()),
        q3.used_idx_spec() == wrap_inc(q0.used_idx_spec()),
        q3.last_used_spec() == wrap_inc(q0.last_used_spec()),
        q3.size_spec() == q0.size_spec(),
{
    q0.lemma_wf_size();
    assert(q1.pending() == 0);
    assert(q2.in_flight_spec(t));
    assert(q2.chain_spec(t) == q1.chain_spec(t));
    assert(q2.pending() == 1);
    assert(q2.next_used() == (UsedElem { id: t as u32, len }));
}

/// Taking a completion is not repeated: when one completion was pending and
/// `pop_used` took it, the same call again finds nothing, returns `Ok(None)`
/// and leaves the queue as it is.
pub proof fn lemma_pop_again_empty(
    q0: VirtQueue,
    token: u16,
    q1: VirtQueue,
    r1: Result<Option<u32>, Error>,
    q2: VirtQueue,
    r2: Result<Option<u32>, Error>,
)
    requires
        q0.wf(),
        q0.pending() == 1,
        VirtQueue::pop_used_spec(q0, token, q1, r1),
        r1 is Ok,
        VirtQueue::pop_used_spec(q1, token, q2, r2),
    ensures
        r2 == Ok::<Option<u32>, Error>(None),
        q2 == q1,
{
    if r1 matches Ok(Some(_)) {
        assert(q1.pending() == 0);
    }
}

/// One submit/complete cycle from `q0` to `q3`: `add` of `buffers` hands out
/// `t`, the device completes `t` with `len`, and `pop_used(t)` gives `r`.
#[verifier::opaque]
pub open spec fn one_cycle(
    q0: VirtQueue,
    buffers: Seq<Buffer>,
    q1: VirtQueue,
    t: u16,
    len: u32,
    q2: VirtQueue,
    q3: VirtQueue,
    r: Result<Option<u32>, Error>,
) -> bool {
    &&& VirtQueue::add_spec(q0, buffers, q1, Ok(t))
    &&& VirtQueue::device_push_used_spec(q1, t as u32, len, q2)
    &&& VirtQueue::pop_used_spec(q2, t, q3, r)
}

proof fn lemma_one_cycle(
    q0: VirtQueue,
    buffers: Seq<Buffer>,
    q1: VirtQueue,
    t: u16,
    len: u32,
    q2: VirtQueue,
    q3: VirtQueue,
    r: Result<Option<u32>, Error>,
)
    requires
        q0.wf(),
        q0.pending() == 0,
        one_cycle(q0, buffers, q1, t, len, q2, q3, r),
    ensures
        r == Ok::<Option<u32>, Error>(Some(len)),
        q3.num_free_spec() == q0.num_free_spec(),
        q3.pending() == 0,
        q3.avail_idx_spec() == wrap_inc(q0.avail_idx_spec()),
        q3.used_idx_spec() == wrap_inc(q0.used_idx_spec()),
        q3.last_used_spec() == wrap_inc(q0.last_used_spec()),
{
    reveal(one_cycle);
    lemma_round_trip(q0, buffers, q1, t, len, q2, q3, r);
}

/// The cycle law: after cycles `0..i` the results, free count and indices
/// are as `lemma_cycles` states.
proof fn lemma_cycles_upto(
    states: Seq<VirtQueue>,
    buffers: Seq<Seq<Buffer>>,
    added: Seq<VirtQueue>,
    tokens: Seq<u16>,
    lens: Seq<u32>,
    completed: Seq<VirtQueue>,
    results: Seq<Result<Option<u32>, Error>>,
    m: nat,
    i: nat,
)
    requires
        i <= m,
        states.len() == m + 1,
        buffers.len() == m && added.len() == m && tokens.len() == m && lens.len() == m,
        completed.len() == m && results.len() == m,
        states[0].pending() == 0,
        forall|j: int| 0 <= j <= m ==> (#[trigger] states[j]).wf(),
        forall|j: int| 0 <= j < m ==> #[trigger] one_cycle(
            states[j], buffers[j], added[j], tokens[j], lens[j], completed[j], states[j + 1], results[j],
        ),
    ensures
        forall|j: int| 0 <= j < i ==> #[trigger] results[j] == Ok::<Option<u32>, Error>(Some(lens[j])),
        states[i as int].num_free_spec() == states[0].num_free_spec(),
        states[i as int].pending() == 0,
        states[i as int].avail_idx_spec() == (states[0].avail_idx_spec() + i) % 0x10000,
        states[i as int].used_idx_spec() == (states[0].used_idx_spec() + i) % 0x10000,
        states[i as int].last_used_spec() == (states[0].last_used_spec() + i) % 0x10000,
    decreases i,
{
    if i > 0 {
        let k = (i - 1) as int;
        lemma_cycles_upto(states, buffers, added, tokens, lens, completed, results, m, (i - 1) as nat);
        lemma_one_cycle(states[k], buffers[k], added[k], tokens[k], lens[k], completed[k], states[k + 1], results[k]);
    }
}

/// Any number of submit/complete cycles, each submitting one chain, letting
/// the device complete it and taking the completion, returns each cycle's
/// length, gives every descriptor back, and moves the available index, the
/// used index and the driver's place in the used ring by the number of
/// cycles modulo 2^16: no completion is missed or seen twice across the wrap.
pub proof fn lemma_cycles(
    states: Seq<VirtQueue>,
    buffers: Seq<Seq<Buffer>>,
    added: Seq<VirtQueue>,
    tokens: Seq<u16>,
    lens: Seq<u32>,
    completed: Seq<VirtQueue>,
    results: Seq<Result<Option<u32>, Error>>,
    m: nat,
)
    requires
        states.len() == m + 1,
        buffers.len() == m && added.len() == m && tokens.len() == m && lens.len() == m,
        completed.len() == m && results.len() == m,
        states[0].pending() == 0,
        forall|j: int| 0 <= j <= m ==> (#[trigger] states[j]).wf(),
        forall|j: int| 0 <= j < m ==> #[trigger] one_cycle(
            states[j], buffers[j], added[j], tokens[j], lens[j], completed[j], states[j + 1], results[j],
        ),
    ensures
        forall|j: int| 0 <= j < m ==> #[trigger] results[j] == Ok::<Option<u32>, Error>(Some(lens[j])),
        states[m as int].num_free_spec() == states[0].num_free_spec(),
        states[m as int].pending() == 0,
        states[m as int].avail_idx_spec() == (states[0].avail_idx_spec() + m) % 0x10000,
        states[m as int].used_idx_spec() == (states[0].used_idx_spec() + m) % 0x10000,
        states[m as int].last_used_spec() == (states[0].last_used_spec() + m) % 0x10000,
{
    lemma_cycles_upto(states, buffers, added, tokens, lens, completed, results, m, m);
}

} // verus!
