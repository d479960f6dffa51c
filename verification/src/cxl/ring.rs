//! Single-producer / single-consumer message rings kept in the shared
//! region: 64 slots, each a 4-byte publish flag and a 60-byte payload.
//! The producer writes at `head`, the consumer reads at `tail`; both
//! counters are free-running `u32`s that wrap around.

use vstd::prelude::*;
use crate::cxl::layout::{CROSS_RING_TOTAL, MSG_SIZE, RING_CAPACITY};
use crate::cxl::shm::Shm;

verus! {

/// Number of slots a ring may have in flight.
pub const WINDOW: u32 = 64;
/// Mask that turns a counter into a slot number.
pub const MASK: u32 = 63;
/// A free-running counter above this value, or a tail above the head,
/// marks an RX ring left behind by an earlier session.
pub const RX_SANE_LIMIT: u32 = 1024;

/// One ring slot.
#[derive(Clone, Copy)]
pub struct Slot {
    /// 1 once the producer has published the payload, 0 when free.
    pub flag: u32,
    pub payload: [u8; MSG_SIZE],
}

/// A ring in the shared region.
pub struct Ring {
    pub head: u32,
    pub tail: u32,
    pub slots: Vec<Slot>,
}

/// The abstract state of a ring.
pub struct RingView {
    pub head: u32,
    pub tail: u32,
    pub slots: Seq<Slot>,
}

impl View for Ring {
    type V = RingView;

    open spec fn view(&self) -> RingView {
        RingView { head: self.head, tail: self.tail, slots: self.slots@ }
    }
}

/// The all-zero slot.
pub open spec fn zero_slot() -> Slot {
    Slot { flag: 0, payload: [0u8; MSG_SIZE] }
}

/// Number of messages between `tail` and `head`, counted modulo 2^32.
pub open spec fn count(head: u32, tail: u32) -> int {
    if head >= tail {
        head - tail
    } else {
        head - tail + 0x1_0000_0000
    }
}

/// The counter value that follows `c`, wrapping around at 2^32.
pub open spec fn next_counter(c: u32) -> u32 {
    if c == u32::MAX {
        0
    } else {
        (c + 1) as u32
    }
}

/// The slot that the counter value `c` designates.
pub open spec fn slot_of(c: int) -> int {
    c % (RING_CAPACITY as int)
}

impl RingView {
    /// The ring has the fixed number of slots.
    pub open spec fn sized(self) -> bool {
        self.slots.len() == RING_CAPACITY
    }

    pub open spec fn len(self) -> int {
        count(self.head, self.tail)
    }

    /// Whether slot `s` holds a message that is in flight.
    pub open spec fn in_flight(self, s: int) -> bool {
        (s - self.tail) % (RING_CAPACITY as int) < self.len()
    }

    /// A consistent ring: at most 64 messages in flight, exactly the
    /// in-flight slots published.
    pub open spec fn wf(self) -> bool {
        &&& self.sized()
        &&& self.len() <= RING_CAPACITY
        &&& forall|s: int|
            0 <= s < RING_CAPACITY ==> (#[trigger] self.slots[s].flag == 1 <==> self.in_flight(s))
    }

    /// The messages in flight, oldest first.
    pub open spec fn pending(self) -> Seq<[u8; MSG_SIZE]> {
        Seq::new(self.len() as nat, |i: int| self.slots[slot_of(self.tail + i)].payload)
    }

    /// The ring with every counter and slot cleared.
    pub open spec fn cleared(self) -> RingView {
        RingView { head: 0, tail: 0, slots: Seq::new(RING_CAPACITY as nat, |i: int| zero_slot()) }
    }

    /// The ring after a message was written at `head` and published.
    pub open spec fn pushed(self, data: [u8; MSG_SIZE]) -> RingView {
        RingView {
            head: next_counter(self.head),
            tail: self.tail,
            slots: self.slots.update(slot_of(self.head as int), Slot { flag: 1, payload: data }),
        }
    }

    /// The ring after the message at `tail` was consumed.
    pub open spec fn popped(self) -> RingView {
        RingView {
            head: self.head,
            tail: next_counter(self.tail),
            slots: self.slots.update(
                slot_of(self.tail as int),
                Slot { flag: 0, payload: self.slots[slot_of(self.tail as int)].payload },
            ),
        }
    }

    /// Whether the consumer may take the message at `tail`: a message is
    /// in flight and its slot has been published.
    pub open spec fn can_pop(self) -> bool {
        self.head != self.tail && self.slots[slot_of(self.tail as int)].flag == 1
    }

    /// Whether every slot flag is clear.
    pub open spec fn all_flags_clear(self) -> bool {
        forall|s: int| 0 <= s < self.slots.len() ==> #[trigger] self.slots[s].flag == 0
    }
}

/// An empty ring with all slots cleared.
pub fn ring_new() -> (r: Ring)
    ensures
        r@ == r@.cleared(),
        r@.wf(),
        r@.pending().len() == 0,
{
    let mut slots: Vec<Slot> = Vec::new();
    let mut i: usize = 0;
    while i < RING_CAPACITY
        invariant
            i <= RING_CAPACITY,
            slots@.len() == i,
            forall|k: int| 0 <= k < i ==> #[trigger] slots@[k] == zero_slot(),
        decreases RING_CAPACITY - i,
    {
        slots.push(Slot { flag: 0, payload: [0u8; MSG_SIZE] });
        i = i + 1;
    }
    let r = Ring { head: 0, tail: 0, slots };
    assert(r@.slots =~= r@.cleared().slots);
    r
}

/// Resets a ring to empty and clears every slot (flag and payload).
pub fn ring_reset(r: &mut Ring)
    requires
        old(r)@.sized(),
    ensures
        final(r)@ == old(r)@.cleared(),
{
    r.head = 0;
    r.tail = 0;
    let mut i: usize = 0;
    while i < RING_CAPACITY
        invariant
            i <= RING_CAPACITY,
            r.slots@.len() == RING_CAPACITY,
            r.head == 0,
            r.tail == 0,
            forall|k: int| 0 <= k < i ==> #[trigger] r.slots@[k] == zero_slot(),
        decreases RING_CAPACITY - i,
    {
        r.slots.set(i, Slot { flag: 0, payload: [0u8; MSG_SIZE] });
        i = i + 1;
    }
    assert(r@.slots =~= old(r)@.cleared().slots);
}

/// Whether no message is in flight (the counters are equal).
pub fn ring_is_empty(r: &Ring) -> (b: bool)
    ensures
        b == (r@.head == r@.tail),
{
    r.head == r.tail
}

/// Writes `data` at `head` and publishes it, unless 64 messages are in
/// flight. Returns whether the message was written.
pub fn ring_try_push(r: &mut Ring, data: &[u8; MSG_SIZE]) -> (ok: bool)
    requires
        old(r)@.sized(),
    ensures
        ok == (old(r)@.len() < WINDOW),
        ok ==> final(r)@ == old(r)@.pushed(*data),
        !ok ==> final(r)@ == old(r)@,
{
    let head = r.head;
    let tail = r.tail;
    if head.wrapping_sub(tail) >= WINDOW {
        return false;
    }
    let slot = (head % WINDOW) as usize;
    r.slots.set(slot, Slot { flag: 1, payload: *data });
    r.head = head.wrapping_add(1);
    true
}

/// Takes the message at `tail` if one is in flight and published;
/// `None` otherwise (the ring is empty, or the producer has claimed the
/// slot but not published it yet and the caller polls again).
pub fn ring_try_pop(r: &mut Ring) -> (res: Option<[u8; MSG_SIZE]>)
    requires
        old(r)@.sized(),
    ensures
        res is Some <==> old(r)@.can_pop(),
        res matches Some(m) ==> m == old(r)@.slots[slot_of(old(r)@.tail as int)].payload
            && final(r)@ == old(r)@.popped(),
        res is None ==> final(r)@ == old(r)@,
{
    let tail = r.tail;
    let head = r.head;
    if head == tail {
        return None;
    }
    let slot = (tail % WINDOW) as usize;
    let s = r.slots[slot];
    if s.flag != 1 {
        return None;
    }
    let data = s.payload;
    r.slots.set(slot, Slot { flag: 0, payload: data });
    r.tail = tail.wrapping_add(1);
    Some(data)
}

proof fn lemma_count_push(h: u32, t: u32)
    requires
        count(h, t) < WINDOW,
    ensures
        count(next_counter(h), t) == count(h, t) + 1,
        slot_of(t + count(h, t)) == slot_of(h as int),
{
    assert((h as int + 0x1_0000_0000) % 64 == (h as int) % 64) by {
        vstd::arithmetic::div_mod::lemma_mod_add_multiples_vanish(h as int, 64);
        assert(0x1_0000_0000int == 64 * 0x400_0000);
        vstd::arithmetic::div_mod::lemma_mod_multiples_vanish(0x400_0000, h as int, 64);
    }
}

proof fn lemma_count_pop(h: u32, t: u32, i: int)
    requires
        0 < count(h, t) <= WINDOW,
    ensures
        count(h, next_counter(t)) == count(h, t) - 1,
        slot_of(next_counter(t) + i) == slot_of(t + 1 + i),
{
    if t == u32::MAX {
        assert((t + 1 + i - 0x1_0000_0000) % 64 == (t + 1 + i) % 64) by {
            assert(0x1_0000_0000int == 64 * 0x400_0000);
            vstd::arithmetic::div_mod::lemma_mod_multiples_vanish(-0x400_0000, t + 1 + i, 64);
        }
    }
}

proof fn lemma_in_flight_shift(t: int, s: int, c: int)
    requires
        0 <= s < 64,
        0 <= c <= 64,
    ensures
        ((s - (t + 1)) % 64 < c - 1) <==> ((s - t) % 64 < c && s != slot_of(t)),
{
    let a = (s - t) % 64;
    let b = (s - (t + 1)) % 64;
    vstd::arithmetic::div_mod::lemma_fundamental_div_mod(s - t, 64);
    vstd::arithmetic::div_mod::lemma_fundamental_div_mod(s - (t + 1), 64);
    vstd::arithmetic::div_mod::lemma_fundamental_div_mod(t, 64);
    vstd::arithmetic::div_mod::lemma_mod_bound(s - t, 64);
    vstd::arithmetic::div_mod::lemma_mod_bound(s - (t + 1), 64);
    vstd::arithmetic::div_mod::lemma_mod_bound(t, 64);
    if a == 0 {
        assert(b == 63) by {
            vstd::arithmetic::div_mod::lemma_mod_sub_multiples_vanish(s - (t + 1), 64);
            assert(s - (t + 1) == (s - t) - 1);
            vstd::arithmetic::div_mod::lemma_sub_mod_noop_right(s - t, 1, 64);
        }
        assert(s == slot_of(t)) by {
            vstd::arithmetic::div_mod::lemma_mod_equivalence(s, t, 64);
            vstd::arithmetic::div_mod::lemma_small_mod(s as nat, 64);
        }
    } else {
        assert(b == a - 1) by {
            vstd::arithmetic::div_mod::lemma_sub_mod_noop_right(s - t, 1, 64);
            vstd::arithmetic::div_mod::lemma_small_mod((a - 1) as nat, 64);
        }
        assert(s != slot_of(t)) by {
            if s == slot_of(t) {
                vstd::arithmetic::div_mod::lemma_mod_equivalence(s, t, 64);
                vstd::arithmetic::div_mod::lemma_small_mod(s as nat, 64);
            }
        }
    }
}

/// Pushing onto a consistent ring that has room appends the message to
/// the messages in flight and keeps the ring consistent.
pub proof fn lemma_push_fifo(r: RingView, data: [u8; MSG_SIZE])
    requires
        r.wf(),
        r.len() < WINDOW,
    ensures
        r.pushed(data).wf(),
        r.pushed(data).pending() =~= r.pending().push(data),
{
    lemma_count_push(r.head, r.tail);
    let n = r.pushed(data);
    let h = slot_of(r.head as int);
    assert forall|i: int| 0 <= i < r.len() implies #[trigger] slot_of(r.tail + i) != h by {
        vstd::arithmetic::div_mod::lemma_fundamental_div_mod(r.tail + i, 64);
        vstd::arithmetic::div_mod::lemma_fundamental_div_mod(r.tail + r.len(), 64);
        if slot_of(r.tail + i) == h {
            vstd::arithmetic::div_mod::lemma_mod_equivalence(r.tail + i, r.tail + r.len(), 64);
            vstd::arithmetic::div_mod::lemma_small_mod((r.len() - i) as nat, 64);
        }
    }
    assert forall|s: int| 0 <= s < RING_CAPACITY implies (#[trigger] n.slots[s].flag == 1
        <==> n.in_flight(s)) by {
        vstd::arithmetic::div_mod::lemma_mod_bound(s - r.tail, 64);
        if s == h {
            assert((s - r.tail) % 64 == r.len()) by {
                vstd::arithmetic::div_mod::lemma_mod_equivalence(s, r.tail + r.len(), 64);
                vstd::arithmetic::div_mod::lemma_fundamental_div_mod(r.tail + r.len(), 64);
                vstd::arithmetic::div_mod::lemma_mod_sub_multiples_vanish(s - r.tail, 64);
                vstd::arithmetic::div_mod::lemma_sub_mod_noop(s, r.tail + r.len(), 64);
                vstd::arithmetic::div_mod::lemma_small_mod(r.len() as nat, 64);
                vstd::arithmetic::div_mod::lemma_mod_equivalence(s - r.tail, r.len(), 64);
            }
        } else {
            assert((s - r.tail) % 64 != r.len()) by {
                if (s - r.tail) % 64 == r.len() {
                    vstd::arithmetic::div_mod::lemma_small_mod(r.len() as nat, 64);
                    vstd::arithmetic::div_mod::lemma_mod_equivalence(s - r.tail, r.len(), 64);
                    vstd::arithmetic::div_mod::lemma_mod_equivalence(s, r.tail + r.len(), 64);
                    vstd::arithmetic::div_mod::lemma_small_mod(s as nat, 64);
                }
            }
        }
    }
}

/// Popping from a consistent, non-empty ring yields the oldest message in
/// flight, drops it from the messages in flight and keeps the ring
/// consistent.
pub proof fn lemma_pop_fifo(r: RingView)
    requires
        r.wf(),
        r.len() > 0,
    ensures
        r.can_pop(),
        r.pending()[0] == r.slots[slot_of(r.tail as int)].payload,
        r.popped().wf(),
        r.popped().pending() =~= r.pending().drop_first(),
{
    let t = slot_of(r.tail as int);
    vstd::arithmetic::div_mod::lemma_mod_bound(r.tail as int, 64);
    assert(r.in_flight(t)) by {
        vstd::arithmetic::div_mod::lemma_fundamental_div_mod(r.tail as int, 64);
        vstd::arithmetic::div_mod::lemma_mod_sub_multiples_vanish(t - r.tail, 64);
        assert(t - r.tail == -64 * ((r.tail as int) / 64));
        vstd::arithmetic::div_mod::lemma_mod_multiples_basic(-((r.tail as int) / 64), 64);
    }
    assert(r.head != r.tail);
    assert(r.slots[t].flag == 1);
    let n = r.popped();
    assert forall|i: int| 0 <= i < n.len() implies #[trigger] n.pending()[i] == r.pending()[i + 1] by {
        lemma_count_pop(r.head, r.tail, i);
        lemma_count_pop(r.head, r.tail, 0);
        vstd::arithmetic::div_mod::lemma_fundamental_div_mod(r.tail + 1 + i, 64);
        if slot_of(r.tail + 1 + i) == t {
            vstd::arithmetic::div_mod::lemma_mod_equivalence(r.tail + 1 + i, r.tail as int, 64);
            vstd::arithmetic::div_mod::lemma_fundamental_div_mod(r.tail as int, 64);
            vstd::arithmetic::div_mod::lemma_small_mod((1 + i) as nat, 64);
        }
    }
    lemma_count_pop(r.head, r.tail, 0);
    assert forall|s: int| 0 <= s < RING_CAPACITY implies (#[trigger] n.slots[s].flag == 1
        <==> n.in_flight(s)) by {
        lemma_in_flight_shift(r.tail as int, s, r.len());
        lemma_count_pop(r.head, r.tail, s - (r.tail + 1));
        if r.tail == u32::MAX {
            assert((s - (r.tail + 1)) % 64 == (s - 0) % 64) by {
                assert(0x1_0000_0000int == 64 * 0x400_0000);
                vstd::arithmetic::div_mod::lemma_mod_multiples_vanish(0x400_0000, s - (r.tail + 1), 64);
            }
        }
    }
}

/// What is written into an empty consistent ring is what the next read
/// takes, after which the ring is empty again.
pub proof fn lemma_push_then_pop(r: RingView, data: [u8; MSG_SIZE])
    requires
        r.wf(),
        r.len() == 0,
    ensures
        r.pushed(data).can_pop(),
        r.pushed(data).slots[slot_of(r.pushed(data).tail as int)].payload == data,
        r.pushed(data).popped().wf(),
        r.pushed(data).popped().len() == 0,
{
    lemma_push_fifo(r, data);
    let p = r.pushed(data);
    assert(p.pending().len() == 1);
    assert(p.pending()[0] == data);
    lemma_pop_fifo(p);
}

} // verus!

verus! {

/// The ring with head and tail reset to 0 and the slots kept.
pub open spec fn counters_reset(r: RingView) -> RingView {
    RingView { head: 0, tail: 0, slots: r.slots }
}

/// Whether an RX ring's counters look like a previous session's garbage.
pub open spec fn rx_insane(r: RingView) -> bool {
    r.head >= RX_SANE_LIMIT || r.tail >= RX_SANE_LIMIT || r.head < r.tail
}

/// The RX ring after the sanity check: cleared when its counters are
/// garbage, unchanged otherwise.
pub open spec fn rx_sanitized(r: RingView) -> RingView {
    if rx_insane(r) {
        r.cleared()
    } else {
        r
    }
}

/// The RX sanity check leaves counters that a live ring can have: both
/// below `RX_SANE_LIMIT` with the tail not above the head. A ring whose
/// counters already are so is kept as it is; any other (a tail above the
/// head, or a counter at or above the limit) is cleared.
pub proof fn lemma_rx_sanitized_counters(r: RingView)
    ensures
        rx_sanitized(r).tail <= rx_sanitized(r).head < RX_SANE_LIMIT,
        r.tail <= r.head < RX_SANE_LIMIT ==> rx_sanitized(r) == r,
        !(r.tail <= r.head < RX_SANE_LIMIT) ==> rx_sanitized(r) == r.cleared(),
{
}

/// Resets the TX ring to empty and clears every slot. Safe only when
/// nobody else uses the ring.
pub fn reset_tx(shm: &mut Shm)
    requires
        old(shm).inv(),
    ensures
        final(shm).inv(),
        final(shm).tx@ == old(shm).tx@.cleared(),
        final(shm).rx@ == old(shm).rx@,
        final(shm).mbox@ == old(shm).mbox@,
        final(shm).cross_area@ == old(shm).cross_area@,
        final(shm).same_header(&*old(shm)),
        final(shm).same_bakery(&*old(shm)),
        final(shm).same_vc(&*old(shm)),
        final(shm).same_pages(&*old(shm)),
        final(shm).same_gc(&*old(shm)),
{
    ring_reset(&mut shm.tx);
}

/// Writes a message into the TX ring. When the ring reads as full but no
/// slot is published, the counters are a previous session's leftovers:
/// they are reset to 0 and the message is written. Returns `false` only
/// when the ring is really full.
pub fn tx_push(shm: &mut Shm, data: &[u8; MSG_SIZE]) -> (ok: bool)
    requires
        old(shm).inv(),
    ensures
        final(shm).inv(),
        ({
            let r = old(shm).tx@;
            if r.len() < WINDOW {
                ok && final(shm).tx@ == r.pushed(*data)
            } else if r.all_flags_clear() {
                ok && final(shm).tx@ == counters_reset(r).pushed(*data)
            } else {
                !ok && final(shm).tx@ == r
            }
        }),
        ({
            let h = old(shm).tx.head as int;
            let t = old(shm).tx.tail as int;
            let d = if h >= t { h - t } else { h - t + 0x1_0000_0000 };
            let stale = forall|k: int| 0 <= k < RING_CAPACITY ==> #[trigger] old(shm).tx@.slots[k].flag == 0;
            &&& !ok <==> d >= RING_CAPACITY && !stale
            &&& d < RING_CAPACITY ==> final(shm).tx.tail == old(shm).tx.tail && final(shm).tx.head as int == (h + 1)
                % 0x1_0000_0000
            &&& d >= RING_CAPACITY && stale ==> final(shm).tx.tail == 0 && final(shm).tx.head == 1
            &&& ok ==> final(shm).tx@.slots[(final(shm).tx.head as int + RING_CAPACITY - 1) % RING_CAPACITY as int]
                == (Slot { flag: 1, payload: *data })
        }),
        final(shm).rx@ == old(shm).rx@,
        final(shm).mbox@ == old(shm).mbox@,
        final(shm).cross_area@ == old(shm).cross_area@,
        final(shm).same_header(&*old(shm)),
        final(shm).same_bakery(&*old(shm)),
        final(shm).same_vc(&*old(shm)),
        final(shm).same_pages(&*old(shm)),
        final(shm).same_gc(&*old(shm)),
{
    let head = shm.tx.head;
    let tail = shm.tx.tail;
    if head.wrapping_sub(tail) >= WINDOW {
        let mut stale = true;
        let mut s: usize = 0;
        while s < RING_CAPACITY
            invariant
                s <= RING_CAPACITY,
                shm.tx@.sized(),
                stale <==> forall|k: int| 0 <= k < s ==> #[trigger] shm.tx@.slots[k].flag == 0,
            decreases RING_CAPACITY - s,
        {
            if shm.tx.slots[s].flag != 0 {
                stale = false;
            }
            s = s + 1;
        }
        if stale {
            shm.tx.head = 0;
            shm.tx.tail = 0;
        } else {
            return false;
        }
    }
    ring_try_push(&mut shm.tx, data)
}

/// Takes the oldest message from the TX ring; `None` when the ring is
/// empty or the oldest slot is not published yet.
pub fn tx_pop(shm: &mut Shm) -> (res: Option<[u8; MSG_SIZE]>)
    requires
        old(shm).inv(),
    ensures
        final(shm).inv(),
        res is Some <==> old(shm).tx@.can_pop(),
        res matches Some(m) ==> m == old(shm).tx@.slots[slot_of(old(shm).tx@.tail as int)].payload
            && final(shm).tx@ == old(shm).tx@.popped(),
        res is None ==> final(shm).tx@ == old(shm).tx@,
        res is Some <==> old(shm).tx.head != old(shm).tx.tail && old(shm).tx@.slots[old(shm).tx.tail as int
            % RING_CAPACITY as int].flag == 1,
        res matches Some(m) ==> m == old(shm).tx@.slots[old(shm).tx.tail as int % RING_CAPACITY as int].payload
            && final(shm).tx.head == old(shm).tx.head && final(shm).tx.tail as int == (old(shm).tx.tail as int + 1)
            % 0x1_0000_0000 && final(shm).tx@.slots[old(shm).tx.tail as int % RING_CAPACITY as int].flag == 0,
        final(shm).rx@ == old(shm).rx@,
        final(shm).mbox@ == old(shm).mbox@,
        final(shm).cross_area@ == old(shm).cross_area@,
        final(shm).same_header(&*old(shm)),
        final(shm).same_bakery(&*old(shm)),
        final(shm).same_vc(&*old(shm)),
        final(shm).same_pages(&*old(shm)),
        final(shm).same_gc(&*old(shm)),
{
    ring_try_pop(&mut shm.tx)
}

/// Resets the RX ring to empty and clears every slot.
pub fn reset_rx(shm: &mut Shm)
    requires
        old(shm).inv(),
    ensures
        final(shm).inv(),
        final(shm).rx@ == old(shm).rx@.cleared(),
        final(shm).tx@ == old(shm).tx@,
        final(shm).mbox@ == old(shm).mbox@,
        final(shm).cross_area@ == old(shm).cross_area@,
        final(shm).same_header(&*old(shm)),
        final(shm).same_bakery(&*old(shm)),
        final(shm).same_vc(&*old(shm)),
        final(shm).same_pages(&*old(shm)),
        final(shm).same_gc(&*old(shm)),
{
    ring_reset(&mut shm.rx);
}

/// Zeroes the whole cross-VM ring area (stale data-plane bytes of an
/// earlier session).
pub fn reset_cross_area(shm: &mut Shm)
    requires
        old(shm).inv(),
    ensures
        final(shm).inv(),
        forall|i: int| 0 <= i < CROSS_RING_TOTAL ==> #[trigger] final(shm).cross_area@[i] == 0,
        final(shm).tx@ == old(shm).tx@,
        final(shm).rx@ == old(shm).rx@,
        final(shm).mbox@ == old(shm).mbox@,
        final(shm).same_header(&*old(shm)),
        final(shm).same_bakery(&*old(shm)),
        final(shm).same_vc(&*old(shm)),
        final(shm).same_pages(&*old(shm)),
        final(shm).same_gc(&*old(shm)),
{
    let mut i: usize = 0;
    while i < CROSS_RING_TOTAL
        invariant
            i <= CROSS_RING_TOTAL,
            shm.inv(),
            forall|k: int| 0 <= k < i ==> #[trigger] shm.cross_area@[k] == 0,
            shm.tx@ == old(shm).tx@,
            shm.rx@ == old(shm).rx@,
            shm.mbox@ == old(shm).mbox@,
            shm.same_header(&*old(shm)),
            shm.same_bakery(&*old(shm)),
            shm.same_vc(&*old(shm)),
            shm.same_pages(&*old(shm)),
            shm.same_gc(&*old(shm)),
        decreases CROSS_RING_TOTAL - i,
    {
        shm.cross_area.set(i, 0);
        i = i + 1;
    }
}

/// Clears the RX ring when its counters are garbage from an earlier
/// session.
fn sanitize_rx(shm: &mut Shm)
    requires
        old(shm).inv(),
    ensures
        final(shm).inv(),
        final(shm).rx@ == rx_sanitized(old(shm).rx@),
        final(shm).tx@ == old(shm).tx@,
        final(shm).mbox@ == old(shm).mbox@,
        final(shm).cross_area@ == old(shm).cross_area@,
        final(shm).same_header(&*old(shm)),
        final(shm).same_bakery(&*old(shm)),
        final(shm).same_vc(&*old(shm)),
        final(shm).same_pages(&*old(shm)),
        final(shm).same_gc(&*old(shm)),
{
    let h = shm.rx.head;
    let t = shm.rx.tail;
    if h >= RX_SANE_LIMIT || t >= RX_SANE_LIMIT || h < t {
        reset_rx(shm);
    }
}

/// Writes a message into the RX ring (after the sanity check); `false`
/// when 64 messages are in flight.
pub fn rx_push(shm: &mut Shm, data: &[u8; MSG_SIZE]) -> (ok: bool)
    requires
        old(shm).inv(),
    ensures
        final(shm).inv(),
        ({
            let r = rx_sanitized(old(shm).rx@);
            &&& ok == (r.len() < WINDOW)
            &&& ok ==> final(shm).rx@ == r.pushed(*data)
            &&& !ok ==> final(shm).rx@ == r
        }),
        old(shm).rx.tail > old(shm).rx.head ==> ok && final(shm).rx.head == 1 && final(shm).rx.tail == 0,
        final(shm).tx@ == old(shm).tx@,
        final(shm).mbox@ == old(shm).mbox@,
        final(shm).cross_area@ == old(shm).cross_area@,
        final(shm).same_header(&*old(shm)),
        final(shm).same_bakery(&*old(shm)),
        final(shm).same_vc(&*old(shm)),
        final(shm).same_pages(&*old(shm)),
        final(shm).same_gc(&*old(shm)),
{
    proof {
        lemma_rx_sanitized_counters(old(shm).rx@);
    }
    sanitize_rx(shm);
    ring_try_push(&mut shm.rx, data)
}

/// Takes the oldest message from the RX ring (after the sanity check).
/// `None` while nothing is published at the tail; the consumer waits and
/// polls again.
pub fn rx_pop(shm: &mut Shm) -> (res: Option<[u8; MSG_SIZE]>)
    requires
        old(shm).inv(),
    ensures
        final(shm).inv(),
        ({
            let r = rx_sanitized(old(shm).rx@);
            &&& res is Some <==> r.can_pop()
            &&& res matches Some(m) ==> m == r.slots[slot_of(r.tail as int)].payload
                && final(shm).rx@ == r.popped()
            &&& res is None ==> final(shm).rx@ == r
        }),
        old(shm).rx.tail > old(shm).rx.head ==> res is None && final(shm).rx.head == 0 && final(shm).rx.tail == 0,
        final(shm).tx@ == old(shm).tx@,
        final(shm).mbox@ == old(shm).mbox@,
        final(shm).cross_area@ == old(shm).cross_area@,
        final(shm).same_header(&*old(shm)),
        final(shm).same_bakery(&*old(shm)),
        final(shm).same_vc(&*old(shm)),
        final(shm).same_pages(&*old(shm)),
        final(shm).same_gc(&*old(shm)),
{
    proof {
        lemma_rx_sanitized_counters(old(shm).rx@);
    }
    sanitize_rx(shm);
    ring_try_pop(&mut shm.rx)
}

} // verus!
