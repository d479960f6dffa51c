//! Per-node mailboxes: one 64-slot ring per instance in the shared region.
//! Other instances write into a node's mailbox while holding the bakery
//! lock; the owning node reads its own mailbox without the lock.

use vstd::prelude::*;
use crate::cxl::layout::{MAX_INSTANCES, MSG_SIZE, RING_CAPACITY};
use crate::cxl::ring::{ring_reset, ring_try_pop, ring_try_push, slot_of, Slot, WINDOW};
use crate::cxl::shm::Shm;
use crate::cxl::lock::bakery_unlock;

verus! {

/// Every mailbox other than `node`'s is unchanged between `a` and `b`.
pub open spec fn other_mailboxes_unchanged(a: &Shm, b: &Shm, node: int) -> bool {
    &&& a.mbox@.len() == b.mbox@.len()
    &&& forall|i: int| 0 <= i < a.mbox@.len() && i != node ==> (#[trigger] b.mbox@[i])@ == a.mbox@[i]@
}

/// Everything outside the mailboxes is unchanged between `a` and `b`.
pub open spec fn outside_mailboxes_unchanged(a: &Shm, b: &Shm) -> bool {
    &&& b.tx@ == a.tx@
    &&& b.rx@ == a.rx@
    &&& b.cross_area@ == a.cross_area@
    &&& b.same_header(a)
    &&& b.same_bakery(a)
    &&& b.same_vc(a)
    &&& b.same_pages(a)
    &&& b.same_gc(a)
}

/// Writes `data` into `target`'s mailbox. `false` when `target` is not an
/// instance slot or the mailbox already holds 64 messages. The caller
/// holds the bakery lock.
pub fn mbox_send(shm: &mut Shm, target: usize, data: &[u8; MSG_SIZE]) -> (ok: bool)
    requires
        old(shm).inv(),
    ensures
        final(shm).inv(),
        outside_mailboxes_unchanged(&*old(shm), &*final(shm)),
        target >= MAX_INSTANCES ==> !ok && final(shm).mbox@ == old(shm).mbox@,
        target < MAX_INSTANCES ==> {
            let r = old(shm).mbox@[target as int]@;
            &&& ok == (r.len() < WINDOW)
            &&& ok ==> final(shm).mbox@[target as int]@ == r.pushed(*data)
            &&& !ok ==> final(shm).mbox@[target as int]@ == r
            &&& other_mailboxes_unchanged(&*old(shm), &*final(shm), target as int)
        },
        target < MAX_INSTANCES ==> {
            let h = old(shm).mbox@[target as int].head as int;
            let t = old(shm).mbox@[target as int].tail as int;
            let d = if h >= t { h - t } else { h - t + 0x1_0000_0000 };
            &&& ok <==> d < RING_CAPACITY
            &&& ok ==> final(shm).mbox@[target as int].tail == t && final(shm).mbox@[target as int].head as int == (h
                + 1) % 0x1_0000_0000 && final(shm).mbox@[target as int]@.slots[h % RING_CAPACITY as int] == (Slot {
                flag: 1,
                payload: *data,
            })
        },
{
    if target >= MAX_INSTANCES {
        return false;
    }
    ring_try_push(&mut shm.mbox[target], data)
}

/// The part of instance `me`'s send to `target` that runs under the
/// bakery lock, which `me` holds: writes `data` into `target`'s mailbox as
/// `mbox_send` does, then releases the lock (clears `me`'s ticket), whether
/// the mailbox took the message or was full.
pub fn mbox_send_and_unlock(shm: &mut Shm, me: usize, target: usize, data: &[u8; MSG_SIZE]) -> (ok: bool)
    requires
        old(shm).inv(),
        me < MAX_INSTANCES,
        target < MAX_INSTANCES,
    ensures
        final(shm).inv(),
        final(shm).number@ == old(shm).number@.update(me as int, 0),
        final(shm).choosing@ == old(shm).choosing@,
        final(shm).tx@ == old(shm).tx@,
        final(shm).rx@ == old(shm).rx@,
        final(shm).cross_area@ == old(shm).cross_area@,
        final(shm).same_header(&*old(shm)),
        final(shm).same_vc(&*old(shm)),
        final(shm).same_pages(&*old(shm)),
        final(shm).same_gc(&*old(shm)),
        other_mailboxes_unchanged(&*old(shm), &*final(shm), target as int),
        ({
            let r = old(shm).mbox@[target as int]@;
            &&& ok == (r.len() < WINDOW)
            &&& ok ==> final(shm).mbox@[target as int]@ == r.pushed(*data)
            &&& !ok ==> final(shm).mbox@[target as int]@ == r
        }),
{
    let ok = mbox_send(shm, target, data);
    let ghost mid = *shm;
    bakery_unlock(shm, me);
    proof {
        assert forall|i: int| 0 <= i < old(shm).mbox@.len() && i != target implies (#[trigger] shm.mbox@[i])@
            == old(shm).mbox@[i]@ by {
            assert(shm.mbox@[i]@ == mid.mbox@[i]@);
        }
        assert(shm.mbox@[target as int]@ == mid.mbox@[target as int]@);
    }
    ok
}

/// Takes the oldest message from `me`'s own mailbox; `None` when it is
/// empty or the oldest slot is not published yet (the reader waits and
/// polls again).
pub fn mbox_recv(shm: &mut Shm, me: usize) -> (res: Option<[u8; MSG_SIZE]>)
    requires
        old(shm).inv(),
        me < MAX_INSTANCES,
    ensures
        final(shm).inv(),
        outside_mailboxes_unchanged(&*old(shm), &*final(shm)),
        other_mailboxes_unchanged(&*old(shm), &*final(shm), me as int),
        ({
            let r = old(shm).mbox@[me as int]@;
            &&& res is Some <==> r.can_pop()
            &&& res matches Some(m) ==> m == r.slots[slot_of(r.tail as int)].payload
                && final(shm).mbox@[me as int]@ == r.popped()
            &&& res is None ==> final(shm).mbox@[me as int]@ == r
        }),
        ({
            let h = old(shm).mbox@[me as int].head;
            let t = old(shm).mbox@[me as int].tail as int;
            &&& res is Some <==> h != t && old(shm).mbox@[me as int]@.slots[t % RING_CAPACITY as int].flag == 1
            &&& res matches Some(m) ==> m == old(shm).mbox@[me as int]@.slots[t % RING_CAPACITY as int].payload
                && final(shm).mbox@[me as int].tail as int == (t + 1) % 0x1_0000_0000 && final(shm).mbox@[me as int].head
                == h
        }),
{
    ring_try_pop(&mut shm.mbox[me])
}

/// Empties every mailbox and clears all their slots (region init and
/// re-join).
pub fn mbox_reset_all(shm: &mut Shm)
    requires
        old(shm).inv(),
    ensures
        final(shm).inv(),
        outside_mailboxes_unchanged(&*old(shm), &*final(shm)),
        forall|i: int| 0 <= i < MAX_INSTANCES ==> (#[trigger] final(shm).mbox@[i])@
            == old(shm).mbox@[i]@.cleared(),
{
    let mut node: usize = 0;
    while node < MAX_INSTANCES
        invariant
            node <= MAX_INSTANCES,
            shm.inv(),
            outside_mailboxes_unchanged(&*old(shm), &*shm),
            forall|i: int| 0 <= i < node ==> (#[trigger] shm.mbox@[i])@ == old(shm).mbox@[i]@.cleared(),
            forall|i: int| node <= i < MAX_INSTANCES ==> (#[trigger] shm.mbox@[i])@ == old(shm).mbox@[i]@,
        decreases MAX_INSTANCES - node,
    {
        ring_reset(&mut shm.mbox[node]);
        node = node + 1;
    }
}

} // verus!
