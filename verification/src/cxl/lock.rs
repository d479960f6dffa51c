//! Lamport's bakery lock over the shared region.
//!
//! The lock uses plain loads and stores only, so it works across
//! independently emulated machines that share one file. These are its
//! steps on the region; the caller spins between them. A peer that keeps
//! a ticket for `SPIN_LIMIT` polls is taken for dead and its slot reset.

use vstd::prelude::*;
use crate::cxl::layout::MAX_INSTANCES;
use crate::cxl::shm::Shm;

verus! {

/// Polls after which a peer holding a ticket is taken for dead.
pub const SPIN_LIMIT: u64 = 1_000_000;

/// The largest ticket in `numbers`.
pub open spec fn max_ticket(numbers: Seq<u64>) -> u64
    decreases numbers.len(),
{
    if numbers.len() == 0 {
        0
    } else {
        let m = max_ticket(numbers.drop_last());
        if numbers.last() > m {
            numbers.last()
        } else {
            m
        }
    }
}

/// Whether instance `j` holding ticket `n` lets instance `me` holding
/// `ticket` go first: `j` does not compete, or `(n, j)` comes after
/// `(ticket, me)` in lexicographic order.
pub open spec fn yields_to(n: u64, j: int, ticket: u64, me: int) -> bool {
    n == 0 || n > ticket || (n == ticket && j > me)
}

/// What instance `me` does about peer `j` while waiting for the lock.
#[derive(PartialEq, Eq, Structural, Debug, Clone, Copy)]
pub enum BakeryStep {
    /// `j` is not in the way.
    Proceed,
    /// `j` holds an earlier ticket: wait until it leaves.
    WaitTicket,
    /// `j` has held an earlier ticket for `SPIN_LIMIT` polls: take it for
    /// dead, reset its slot and go on.
    PeerDead,
}

/// Takes a ticket for instance `me`: one more than the largest ticket in
/// the region (wrapping at 2^64), stored as `me`'s number. Returns it.
pub fn bakery_take_ticket(shm: &mut Shm, me: usize) -> (ticket: u64)
    requires
        old(shm).inv(),
        me < MAX_INSTANCES,
    ensures
        final(shm).inv(),
        ticket == vstd::wrapping::u64_specs::wrapping_add(max_ticket(old(shm).number@), 1),
        final(shm).number@ == old(shm).number@.update(me as int, ticket),
        final(shm).choosing@ == old(shm).choosing@.update(me as int, 0),
        final(shm).same_header(&*old(shm)),
        final(shm).same_vc(&*old(shm)),
        final(shm).same_pages(&*old(shm)),
        final(shm).same_gc(&*old(shm)),
        final(shm).same_rings(&*old(shm)),
{
    shm.choosing.set(me, 1);
    let mut max: u64 = 0;
    let mut i: usize = 0;
    while i < MAX_INSTANCES
        invariant
            i <= MAX_INSTANCES,
            shm.number@ == old(shm).number@,
            shm.number@.len() == MAX_INSTANCES,
            max == max_ticket(shm.number@.take(i as int)),
        decreases MAX_INSTANCES - i,
    {
        let n = shm.number[i];
        proof {
            assert(shm.number@.take(i as int + 1).drop_last() =~= shm.number@.take(i as int));
        }
        if n > max {
            max = n;
        }
        i = i + 1;
    }
    assert(shm.number@.take(MAX_INSTANCES as int) =~= shm.number@);
    let my_ticket = max.wrapping_add(1);
    shm.number.set(me, my_ticket);
    shm.choosing.set(me, 0);
    my_ticket
}

/// Whether peer `j` is still picking a ticket; instance `me` waits, once
/// per peer, until this is false before it compares tickets.
pub fn bakery_peer_choosing(shm: &Shm, j: usize) -> (b: bool)
    requires
        shm.inv(),
        j < MAX_INSTANCES,
    ensures
        b == (shm.choosing@[j as int] != 0),
{
    shm.choosing[j] != 0
}

/// Decides whether instance `me`, holding `ticket`, may pass peer `j`
/// (which has finished choosing), after `spins` polls of `j`'s ticket that
/// found it in the way.
pub fn bakery_step(shm: &Shm, me: usize, ticket: u64, j: usize, spins: u64) -> (step: BakeryStep)
    requires
        shm.inv(),
        me < MAX_INSTANCES,
        j < MAX_INSTANCES,
    ensures
        j == me ==> step == BakeryStep::Proceed,
        j != me ==> (step == BakeryStep::Proceed <==> yields_to(
            shm.number@[j as int],
            j as int,
            ticket,
            me as int,
        )),
        j != me && !yields_to(shm.number@[j as int], j as int, ticket, me as int)
            ==> step == (if spins + 1 >= SPIN_LIMIT {
            BakeryStep::PeerDead
        } else {
            BakeryStep::WaitTicket
        }),
{
    if j == me {
        return BakeryStep::Proceed;
    }
    let n = shm.number[j];
    if n == 0 || n > ticket || (n == ticket && j > me) {
        BakeryStep::Proceed
    } else if spins >= SPIN_LIMIT - 1 {
        BakeryStep::PeerDead
    } else {
        BakeryStep::WaitTicket
    }
}

/// Clears the bakery slot of peer `j`, taken for dead after it held its
/// ticket for `SPIN_LIMIT` polls.
pub fn bakery_reset_peer(shm: &mut Shm, j: usize)
    requires
        old(shm).inv(),
        j < MAX_INSTANCES,
    ensures
        final(shm).inv(),
        final(shm).number@ == old(shm).number@.update(j as int, 0),
        final(shm).choosing@ == old(shm).choosing@.update(j as int, 0),
        final(shm).same_header(&*old(shm)),
        final(shm).same_vc(&*old(shm)),
        final(shm).same_pages(&*old(shm)),
        final(shm).same_gc(&*old(shm)),
        final(shm).same_rings(&*old(shm)),
{
    shm.number.set(j, 0);
    shm.choosing.set(j, 0);
}

/// Releases the lock held by instance `me`.
pub fn bakery_unlock(shm: &mut Shm, me: usize)
    requires
        old(shm).inv(),
        me < MAX_INSTANCES,
    ensures
        final(shm).inv(),
        final(shm).number@ == old(shm).number@.update(me as int, 0),
        final(shm).choosing@ == old(shm).choosing@,
        final(shm).same_header(&*old(shm)),
        final(shm).same_vc(&*old(shm)),
        final(shm).same_pages(&*old(shm)),
        final(shm).same_gc(&*old(shm)),
        final(shm).same_rings(&*old(shm)),
{
    shm.number.set(me, 0);
}

proof fn lemma_max_ticket_bound(numbers: Seq<u64>)
    ensures
        forall|j: int| 0 <= j < numbers.len() ==> #[trigger] numbers[j] <= max_ticket(numbers),
    decreases numbers.len(),
{
    if numbers.len() > 0 {
        lemma_max_ticket_bound(numbers.drop_last());
        assert forall|j: int| 0 <= j < numbers.len() implies #[trigger] numbers[j] <= max_ticket(numbers) by {
            if j < numbers.len() - 1 {
                assert(numbers[j] == numbers.drop_last()[j]);
            }
        }
    }
}

/// A freshly taken ticket is larger than every ticket held when it was
/// taken (unless the largest one was `u64::MAX`).
pub proof fn lemma_ticket_exceeds_all(numbers: Seq<u64>)
    requires
        max_ticket(numbers) < u64::MAX,
    ensures
        forall|j: int| 0 <= j < numbers.len() ==> #[trigger] numbers[j] < vstd::wrapping::u64_specs::wrapping_add(
            max_ticket(numbers),
            1,
        ),
{
    lemma_max_ticket_bound(numbers);
}

/// Two distinct competing instances cannot both let the other go first:
/// the order on (ticket, instance) pairs is strict and total, which is
/// what keeps the lock exclusive.
pub proof fn lemma_turn_order_exclusive(ti: u64, i: int, tj: u64, j: int)
    requires
        i != j,
        ti != 0,
        tj != 0,
    ensures
        !(yields_to(tj, j, ti, i) && yields_to(ti, i, tj, j)),
        yields_to(tj, j, ti, i) || yields_to(ti, i, tj, j),
{
}

} // verus!

verus! {

/// Where an instance is in the bakery protocol, as the lock's steps move
/// it: `bakery_take_ticket` is the doorway (`ReadMax` reads the peers'
/// tickets one at a time, then the ticket is published and the choosing
/// flag cleared), `bakery_step` the wait for each peer, `bakery_unlock`
/// the exit.
pub enum BakeryPc {
    /// Not competing.
    Idle,
    /// Choosing: has read the tickets of instances `0..k`; `m` is the
    /// largest seen.
    ReadMax(nat, nat),
    /// Has published its ticket; about to clear its choosing flag.
    ClearChoosing,
    /// About to wait for peer `k` to finish choosing (`k` = number of
    /// instances: all peers passed).
    WaitChoosing(nat),
    /// Waiting for peer `k`'s ticket to leave its way.
    WaitNum(nat),
    /// Holds the lock.
    Critical,
}

/// The shared bakery arrays and every instance's place in the protocol.
pub struct BakeryState {
    pub choosing: Seq<bool>,
    pub number: Seq<nat>,
    pub pc: Seq<BakeryPc>,
}

/// `(a, i)` comes before `(b, j)` in lexicographic order.
pub open spec fn ticket_before(a: nat, i: int, b: nat, j: int) -> bool {
    a < b || (a == b && i < j)
}

/// `n` instances, none competing.
pub open spec fn bakery_init(n: nat) -> BakeryState {
    BakeryState {
        choosing: Seq::new(n, |i: int| false),
        number: Seq::new(n, |i: int| 0nat),
        pc: Seq::new(n, |i: int| BakeryPc::Idle),
    }
}

/// The state after instance `p` takes one step (any other `p` changes
/// nothing). Each step reads or writes one shared word.
pub open spec fn bakery_next(s: BakeryState, p: int) -> BakeryState {
    let n = s.pc.len();
    if !(0 <= p < n) {
        s
    } else {
        match s.pc[p] {
            BakeryPc::Idle => BakeryState {
                choosing: s.choosing.update(p, true),
                pc: s.pc.update(p, BakeryPc::ReadMax(0, 0)),
                ..s
            },
            BakeryPc::ReadMax(k, m) => if k < n {
                let t = s.number[k as int];
                BakeryState { pc: s.pc.update(p, BakeryPc::ReadMax(k + 1, if t > m { t } else { m })), ..s }
            } else {
                BakeryState {
                    number: s.number.update(p, m + 1),
                    pc: s.pc.update(p, BakeryPc::ClearChoosing),
                    ..s
                }
            },
            BakeryPc::ClearChoosing => BakeryState {
                choosing: s.choosing.update(p, false),
                pc: s.pc.update(p, BakeryPc::WaitChoosing(0)),
                ..s
            },
            BakeryPc::WaitChoosing(k) => if k >= n {
                BakeryState { pc: s.pc.update(p, BakeryPc::Critical), ..s }
            } else if k == p {
                BakeryState { pc: s.pc.update(p, BakeryPc::WaitChoosing(k + 1)), ..s }
            } else if s.choosing[k as int] {
                s
            } else {
                BakeryState { pc: s.pc.update(p, BakeryPc::WaitNum(k)), ..s }
            },
            BakeryPc::WaitNum(k) => if s.number[k as int] == 0 || ticket_before(
                s.number[p],
                p,
                s.number[k as int],
                k as int,
            ) {
                BakeryState { pc: s.pc.update(p, BakeryPc::WaitChoosing(k + 1)), ..s }
            } else {
                s
            },
            BakeryPc::Critical => BakeryState {
                number: s.number.update(p, 0),
                pc: s.pc.update(p, BakeryPc::Idle),
                ..s
            },
        }
    }
}

/// The state after the steps of `sched` (each entry names the instance
/// that moves), starting with `n` idle instances.
pub open spec fn bakery_run(n: nat, sched: Seq<int>) -> BakeryState
    decreases sched.len(),
{
    if sched.len() == 0 {
        bakery_init(n)
    } else {
        bakery_next(bakery_run(n, sched.drop_last()), sched.last())
    }
}

/// Instance `i` holds a published ticket.
pub open spec fn has_ticket(s: BakeryState, i: int) -> bool {
    match s.pc[i] {
        BakeryPc::ClearChoosing | BakeryPc::WaitChoosing(_) | BakeryPc::WaitNum(_) | BakeryPc::Critical => true,
        _ => false,
    }
}

/// Instance `i` has seen peer `j` outside its doorway.
pub open spec fn past_choosing(s: BakeryState, i: int, j: int) -> bool {
    match s.pc[i] {
        BakeryPc::Critical => true,
        BakeryPc::WaitChoosing(k) => j < k,
        BakeryPc::WaitNum(k) => j <= k,
        _ => false,
    }
}

/// Instance `i` has let itself past peer `j`.
pub open spec fn passed(s: BakeryState, i: int, j: int) -> bool {
    match s.pc[i] {
        BakeryPc::Critical => true,
        BakeryPc::WaitChoosing(k) => j < k,
        BakeryPc::WaitNum(k) => j < k,
        _ => false,
    }
}

/// The invariant of the protocol.
pub open spec fn bakery_inv(s: BakeryState) -> bool {
    let n = s.pc.len();
    &&& s.choosing.len() == n
    &&& s.number.len() == n
    &&& forall|i: int| 0 <= i < n ==> (has_ticket(s, i) <==> #[trigger] s.number[i] > 0)
    &&& forall|i: int|
        0 <= i < n ==> (#[trigger] s.choosing[i] <==> (s.pc[i] is ReadMax || s.pc[i] is ClearChoosing))
    &&& forall|i: int|
        0 <= i < n ==> match #[trigger] s.pc[i] {
            BakeryPc::ReadMax(k, _) => k <= n,
            BakeryPc::WaitChoosing(k) => k <= n,
            BakeryPc::WaitNum(k) => k < n && k != i,
            _ => true,
        }
    &&& forall|i: int, j: int|
        0 <= i < n && 0 <= j < n && i != j && #[trigger] past_choosing(s, i, j) ==> match #[trigger] s.pc[j] {
            BakeryPc::ReadMax(k, m) => k > i ==> m >= s.number[i],
            _ => true,
        }
    &&& forall|i: int, j: int|
        0 <= i < n && 0 <= j < n && i != j && #[trigger] passed(s, i, j) && #[trigger] has_ticket(s, j)
            ==> ticket_before(s.number[i], i, s.number[j], j)
}

proof fn lemma_bakery_init_inv(n: nat)
    ensures
        bakery_inv(bakery_init(n)),
{
}

proof fn lemma_bakery_next_inv(s: BakeryState, p: int)
    requires
        bakery_inv(s),
    ensures
        bakery_inv(bakery_next(s, p)),
{
    let n = s.pc.len();
    let t = bakery_next(s, p);
    if 0 <= p < n {
        assert(t.pc.len() == n);
        assert forall|i: int| 0 <= i < n implies (has_ticket(t, i) <==> #[trigger] t.number[i] > 0) by {
            if i != p {
                assert(t.pc[i] == s.pc[i]);
                assert(t.number[i] == s.number[i]);
                assert(has_ticket(s, i) <==> s.number[i] > 0);
            }
        }
        assert forall|i: int|
            0 <= i < n implies (#[trigger] t.choosing[i] <==> (t.pc[i] is ReadMax || t.pc[i] is ClearChoosing)) by {
            if i != p {
                assert(t.pc[i] == s.pc[i]);
                assert(t.choosing[i] == s.choosing[i]);
                assert(s.choosing[i] <==> (s.pc[i] is ReadMax || s.pc[i] is ClearChoosing));
            }
        }
        assert forall|i: int|
            0 <= i < n implies match #[trigger] t.pc[i] {
                BakeryPc::ReadMax(k, _) => k <= n,
                BakeryPc::WaitChoosing(k) => k <= n,
                BakeryPc::WaitNum(k) => k < n && k != i,
                _ => true,
            } by {
            if i != p {
                assert(t.pc[i] == s.pc[i]);
            } else {
                match s.pc[p] {
                    BakeryPc::WaitChoosing(k) => {},
                    _ => {},
                }
            }
        }
        assert forall|i: int, j: int|
            0 <= i < n && 0 <= j < n && i != j && #[trigger] past_choosing(t, i, j) implies match #[trigger] t.pc[j] {
                BakeryPc::ReadMax(k, m) => k > i ==> m >= t.number[i],
                _ => true,
            } by {
            assert(s.pc[i] == s.pc[i]);
            assert(s.pc[j] == s.pc[j]);
            if i != p && j != p {
                assert(t.pc[i] == s.pc[i] && t.pc[j] == s.pc[j] && t.number[i] == s.number[i]);
                assert(past_choosing(s, i, j));
            } else if i == p {
                assert(t.pc[j] == s.pc[j]);
                match s.pc[p] {
                    BakeryPc::WaitChoosing(k) => {
                        assert(t.number[i] == s.number[i]);
                        if k < n && k != p && !s.choosing[k as int] && j == k {
                            assert(!(s.pc[j] is ReadMax));
                        } else {
                            assert(past_choosing(s, i, j));
                        }
                    },
                    BakeryPc::WaitNum(k) => {
                        assert(t.number[i] == s.number[i]);
                        assert(past_choosing(s, i, j));
                    },
                    BakeryPc::Critical => {},
                    BakeryPc::ClearChoosing => {},
                    BakeryPc::ReadMax(_, _) => {},
                    BakeryPc::Idle => {},
                }
            } else {
                assert(t.pc[i] == s.pc[i]);
                assert(past_choosing(s, i, j));
                assert(has_ticket(s, i) && s.number[i] > 0) by {
                    assert(has_ticket(s, i) <==> s.number[i] > 0);
                }
                assert(t.number[i] == s.number[i]);
                match s.pc[p] {
                    BakeryPc::ReadMax(k, m) => {
                        if k < n {
                            if k == i {
                            }
                        }
                    },
                    _ => {},
                }
            }
        }
        assert forall|i: int, j: int|
            0 <= i < n && 0 <= j < n && i != j && #[trigger] passed(t, i, j) && #[trigger] has_ticket(t, j)
                implies ticket_before(t.number[i], i, t.number[j], j) by {
            assert(s.pc[i] == s.pc[i]);
            assert(s.pc[j] == s.pc[j]);
            if i != p && j != p {
                assert(t.pc[i] == s.pc[i] && t.pc[j] == s.pc[j]);
                assert(t.number[i] == s.number[i] && t.number[j] == s.number[j]);
                assert(passed(s, i, j) && has_ticket(s, j));
            } else if i == p {
                assert(t.pc[j] == s.pc[j] && t.number[j] == s.number[j]);
                assert(has_ticket(s, j));
                match s.pc[p] {
                    BakeryPc::WaitNum(k) => {
                        assert(t.number[i] == s.number[i]);
                        if j == k {
                            assert(s.number[j] > 0) by {
                                assert(has_ticket(s, j) <==> s.number[j] > 0);
                            }
                        } else {
                            assert(passed(s, i, j));
                        }
                    },
                    BakeryPc::WaitChoosing(k) => {
                        assert(t.number[i] == s.number[i]);
                        assert(passed(s, i, j));
                    },
                    _ => {},
                }
            } else {
                assert(t.pc[i] == s.pc[i] && t.number[i] == s.number[i]);
                assert(passed(s, i, j));
                assert(past_choosing(s, i, j));
                match s.pc[p] {
                    BakeryPc::ReadMax(k, m) => {
                        assert(k >= n);
                        assert(m >= s.number[i]);
                    },
                    BakeryPc::Idle => {},
                    _ => {
                        assert(has_ticket(s, j));
                    },
                }
            }
        }
    }
}

/// `bakery_step`'s test on a peer's ticket is the model's `WaitNum` test:
/// the peer does not compete, or its (ticket, id) comes after ours.
pub proof fn lemma_step_test_is_model_test(n: u64, j: int, ticket: u64, me: int)
    ensures
        yields_to(n, j, ticket, me) <==> (n == 0 || ticket_before(ticket as nat, me, n as nat, j)),
{
}

/// Whatever order the instances' steps come in, at most one instance
/// holds the bakery lock at a time (tickets are unbounded here, and no
/// peer is taken for dead).
pub proof fn lemma_bakery_mutual_exclusion(n: nat, sched: Seq<int>)
    ensures
        bakery_inv(bakery_run(n, sched)),
        bakery_run(n, sched).pc.len() == n,
        forall|i: int, j: int|
            0 <= i < n && 0 <= j < n && i != j ==> !(#[trigger] bakery_run(n, sched).pc[i] is Critical
                && #[trigger] bakery_run(n, sched).pc[j] is Critical),
    decreases sched.len(),
{
    if sched.len() == 0 {
        lemma_bakery_init_inv(n);
    } else {
        lemma_bakery_mutual_exclusion(n, sched.drop_last());
        lemma_bakery_next_inv(bakery_run(n, sched.drop_last()), sched.last());
    }
    let s = bakery_run(n, sched);
    assert forall|i: int, j: int|
        0 <= i < n && 0 <= j < n && i != j implies !(#[trigger] s.pc[i] is Critical && #[trigger] s.pc[j]
            is Critical) by {
        if s.pc[i] is Critical && s.pc[j] is Critical {
            assert(passed(s, i, j) && has_ticket(s, j));
            assert(passed(s, j, i) && has_ticket(s, i));
        }
    }
}


/// The model state of the bakery words of `shm` (a flag is set when its
/// byte is non-zero; tickets as numbers), with the instances' places `pc`.
pub open spec fn bakery_abs(shm: &Shm, pc: Seq<BakeryPc>) -> BakeryState {
    BakeryState {
        choosing: Seq::new(MAX_INSTANCES as nat, |i: int| shm.choosing@[i] != 0),
        number: Seq::new(MAX_INSTANCES as nat, |i: int| shm.number@[i] as nat),
        pc,
    }
}

/// The state after instance `p` alone takes `k` steps.
pub open spec fn steps_alone(s: BakeryState, p: int, k: nat) -> BakeryState
    decreases k,
{
    if k == 0 {
        s
    } else {
        bakery_next(steps_alone(s, p, (k - 1) as nat), p)
    }
}

proof fn lemma_read_max_alone(shm: &Shm, pc: Seq<BakeryPc>, me: int, k: nat)
    requires
        shm.inv(),
        pc.len() == MAX_INSTANCES,
        0 <= me < MAX_INSTANCES,
        pc[me] == BakeryPc::Idle,
        k <= MAX_INSTANCES,
    ensures
        steps_alone(bakery_abs(shm, pc), me, k + 1) == (BakeryState {
            choosing: bakery_abs(shm, pc).choosing.update(me, true),
            number: bakery_abs(shm, pc).number,
            pc: pc.update(me, BakeryPc::ReadMax(k, max_ticket(shm.number@.take(k as int)) as nat)),
        }),
    decreases k,
{
    let s = bakery_abs(shm, pc);
    if k == 0 {
        assert(steps_alone(s, me, 0) == s);
        assert(shm.number@.take(0) =~= Seq::<u64>::empty());
    } else {
        lemma_read_max_alone(shm, pc, me, (k - 1) as nat);
        let prev = steps_alone(s, me, k as nat);
        let j = k - 1;
        assert(shm.number@.take(k as int).drop_last() =~= shm.number@.take(j as int));
        assert(shm.number@.take(k as int).last() == shm.number@[j as int]);
        assert(prev.pc[me] == BakeryPc::ReadMax(j as nat, max_ticket(shm.number@.take(j as int)) as nat));
        assert(prev.number[j as int] == shm.number@[j as int] as nat);
        assert(prev.pc.update(me, BakeryPc::ReadMax(k, max_ticket(shm.number@.take(k as int)) as nat)) =~= pc.update(
            me,
            BakeryPc::ReadMax(k, max_ticket(shm.number@.take(k as int)) as nat),
        ));
    }
}

/// `bakery_take_ticket` is the model's doorway run by `me` alone: from
/// `Idle`, `me` raises its flag, reads every ticket, publishes one more
/// than the largest and lowers its flag, ending up waiting on peer 0;
/// the words it leaves are those the exec call leaves (tickets below
/// 2^64 - 1, so that the exec ticket does not wrap).
pub proof fn lemma_take_ticket_refines(old_shm: &Shm, new_shm: &Shm, pc: Seq<BakeryPc>, me: int, ticket: u64)
    requires
        old_shm.inv(),
        new_shm.inv(),
        pc.len() == MAX_INSTANCES,
        0 <= me < MAX_INSTANCES,
        pc[me] == BakeryPc::Idle,
        max_ticket(old_shm.number@) < u64::MAX,
        ticket == vstd::wrapping::u64_specs::wrapping_add(max_ticket(old_shm.number@), 1),
        new_shm.number@ == old_shm.number@.update(me, ticket),
        new_shm.choosing@ == old_shm.choosing@.update(me, 0),
    ensures
        steps_alone(bakery_abs(old_shm, pc), me, MAX_INSTANCES as nat + 3) == bakery_abs(
            new_shm,
            pc.update(me, BakeryPc::WaitChoosing(0)),
        ),
{
    let s = bakery_abs(old_shm, pc);
    let n = MAX_INSTANCES as nat;
    lemma_read_max_alone(old_shm, pc, me, n);
    assert(old_shm.number@.take(n as int) =~= old_shm.number@);
    let m = max_ticket(old_shm.number@);
    assert(ticket == m + 1);
    let a = steps_alone(s, me, n + 1);
    let b = steps_alone(s, me, n + 2);
    assert(b == bakery_next(a, me));
    assert(b.number =~= s.number.update(me, (m + 1) as nat));
    assert(b.pc =~= pc.update(me, BakeryPc::ClearChoosing));
    let c = steps_alone(s, me, n + 3);
    assert(c == bakery_next(b, me));
    let t = bakery_abs(new_shm, pc.update(me, BakeryPc::WaitChoosing(0)));
    assert(c.choosing =~= t.choosing);
    assert(c.number =~= t.number);
    assert(c.pc =~= t.pc);
}

/// Waiting for peer `j` to finish choosing is the model's `WaitChoosing`
/// step: `me` stays while `bakery_peer_choosing` says so, and goes on to
/// compare tickets with `j` once it does not; `me` passes over itself, and
/// holds the lock once it has passed every peer.
pub proof fn lemma_peer_choosing_refines(shm: &Shm, pc: Seq<BakeryPc>, me: int, j: nat)
    requires
        shm.inv(),
        pc.len() == MAX_INSTANCES,
        0 <= me < MAX_INSTANCES,
        pc[me] == BakeryPc::WaitChoosing(j),
    ensures
        bakery_next(bakery_abs(shm, pc), me) == bakery_abs(
            shm,
            if j >= MAX_INSTANCES {
                pc.update(me, BakeryPc::Critical)
            } else if j == me {
                pc.update(me, BakeryPc::WaitChoosing(j + 1))
            } else if shm.choosing@[j as int] != 0 {
                pc
            } else {
                pc.update(me, BakeryPc::WaitNum(j))
            },
        ),
{
}

/// Comparing tickets with peer `j` is the model's `WaitNum` step: `me`,
/// whose published ticket is `ticket`, goes on to the next peer exactly
/// when `bakery_step` would answer `Proceed` (see `yields_to`), and
/// stays otherwise.
pub proof fn lemma_step_refines(shm: &Shm, pc: Seq<BakeryPc>, me: int, j: nat, ticket: u64)
    requires
        shm.inv(),
        pc.len() == MAX_INSTANCES,
        0 <= me < MAX_INSTANCES,
        j < MAX_INSTANCES,
        pc[me] == BakeryPc::WaitNum(j),
        shm.number@[me] == ticket,
    ensures
        bakery_next(bakery_abs(shm, pc), me) == bakery_abs(
            shm,
            if yields_to(shm.number@[j as int], j as int, ticket, me) {
                pc.update(me, BakeryPc::WaitChoosing(j + 1))
            } else {
                pc
            },
        ),
{
    lemma_step_test_is_model_test(shm.number@[j as int], j as int, ticket, me);
}

/// `bakery_unlock` is the model's exit step from the critical section.
pub proof fn lemma_unlock_refines(old_shm: &Shm, new_shm: &Shm, pc: Seq<BakeryPc>, me: int)
    requires
        old_shm.inv(),
        new_shm.inv(),
        pc.len() == MAX_INSTANCES,
        0 <= me < MAX_INSTANCES,
        pc[me] == BakeryPc::Critical,
        new_shm.number@ == old_shm.number@.update(me, 0),
        new_shm.choosing@ == old_shm.choosing@,
    ensures
        bakery_next(bakery_abs(old_shm, pc), me) == bakery_abs(new_shm, pc.update(me, BakeryPc::Idle)),
{
    let a = bakery_next(bakery_abs(old_shm, pc), me);
    let b = bakery_abs(new_shm, pc.update(me, BakeryPc::Idle));
    assert(a.number =~= b.number);
    assert(a.choosing =~= b.choosing);
}

} // verus!
