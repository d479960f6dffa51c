//! The arithmetic and bookkeeping of the distributed demo programs that
//! run on top of the shared region: the calculator's tasks and the
//! master's tally of replies, the sort-merge pipeline's pseudo-random
//! numbers, sort and batch check, the stress test's byte pattern, and the
//! page and bulk-transfer "done" messages of the multi-instance tests.

use vstd::prelude::*;

verus! {

/// Workers in the distributed calculator.
pub const WORKERS: usize = 2;
/// Tasks sent to each worker.
pub const TASKS_PER_WORKER: usize = 32;
/// All tasks of one calculator run.
pub const TOTAL_TASKS: usize = WORKERS * TASKS_PER_WORKER;

/// Multiplier of the sort-merge pipeline's linear congruential generator.
pub const LCG_MUL: u64 = 6364136223846793005;
/// Increment of the sort-merge pipeline's linear congruential generator.
pub const LCG_INC: u64 = 1442695040888963407;

/// Length of a mailbox message.
pub const MSG_LEN: usize = 60;
/// Tag byte of the bulk-transfer "done" message.
pub const TAG_BULK_DONE: u8 = 2;

/// What a calculator task with operation `op` computes on `a` and `b`:
/// 1 adds, 2 multiplies, 3 mixes `a` with a multiple of `b`, anything else
/// gives `a` back. Arithmetic wraps at 2^32.
pub open spec fn spec_compute(op: u8, a: u32, b: u32) -> u32 {
    if op == 1 {
        vstd::wrapping::u32_specs::wrapping_add(a, b)
    } else if op == 2 {
        vstd::wrapping::u32_specs::wrapping_mul(a, b)
    } else if op == 3 {
        a ^ vstd::wrapping::u32_specs::wrapping_mul(b, 0x9E37_79B9u32)
    } else {
        a
    }
}

/// Computes a calculator task.
pub fn compute(op: u8, a: u32, b: u32) -> (r: u32)
    ensures
        r == spec_compute(op, a, b),
{
    match op {
        1 => a.wrapping_add(b),
        2 => a.wrapping_mul(b),
        3 => a ^ (b.wrapping_mul(0x9E37_79B9u32)),
        _ => a,
    }
}

/// The operation and operands of calculator task `id`.
pub open spec fn spec_task_params(id: u32) -> (u8, u32, u32) {
    (
        (id % 3 + 1) as u8,
        vstd::wrapping::u32_specs::wrapping_add(vstd::wrapping::u32_specs::wrapping_mul(id, 13), 7),
        vstd::wrapping::u32_specs::wrapping_add(vstd::wrapping::u32_specs::wrapping_mul(id, 31), 19),
    )
}

/// The operation and operands the master sends as task `id`.
pub fn task_params(id: u32) -> (t: (u8, u32, u32))
    ensures
        t == spec_task_params(id),
{
    let op = (id % 3 + 1) as u8;
    let a = id.wrapping_mul(13).wrapping_add(7);
    let b = id.wrapping_mul(31).wrapping_add(19);
    (op, a, b)
}

/// The result the master expects for task `id`.
pub fn expected_result(id: u32) -> (r: u32)
    ensures
        r == spec_compute(spec_task_params(id).0, spec_task_params(id).1, spec_task_params(id).2),
{
    let (op, a, b) = task_params(id);
    compute(op, a, b)
}

/// One step of the pipeline's generator: the next state, which is also the
/// number produced.
pub open spec fn spec_next_rand(seed: u64) -> u64 {
    vstd::wrapping::u64_specs::wrapping_add(vstd::wrapping::u64_specs::wrapping_mul(seed, LCG_MUL), LCG_INC)
}

/// Advances the generator and returns the new state.
pub fn next_rand(seed: &mut u64) -> (r: u64)
    ensures
        *final(seed) == spec_next_rand(*old(seed)),
        r == *final(seed),
{
    *seed = seed.wrapping_mul(LCG_MUL).wrapping_add(LCG_INC);
    *seed
}

/// The byte the stress test writes in page `i` of round `iter`:
/// `0x20 + 16 * (i mod 16) + iter`, modulo 256.
pub open spec fn spec_pattern(iter: usize, i: usize) -> u8 {
    ((0x20 + 16 * (i % 16) + iter % 256) % 256) as u8
}

/// The byte the stress test writes in page `i` of round `iter`.
pub fn pattern(iter: usize, i: usize) -> (b: u8)
    ensures
        b == spec_pattern(iter, i),
{
    let lo = i as u8;
    let it = iter as u8;
    let shifted = lo << 4u8;
    let r = (0x20u8).wrapping_add(shifted).wrapping_add(it);
    assert(shifted == ((lo as int % 16) * 16) as u8) by (bit_vector)
        requires
            shifted == lo << 4u8,
    ;
    assert(lo as int % 16 == i % 16 && it as int == iter % 256) by (bit_vector)
        requires
            lo == i as u8,
            it == iter as u8,
    ;
    r
}

/// The bytes of a bulk-transfer "done" message that reports `count` pages:
/// the tag at byte 4 and the count, little-endian and taken modulo 2^16, at
/// bytes 5 and 6; every other byte is zero.
pub open spec fn bulk_done_bytes(count: usize) -> Seq<u8> {
    Seq::new(
        MSG_LEN as nat,
        |k: int|
            if k == 4 {
                TAG_BULK_DONE
            } else if k == 5 {
                (count % 256) as u8
            } else if k == 6 {
                ((count / 256) % 256) as u8
            } else {
                0u8
            },
    )
}

/// The page count that a "done" message reports.
pub open spec fn bulk_done_count(m: Seq<u8>) -> int {
    m[5] + 256 * m[6]
}

/// Builds the "done" message for `count` pages.
pub fn make_bulk_done(count: usize) -> (m: [u8; 60])
    ensures
        m@ == bulk_done_bytes(count),
{
    let mut m = [0u8; 60];
    m[4] = TAG_BULK_DONE;
    let lo = (count % 256) as u8;
    let hi = ((count / 256) % 256) as u8;
    m[5] = lo;
    m[6] = hi;
    assert(m@ =~= bulk_done_bytes(count));
    m
}

/// The page count that a "done" message reports.
pub fn read_bulk_done(msg: &[u8; 60]) -> (n: usize)
    ensures
        n == bulk_done_count(msg@),
{
    msg[5] as usize + 256 * (msg[6] as usize)
}

/// Reading a "done" message gives back the count it was built with,
/// modulo 2^16.
pub proof fn lemma_bulk_done_roundtrip(count: usize)
    ensures
        bulk_done_count(bulk_done_bytes(count)) == count % 65536,
{
    let s = bulk_done_bytes(count);
    assert(s[5] == count % 256);
    assert(s[6] == (count / 256) % 256);
    assert(count % 256 + 256 * ((count / 256) % 256) == count % 65536) by (nonlinear_arith);
}

/// Number of `true` entries.
pub open spec fn count_true(s: Seq<bool>) -> nat
    decreases s.len(),
{
    if s.len() == 0 {
        0
    } else {
        count_true(s.drop_last()) + if s.last() {
            1nat
        } else {
            0nat
        }
    }
}

proof fn lemma_count_true_bound(s: Seq<bool>)
    ensures
        count_true(s) <= s.len(),
        count_true(s) == s.len() <==> forall|k: int| 0 <= k < s.len() ==> #[trigger] s[k],
    decreases s.len(),
{
    if s.len() > 0 {
        lemma_count_true_bound(s.drop_last());
        if count_true(s) == s.len() {
            assert forall|k: int| 0 <= k < s.len() implies #[trigger] s[k] by {
                if k < s.len() - 1 {
                    assert(s.drop_last()[k] == s[k]);
                }
            }
        }
        if forall|k: int| 0 <= k < s.len() ==> #[trigger] s[k] {
            assert forall|k: int| 0 <= k < s.drop_last().len() implies #[trigger] s.drop_last()[k] by {
                assert(s[k]);
            }
            assert(s[s.len() - 1]);
        }
    }
}

proof fn lemma_count_true_set(s: Seq<bool>, i: int)
    requires
        0 <= i < s.len(),
        !s[i],
    ensures
        count_true(s.update(i, true)) == count_true(s) + 1,
    decreases s.len(),
{
    let t = s.update(i, true);
    if i == s.len() - 1 {
        assert(t.drop_last() =~= s.drop_last());
    } else {
        assert(t.drop_last() =~= s.drop_last().update(i, true));
        lemma_count_true_set(s.drop_last(), i);
    }
}

proof fn lemma_count_true_all_false(n: nat)
    ensures
        count_true(Seq::new(n, |k: int| false)) == 0,
    decreases n,
{
    if n > 0 {
        assert(Seq::new(n, |k: int| false).drop_last() =~= Seq::new((n - 1) as nat, |k: int| false));
        lemma_count_true_all_false((n - 1) as nat);
    }
}

/// The master's record of the replies that came back: for each task,
/// whether its reply arrived and what it said. A task's first reply counts;
/// later ones for the same task, and replies for tasks that do not exist,
/// are dropped.
pub struct ReplyTally {
    results: Vec<u32>,
    received: Vec<bool>,
    count: usize,
}

impl ReplyTally {
    /// Results recorded so far, by task (0 where none arrived).
    pub closed spec fn results(&self) -> Seq<u32> {
        self.results@
    }

    /// Which tasks have had their reply.
    pub closed spec fn received(&self) -> Seq<bool> {
        self.received@
    }

    /// One result and one flag per task, and the count is the number of
    /// tasks whose reply arrived.
    pub closed spec fn wf(&self) -> bool {
        &&& self.results@.len() == self.received@.len()
        &&& self.count == count_true(self.received@)
    }

    /// A tally for `total` tasks with no reply yet.
    pub fn new(total: usize) -> (t: Self)
        ensures
            t.wf(),
            t.results() == Seq::new(total as nat, |k: int| 0u32),
            t.received() == Seq::new(total as nat, |k: int| false),
    {
        let mut results: Vec<u32> = Vec::new();
        let mut received: Vec<bool> = Vec::new();
        let mut k: usize = 0;
        while k < total
            invariant
                k <= total,
                results@ == Seq::new(k as nat, |j: int| 0u32),
                received@ == Seq::new(k as nat, |j: int| false),
            decreases total - k,
        {
            results.push(0);
            received.push(false);
            k = k + 1;
            assert(results@ =~= Seq::new(k as nat, |j: int| 0u32));
            assert(received@ =~= Seq::new(k as nat, |j: int| false));
        }
        proof {
            lemma_count_true_all_false(total as nat);
        }
        ReplyTally { results, received, count: 0 }
    }

    /// Records the reply `result` for task `id`. Returns whether it was
    /// taken: it is when `id` names a task whose reply had not arrived yet.
    pub fn record(&mut self, id: u32, result: u32) -> (taken: bool)
        requires
            old(self).wf(),
        ensures
            final(self).wf(),
            taken == (id < old(self).received().len() && !old(self).received()[id as int]),
            taken ==> final(self).results() == old(self).results().update(id as int, result)
                && final(self).received() == old(self).received().update(id as int, true),
            !taken ==> final(self).results() == old(self).results() && final(self).received()
                == old(self).received(),
    {
        let idx = id as usize;
        if idx < self.received.len() && !self.received[idx] {
            proof {
                lemma_count_true_set(self.received@, idx as int);
                lemma_count_true_bound(self.received@.update(idx as int, true));
            }
            self.results.set(idx, result);
            self.received.set(idx, true);
            self.count = self.count + 1;
            true
        } else {
            false
        }
    }

    /// Number of tasks whose reply arrived.
    pub fn count(&self) -> (n: usize)
        requires
            self.wf(),
        ensures
            n == count_true(self.received()),
    {
        self.count
    }

    /// Whether every task's reply arrived.
    pub fn is_complete(&self) -> (b: bool)
        requires
            self.wf(),
        ensures
            b == forall|k: int| 0 <= k < self.received().len() ==> #[trigger] self.received()[k],
    {
        proof {
            lemma_count_true_bound(self.received@);
        }
        let b = self.count == self.received.len();
        proof {
            if b {
                assert forall|k: int| 0 <= k < self.received().len() implies #[trigger] self.received()[k] by {
                    assert(self.received@[k]);
                }
            } else {
                if forall|k: int| 0 <= k < self.received().len() ==> #[trigger] self.received()[k] {
                    assert forall|k: int| 0 <= k < self.received@.len() implies #[trigger] self.received@[k] by {
                        assert(self.received()[k]);
                    }
                }
            }
        }
        b
    }

    /// The result recorded for task `i`.
    pub fn result(&self, i: usize) -> (r: u32)
        requires
            self.wf(),
            i < self.results().len(),
        ensures
            r == self.results()[i as int],
    {
        self.results[i]
    }

    /// Number of tasks whose recorded result differs from `expected`.
    pub fn mismatches(&self, expected: &Vec<u32>) -> (n: usize)
        requires
            self.wf(),
            expected@.len() == self.results().len(),
        ensures
            n == count_true(Seq::new(expected@.len(), |k: int| self.results()[k] != expected@[k])),
    {
        let ghost diff = Seq::new(expected@.len(), |k: int| self.results@[k] != expected@[k]);
        let mut n: usize = 0;
        let mut i: usize = 0;
        while i < expected.len()
            invariant
                i <= expected@.len(),
                expected@.len() == self.results@.len(),
                diff == Seq::new(expected@.len(), |k: int| self.results@[k] != expected@[k]),
                n == count_true(diff.take(i as int)),
                n <= i,
            decreases expected@.len() - i,
        {
            assert(diff.take(i + 1).drop_last() =~= diff.take(i as int));
            if self.results[i] != expected[i] {
                n = n + 1;
            }
            i = i + 1;
        }
        assert(diff.take(i as int) =~= diff);
        n
    }
}

/// Once the tally says every reply arrived, no further reply is taken.
pub proof fn lemma_complete_tally_takes_nothing(t: ReplyTally, id: u32)
    requires
        t.wf(),
        forall|k: int| 0 <= k < t.received().len() ==> #[trigger] t.received()[k],
    ensures
        !(id < t.received().len() && !t.received()[id as int]),
{
}

/// The first `n` entries are in increasing order.
pub open spec fn sorted_prefix(s: Seq<u64>, n: int) -> bool {
    forall|p: int, q: int| 0 <= p < q < n ==> #[trigger] s[p] <= #[trigger] s[q]
}

proof fn lemma_swap_multiset(s: Seq<u64>, i: int, j: int)
    requires
        0 <= i < s.len(),
        0 <= j < s.len(),
    ensures
        s.update(i, s[j]).update(j, s[i]).to_multiset() == s.to_multiset(),
{
    broadcast use vstd::multiset::group_multiset_axioms;
    let t = s.update(i, s[j]);
    vstd::seq_lib::to_multiset_update(s, i, s[j]);
    vstd::seq_lib::to_multiset_update(t, j, s[i]);
    vstd::seq_lib::to_multiset_contains(s, s[i]);
    vstd::seq_lib::to_multiset_contains(s, s[j]);
    assert(s.contains(s[i]));
    if i == j {
        assert(t.update(j, s[i]) =~= s);
    } else {
        assert(t[j] == s[j]);
        assert(s.to_multiset().insert(s[j]).remove(s[i]).insert(s[i]).remove(s[j]) =~= s.to_multiset());
    }
}

/// Sorts the first `n` entries of `a` in increasing order, leaving the rest
/// as they are (an exchange sort: each position in turn takes the smallest
/// of the entries after it).
pub fn sort_range(a: &mut Vec<u64>, n: usize)
    requires
        n <= old(a)@.len(),
    ensures
        final(a)@.len() == old(a)@.len(),
        sorted_prefix(final(a)@, n as int),
        final(a)@.to_multiset() == old(a)@.to_multiset(),
        forall|k: int| n <= k < old(a)@.len() ==> #[trigger] final(a)@[k] == old(a)@[k],
{
    let mut i: usize = 0;
    while i < n
        invariant
            i <= n <= a@.len(),
            a@.len() == old(a)@.len(),
            sorted_prefix(a@, i as int),
            forall|p: int, q: int| 0 <= p < i <= q < n ==> #[trigger] a@[p] <= #[trigger] a@[q],
            a@.to_multiset() == old(a)@.to_multiset(),
            forall|k: int| n <= k < old(a)@.len() ==> #[trigger] a@[k] == old(a)@[k],
        decreases n - i,
    {
        let mut j: usize = i + 1;
        while j < n
            invariant
                i < n <= a@.len(),
                i + 1 <= j <= n,
                a@.len() == old(a)@.len(),
                sorted_prefix(a@, i as int),
                forall|p: int, q: int| 0 <= p < i <= q < n ==> #[trigger] a@[p] <= #[trigger] a@[q],
                forall|k: int| i < k < j ==> a@[i as int] <= #[trigger] a@[k],
                a@.to_multiset() == old(a)@.to_multiset(),
                forall|k: int| n <= k < old(a)@.len() ==> #[trigger] a@[k] == old(a)@[k],
            decreases n - j,
        {
            if a[j] < a[i] {
                let ghost s = a@;
                let x = a[i];
                let y = a[j];
                a.set(i, y);
                a.set(j, x);
                proof {
                    lemma_swap_multiset(s, i as int, j as int);
                    assert(a@ == s.update(i as int, s[j as int]).update(j as int, s[i as int]));
                    assert forall|p: int, q: int| 0 <= p < i <= q < n implies #[trigger] a@[p] <= #[trigger] a@[q] by {
                        assert(a@[p] == s[p]);
                        if q == i {
                            assert(s[p] <= s[j as int]);
                        } else if q == j {
                            assert(s[p] <= s[i as int]);
                        } else {
                            assert(s[p] <= s[q]);
                        }
                    }
                    assert forall|k: int| i < k < j + 1 implies a@[i as int] <= #[trigger] a@[k] by {
                        if k < j {
                            assert(s[i as int] <= s[k]);
                        }
                    }
                    assert(sorted_prefix(a@, i as int)) by {
                        assert forall|p: int, q: int| 0 <= p < q < i implies #[trigger] a@[p] <= #[trigger] a@[q] by {
                            assert(s[p] <= s[q]);
                        }
                    }
                }
            }
            j = j + 1;
        }
        proof {
            assert forall|p: int, q: int| 0 <= p < q < i + 1 implies #[trigger] a@[p] <= #[trigger] a@[q] by {
                if q < i {
                } else {
                    assert(a@[p] <= a@[i as int]);
                }
            }
            assert forall|p: int, q: int| 0 <= p < i + 1 <= q < n implies #[trigger] a@[p] <= #[trigger] a@[q] by {
                if p < i {
                } else {
                    assert(a@[i as int] <= a@[q]);
                }
            }
        }
        i = i + 1;
    }
}

/// Sorts all of `a` in increasing order.
pub fn sort(a: &mut Vec<u64>)
    ensures
        final(a)@.len() == old(a)@.len(),
        sorted_prefix(final(a)@, final(a)@.len() as int),
        final(a)@.to_multiset() == old(a)@.to_multiset(),
{
    let n = a.len();
    sort_range(a, n);
}

/// The worker (node id) that task `id` is sent to: tasks are dealt out in
/// blocks of `TASKS_PER_WORKER`, to workers 1, 2, ...
pub fn task_worker(id: u32) -> (w: usize)
    ensures
        w == id as int / TASKS_PER_WORKER as int + 1,
{
    (id as usize) / TASKS_PER_WORKER + 1
}

/// The results the master expects for tasks `0..total`.
pub fn expected_results(total: u32) -> (v: Vec<u32>)
    ensures
        v@.len() == total,
        forall|k: int|
            0 <= k < total ==> #[trigger] v@[k] == spec_compute(
                spec_task_params(k as u32).0,
                spec_task_params(k as u32).1,
                spec_task_params(k as u32).2,
            ),
{
    let mut v: Vec<u32> = Vec::new();
    let mut id: u32 = 0;
    while id < total
        invariant
            id <= total,
            v@.len() == id,
            forall|k: int|
                0 <= k < id ==> #[trigger] v@[k] == spec_compute(
                    spec_task_params(k as u32).0,
                    spec_task_params(k as u32).1,
                    spec_task_params(k as u32).2,
                ),
        decreases total - id,
    {
        let r = expected_result(id);
        v.push(r);
        id = id + 1;
    }
    v
}

/// Two sorted sequences with the same entries are the same sequence.
pub proof fn lemma_sorted_same_entries_equal(a: Seq<u64>, b: Seq<u64>)
    requires
        sorted_prefix(a, a.len() as int),
        sorted_prefix(b, b.len() as int),
        a.to_multiset() == b.to_multiset(),
    ensures
        a == b,
    decreases a.len(),
{
    broadcast use vstd::multiset::group_multiset_axioms;
    vstd::seq_lib::to_multiset_len(a);
    vstd::seq_lib::to_multiset_len(b);
    if a.len() > 0 {
        vstd::seq_lib::to_multiset_contains(a, a[0]);
        vstd::seq_lib::to_multiset_contains(b, a[0]);
        vstd::seq_lib::to_multiset_contains(b, b[0]);
        vstd::seq_lib::to_multiset_contains(a, b[0]);
        assert(a.contains(a[0]));
        assert(b.contains(b[0]));
        let i = choose|i: int| 0 <= i < b.len() && b[i] == a[0];
        let j = choose|j: int| 0 <= j < a.len() && a[j] == b[0];
        if i > 0 {
            assert(b[0] <= b[i]);
        }
        if j > 0 {
            assert(a[0] <= a[j]);
        }
        assert(a[0] == b[0]);
        vstd::seq_lib::to_multiset_remove(a, 0);
        vstd::seq_lib::to_multiset_remove(b, 0);
        let a1 = a.remove(0);
        let b1 = b.remove(0);
        assert(sorted_prefix(a1, a1.len() as int)) by {
            assert forall|p: int, q: int| 0 <= p < q < a1.len() implies #[trigger] a1[p] <= #[trigger] a1[q] by {
                assert(a1[p] == a[p + 1] && a1[q] == a[q + 1]);
            }
        }
        assert(sorted_prefix(b1, b1.len() as int)) by {
            assert forall|p: int, q: int| 0 <= p < q < b1.len() implies #[trigger] b1[p] <= #[trigger] b1[q] by {
                assert(b1[p] == b[p + 1] && b1[q] == b[q + 1]);
            }
        }
        lemma_sorted_same_entries_equal(a1, b1);
        assert(a =~= b) by {
            assert forall|k: int| 0 <= k < a.len() implies a[k] == b[k] by {
                if k > 0 {
                    assert(a[k] == a1[k - 1] && b[k] == b1[k - 1]);
                }
            }
        }
    }
}

/// What the pipeline's master concludes of a batch `data` that came back
/// as `returned` (of the same length): 1 when `returned` is out of order,
/// else 2 when it is not the batch in sorted order, else 0.
pub fn batch_verdict(data: &Vec<u64>, returned: &Vec<u64>) -> (r: u8)
    requires
        data@.len() == returned@.len(),
    ensures
        r == 1 <==> !sorted_prefix(returned@, returned@.len() as int),
        r == 2 <==> sorted_prefix(returned@, returned@.len() as int) && returned@.to_multiset()
            != data@.to_multiset(),
        r == 0 <==> sorted_prefix(returned@, returned@.len() as int) && returned@.to_multiset()
            == data@.to_multiset(),
{
    let n = returned.len();
    let mut i: usize = 1;
    while i < n
        invariant
            1 <= i,
            n == returned@.len(),
            i <= n || n == 0,
            forall|p: int, q: int| 0 <= p < q < i && q < n ==> #[trigger] returned@[p] <= #[trigger] returned@[q],
        decreases n - i,
    {
        if returned[i] < returned[i - 1] {
            return 1;
        }
        proof {
            assert forall|p: int, q: int| 0 <= p < q < i + 1 && q < n implies #[trigger] returned@[p]
                <= #[trigger] returned@[q] by {
                if q == i && p < i - 1 {
                    assert(returned@[p] <= returned@[i - 1]);
                }
            }
        }
        i = i + 1;
    }
    assert(sorted_prefix(returned@, returned@.len() as int));
    let mut orig = data.clone();
    assert(orig@ == data@);
    sort(&mut orig);
    let mut k: usize = 0;
    while k < n
        invariant
            k <= n,
            n == returned@.len(),
            orig@.len() == n,
            sorted_prefix(returned@, n as int),
            sorted_prefix(orig@, n as int),
            orig@.to_multiset() == data@.to_multiset(),
            forall|m: int| 0 <= m < k ==> orig@[m] == returned@[m],
        decreases n - k,
    {
        if orig[k] != returned[k] {
            proof {
                if returned@.to_multiset() == data@.to_multiset() {
                    lemma_sorted_same_entries_equal(orig@, returned@);
                }
            }
            return 2;
        }
        k = k + 1;
    }
    assert(orig@ =~= returned@);
    0
}


/// Byte `j` (0 to 3) of `v` in little-endian order.
pub open spec fn le_byte(v: u32, j: int) -> u8 {
    if j == 0 {
        (v % 256) as u8
    } else if j == 1 {
        ((v / 256) % 256) as u8
    } else if j == 2 {
        ((v / 65536) % 256) as u8
    } else {
        ((v / 16777216) % 256) as u8
    }
}

/// The bytes of a page message: the index, taken modulo 2^32, little-endian
/// in bytes 0 to 3, the kind in byte 4, zero elsewhere.
pub open spec fn page_msg_bytes(idx: usize, kind: u8) -> Seq<u8> {
    Seq::new(MSG_LEN as nat, |k: int| if k < 4 { le_byte(idx as u32, k) } else if k == 4 { kind } else { 0u8 })
}

/// The index and kind that a page message carries.
pub open spec fn page_msg_fields(m: Seq<u8>) -> (int, u8) {
    (m[0] + 256 * m[1] + 65536 * m[2] + 16777216 * m[3], m[4])
}

/// Builds the page message for page `idx` of kind `kind`.
pub fn make_msg(idx: usize, kind: u8) -> (m: [u8; 60])
    ensures
        m@ == page_msg_bytes(idx, kind),
{
    let v = idx as u32;
    let mut m = [0u8; 60];
    let b0 = (v & 0xff) as u8;
    let b1 = ((v >> 8u32) & 0xff) as u8;
    let b2 = ((v >> 16u32) & 0xff) as u8;
    let b3 = ((v >> 24u32) & 0xff) as u8;
    assert(b0 == v % 256 && b1 == (v / 256) % 256 && b2 == (v / 65536) % 256 && b3 == (v / 16777216) % 256)
        by (bit_vector)
        requires
            b0 == (v & 0xff) as u8,
            b1 == ((v >> 8u32) & 0xff) as u8,
            b2 == ((v >> 16u32) & 0xff) as u8,
            b3 == ((v >> 24u32) & 0xff) as u8,
    ;
    m[0] = b0;
    m[1] = b1;
    m[2] = b2;
    m[3] = b3;
    m[4] = kind;
    assert(m@ =~= page_msg_bytes(idx, kind));
    m
}

/// The index and kind that a page message carries.
pub fn read_idx(msg: &[u8; 60]) -> (r: (usize, u8))
    ensures
        r.0 == page_msg_fields(msg@).0,
        r.1 == page_msg_fields(msg@).1,
{
    let v: u32 = msg[0] as u32 + 256 * (msg[1] as u32) + 65536 * (msg[2] as u32) + 16777216 * (msg[3] as u32);
    (v as usize, msg[4])
}

/// Reading a page message gives back the index, modulo 2^32, and the kind
/// it was built with.
pub proof fn lemma_page_msg_roundtrip(idx: usize, kind: u8)
    ensures
        page_msg_fields(page_msg_bytes(idx, kind)) == ((idx as u32) as int, kind),
{
    let v = idx as u32;
    let s = page_msg_bytes(idx, kind);
    assert(s[0] == le_byte(v, 0) && s[1] == le_byte(v, 1) && s[2] == le_byte(v, 2) && s[3] == le_byte(v, 3));
    assert(v % 256 + 256 * ((v / 256) % 256) + 65536 * ((v / 65536) % 256) + 16777216 * ((v / 16777216) % 256)
        == v) by (bit_vector);
}


/// The four little-endian bytes of `v`.
fn u32_le(v: u32) -> (b: (u8, u8, u8, u8))
    ensures
        b.0 == le_byte(v, 0) && b.1 == le_byte(v, 1) && b.2 == le_byte(v, 2) && b.3 == le_byte(v, 3),
{
    let b0 = (v & 0xff) as u8;
    let b1 = ((v >> 8u32) & 0xff) as u8;
    let b2 = ((v >> 16u32) & 0xff) as u8;
    let b3 = ((v >> 24u32) & 0xff) as u8;
    assert(b0 == v % 256 && b1 == (v / 256) % 256 && b2 == (v / 65536) % 256 && b3 == (v / 16777216) % 256)
        by (bit_vector)
        requires
            b0 == (v & 0xff) as u8,
            b1 == ((v >> 8u32) & 0xff) as u8,
            b2 == ((v >> 16u32) & 0xff) as u8,
            b3 == ((v >> 24u32) & 0xff) as u8,
    ;
    (b0, b1, b2, b3)
}

/// The 32-bit value stored little-endian at bytes `off..off + 4` of `m`.
pub open spec fn from_le32(m: Seq<u8>, off: int) -> int {
    m[off] + 256 * m[off + 1] + 65536 * m[off + 2] + 16777216 * m[off + 3]
}

fn read_u32_le(m: &[u8; 60], off: usize) -> (v: u32)
    requires
        off + 4 <= MSG_LEN,
    ensures
        v == from_le32(m@, off as int),
{
    m[off] as u32 + 256 * (m[off + 1] as u32) + 65536 * (m[off + 2] as u32) + 16777216 * (m[off + 3] as u32)
}

/// Little-endian bytes give their value back.
pub proof fn lemma_u32_le_roundtrip(v: u32)
    ensures
        le_byte(v, 0) + 256 * le_byte(v, 1) + 65536 * le_byte(v, 2) + 16777216 * le_byte(v, 3) == v,
{
    assert(v % 256 + 256 * ((v / 256) % 256) + 65536 * ((v / 65536) % 256) + 16777216 * ((v / 16777216) % 256)
        == v) by (bit_vector);
}

/// Tag of a calculator task message.
pub const TAG_TASK: u8 = 1;
/// Tag of a calculator reply message.
pub const TAG_REPLY: u8 = 2;

/// The bytes of task `req_id` (operation `op` on `a` and `b`): the tag at
/// byte 0, the id at 1..5, the operation at 5, `a` at 6..10 and `b` at
/// 10..14, little-endian; zero elsewhere.
pub open spec fn task_bytes(req_id: u32, op: u8, a: u32, b: u32) -> Seq<u8> {
    Seq::new(
        MSG_LEN as nat,
        |k: int|
            if k == 0 {
                TAG_TASK
            } else if 1 <= k < 5 {
                le_byte(req_id, k - 1)
            } else if k == 5 {
                op
            } else if 6 <= k < 10 {
                le_byte(a, k - 6)
            } else if 10 <= k < 14 {
                le_byte(b, k - 10)
            } else {
                0u8
            },
    )
}

/// The bytes of the reply to task `req_id` with `result`: the tag at byte
/// 0, the id at 1..5 and the result at 5..9, little-endian; zero elsewhere.
pub open spec fn reply_bytes(req_id: u32, result: u32) -> Seq<u8> {
    Seq::new(
        MSG_LEN as nat,
        |k: int|
            if k == 0 {
                TAG_REPLY
            } else if 1 <= k < 5 {
                le_byte(req_id, k - 1)
            } else if 5 <= k < 9 {
                le_byte(result, k - 5)
            } else {
                0u8
            },
    )
}

/// Builds the message for task `req_id`.
pub fn make_task(req_id: u32, op: u8, a: u32, b: u32) -> (m: [u8; 60])
    ensures
        m@ == task_bytes(req_id, op, a, b),
{
    let mut m = [0u8; 60];
    m[0] = TAG_TASK;
    let (i0, i1, i2, i3) = u32_le(req_id);
    m[1] = i0;
    m[2] = i1;
    m[3] = i2;
    m[4] = i3;
    m[5] = op;
    let (a0, a1, a2, a3) = u32_le(a);
    m[6] = a0;
    m[7] = a1;
    m[8] = a2;
    m[9] = a3;
    let (b0, b1, b2, b3) = u32_le(b);
    m[10] = b0;
    m[11] = b1;
    m[12] = b2;
    m[13] = b3;
    assert(m@ =~= task_bytes(req_id, op, a, b));
    m
}

/// The id, operation and operands of a task message.
pub fn read_task(m: &[u8; 60]) -> (t: (u32, u8, u32, u32))
    ensures
        t.0 == from_le32(m@, 1),
        t.1 == m@[5],
        t.2 == from_le32(m@, 6),
        t.3 == from_le32(m@, 10),
{
    (read_u32_le(m, 1), m[5], read_u32_le(m, 6), read_u32_le(m, 10))
}

/// Builds the reply to task `req_id`.
pub fn make_reply(req_id: u32, result: u32) -> (m: [u8; 60])
    ensures
        m@ == reply_bytes(req_id, result),
{
    let mut m = [0u8; 60];
    m[0] = TAG_REPLY;
    let (i0, i1, i2, i3) = u32_le(req_id);
    m[1] = i0;
    m[2] = i1;
    m[3] = i2;
    m[4] = i3;
    let (r0, r1, r2, r3) = u32_le(result);
    m[5] = r0;
    m[6] = r1;
    m[7] = r2;
    m[8] = r3;
    assert(m@ =~= reply_bytes(req_id, result));
    m
}

/// The id and result of a reply message.
pub fn read_reply(m: &[u8; 60]) -> (r: (u32, u32))
    ensures
        r.0 == from_le32(m@, 1),
        r.1 == from_le32(m@, 5),
{
    (read_u32_le(m, 1), read_u32_le(m, 5))
}

/// Reading a task or reply message gives back what it was built with.
pub proof fn lemma_task_reply_roundtrip(req_id: u32, op: u8, a: u32, b: u32, result: u32)
    ensures
        from_le32(task_bytes(req_id, op, a, b), 1) == req_id,
        task_bytes(req_id, op, a, b)[5] == op,
        from_le32(task_bytes(req_id, op, a, b), 6) == a,
        from_le32(task_bytes(req_id, op, a, b), 10) == b,
        from_le32(reply_bytes(req_id, result), 1) == req_id,
        from_le32(reply_bytes(req_id, result), 5) == result,
{
    lemma_u32_le_roundtrip(req_id);
    lemma_u32_le_roundtrip(a);
    lemma_u32_le_roundtrip(b);
    lemma_u32_le_roundtrip(result);
    let t = task_bytes(req_id, op, a, b);
    let r = reply_bytes(req_id, result);
    assert(t[1] == le_byte(req_id, 0) && t[2] == le_byte(req_id, 1) && t[3] == le_byte(req_id, 2) && t[4]
        == le_byte(req_id, 3));
    assert(t[6] == le_byte(a, 0) && t[7] == le_byte(a, 1) && t[8] == le_byte(a, 2) && t[9] == le_byte(a, 3));
    assert(t[10] == le_byte(b, 0) && t[11] == le_byte(b, 1) && t[12] == le_byte(b, 2) && t[13] == le_byte(b, 3));
    assert(r[1] == le_byte(req_id, 0) && r[2] == le_byte(req_id, 1) && r[3] == le_byte(req_id, 2) && r[4]
        == le_byte(req_id, 3));
    assert(r[5] == le_byte(result, 0) && r[6] == le_byte(result, 1) && r[7] == le_byte(result, 2) && r[8]
        == le_byte(result, 3));
}

} // verus!
