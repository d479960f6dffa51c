//! The sort-merge pipeline of the distributed demo: its value messages
//! (a tag byte and up to seven little-endian 64-bit values) and the
//! worker, as a step function from a received message to what to do.
//! The worker receives a batch header, then the batch in chunks of seven,
//! sorts it, sends it back in chunks and waits for the master's ack,
//! until the master says it is done.

use vstd::prelude::*;
use crate::workload::{sort, sorted_prefix, MSG_LEN};

verus! {

pub const TAG_BATCH: u8 = 1;
pub const TAG_DATA: u8 = 2;
pub const TAG_RESULT: u8 = 3;
pub const TAG_ACK: u8 = 4;
pub const TAG_DONE: u8 = 9;
/// Values carried by one message.
pub const PER_MSG: usize = 7;
/// Largest batch the worker holds.
pub const BATCH_SIZE: usize = 256;

/// Byte `k` (0 to 7) of `v`, little-endian.
pub open spec fn le_byte64(v: u64, k: int) -> u8 {
    ((v >> ((8 * k) as u64)) & 0xffu64) as u8
}

/// The 64-bit value stored little-endian at bytes `off..off + 8` of `s`.
pub open spec fn from_le64(s: Seq<u8>, off: int) -> u64 {
    (s[off] as u64) | ((s[off + 1] as u64) << 8u64) | ((s[off + 2] as u64) << 16u64) | ((s[off + 3] as u64)
        << 24u64) | ((s[off + 4] as u64) << 32u64) | ((s[off + 5] as u64) << 40u64) | ((s[off + 6] as u64)
        << 48u64) | ((s[off + 7] as u64) << 56u64)
}

/// How many of `vals` a message carries.
pub open spec fn carried(vals: Seq<u64>) -> int {
    if vals.len() < PER_MSG {
        vals.len() as int
    } else {
        PER_MSG as int
    }
}

/// The bytes of a value message: the tag at byte 0, value `i` (for the
/// first `carried(vals)` values) at bytes `1 + 8i .. 9 + 8i`, zero
/// elsewhere.
pub open spec fn values_msg_bytes(tag: u8, vals: Seq<u64>) -> Seq<u8> {
    Seq::new(
        MSG_LEN as nat,
        |j: int|
            if j == 0 {
                tag
            } else if 1 <= j < 1 + 8 * carried(vals) {
                le_byte64(vals[(j - 1) / 8], (j - 1) % 8)
            } else {
                0u8
            },
    )
}

/// Builds a value message with `tag` and the first (at most seven) of
/// `vals`.
pub fn make_msg(tag: u8, vals: &Vec<u64>) -> (m: [u8; 60])
    ensures
        m@ == values_msg_bytes(tag, vals@),
{
    let mut m = [0u8; 60];
    m[0] = tag;
    let n = if vals.len() < PER_MSG { vals.len() } else { PER_MSG };
    let mut i: usize = 0;
    while i < n
        invariant
            n == carried(vals@),
            i <= n <= PER_MSG,
            m@.len() == MSG_LEN,
            m@[0] == tag,
            forall|j: int| 1 <= j < 1 + 8 * i ==> #[trigger] m@[j] == le_byte64(vals@[(j - 1) / 8], (j - 1) % 8),
            forall|j: int| 1 + 8 * i <= j < MSG_LEN ==> #[trigger] m@[j] == 0u8,
        decreases n - i,
    {
        let v = vals[i];
        let mut k: usize = 0;
        while k < 8
            invariant
                n == carried(vals@),
                i < n <= PER_MSG,
                k <= 8,
                v == vals@[i as int],
                m@.len() == MSG_LEN,
                m@[0] == tag,
                forall|j: int| 1 <= j < 1 + 8 * i + k ==> #[trigger] m@[j] == le_byte64(vals@[(j - 1) / 8], (j - 1) % 8),
                forall|j: int| 1 + 8 * i + k <= j < MSG_LEN ==> #[trigger] m@[j] == 0u8,
            decreases 8 - k,
        {
            let b = ((v >> ((8 * k) as u64)) & 0xffu64) as u8;
            m[1 + 8 * i + k] = b;
            proof {
                let j = 1 + 8 * i + k;
                assert((j - 1) / 8 == i as int && (j - 1) % 8 == k as int);
            }
            k = k + 1;
        }
        i = i + 1;
    }
    assert(m@ =~= values_msg_bytes(tag, vals@));
    m
}

/// The tag and the seven values of a value message.
pub fn read_msg(m: &[u8; 60]) -> (r: (u8, [u64; 7]))
    ensures
        r.0 == m@[0],
        forall|i: int| 0 <= i < PER_MSG ==> #[trigger] r.1@[i] == from_le64(m@, 1 + 8 * i),
{
    let mut vals = [0u64; 7];
    let mut i: usize = 0;
    while i < PER_MSG
        invariant
            i <= PER_MSG,
            vals@.len() == PER_MSG,
            forall|k: int| 0 <= k < i ==> #[trigger] vals@[k] == from_le64(m@, 1 + 8 * k),
        decreases PER_MSG - i,
    {
        let o = 1 + 8 * i;
        let v = (m[o] as u64) | ((m[o + 1] as u64) << 8u64) | ((m[o + 2] as u64) << 16u64) | ((m[o + 3] as u64)
            << 24u64) | ((m[o + 4] as u64) << 32u64) | ((m[o + 5] as u64) << 40u64) | ((m[o + 6] as u64)
            << 48u64) | ((m[o + 7] as u64) << 56u64);
        vals[i] = v;
        i = i + 1;
    }
    (m[0], vals)
}

proof fn lemma_le64_roundtrip(v: u64)
    ensures
        (le_byte64(v, 0) as u64) | ((le_byte64(v, 1) as u64) << 8u64) | ((le_byte64(v, 2) as u64) << 16u64) | ((
        le_byte64(v, 3) as u64) << 24u64) | ((le_byte64(v, 4) as u64) << 32u64) | ((le_byte64(v, 5) as u64)
            << 40u64) | ((le_byte64(v, 6) as u64) << 48u64) | ((le_byte64(v, 7) as u64) << 56u64) == v,
{
    let b0 = le_byte64(v, 0);
    let b1 = le_byte64(v, 1);
    let b2 = le_byte64(v, 2);
    let b3 = le_byte64(v, 3);
    let b4 = le_byte64(v, 4);
    let b5 = le_byte64(v, 5);
    let b6 = le_byte64(v, 6);
    let b7 = le_byte64(v, 7);
    assert((b0 as u64) | ((b1 as u64) << 8u64) | ((b2 as u64) << 16u64) | ((b3 as u64) << 24u64) | ((b4 as u64)
        << 32u64) | ((b5 as u64) << 40u64) | ((b6 as u64) << 48u64) | ((b7 as u64) << 56u64) == v) by (bit_vector)
        requires
            b0 == ((v >> 0u64) & 0xffu64) as u8,
            b1 == ((v >> 8u64) & 0xffu64) as u8,
            b2 == ((v >> 16u64) & 0xffu64) as u8,
            b3 == ((v >> 24u64) & 0xffu64) as u8,
            b4 == ((v >> 32u64) & 0xffu64) as u8,
            b5 == ((v >> 40u64) & 0xffu64) as u8,
            b6 == ((v >> 48u64) & 0xffu64) as u8,
            b7 == ((v >> 56u64) & 0xffu64) as u8,
    ;
}

/// Reading a value message gives back the tag and the values it was built
/// with, and zero for the slots it did not carry.
pub proof fn lemma_values_msg_roundtrip(tag: u8, vals: Seq<u64>)
    ensures
        values_msg_bytes(tag, vals)[0] == tag,
        forall|i: int|
            0 <= i < PER_MSG ==> #[trigger] from_le64(values_msg_bytes(tag, vals), 1 + 8 * i) == if i < carried(
                vals,
            ) {
                vals[i]
            } else {
                0u64
            },
{
    let s = values_msg_bytes(tag, vals);
    assert forall|i: int| 0 <= i < PER_MSG implies #[trigger] from_le64(s, 1 + 8 * i) == if i < carried(vals) {
        vals[i]
    } else {
        0u64
    } by {
        let o = 1 + 8 * i;
        if i < carried(vals) {
            assert forall|k: int| 0 <= k < 8 implies #[trigger] s[o + k] == le_byte64(vals[i], k) by {
                assert((o + k - 1) / 8 == i && (o + k - 1) % 8 == k);
            }
            assert(s[o] == le_byte64(vals[i], 0));
            assert(s[o + 1] == le_byte64(vals[i], 1));
            assert(s[o + 2] == le_byte64(vals[i], 2));
            assert(s[o + 3] == le_byte64(vals[i], 3));
            assert(s[o + 4] == le_byte64(vals[i], 4));
            assert(s[o + 5] == le_byte64(vals[i], 5));
            assert(s[o + 6] == le_byte64(vals[i], 6));
            assert(s[o + 7] == le_byte64(vals[i], 7));
            lemma_le64_roundtrip(vals[i]);
        } else {
            assert(s[o] == 0 && s[o + 1] == 0 && s[o + 2] == 0 && s[o + 3] == 0 && s[o + 4] == 0 && s[o + 5] == 0
                && s[o + 6] == 0 && s[o + 7] == 0);
            assert((0u8 as u64) | ((0u8 as u64) << 8u64) | ((0u8 as u64) << 16u64) | ((0u8 as u64) << 24u64) | ((
            0u8 as u64) << 32u64) | ((0u8 as u64) << 40u64) | ((0u8 as u64) << 48u64) | ((0u8 as u64) << 56u64)
                == 0u64) by (bit_vector);
        }
    }
}

/// The seven values of the reply chunk that starts at `sent` of `sorted`:
/// the next (at most seven) values, zero after the end.
pub fn result_chunk(sorted: &Vec<u64>, sent: usize) -> (c: Vec<u64>)
    requires
        sent <= sorted@.len(),
    ensures
        c@.len() == PER_MSG,
        forall|i: int| 0 <= i < PER_MSG ==> #[trigger] c@[i] == if sent + i < sorted@.len() {
            sorted@[sent + i]
        } else {
            0u64
        },
{
    let mut c: Vec<u64> = Vec::new();
    let mut i: usize = 0;
    while i < PER_MSG
        invariant
            sent <= sorted@.len(),
            i <= PER_MSG,
            c@.len() == i,
            forall|k: int| 0 <= k < i ==> #[trigger] c@[k] == if sent + k < sorted@.len() {
                sorted@[sent + k]
            } else {
                0u64
            },
        decreases PER_MSG - i,
    {
        if i < sorted.len() - sent {
            c.push(sorted[sent + i]);
        } else {
            c.push(0);
        }
        i = i + 1;
    }
    c
}

/// Where the worker is in its loop.
#[derive(PartialEq, Eq, Structural, Debug, Clone, Copy)]
pub enum WorkerPhase {
    /// Waiting for a batch header (or for the master to be done).
    WaitBatch,
    /// Collecting the batch's values.
    Receiving,
    /// The sorted batch went back; waiting for the master's ack.
    WaitAck,
    /// The master is done.
    Finished,
}

/// What the worker does after a message.
pub enum WorkerAction {
    /// Nothing: wait for the next message.
    Nothing,
    /// Send this sorted batch back, in chunks (`result_chunk`).
    Reply(Vec<u64>),
    /// Stop.
    Exit,
}

/// The worker's state: its phase, the size of the batch in hand, the
/// values received so far and the number of batches done.
pub struct SortWorker {
    pub phase: WorkerPhase,
    pub batch_size: usize,
    pub buf: Vec<u64>,
    pub processed: usize,
}

impl SortWorker {
    /// The batch buffer never holds more than the batch.
    pub open spec fn wf(&self) -> bool {
        &&& self.batch_size <= BATCH_SIZE
        &&& self.phase == WorkerPhase::Receiving ==> self.buf@.len() < self.batch_size
        &&& self.phase != WorkerPhase::Receiving ==> self.buf@.len() == 0
    }

    /// A worker waiting for its first batch.
    pub fn new() -> (w: Self)
        ensures
            w.wf(),
            w.phase == WorkerPhase::WaitBatch,
            w.processed == 0,
    {
        SortWorker { phase: WorkerPhase::WaitBatch, batch_size: 0, buf: Vec::new(), processed: 0 }
    }

    /// Handles the message with `tag` and `vals`. A batch header
    /// announces a batch of `vals[0]` values (at most `BATCH_SIZE`); data
    /// messages fill it, seven values at most each; once it is full it is
    /// sorted and sent back; an ack starts the next batch; "done" stops
    /// the worker. Messages that do not fit the phase are dropped.
    pub fn step(&mut self, tag: u8, vals: &[u64; 7]) -> (act: WorkerAction)
        requires
            old(self).wf(),
            old(self).phase == WorkerPhase::WaitBatch && tag == TAG_BATCH ==> vals@[0] <= BATCH_SIZE,
            old(self).phase == WorkerPhase::WaitAck && tag == TAG_ACK ==> old(self).processed < usize::MAX,
        ensures
            final(self).wf(),
            ({
                let o = *old(self);
                let f = *final(self);
                match o.phase {
                    WorkerPhase::WaitBatch => if tag == TAG_DONE {
                        f.phase == WorkerPhase::Finished && f.processed == o.processed && act is Exit
                    } else if tag == TAG_BATCH {
                        &&& f.batch_size == vals@[0]
                        &&& f.processed == o.processed
                        &&& f.buf@.len() == 0
                        &&& vals@[0] == 0 ==> f.phase == WorkerPhase::WaitAck && (act matches WorkerAction::Reply(v)
                            && v@.len() == 0)
                        &&& vals@[0] != 0 ==> f.phase == WorkerPhase::Receiving && act is Nothing
                    } else {
                        f == o && act is Nothing
                    },
                    WorkerPhase::Receiving => if tag == TAG_DATA {
                        let n = if o.batch_size - o.buf@.len() < PER_MSG {
                            o.batch_size - o.buf@.len()
                        } else {
                            PER_MSG as int
                        };
                        let got = o.buf@ + vals@.take(n);
                        &&& f.batch_size == o.batch_size
                        &&& f.processed == o.processed
                        &&& got.len() < o.batch_size ==> f.phase == WorkerPhase::Receiving && f.buf@ == got
                            && act is Nothing
                        &&& got.len() == o.batch_size ==> f.phase == WorkerPhase::WaitAck && f.buf@.len() == 0 && (
                        act matches WorkerAction::Reply(v) && v@.len() == got.len() && sorted_prefix(v@, v@.len() as int)
                            && v@.to_multiset() == got.to_multiset())
                    } else {
                        f == o && act is Nothing
                    },
                    WorkerPhase::WaitAck => if tag == TAG_ACK {
                        f.phase == WorkerPhase::WaitBatch && f.processed == o.processed + 1 && f.batch_size
                            == o.batch_size && act is Nothing
                    } else {
                        f == o && act is Nothing
                    },
                    WorkerPhase::Finished => f == o && act is Nothing,
                }
            }),
    {
        let phase = self.phase;
        match phase {
            WorkerPhase::WaitBatch => {
                if tag == TAG_DONE {
                    self.phase = WorkerPhase::Finished;
                    WorkerAction::Exit
                } else if tag == TAG_BATCH {
                    self.batch_size = vals[0] as usize;
                    if self.batch_size == 0 {
                        self.phase = WorkerPhase::WaitAck;
                        WorkerAction::Reply(Vec::new())
                    } else {
                        self.phase = WorkerPhase::Receiving;
                        WorkerAction::Nothing
                    }
                } else {
                    WorkerAction::Nothing
                }
            },
            WorkerPhase::Receiving => {
                if tag != TAG_DATA {
                    return WorkerAction::Nothing;
                }
                let left = self.batch_size - self.buf.len();
                let n = if left < PER_MSG { left } else { PER_MSG };
                let ghost before = self.buf@;
                let mut i: usize = 0;
                while i < n
                    invariant
                        n <= PER_MSG,
                        i <= n,
                        self.buf@ == before + vals@.take(i as int),
                        self.batch_size == old(self).batch_size,
                        self.phase == old(self).phase,
                        self.processed == old(self).processed,
                    decreases n - i,
                {
                    self.buf.push(vals[i]);
                    i = i + 1;
                    assert(self.buf@ =~= before + vals@.take(i as int));
                }
                if self.buf.len() < self.batch_size {
                    WorkerAction::Nothing
                } else {
                    let mut sorted = Vec::new();
                    std::mem::swap(&mut sorted, &mut self.buf);
                    sort(&mut sorted);
                    self.phase = WorkerPhase::WaitAck;
                    WorkerAction::Reply(sorted)
                }
            },
            WorkerPhase::WaitAck => {
                if tag == TAG_ACK {
                    self.processed = self.processed + 1;
                    self.phase = WorkerPhase::WaitBatch;
                }
                WorkerAction::Nothing
            },
            WorkerPhase::Finished => WorkerAction::Nothing,
        }
    }
}

} // verus!
