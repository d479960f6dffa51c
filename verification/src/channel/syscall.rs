//! System calls on ring channels.

use vstd::prelude::*;
use crate::channel::{ring_destroy, ring_mmap, ring_notify, ring_wait, ChannelTable};

verus! {

/// The user address of channel `fd`, or -1.
pub fn sys_ring_mmap(table: &ChannelTable, fd: usize) -> (r: isize)
    ensures
        r == (match table.lookup(fd as int) {
            Some(ch) => ch.user_vaddr as isize,
            None => -1isize,
        }),
{
    ring_mmap(table, fd)
}

/// Unregisters channel `fd`: 0, or -1 when there is no such channel.
pub fn sys_ring_destroy(table: &mut ChannelTable, fd: usize) -> (r: isize)
    requires
        old(table).wf(),
    ensures
        final(table).wf(),
        r == (if old(table).lookup(fd as int) is Some {
            0isize
        } else {
            -1isize
        }),
        final(table).lookup(fd as int) is None,
        forall|i: int| i != fd ==> #[trigger] final(table).lookup(i) == old(table).lookup(i),
{
    match ring_destroy(table, fd) {
        Some(_) => 0,
        None => -1,
    }
}

/// Queues `task` on channel `fd` (the timeout is not used): 0, or -1 when
/// there is no such channel.
pub fn sys_ring_wait(table: &mut ChannelTable, fd: usize, _timeout_ms: usize, task: usize) -> (r: isize)
    requires
        old(table).wf(),
    ensures
        final(table).wf(),
        r == (if old(table).lookup(fd as int) is Some {
            0isize
        } else {
            -1isize
        }),
        old(table).lookup(fd as int) matches Some(ch) ==> final(table).lookup(fd as int) matches Some(nc)
            && nc.id == ch.id && nc.capacity == ch.capacity && nc.user_vaddr == ch.user_vaddr
            && nc.page_count == ch.page_count && nc.wait_queue@ == ch.wait_queue@.push(task),
        old(table).lookup(fd as int) is None ==> final(table).slots@ == old(table).slots@,
        forall|i: int| i != fd ==> #[trigger] final(table).lookup(i) == old(table).lookup(i),
        final(table).slots@.len() == old(table).slots@.len(),
{
    ring_wait(table, fd, task)
}

/// Wakes every task queued on channel `fd`: returns 0 and the tasks,
/// oldest first, or -1 and no task when there is no such channel.
pub fn sys_ring_notify(table: &mut ChannelTable, fd: usize) -> (r: (isize, Vec<usize>))
    requires
        old(table).wf(),
    ensures
        final(table).wf(),
        match old(table).lookup(fd as int) {
            Some(ch) => {
                &&& r.0 == 0
                &&& r.1@ == ch.wait_queue@
                &&& final(table).lookup(fd as int) matches Some(nc) && nc.id == ch.id && nc.capacity == ch.capacity
                    && nc.user_vaddr == ch.user_vaddr && nc.page_count == ch.page_count && nc.wait_queue@.len() == 0
            },
            None => r.0 == -1 && r.1@.len() == 0 && final(table).slots@ == old(table).slots@,
        },
        forall|i: int| i != fd ==> #[trigger] final(table).lookup(i) == old(table).lookup(i),
        final(table).slots@.len() == old(table).slots@.len(),
{
    match ring_notify(table, fd) {
        Some(v) => (0, v),
        None => (-1, Vec::new()),
    }
}

} // verus!
