//! User-pointer validation and the copy-length decisions.
//!
//! A user range is accepted iff it lies entirely inside one of the task's
//! intervals: its user stack, its live break `[brk_base, brk)` (not the
//! whole break window), `.udata`, `.ubss` (as one interval when adjacent),
//! and `.urodata` for reads only. No page-table walk: the whole break
//! window is mapped, so a walk would accept unallocated break. A copy is
//! capped at `COPY_MAX` bytes and returns the short count; a range only
//! partly inside an interval is an error, not a copy of its valid prefix.
//! The copies themselves (with `sstatus.SUM` raised) are hardware work
//! outside the library.

use vstd::prelude::*;
use crate::task::{MAX_TASKS, Task, UserLayout};

verus! {

/// Per-call copy cap.
pub const COPY_MAX: usize = 4096;

/// Whether the range may include `.urodata`.
#[derive(Clone, Copy, Debug, PartialEq, Eq, Structural)]
pub enum Access {
    Read,
    Write,
}

/// Why a user range was rejected.
#[derive(Clone, Copy, Debug, PartialEq, Eq, Structural)]
pub enum UserPtrError {
    /// `ptr` is inside an interval, but `ptr + len` is not (or wrapped).
    SpansPastInterval,
    /// `ptr` lies in none of the intervals open to this access.
    NotInUserInterval,
}

/// `[ptr, end)` lies in the non-empty half-open interval `[lo, hi)`.
pub open spec fn within(lo: int, hi: int, ptr: int, end: int) -> bool {
    lo < hi && ptr >= lo && end <= hi
}

/// `[ptr, ptr + len)` lies entirely in one of the task's intervals for
/// this access, without wrapping.
pub open spec fn range_ok(l: UserLayout, t: Task, ptr: int, len: int, access: Access) -> bool {
    let end = ptr + len;
    let s = l.slots[t.id as int];
    &&& end <= usize::MAX
    &&& {
        ||| within(s.ustack_bottom as int, s.ustack_top as int, ptr, end)
        ||| within(t.brk_base as int, t.brk as int, ptr, end)
        ||| within(l.udata.0 as int, l.udata.1 as int, ptr, end)
        ||| within(l.ubss.0 as int, l.ubss.1 as int, ptr, end)
        ||| (l.udata.1 == l.ubss.0 && within(l.udata.0 as int, l.ubss.1 as int, ptr, end))
        ||| (access == Access::Read && within(l.urodata.0 as int, l.urodata.1 as int, ptr, end))
    }
}

/// Why a range fails, or `None` when it passes.
pub open spec fn range_verdict(l: UserLayout, t: Task, ptr: int, len: int, access: Access) -> Option<
    UserPtrError,
> {
    if range_ok(l, t, ptr, len, access) {
        None
    } else if len > 0 && range_ok(l, t, ptr, 1, access) {
        Some(UserPtrError::SpansPastInterval)
    } else {
        Some(UserPtrError::NotInUserInterval)
    }
}

fn contains(lo: usize, hi: usize, ptr: usize, end: usize) -> (r: bool)
    ensures
        r == within(lo as int, hi as int, ptr as int, end as int),
{
    lo < hi && ptr >= lo && end <= hi
}

/// True iff `[ptr, ptr + len)` sits entirely in one of `task`'s intervals
/// for `access`.
pub fn user_range_ok(layout: &UserLayout, task: &Task, ptr: usize, len: usize, access: Access) -> (r:
    bool)
    requires
        task.id < MAX_TASKS,
    ensures
        r == range_ok(*layout, *task, ptr as int, len as int, access),
{
    let end = match ptr.checked_add(len) {
        Some(e) => e,
        None => {
            return false;
        },
    };
    let s = layout.slot(task.id);
    if contains(s.ustack_bottom, s.ustack_top, ptr, end) {
        return true;
    }
    if contains(task.brk_base, task.brk, ptr, end) {
        return true;
    }
    let (d0, d1) = layout.udata();
    let (b0, b1) = layout.ubss();
    if contains(d0, d1, ptr, end) || contains(b0, b1, ptr, end) {
        return true;
    }
    if d1 == b0 && contains(d0, b1, ptr, end) {
        return true;
    }
    if access == Access::Read {
        let (r0, r1) = layout.urodata();
        if contains(r0, r1, ptr, end) {
            return true;
        }
    }
    false
}

/// Accept, or say which of the two shapes a rejected range has: a valid
/// start that runs past its interval (or wraps), or no valid start.
pub fn classify(layout: &UserLayout, task: &Task, ptr: usize, len: usize, access: Access) -> (r:
    Result<(), UserPtrError>)
    requires
        task.id < MAX_TASKS,
    ensures
        match range_verdict(*layout, *task, ptr as int, len as int, access) {
            Some(e) => r == Err::<(), UserPtrError>(e),
            None => r is Ok,
        },
{
    if user_range_ok(layout, task, ptr, len, access) {
        return Ok(());
    }
    if len > 0 && user_range_ok(layout, task, ptr, 1, access) {
        Err(UserPtrError::SpansPastInterval)
    } else {
        Err(UserPtrError::NotInUserInterval)
    }
}

/// How many bytes to copy from user address `src` (at most `COPY_MAX`),
/// after checking that those bytes are readable user memory.
pub fn copy_from_user(layout: &UserLayout, task: &Task, src: usize, len: usize) -> (r: Result<
    usize,
    UserPtrError,
>)
    requires
        task.id < MAX_TASKS,
    ensures
        ({
            let n = if len < COPY_MAX { len } else { COPY_MAX };
            match range_verdict(*layout, *task, src as int, n as int, Access::Read) {
                Some(e) => r == Err::<usize, UserPtrError>(e),
                None => r == Ok::<usize, UserPtrError>(n),
            }
        }),
{
    let n = if len < COPY_MAX { len } else { COPY_MAX };
    match classify(layout, task, src, n, Access::Read) {
        Ok(()) => Ok(n),
        Err(e) => Err(e),
    }
}

/// How many bytes of a `src_len`-byte kernel buffer to copy to user
/// address `dst` (at most `COPY_MAX`), after checking that those bytes are
/// writable user memory (`.urodata` is not).
pub fn copy_to_user(layout: &UserLayout, task: &Task, dst: usize, src_len: usize) -> (r: Result<
    usize,
    UserPtrError,
>)
    requires
        task.id < MAX_TASKS,
    ensures
        ({
            let n = if src_len < COPY_MAX { src_len } else { COPY_MAX };
            match range_verdict(*layout, *task, dst as int, n as int, Access::Write) {
                Some(e) => r == Err::<usize, UserPtrError>(e),
                None => r == Ok::<usize, UserPtrError>(n),
            }
        }),
{
    let n = if src_len < COPY_MAX { src_len } else { COPY_MAX };
    match classify(layout, task, dst, n, Access::Write) {
        Ok(()) => Ok(n),
        Err(e) => Err(e),
    }
}

/// Whatever may be written may be read; a write range never reaches
/// `.urodata` unless it also lies in a writable interval.
pub proof fn lemma_write_ok_implies_read_ok(l: UserLayout, t: Task, ptr: int, len: int)
    requires
        range_ok(l, t, ptr, len, Access::Write),
    ensures
        range_ok(l, t, ptr, len, Access::Read),
{
}

/// The unallocated part of the break is not user memory: every byte of
/// an accepted range that lies at or above the task's current break lies
/// in one of the task's other intervals (its user stack, `.udata`, `.ubss`,
/// or `.urodata` for a read).
pub proof fn lemma_no_byte_above_brk(l: UserLayout, t: Task, ptr: int, len: int, access: Access, q: int)
    requires
        range_ok(l, t, ptr, len, access),
        ptr <= q < ptr + len,
        q >= t.brk,
    ensures
        ({
            let s = l.slots[t.id as int];
            ||| s.ustack_bottom <= q < s.ustack_top
            ||| l.udata.0 <= q < l.udata.1
            ||| l.ubss.0 <= q < l.ubss.1
            ||| (access == Access::Read && l.urodata.0 <= q < l.urodata.1)
        }),
{
}

/// Every byte of an accepted range lies in one of the task's intervals:
/// its user stack, its live break `[brk_base, brk)`, `.udata`, `.ubss`,
/// or `.urodata` for a read.
pub proof fn lemma_accepted_bytes_are_user_memory(l: UserLayout, t: Task, ptr: int, len: int, access: Access, q: int)
    requires
        range_ok(l, t, ptr, len, access),
        ptr <= q < ptr + len,
    ensures
        ({
            let s = l.slots[t.id as int];
            ||| s.ustack_bottom <= q < s.ustack_top
            ||| t.brk_base <= q < t.brk
            ||| l.udata.0 <= q < l.udata.1
            ||| l.ubss.0 <= q < l.ubss.1
            ||| (access == Access::Read && l.urodata.0 <= q < l.urodata.1)
        }),
{
}

/// An accepted range stays accepted when shortened from the end; in
/// particular a capped copy of an accepted range is accepted.
pub proof fn lemma_prefix_ok(l: UserLayout, t: Task, ptr: int, len: int, m: int, access: Access)
    requires
        range_ok(l, t, ptr, len, access),
        0 < m <= len,
    ensures
        range_ok(l, t, ptr, m, access),
{
}

} // verus!
