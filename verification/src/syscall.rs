//! Syscall numbers, error codes, and the `ecall`-from-U dispatch decision.
//!
//! Number in `a7`, arguments in `a0`-`a5`, the return pair written into
//! the trap frame. A known number advances `sepc` past the 4-byte `ecall`
//! (there is no compressed `ecall`) and returns `(OK, number)`; an unknown
//! number kills the calling task and the machine is shut down.

use vstd::prelude::*;
use crate::task::{State, Task, TaskTable};
use crate::trap::TrapFrame;

verus! {

/// 0 is reserved and invalid: a zeroed `a7` is not `write`.
pub const SYS_RESERVED: usize = 0;
pub const SYS_WRITE: usize = 1;
pub const SYS_EXIT: usize = 2;
pub const SYS_SBRK: usize = 3;
pub const SYS_GETTIME: usize = 4;
pub const SYS_YIELD: usize = 5;

/// Success.
pub const OK: isize = 0;
/// Bad argument.
pub const ERR_INVALID_PARAM: isize = -1;
/// Pointer failed the user-range check.
pub const ERR_INVALID_ADDRESS: isize = -2;
/// `sbrk` past the wall.
pub const ERR_NO_MEM: isize = -3;

/// What one `ecall` from U came to.
#[derive(Clone, Copy, Debug, PartialEq, Eq, Structural)]
pub enum Ecall {
    /// A known number; the frame holds the return pair and the advanced
    /// `sepc`.
    Handled { num: usize },
    /// An unknown number: task `killed` is now Exited and nothing runs;
    /// the caller shuts the machine down. The frame is untouched.
    Unknown { num: usize, killed: usize },
}

pub open spec fn known(num: usize) -> bool {
    SYS_WRITE <= num <= SYS_YIELD
}

/// Dispatch one `ecall` from U made by the running task of `tasks`.
pub fn from_ecall(frame: &mut TrapFrame, tasks: &mut TaskTable) -> (r: Ecall)
    requires
        old(frame).sepc + 4 <= usize::MAX,
        old(tasks).wf(),
        !known(old(frame).x@[17]) ==> old(tasks).current is Some,
    ensures
        final(tasks).wf(),
        known(old(frame).x@[17]) ==> {
            &&& r == (Ecall::Handled { num: old(frame).x@[17] })
            &&& final(frame).sepc == old(frame).sepc + 4
            &&& final(frame).x@ == old(frame).x@.update(10, 0).update(11, old(frame).x@[17])
            &&& final(frame).sstatus == old(frame).sstatus
            &&& *final(tasks) == *old(tasks)
        },
        !known(old(frame).x@[17]) ==> {
            let id = old(tasks).current->0;
            &&& r == (Ecall::Unknown { num: old(frame).x@[17], killed: id })
            &&& *final(frame) == *old(frame)
            &&& final(tasks).current is None
            &&& final(tasks).tasks@ == old(tasks).tasks@.update(
                id as int,
                Some(Task { state: State::Exited, ..old(tasks).tasks@[id as int]->0 }),
            )
        },
{
    let num = frame.a7();
    if num == SYS_WRITE || num == SYS_EXIT || num == SYS_SBRK || num == SYS_GETTIME || num
        == SYS_YIELD {
        frame.sepc = frame.sepc + 4;
        frame.set_retval(OK, num);
        Ecall::Handled { num }
    } else {
        let killed = tasks.kill_unknown_syscall();
        Ecall::Unknown { num, killed }
    }
}

} // verus!
