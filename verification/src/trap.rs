//! The trap frame and the trap decisions.
//!
//! Frame layout: `x[i]` at offset `8 * i`, then `sepc`, then `sstatus`,
//! 272 bytes. The entry/exit assembly and the CSR accesses are hardware
//! work outside the library; what is decided here is how a trap is
//! classified, how far `sepc` advances past a breakpoint, the value written
//! to `stvec`, and the syscall return pair.

use vstd::prelude::*;
use crate::csr::{
    EXC_BREAKPOINT, EXC_ECALL_U, EXC_INST_PAGE_FAULT, EXC_LOAD_PAGE_FAULT, EXC_STORE_PAGE_FAULT,
    INT_S_TIMER, SCAUSE_INTERRUPT, STVEC_MODE_DIRECT,
};

verus! {

/// `TrapFrame` size in bytes: 32 GPRs, `sepc`, `sstatus`.
pub const FRAME_SIZE: usize = 272;

pub struct TrapFrame {
    /// GPRs. `x[0]` is unused; `x[2]` is the pre-trap `sp`.
    pub x: [usize; 32],
    pub sepc: usize,
    pub sstatus: u64,
}

impl TrapFrame {
    pub fn ra(&self) -> (r: usize)
        ensures
            r == self.x@[1],
    {
        self.x[1]
    }

    pub fn sp(&self) -> (r: usize)
        ensures
            r == self.x@[2],
    {
        self.x[2]
    }

    pub fn a0(&self) -> (r: usize)
        ensures
            r == self.x@[10],
    {
        self.x[10]
    }

    pub fn a1(&self) -> (r: usize)
        ensures
            r == self.x@[11],
    {
        self.x[11]
    }

    pub fn a2(&self) -> (r: usize)
        ensures
            r == self.x@[12],
    {
        self.x[12]
    }

    pub fn a3(&self) -> (r: usize)
        ensures
            r == self.x@[13],
    {
        self.x[13]
    }

    pub fn a4(&self) -> (r: usize)
        ensures
            r == self.x@[14],
    {
        self.x[14]
    }

    pub fn a5(&self) -> (r: usize)
        ensures
            r == self.x@[15],
    {
        self.x[15]
    }

    pub fn a6(&self) -> (r: usize)
        ensures
            r == self.x@[16],
    {
        self.x[16]
    }

    pub fn a7(&self) -> (r: usize)
        ensures
            r == self.x@[17],
    {
        self.x[17]
    }

    /// Syscall return pair: `error` into `a0` (two's complement), `value`
    /// into `a1`. The exit path restores both from the frame.
    pub fn set_retval(&mut self, error: isize, value: usize)
        ensures
            final(self).x@ == old(self).x@.update(10, error as usize).update(11, value),
            final(self).sepc == old(self).sepc,
            final(self).sstatus == old(self).sstatus,
    {
        self.x[10] = #[verifier::truncate] (error as usize);
        self.x[11] = value;
    }
}

/// Instruction width in bytes from the low halfword of the trapped
/// instruction: low two bits `0b11` means 4 bytes, anything else 2 (RVC).
pub fn instruction_width(halfword: u16) -> (r: usize)
    ensures
        r == if halfword % 4 == 3 { 4usize } else { 2usize },
{
    if halfword % 4 == 3 {
        4
    } else {
        2
    }
}

/// Why `__trap_entry` cannot go in `stvec`.
#[derive(Clone, Copy, Debug, PartialEq, Eq, Structural)]
pub enum StvecError {
    /// Not 4-byte aligned: the low bits would select mode `mode`.
    Misaligned { mode: usize },
}

/// The `stvec` value that sends every trap to `entry` in Direct mode.
pub fn install(entry: usize) -> (r: Result<usize, StvecError>)
    ensures
        entry % 4 == 0 ==> r == Ok::<usize, StvecError>(entry),
        entry % 4 != 0 ==> r == Err::<usize, StvecError>(StvecError::Misaligned { mode: entry % 4 }),
{
    let mode = entry % 4;
    if mode != 0 {
        return Err(StvecError::Misaligned { mode });
    }
    Ok(entry)
}

/// `stvec` read back `got` after writing `wrote`: installed iff equal and
/// in Direct mode.
pub fn installed(wrote: usize, got: usize) -> (r: bool)
    ensures
        r == (got == wrote && got % 4 == STVEC_MODE_DIRECT as usize),
{
    got == wrote && got % 4 == STVEC_MODE_DIRECT as usize
}

/// What a trap is, from `scause`.
#[derive(Clone, Copy, Debug, PartialEq, Eq, Structural)]
pub enum TrapKind {
    /// Supervisor timer interrupt.
    Timer,
    /// `ecall` from U-mode.
    EcallU,
    /// `ebreak`.
    Breakpoint,
    /// Instruction, load or store page fault, with its code.
    PageFault { code: u64 },
    /// Anything else.
    Unknown { interrupt: bool, code: u64 },
}

/// The classification of `scause`: bit 63 is the interrupt flag, the rest
/// the code.
pub open spec fn trap_kind(scause: u64) -> TrapKind {
    let interrupt = scause >= SCAUSE_INTERRUPT;
    let code = if interrupt { (scause - SCAUSE_INTERRUPT) as u64 } else { scause };
    if interrupt {
        if code == INT_S_TIMER {
            TrapKind::Timer
        } else {
            TrapKind::Unknown { interrupt: true, code }
        }
    } else if code == EXC_ECALL_U {
        TrapKind::EcallU
    } else if code == EXC_BREAKPOINT {
        TrapKind::Breakpoint
    } else if code == EXC_INST_PAGE_FAULT || code == EXC_LOAD_PAGE_FAULT || code
        == EXC_STORE_PAGE_FAULT {
        TrapKind::PageFault { code }
    } else {
        TrapKind::Unknown { interrupt: false, code }
    }
}

/// Classify a trap by its `scause`.
pub fn classify(scause: u64) -> (r: TrapKind)
    ensures
        r == trap_kind(scause),
{
    let interrupt = scause >= SCAUSE_INTERRUPT;
    let code = if interrupt { scause - SCAUSE_INTERRUPT } else { scause };
    if interrupt {
        if code == INT_S_TIMER {
            TrapKind::Timer
        } else {
            TrapKind::Unknown { interrupt: true, code }
        }
    } else if code == EXC_ECALL_U {
        TrapKind::EcallU
    } else if code == EXC_BREAKPOINT {
        TrapKind::Breakpoint
    } else if code == EXC_INST_PAGE_FAULT || code == EXC_LOAD_PAGE_FAULT || code
        == EXC_STORE_PAGE_FAULT {
        TrapKind::PageFault { code }
    } else {
        TrapKind::Unknown { interrupt: false, code }
    }
}

/// Continue past a breakpoint: `sepc` moves over the trapped instruction,
/// whose low halfword is `halfword`.
pub fn skip_breakpoint(frame: &mut TrapFrame, halfword: u16)
    requires
        old(frame).sepc + 4 <= usize::MAX,
    ensures
        final(frame).sepc == old(frame).sepc + if halfword % 4 == 3 { 4usize } else { 2usize },
        final(frame).x == old(frame).x,
        final(frame).sstatus == old(frame).sstatus,
{
    frame.sepc = frame.sepc + instruction_width(halfword);
}

/// Name of a page-fault code.
pub fn page_fault_name(code: u64) -> (r: &'static str)
    ensures
        code == EXC_INST_PAGE_FAULT ==> r@ == "instruction page fault"@,
        code == EXC_LOAD_PAGE_FAULT ==> r@ == "load page fault"@,
        code == EXC_STORE_PAGE_FAULT ==> r@ == "store page fault"@,
        code != EXC_INST_PAGE_FAULT && code != EXC_LOAD_PAGE_FAULT && code != EXC_STORE_PAGE_FAULT
            ==> r@ == "page fault"@,
{
    if code == EXC_INST_PAGE_FAULT {
        "instruction page fault"
    } else if code == EXC_LOAD_PAGE_FAULT {
        "load page fault"
    } else if code == EXC_STORE_PAGE_FAULT {
        "store page fault"
    } else {
        "page fault"
    }
}

} // verus!
