//! Supervisor CSR field layouts (privileged spec 20211203), as 64-bit
//! register values. The
//! instructions that read and write the registers themselves are hardware
//! access and live outside the library.

use vstd::prelude::*;

verus! {

/// `sstatus.SIE`, supervisor interrupt enable.
pub const SSTATUS_SIE: u64 = 0x2;
/// `sstatus.SPIE`, previous interrupt enable.
pub const SSTATUS_SPIE: u64 = 0x20;
/// `sstatus.SPP`, previous privilege (1 = S, 0 = U).
pub const SSTATUS_SPP: u64 = 0x100;
/// `sstatus.FS`, floating-point state, bits 14:13.
pub const SSTATUS_FS: u64 = 0x6000;
/// `sstatus.SUM`, supervisor access to user memory.
pub const SSTATUS_SUM: u64 = 0x4_0000;
/// `sstatus.UXL`, bits 33:32.
pub const SSTATUS_UXL: u64 = 0x3_0000_0000;
/// `sstatus.UXL` = 2: UXLEN 64.
pub const SSTATUS_UXL_64: u64 = 0x2_0000_0000;

/// `sie.STIE`, supervisor timer interrupt enable.
pub const SIE_STIE: u64 = 0x20;

/// `stvec.MODE`, bits 1:0.
pub const STVEC_MODE_MASK: usize = 3;
/// Direct mode: every trap goes to BASE.
pub const STVEC_MODE_DIRECT: usize = 0;

/// `scause` interrupt bit (bit 63).
pub const SCAUSE_INTERRUPT: u64 = 0x8000_0000_0000_0000;
/// Supervisor timer interrupt.
pub const INT_S_TIMER: u64 = 5;
/// Breakpoint.
pub const EXC_BREAKPOINT: u64 = 3;
/// Environment call from U-mode.
pub const EXC_ECALL_U: u64 = 8;
/// Instruction page fault.
pub const EXC_INST_PAGE_FAULT: u64 = 12;
/// Load page fault.
pub const EXC_LOAD_PAGE_FAULT: u64 = 13;
/// Store/AMO page fault.
pub const EXC_STORE_PAGE_FAULT: u64 = 15;

/// `satp.MODE` position.
pub const SATP_MODE_SHIFT: u64 = 60;
/// Sv39.
pub const SATP_MODE_SV39: u64 = 8;
/// `satp.PPN`, bits 43:0.
pub const SATP_PPN_MASK: u64 = 0xfff_ffff_ffff;

} // verus!
