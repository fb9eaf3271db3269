//! Whimbrel: the verified core of a small RISC-V unikernel.
//!
//! Packet parsing and building, the page-table encoder and walker, the
//! frame and heap allocators, the task table and scheduler, user-pointer
//! validation and the trap and syscall decisions, each with its contract.
//! Hardware access (CSRs, MMIO, SBI calls, linker symbols) lives in app/.

pub mod arp;
pub mod checksum;
pub mod csr;
pub mod frame;
pub mod heap;
pub mod icmp;
pub mod ipv4;
pub mod net;
pub mod page;
pub mod phase;
pub mod sbi;
pub mod syscall;
pub mod task;
pub mod tcp;
pub mod timer;
pub mod trap;
pub mod uaccess;
pub mod udp;
pub mod virtio;
pub mod virtq;
pub mod wire;

