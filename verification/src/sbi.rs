//! SBI calls: which call to make, and what its answer means.
//!
//! The calling convention is EID in `a7`, FID in `a6`, arguments in
//! `a0..a2`; the answer is an error in `a0` and a value in `a1`. Issuing
//! the `ecall` is hardware work outside the library; the library builds
//! each call and decides on each answer.

use vstd::prelude::*;

verus! {

/// SBI success.
pub const SBI_SUCCESS: isize = 0;
/// Extension or function not available.
pub const SBI_ERR_NOT_SUPPORTED: isize = -2;
/// Base extension.
pub const EID_BASE: usize = 0x10;
/// `sbi_probe_extension`.
pub const FID_BASE_PROBE: usize = 3;
/// Debug Console extension, ASCII "DBCN".
pub const EID_DBCN: usize = 0x4442_434E;
/// `sbi_debug_console_write_byte`.
pub const FID_DBCN_WRITE_BYTE: usize = 2;
/// Timer extension, ASCII "TIME".
pub const EID_TIME: usize = 0x5449_4D45;
/// `sbi_set_timer`.
pub const FID_TIME_SET_TIMER: usize = 0;
/// System Reset extension, ASCII "SRST".
pub const EID_SRST: usize = 0x5352_5354;
/// `sbi_system_reset`.
pub const FID_SRST_RESET: usize = 0;
/// Reset type: shutdown.
pub const SRST_TYPE_SHUTDOWN: usize = 0;
/// Reset reason: none.
pub const SRST_REASON_NONE: usize = 0;

/// Answer of an SBI call: `a0` = error, `a1` = value.
#[derive(Clone, Copy, Debug, PartialEq, Eq, Structural)]
pub struct Sbiret {
    pub error: isize,
    pub value: usize,
}

/// One SBI call to issue.
#[derive(Clone, Copy, Debug, PartialEq, Eq, Structural)]
pub struct SbiCall {
    pub eid: usize,
    pub fid: usize,
    pub arg0: usize,
    pub arg1: usize,
    pub arg2: usize,
}

/// Probe extension `eid` through BASE. The answer's value is 0 when the
/// extension is absent.
pub fn probe_extension(eid: usize) -> (c: SbiCall)
    ensures
        c == (SbiCall { eid: EID_BASE, fid: FID_BASE_PROBE, arg0: eid, arg1: 0, arg2: 0 }),
{
    SbiCall { eid: EID_BASE, fid: FID_BASE_PROBE, arg0: eid, arg1: 0, arg2: 0 }
}

/// Decide on the DBCN probe: the SBI error to abort with, if any. No
/// fallback to the legacy console.
pub fn require_dbcn(probe: Sbiret) -> (r: Result<(), isize>)
    ensures
        probe.error != SBI_SUCCESS ==> r == Err::<(), isize>(probe.error),
        probe.error == SBI_SUCCESS && probe.value == 0 ==> r == Err::<(), isize>(
            SBI_ERR_NOT_SUPPORTED,
        ),
        probe.error == SBI_SUCCESS && probe.value != 0 ==> r is Ok,
{
    if probe.error != SBI_SUCCESS {
        return Err(probe.error);
    }
    if probe.value == 0 {
        return Err(SBI_ERR_NOT_SUPPORTED);
    }
    Ok(())
}

/// Why the TIME extension cannot be used.
#[derive(Clone, Copy, Debug, PartialEq, Eq, Structural)]
pub enum TimeError {
    /// The probe itself failed with this error.
    ProbeError(isize),
    /// The extension is absent.
    Absent,
}

/// Decide on the TIME probe.
pub fn require_time(probe: Sbiret) -> (r: Result<(), TimeError>)
    ensures
        probe.error != SBI_SUCCESS ==> r == Err::<(), TimeError>(TimeError::ProbeError(probe.error)),
        probe.error == SBI_SUCCESS && probe.value == 0 ==> r == Err::<(), TimeError>(
            TimeError::Absent,
        ),
        probe.error == SBI_SUCCESS && probe.value != 0 ==> r is Ok,
{
    if probe.error != SBI_SUCCESS {
        return Err(TimeError::ProbeError(probe.error));
    }
    if probe.value == 0 {
        return Err(TimeError::Absent);
    }
    Ok(())
}

/// Absolute-deadline timer: the call that arms it (and acknowledges a
/// pending timer interrupt).
pub fn set_timer(stime_value: usize) -> (c: SbiCall)
    ensures
        c == (SbiCall {
            eid: EID_TIME,
            fid: FID_TIME_SET_TIMER,
            arg0: stime_value,
            arg1: 0,
            arg2: 0,
        }),
{
    SbiCall { eid: EID_TIME, fid: FID_TIME_SET_TIMER, arg0: stime_value, arg1: 0, arg2: 0 }
}

/// A call succeeded iff its error is `SBI_SUCCESS`.
pub fn succeeded(ret: Sbiret) -> (r: bool)
    ensures
        r == (ret.error == SBI_SUCCESS),
{
    ret.error == SBI_SUCCESS
}

/// Write one byte through DBCN.
pub fn console_write_byte(byte: u8) -> (c: SbiCall)
    ensures
        c == (SbiCall {
            eid: EID_DBCN,
            fid: FID_DBCN_WRITE_BYTE,
            arg0: byte as usize,
            arg1: 0,
            arg2: 0,
        }),
{
    SbiCall { eid: EID_DBCN, fid: FID_DBCN_WRITE_BYTE, arg0: byte as usize, arg1: 0, arg2: 0 }
}

/// After probing SRST: the reset call to make, or the answer to return to
/// the caller when SRST cannot be used (probe error, or absent).
pub fn shutdown_srst(probe: Sbiret) -> (r: Result<SbiCall, Sbiret>)
    ensures
        probe.error != SBI_SUCCESS ==> r == Err::<SbiCall, Sbiret>(probe),
        probe.error == SBI_SUCCESS && probe.value == 0 ==> r == Err::<SbiCall, Sbiret>(
            Sbiret { error: SBI_ERR_NOT_SUPPORTED, value: 0 },
        ),
        probe.error == SBI_SUCCESS && probe.value != 0 ==> r == Ok::<SbiCall, Sbiret>(
            SbiCall {
                eid: EID_SRST,
                fid: FID_SRST_RESET,
                arg0: SRST_TYPE_SHUTDOWN,
                arg1: SRST_REASON_NONE,
                arg2: 0,
            },
        ),
{
    if probe.error != SBI_SUCCESS {
        return Err(probe);
    }
    if probe.value == 0 {
        return Err(Sbiret { error: SBI_ERR_NOT_SUPPORTED, value: 0 });
    }
    Ok(
        SbiCall {
            eid: EID_SRST,
            fid: FID_SRST_RESET,
            arg0: SRST_TYPE_SHUTDOWN,
            arg1: SRST_REASON_NONE,
            arg2: 0,
        },
    )
}

} // verus!
