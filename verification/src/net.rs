//! virtio-net decisions: the status handshake, feature negotiation, and
//! the transmit stall watch.
//!
//! The driver takes exactly `NET_F_MAC` and `VERSION_1` and declines the
//! rest. The device may refuse the set by clearing `FEATURES_OK`; a
//! `FAILED` status at any point is fatal. A stall is a posted transmit
//! whose used index has not moved for about 100 ms; it is reported once.

use vstd::prelude::*;

verus! {

pub const ACKNOWLEDGE: u32 = 1;
pub const DRIVER: u32 = 2;
pub const DRIVER_OK: u32 = 4;
pub const FEATURES_OK: u32 = 8;
pub const FAILED: u32 = 128;
/// `VIRTIO_NET_F_MAC`, bit 5 of feature word 0.
pub const F_MAC: u32 = 0x20;
/// `VIRTIO_F_VERSION_1`, bit 32: bit 0 of feature word 1.
pub const F_VERSION_1: u32 = 1;
/// 100 ms at the 10 MHz timebase.
pub const STALL_TICKS: usize = 1_000_000;

/// Why the device cannot be driven.
#[derive(Clone, Copy, Debug, PartialEq, Eq, Structural)]
pub enum FeatureError {
    /// No `NET_F_MAC` in word 0.
    NoMac,
    /// No `VERSION_1` in word 1.
    NoVersion1,
}

/// The two driver feature words to write, given the device's: MAC and
/// VERSION_1 only.
pub fn negotiate(dev0: u32, dev1: u32) -> (r: Result<(u32, u32), FeatureError>)
    ensures
        dev0 & F_MAC == 0 ==> r == Err::<(u32, u32), FeatureError>(FeatureError::NoMac),
        dev0 & F_MAC != 0 && dev1 & F_VERSION_1 == 0 ==> r == Err::<(u32, u32), FeatureError>(
            FeatureError::NoVersion1,
        ),
        dev0 & F_MAC != 0 && dev1 & F_VERSION_1 != 0 ==> r == Ok::<(u32, u32), FeatureError>(
            (F_MAC, F_VERSION_1),
        ),
{
    if dev0 & F_MAC == 0 {
        return Err(FeatureError::NoMac);
    }
    if dev1 & F_VERSION_1 == 0 {
        return Err(FeatureError::NoVersion1);
    }
    Ok((F_MAC, F_VERSION_1))
}

/// The device set `FAILED`.
pub fn status_failed(got: u32) -> (r: bool)
    ensures
        r == (got & FAILED != 0),
{
    got & FAILED != 0
}

/// The status register read back after writing it has `bit` set.
pub fn status_has(got: u32, bit: u32) -> (r: bool)
    ensures
        r == (got & bit != 0),
{
    got & bit != 0
}

/// A MAC address of all zeros means the config space is empty.
pub fn mac_is_zero(mac: &[u8; 6]) -> (r: bool)
    ensures
        r == forall|i: int| 0 <= i < 6 ==> mac@[i] == 0,
{
    let r = mac[0] == 0 && mac[1] == 0 && mac[2] == 0 && mac[3] == 0 && mac[4] == 0 && mac[5] == 0;
    if !r {
        assert(!(forall|i: int| 0 <= i < 6 ==> mac@[i] == 0)) by {
            if mac[0] != 0 {
                assert(mac@[0] != 0);
            } else if mac[1] != 0 {
                assert(mac@[1] != 0);
            } else if mac[2] != 0 {
                assert(mac@[2] != 0);
            } else if mac[3] != 0 {
                assert(mac@[3] != 0);
            } else if mac[4] != 0 {
                assert(mac@[4] != 0);
            } else {
                assert(mac@[5] != 0);
            }
        }
    }
    r
}

/// The stall watch: when it was armed, the used index then, and whether
/// the one report has been made.
pub struct StallWatch {
    pub armed_time: usize,
    pub used_at_arm: u16,
    pub dumped: bool,
}

pub open spec fn elapsed(now: usize, then: usize) -> int {
    if now >= then {
        now - then
    } else {
        now - then + usize::MAX + 1
    }
}

impl StallWatch {
    pub fn new() -> (w: StallWatch)
        ensures
            w.armed_time == 0,
            w.used_at_arm == 0,
            !w.dumped,
    {
        StallWatch { armed_time: 0, used_at_arm: 0, dumped: false }
    }

    /// One poll with `posted` transmits so far, the current used index and
    /// `rdtime`. Returns whether to report the stall now. Movement of the
    /// used index (or a first poll) re-arms the watch at `now`.
    pub fn poll_stall(&mut self, posted: u32, used: u16, now: usize) -> (report: bool)
        ensures
            posted == 0 ==> !report && *final(self) == *old(self),
            posted != 0 && (used != old(self).used_at_arm || old(self).armed_time == 0) ==> !report
                && final(self).armed_time == now && final(self).used_at_arm == used
                && final(self).dumped == old(self).dumped,
            posted != 0 && used == old(self).used_at_arm && old(self).armed_time != 0 ==> {
                &&& report == (elapsed(now, old(self).armed_time) >= STALL_TICKS && !old(self).dumped)
                &&& final(self).armed_time == old(self).armed_time
                &&& final(self).used_at_arm == old(self).used_at_arm
                &&& final(self).dumped == (old(self).dumped || report)
            },
    {
        if posted == 0 {
            return false;
        }
        if used != self.used_at_arm || self.armed_time == 0 {
            self.armed_time = now;
            self.used_at_arm = used;
            return false;
        }
        if now.wrapping_sub(self.armed_time) < STALL_TICKS {
            return false;
        }
        if self.dumped {
            return false;
        }
        self.dumped = true;
        true
    }
}

} // verus!
