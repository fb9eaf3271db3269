//! The virtio-mmio transport window and the decisions of the discovery
//! probe: which transports are healthy and which one is the NIC.

use vstd::prelude::*;

verus! {

/// First virtio-mmio transport of the QEMU `virt` machine.
pub const MMIO_BASE: usize = 0x1000_1000;
/// Byte stride between transports: one page each.
pub const STRIDE: usize = 0x1000;
/// Transports the machine instantiates.
pub const N_TRANSPORTS: usize = 8;
/// Exclusive end of the window.
pub const MMIO_END: usize = 0x1000_9000;
/// MagicValue, little-endian "virt".
pub const MAGIC: u32 = 0x7472_6976;
/// Version 2: modern (non-legacy) MMIO.
pub const VERSION_MODERN: u32 = 2;
/// Device ID of a network card; 0 is an empty slot.
pub const DEVICE_NET: u32 = 1;

pub const OFF_MAGIC: usize = 0x000;
pub const OFF_VERSION: usize = 0x004;
pub const OFF_DEVICE_ID: usize = 0x008;

/// Base address of transport `i`.
pub fn transport_base(i: usize) -> (b: usize)
    requires
        i < N_TRANSPORTS,
    ensures
        b == MMIO_BASE + i * STRIDE,
        MMIO_BASE <= b < MMIO_END,
{
    MMIO_BASE + i * STRIDE
}

/// What is wrong with a transport.
#[derive(Clone, Copy, Debug, PartialEq, Eq, Structural)]
pub enum TransportError {
    /// Magic is not "virt": the transport is broken (empty slots still
    /// answer with the magic).
    Magic,
    /// Version is not 2: legacy MMIO.
    Version,
}

/// Check one transport: magic first, then version.
pub fn check_transport(magic: u32, version: u32) -> (r: Result<(), TransportError>)
    ensures
        magic != MAGIC ==> r == Err::<(), TransportError>(TransportError::Magic),
        magic == MAGIC && version != VERSION_MODERN ==> r == Err::<(), TransportError>(
            TransportError::Version,
        ),
        magic == MAGIC && version == VERSION_MODERN ==> r is Ok,
{
    if magic != MAGIC {
        return Err(TransportError::Magic);
    }
    if version != VERSION_MODERN {
        return Err(TransportError::Version);
    }
    Ok(())
}

/// Kind of device in a slot.
#[derive(Clone, Copy, Debug, PartialEq, Eq, Structural)]
pub enum DeviceKind {
    Empty,
    Net,
    Other,
}

pub fn device_name(id: u32) -> (k: DeviceKind)
    ensures
        id == 0 ==> k == DeviceKind::Empty,
        id == DEVICE_NET ==> k == DeviceKind::Net,
        id != 0 && id != DEVICE_NET ==> k == DeviceKind::Other,
{
    if id == 0 {
        DeviceKind::Empty
    } else if id == DEVICE_NET {
        DeviceKind::Net
    } else {
        DeviceKind::Other
    }
}

/// The last slot whose device ID is the NIC's, if any.
pub fn find_net(devices: &[u32]) -> (r: Option<usize>)
    ensures
        r is None <==> forall|i: int| 0 <= i < devices@.len() ==> devices@[i] != DEVICE_NET,
        r matches Some(n) ==> n < devices@.len() && devices@[n as int] == DEVICE_NET && forall|i: int|
            n < i < devices@.len() ==> devices@[i] != DEVICE_NET,
{
    let mut net: Option<usize> = None;
    let mut i: usize = 0;
    while i < devices.len()
        invariant
            i <= devices@.len(),
            net is None <==> forall|k: int| 0 <= k < i ==> devices@[k] != DEVICE_NET,
            net matches Some(n) ==> n < i && devices@[n as int] == DEVICE_NET && forall|k: int|
                n < k < i ==> devices@[k] != DEVICE_NET,
        decreases devices@.len() - i,
    {
        if devices[i] == DEVICE_NET {
            net = Some(i);
        }
        i = i + 1;
    }
    net
}

} // verus!
