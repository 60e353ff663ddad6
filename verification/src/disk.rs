//! The disk-full flag and reserved-space setting a server consults before
//! accepting writes, held as a plain value its owner shares as it sees fit.

use vstd::prelude::*;

verus! {

/// Bytes reserved when no explicit reservation is configured.
pub const DEFAULT_DISK_RESERVED_BYTES: u64 = 5 * 1024 * 1024 * 1024;

/// Whether the data disk is full, and how many bytes stay reserved.
#[derive(Debug, Clone, Copy, PartialEq, Eq, Structural)]
pub struct DiskStatus {
    pub full: bool,
    pub reserved: u64,
}

impl DiskStatus {
    /// A disk considered usable, with no reservation configured.
    pub fn new() -> (s: DiskStatus)
        ensures
            !s.full,
            s.reserved == 0,
    {
        DiskStatus { full: false, reserved: 0 }
    }
}

/// Mark the disk full.
pub fn set_disk_full(status: &mut DiskStatus)
    ensures
        final(status).full,
        final(status).reserved == old(status).reserved,
{
    status.full = true;
}

/// Mark the disk usable again.
pub fn clear_disk_full(status: &mut DiskStatus)
    ensures
        !final(status).full,
        final(status).reserved == old(status).reserved,
{
    status.full = false;
}

/// Whether the disk is currently marked full.
pub fn is_disk_full(status: &DiskStatus) -> (r: bool)
    ensures
        r == status.full,
{
    status.full
}

/// Set the reserved byte count; zero selects the default reservation.
pub fn set_disk_reserved(status: &mut DiskStatus, v: u64)
    ensures
        final(status).reserved == if v == 0 {
            DEFAULT_DISK_RESERVED_BYTES
        } else {
            v
        },
        final(status).full == old(status).full,
{
    if v == 0 {
        status.reserved = DEFAULT_DISK_RESERVED_BYTES;
    } else {
        status.reserved = v;
    }
}

/// The reserved byte count.
pub fn get_disk_reserved(status: &DiskStatus) -> (r: u64)
    ensures
        r == status.reserved,
{
    status.reserved
}

} // verus!
