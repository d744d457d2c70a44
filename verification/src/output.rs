//! How byte counts are shown: the unit that a count is written in.

use vstd::prelude::*;

verus! {

/// The units that byte counts are written in, which count in powers of 1000.
#[derive(Debug, Clone, Copy, PartialEq, Eq, Structural)]
pub enum SizeUnit {
    Bytes,
    Kilobytes,
    Megabytes,
    Gigabytes,
    Terabytes,
}

/// The number of bytes that make one of a unit.
pub open spec fn unit_bytes(unit: SizeUnit) -> u64 {
    match unit {
        SizeUnit::Bytes => 1,
        SizeUnit::Kilobytes => 1_000,
        SizeUnit::Megabytes => 1_000_000,
        SizeUnit::Gigabytes => 1_000_000_000,
        SizeUnit::Terabytes => 1_000_000_000_000,
    }
}

/// The largest unit that a byte count reaches, or bytes for a count of 0.
pub open spec fn unit_of(bytes: u64) -> SizeUnit {
    if bytes >= 1_000_000_000_000 {
        SizeUnit::Terabytes
    } else if bytes >= 1_000_000_000 {
        SizeUnit::Gigabytes
    } else if bytes >= 1_000_000 {
        SizeUnit::Megabytes
    } else if bytes >= 1_000 {
        SizeUnit::Kilobytes
    } else {
        SizeUnit::Bytes
    }
}

/// Chooses the unit in which a byte count is written.
pub fn size_unit(bytes: u64) -> (unit: SizeUnit)
    ensures
        unit == unit_of(bytes),
        bytes >= unit_bytes(unit) || bytes == 0,
        unit != SizeUnit::Terabytes ==> bytes < 1000 * unit_bytes(unit),
{
    if bytes >= 1_000_000_000_000 {
        SizeUnit::Terabytes
    } else if bytes >= 1_000_000_000 {
        SizeUnit::Gigabytes
    } else if bytes >= 1_000_000 {
        SizeUnit::Megabytes
    } else if bytes >= 1_000 {
        SizeUnit::Kilobytes
    } else {
        SizeUnit::Bytes
    }
}

/// The bytes of one of a unit.
pub fn bytes_per(unit: SizeUnit) -> (bytes: u64)
    ensures
        bytes == unit_bytes(unit),
{
    match unit {
        SizeUnit::Bytes => 1,
        SizeUnit::Kilobytes => 1_000,
        SizeUnit::Megabytes => 1_000_000,
        SizeUnit::Gigabytes => 1_000_000_000,
        SizeUnit::Terabytes => 1_000_000_000_000,
    }
}

} // verus!
