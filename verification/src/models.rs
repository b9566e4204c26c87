use vstd::prelude::*;

verus! {

/// A regular file seen during a scan, identified by its path and size.
#[derive(Debug, Clone)]
pub struct FileRecord {
    pub path: String,
    pub size_bytes: u64,
}

/// Running aggregate for one normalized file extension: how many files
/// carry it and how many bytes they hold together.
#[derive(Debug, Clone, Copy)]
pub struct ExtensionStat {
    pub count: u64,
    pub size: u64,
}

/// Addition on byte and file counters, clamped at the top of the `u64`
/// range so that the accumulators are total functions of their input.
pub open spec fn clamp_add(a: u64, b: u64) -> u64 {
    if a + b > u64::MAX {
        u64::MAX
    } else {
        (a + b) as u64
    }
}

/// A mathematical total squeezed into the `u64` range.
pub open spec fn clamp64(x: int) -> u64 {
    if x > u64::MAX {
        u64::MAX
    } else if x < 0 {
        0
    } else {
        x as u64
    }
}

/// Saturating `u64` addition, the executable side of [`clamp_add`].
pub fn sat_add(a: u64, b: u64) -> (r: u64)
    ensures
        r == clamp_add(a, b),
{
    if a > u64::MAX - b {
        u64::MAX
    } else {
        a + b
    }
}

} // verus!
