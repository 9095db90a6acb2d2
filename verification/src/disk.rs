//! Whole-filesystem capacity (total / free). Used for the capacity ring on the
//! overview — distinct from the *scanned folder's* size.
use vstd::prelude::*;

verus! {

/// Capacity of the filesystem a path lives on.
#[derive(Debug, Clone, Copy, PartialEq, Eq, Structural)]
pub struct DiskUsage {
    /// Total bytes on the filesystem.
    pub total: u64,
    /// Bytes available to an unprivileged user.
    pub available: u64,
}

/// The bytes in use: the total without what is available.
pub open spec fn used_bytes(usage: DiskUsage) -> int {
    if usage.total >= usage.available {
        usage.total - usage.available
    } else {
        0
    }
}

impl DiskUsage {
    /// Bytes in use (total minus available).
    pub fn used(&self) -> (used: u64)
        ensures
            used == used_bytes(*self),
    {
        self.total.saturating_sub(self.available)
    }
}

/// What the system reports of a filesystem.
#[derive(Debug, Clone, Copy, PartialEq, Eq, Structural)]
pub struct FilesystemStat {
    /// The fragment size, in which the counts are given; 0 where it is not set.
    pub fragment_size: u64,
    /// The block size.
    pub block_size: u64,
    /// The size of the filesystem, in units.
    pub blocks: u64,
    /// The units that are free for unprivileged users.
    pub blocks_available: u64,
}

/// The size of a unit: the fragment size, or the block size where that is not set.
pub open spec fn unit_size(stat: FilesystemStat) -> u64 {
    if stat.fragment_size > 0 {
        stat.fragment_size
    } else {
        stat.block_size
    }
}

/// The capacities that a report stands for can be told in 64 bits.
pub open spec fn is_countable(stat: FilesystemStat) -> bool {
    stat.blocks * unit_size(stat) <= u64::MAX && stat.blocks_available * unit_size(stat) <= u64::MAX
}

/// The size of a unit: prefer the fragment size; fall back to the block size if it's
/// unset.
fn unit_of(stat: &FilesystemStat) -> (unit: u64)
    ensures
        unit == unit_size(*stat),
{
    if stat.fragment_size > 0 {
        stat.fragment_size
    } else {
        stat.block_size
    }
}

/// Whether the capacities that a report stands for can be told in 64 bits.
pub fn can_count(stat: &FilesystemStat) -> (fits: bool)
    ensures
        fits == is_countable(*stat),
{
    let unit: u64 = unit_of(stat);
    stat.blocks.checked_mul(unit).is_some() && stat.blocks_available.checked_mul(unit).is_some()
}

/// The filesystem capacity from what the system reports of it, or `None` if it can't
/// be read.
pub fn disk_usage(stat: Option<FilesystemStat>) -> (usage: Option<DiskUsage>)
    requires
        stat matches Some(s) ==> is_countable(s),
    ensures
        match stat {
            Some(s) => usage matches Some(u) && u.total == s.blocks * unit_size(s) && u.available
                == s.blocks_available * unit_size(s),
            None => usage is None,
        },
{
    match stat {
        Some(s) => {
            let unit: u64 = unit_of(&s);
            Some(DiskUsage { total: s.blocks * unit, available: s.blocks_available * unit })
        },
        None => None,
    }
}

/// Used and available bytes make up the total, as long as no more is available than
/// there is; and no more is used than there is in any case.
pub proof fn used_and_available_make_up_the_total(usage: DiskUsage)
    ensures
        0 <= used_bytes(usage) <= usage.total,
        usage.available <= usage.total ==> used_bytes(usage) + usage.available == usage.total,
{
}

} // verus!
