//! Capacity of a filesystem.
use diskscope::disk::{can_count, disk_usage, DiskUsage, FilesystemStat};

#[test]
fn root_filesystem_reports_sane_capacity() {
    let stat = FilesystemStat { fragment_size: 4096, block_size: 4096, blocks: 1_000_000, blocks_available: 250_000 };
    let usage = disk_usage(Some(stat)).expect("root filesystem should be queryable");
    assert!(usage.total > 0, "total capacity should be positive");
    assert!(usage.available <= usage.total, "available cannot exceed total");
    assert!(usage.used() <= usage.total, "used cannot exceed total");
    assert_eq!(usage, DiskUsage { total: 4_096_000_000, available: 1_024_000_000 });
    assert_eq!(usage.used(), 3_072_000_000);
}

#[test]
fn missing_path_returns_none() {
    // Nothing is reported of "/no/such/path/diskscope".
    assert!(disk_usage(None).is_none());
}

#[test]
fn block_size_stands_in_for_an_unset_fragment_size() {
    let stat = FilesystemStat { fragment_size: 0, block_size: 512, blocks: 10, blocks_available: 4 };
    assert_eq!(disk_usage(Some(stat)), Some(DiskUsage { total: 5120, available: 2048 }));
    let stat = FilesystemStat { fragment_size: 1024, block_size: 512, blocks: 10, blocks_available: 4 };
    assert_eq!(disk_usage(Some(stat)), Some(DiskUsage { total: 10240, available: 4096 }));
}

#[test]
fn more_available_than_there_is_means_nothing_used() {
    assert_eq!(DiskUsage { total: 5, available: 9 }.used(), 0);
}

#[test]
fn capacities_that_do_not_fit_are_told_apart() {
    let stat = |unit: u64, blocks: u64| FilesystemStat { fragment_size: unit, block_size: 2, blocks, blocks_available: 0 };
    assert!(can_count(&stat(1, u64::MAX)));
    assert!(!can_count(&stat(2, u64::MAX)));
    // Without a fragment size the block size counts.
    assert!(!can_count(&stat(0, u64::MAX)));
    assert!(can_count(&stat(0, u64::MAX / 2)));
    assert!(!can_count(&FilesystemStat { fragment_size: 4, block_size: 1, blocks: 1, blocks_available: u64::MAX }));
}
