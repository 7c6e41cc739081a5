use kernel::{MemoryConfig, MemoryRegion, MemoryRegionType, ProtectionUnit, PMP_ENTRIES};

fn region(ty: MemoryRegionType, start: usize, end: usize) -> MemoryRegion {
    MemoryRegion { ty, start, end }
}

#[test]
fn installed_config_answers_like_its_regions() {
    let regions = vec![
        region(MemoryRegionType::ReadOnlyExecutable, 0x1000, 0x2000),
        region(MemoryRegionType::ReadWriteData, 0x8000, 0x9000),
    ];
    let cfg = MemoryConfig::const_new(&regions);
    let mut unit = ProtectionUnit::new();
    assert!(!unit.range_has_access(MemoryRegionType::ReadOnlyData, 0x1000, 0x1004));
    cfg.write(&mut unit);
    assert_eq!(cfg.regions(), regions);
    assert!(unit.range_has_access(MemoryRegionType::ReadOnlyExecutable, 0x1000, 0x1100));
    assert!(unit.range_has_access(MemoryRegionType::ReadOnlyData, 0x1000, 0x2000));
    assert!(!unit.range_has_access(MemoryRegionType::ReadWriteData, 0x1000, 0x1100));
    assert!(unit.range_has_access(MemoryRegionType::ReadWriteData, 0x8000, 0x8004));
    assert!(!unit.range_has_access(MemoryRegionType::ReadOnlyExecutable, 0x8000, 0x8004));
    // Straddling the end of a region, or outside every region: no access.
    assert!(!unit.range_has_access(MemoryRegionType::ReadOnlyData, 0x1f00, 0x2100));
    assert!(!unit.range_has_access(MemoryRegionType::ReadOnlyData, 0x4000, 0x4004));
    for access in [
        MemoryRegionType::ReadOnlyData,
        MemoryRegionType::ReadWriteData,
        MemoryRegionType::ReadOnlyExecutable,
        MemoryRegionType::ReadWriteExecutable,
    ] {
        assert_eq!(
            unit.range_has_access(access, 0x1000, 0x1010),
            cfg.range_has_access(access, 0x1000, 0x1010)
        );
    }
}

#[test]
fn last_covering_region_wins() {
    let regions = vec![
        region(MemoryRegionType::ReadWriteExecutable, 0, 0x10000),
        region(MemoryRegionType::ReadOnlyData, 0x4000, 0x5000),
    ];
    let cfg = MemoryConfig::const_new(&regions);
    assert!(!cfg.range_has_access(MemoryRegionType::ReadWriteData, 0x4000, 0x4010));
    assert!(cfg.range_has_access(MemoryRegionType::ReadOnlyData, 0x4000, 0x4010));
    assert!(cfg.range_has_access(MemoryRegionType::ReadWriteData, 0x6000, 0x6010));
    // A range that the narrow region only partly covers is decided by the wide one.
    assert!(cfg.range_has_access(MemoryRegionType::ReadWriteData, 0x3ff0, 0x4010));
}

#[test]
fn kernel_thread_config_grants_everything() {
    let cfg = MemoryConfig::kernel_thread_memory_config();
    assert_eq!(cfg.regions().len(), 1);
    assert!(cfg.range_has_access(MemoryRegionType::ReadWriteExecutable, 0, 0xffff_ffff));
    assert!(cfg.range_has_access(MemoryRegionType::ReadWriteData, 0x2000_0000, 0x2000_0100));
}

#[test]
fn full_table_fits() {
    let regions: Vec<MemoryRegion> = (0..PMP_ENTRIES)
        .map(|i| region(MemoryRegionType::ReadOnlyData, i * 0x100, i * 0x100 + 0x100))
        .collect();
    let cfg = MemoryConfig::const_new(&regions);
    assert_eq!(cfg.regions().len(), PMP_ENTRIES);
    assert!(cfg.range_has_access(MemoryRegionType::ReadOnlyData, 0xf00, 0x1000));
    assert!(!cfg.range_has_access(MemoryRegionType::ReadOnlyData, 0xf00, 0x1001));
}

#[test]
fn region_kinds_grant_what_they_name() {
    let (ro, rw, rx, rwx) = (
        MemoryRegionType::ReadOnlyData,
        MemoryRegionType::ReadWriteData,
        MemoryRegionType::ReadOnlyExecutable,
        MemoryRegionType::ReadWriteExecutable,
    );
    assert!(rwx.has_access(rw));
    assert!(rw.has_access(ro));
    assert!(!rw.has_access(rx));
    assert!(!ro.has_access(rw));
    assert!(rx.has_access(rx));
    assert!(!rx.has_access(rwx));
}

#[test]
fn reversed_range_has_no_access() {
    let regions = vec![region(MemoryRegionType::ReadWriteData, 0, 10)];
    let cfg = MemoryConfig::const_new(&regions);
    let mut unit = ProtectionUnit::new();
    cfg.write(&mut unit);
    assert!(!cfg.range_has_access(MemoryRegionType::ReadOnlyData, 100, 5));
    assert!(!unit.range_has_access(MemoryRegionType::ReadWriteData, 100, 5));
    assert!(!unit.range_has_access(MemoryRegionType::ReadWriteData, 8, 2));
    assert!(unit.range_has_access(MemoryRegionType::ReadWriteData, 2, 8));
    // An empty range inside a region is covered.
    assert!(unit.range_has_access(MemoryRegionType::ReadWriteData, 4, 4));
}
