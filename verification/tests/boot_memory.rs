use parva_os::memory::{total_memory, BootInfoFrameAllocator, Frame, MemoryRegion, RegionKind};

fn region(start: u64, end: u64, kind: RegionKind) -> MemoryRegion {
    MemoryRegion { start, end, kind }
}

#[test]
fn total_memory_sums_all_regions() {
    let regions = vec![
        region(0x0, 0x1000, RegionKind::Reserved),
        region(0x1000, 0x3000, RegionKind::Usable),
        region(0x3000, 0x4000, RegionKind::Other),
    ];
    assert_eq!(total_memory(&regions), 0x4000);
}

#[test]
fn total_memory_of_empty_map_is_zero() {
    let regions: Vec<MemoryRegion> = Vec::new();
    assert_eq!(total_memory(&regions), 0);
}

#[test]
fn total_memory_counts_non_usable_regions_too() {
    let regions = vec![
        region(0x0, 0x2000, RegionKind::Reserved),
        region(0x2000, 0x2800, RegionKind::Other),
    ];
    assert_eq!(total_memory(&regions), 0x2800);
}

#[test]
fn boot_scenario_total_then_two_frames_then_exhaustion() {
    let regions = vec![
        region(0x0, 0x1000, RegionKind::Reserved),
        region(0x1000, 0x3000, RegionKind::Usable),
    ];
    assert_eq!(total_memory(&regions), 0x3000);

    let mut alloc = BootInfoFrameAllocator::init(regions);
    assert_eq!(alloc.allocate_frame(), Some(Frame { start: 0x1000 }));
    assert_eq!(alloc.allocate_frame(), Some(Frame { start: 0x2000 }));
    assert_eq!(alloc.allocate_frame(), None);
    assert_eq!(alloc.allocate_frame(), None);
}

#[test]
fn exhaustion_never_recovers() {
    let regions = vec![region(0x5000, 0x6000, RegionKind::Usable)];
    let mut alloc = BootInfoFrameAllocator::init(regions);
    assert_eq!(alloc.allocate_frame(), Some(Frame { start: 0x5000 }));
    for _ in 0..32 {
        assert_eq!(alloc.allocate_frame(), None);
    }
}

#[test]
fn frames_skip_non_usable_regions_and_keep_map_order() {
    let regions = vec![
        region(0x10000, 0x12000, RegionKind::Usable),
        region(0x12000, 0x13000, RegionKind::Reserved),
        region(0x20000, 0x21000, RegionKind::Usable),
    ];
    let mut alloc = BootInfoFrameAllocator::init(regions);
    assert_eq!(alloc.allocate_frame(), Some(Frame { start: 0x10000 }));
    assert_eq!(alloc.allocate_frame(), Some(Frame { start: 0x11000 }));
    assert_eq!(alloc.allocate_frame(), Some(Frame { start: 0x20000 }));
    assert_eq!(alloc.allocate_frame(), None);
}

#[test]
fn partial_trailing_frame_is_never_produced() {
    let regions = vec![region(0x1000, 0x2800, RegionKind::Usable)];
    let mut alloc = BootInfoFrameAllocator::init(regions);
    assert_eq!(alloc.allocate_frame(), Some(Frame { start: 0x1000 }));
    assert_eq!(alloc.allocate_frame(), None);
}

#[test]
fn empty_usable_region_yields_no_frames() {
    let regions = vec![
        region(0x1000, 0x1000, RegionKind::Usable),
        region(0x2000, 0x3000, RegionKind::Usable),
    ];
    let mut alloc = BootInfoFrameAllocator::init(regions);
    assert_eq!(alloc.allocate_frame(), Some(Frame { start: 0x2000 }));
    assert_eq!(alloc.allocate_frame(), None);
}

#[test]
fn one_at_a_time_matches_asking_for_the_frames_directly() {
    let regions = vec![
        region(0x0, 0x1000, RegionKind::Other),
        region(0x4000, 0x7000, RegionKind::Usable),
        region(0x9000, 0xb000, RegionKind::Usable),
    ];
    let direct = BootInfoFrameAllocator::init(regions.clone()).usable_frames();

    let mut alloc = BootInfoFrameAllocator::init(regions);
    let mut one_at_a_time = Vec::new();
    while let Some(f) = alloc.allocate_frame() {
        one_at_a_time.push(f);
    }
    assert_eq!(one_at_a_time, direct);
    assert_eq!(one_at_a_time.len(), 5);
}

#[test]
fn produced_frames_are_aligned_usable_and_distinct() {
    let regions = vec![
        region(0x0, 0x1000, RegionKind::Reserved),
        region(0x1000, 0x4000, RegionKind::Usable),
        region(0x4000, 0x5000, RegionKind::Other),
        region(0x100000, 0x102000, RegionKind::Usable),
    ];
    let usable: Vec<(u64, u64)> = regions
        .iter()
        .filter(|r| r.kind == RegionKind::Usable)
        .map(|r| (r.start, r.end))
        .collect();
    let frames = BootInfoFrameAllocator::init(regions).usable_frames();
    assert_eq!(frames.len(), 5);
    for (i, f) in frames.iter().enumerate() {
        assert_eq!(f.start % 4096, 0);
        assert!(usable.iter().any(|&(s, e)| s <= f.start && f.start < e));
        for g in frames[i + 1..].iter() {
            assert_ne!(f.start, g.start);
        }
    }
}
