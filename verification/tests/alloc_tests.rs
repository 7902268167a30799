use os_626::frame_alloc::{BootInfoFrameAllocator, EmptyFrameAllocator, FrameAllocator, MemoryRegion, RegionKind};

fn region(start: u64, end: u64, kind: RegionKind) -> MemoryRegion {
    MemoryRegion { start, end, kind }
}

#[test]
fn empty_allocator_is_always_exhausted() {
    let mut alloc = EmptyFrameAllocator;
    for _ in 0..4 {
        assert!(alloc.allocate_frame().is_none());
    }
}

#[test]
fn exhaustion_boundary_single_region() {
    let regions = vec![region(0x100000, 0x200000, RegionKind::Usable)];
    let mut alloc = BootInfoFrameAllocator::init(regions);
    for n in 0..256u64 {
        let frame = alloc.allocate_frame().expect("stream ended early");
        assert_eq!(frame.base, 0x100000 + 4096 * n);
    }
    assert!(alloc.allocate_frame().is_none());
    assert!(alloc.allocate_frame().is_none());
    assert!(alloc.allocate_frame().is_none());
}

#[test]
fn non_usable_regions_are_skipped() {
    let regions = vec![
        region(0x1000, 0x3000, RegionKind::Usable),
        region(0x3000, 0x5000, RegionKind::Reserved),
        region(0x5000, 0x6000, RegionKind::Other),
        region(0x6000, 0x8000, RegionKind::Usable),
    ];
    let mut alloc = BootInfoFrameAllocator::init(regions);
    let mut got = Vec::new();
    while let Some(frame) = alloc.allocate_frame() {
        got.push(frame.base);
    }
    assert_eq!(got, vec![0x1000, 0x2000, 0x6000, 0x7000]);
}

#[test]
fn frames_are_pairwise_distinct() {
    let regions = vec![
        region(0x1000, 0x4000, RegionKind::Usable),
        region(0x4000, 0x5000, RegionKind::Reserved),
        region(0x5000, 0x9000, RegionKind::Usable),
    ];
    let mut alloc = BootInfoFrameAllocator::init(regions);
    let mut got = Vec::new();
    while let Some(frame) = alloc.allocate_frame() {
        got.push(frame.base);
    }
    assert_eq!(got.len(), 7);
    for i in 0..got.len() {
        for j in 0..got.len() {
            if i != j {
                assert_ne!(got[i], got[j]);
            }
        }
    }
}

#[test]
fn empty_memory_map_is_exhausted_at_once() {
    let mut alloc = BootInfoFrameAllocator::init(Vec::new());
    assert!(alloc.allocate_frame().is_none());
}
