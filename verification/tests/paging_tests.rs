use os_626::addr::{PageTableFlags, Page, PhysAddr, PhysFrame, VirtAddr, FLAG_HUGE_PAGE, FLAG_PRESENT, FLAG_WRITABLE};
use os_626::frame_alloc::{
    BootInfoFrameAllocator, EmptyFrameAllocator, FrameAllocator, MemoryRegion, RegionKind,
};
use os_626::paging::{create_example_mapping, init, MapToError, OffsetPageTable, TranslateError};

fn fresh_mapper() -> OffsetPageTable {
    init(PhysFrame { base: 0x1000 }, VirtAddr::new(0))
}

fn fresh_allocator() -> BootInfoFrameAllocator {
    BootInfoFrameAllocator::init(vec![MemoryRegion {
        start: 0x100000,
        end: 0x200000,
        kind: RegionKind::Usable,
    }])
}

#[test]
fn example_mapping_translates_to_text_buffer() {
    let mut mapper = fresh_mapper();
    let mut alloc = fresh_allocator();
    let page = Page::containing_address(VirtAddr::new(0));
    create_example_mapping(page, &mut mapper, &mut alloc);
    let got = mapper.translate_addr(VirtAddr::new(0));
    assert_eq!(got, Ok(Some(PhysAddr { addr: 0xb8000 })));
}

#[test]
fn round_trip_holds_for_every_offset_checked() {
    let mut mapper = fresh_mapper();
    let mut alloc = fresh_allocator();
    let page = Page::containing_address(VirtAddr::new(0));
    create_example_mapping(page, &mut mapper, &mut alloc);
    for k in [0u64, 1, 42, 400 * 8, 4095] {
        let got = mapper.translate_addr(VirtAddr::new(k));
        assert_eq!(got, Ok(Some(PhysAddr { addr: 0xb8000 + k })));
    }
}

#[test]
fn write_through_virtual_lands_in_backing_store() {
    let mut mapper = fresh_mapper();
    let mut alloc = fresh_allocator();
    let page = Page::containing_address(VirtAddr::new(0));
    create_example_mapping(page, &mut mapper, &mut alloc);

    // A test double for physical memory: translate the virtual address,
    // then write at the physical address the tables name.
    let mut phys_mem = vec![0u8; 0xc0000];
    let virtual_addr = VirtAddr::new(400 * 8);
    let pa = mapper
        .translate_addr(virtual_addr)
        .expect("walk failed")
        .expect("unmapped");
    phys_mem[pa.as_u64() as usize] = 0x4e;
    assert_eq!(phys_mem[0xb8000 + 400 * 8], 0x4e);
}

#[test]
fn unmapped_address_misses() {
    let mapper = fresh_mapper();
    assert_eq!(mapper.translate_addr(VirtAddr::new(0x2000)), Ok(None));
    assert_eq!(mapper.translate_addr(VirtAddr::new(0xdead_beef)), Ok(None));
}

#[test]
fn other_pages_stay_unmapped_after_mapping() {
    let mut mapper = fresh_mapper();
    let mut alloc = fresh_allocator();
    let page = Page::containing_address(VirtAddr::new(0));
    create_example_mapping(page, &mut mapper, &mut alloc);
    // The next page up, and a far-away page, were never the target of a map.
    assert_eq!(mapper.translate_addr(VirtAddr::new(0x1000)), Ok(None));
    assert_eq!(mapper.translate_addr(VirtAddr::new(0x40000000)), Ok(None));
}

#[test]
fn huge_page_entry_is_a_fatal_signal() {
    let mut mapper = fresh_mapper();
    let mut alloc = fresh_allocator();
    let page = Page::containing_address(VirtAddr::new(0));
    create_example_mapping(page, &mut mapper, &mut alloc);
    // The level-3 table of this walk sits in the first allocated frame.
    // Plant a huge-page entry over the walk's level-3 slot.
    let planted = mapper.set_entry(0x100000, 0, 0x200000 | FLAG_PRESENT | FLAG_HUGE_PAGE);
    assert!(planted);
    assert_eq!(
        mapper.translate_addr(VirtAddr::new(0)),
        Err(TranslateError::HugeFrame)
    );
}

#[test]
fn mapping_under_a_huge_parent_is_refused() {
    let mut mapper = fresh_mapper();
    let mut alloc = fresh_allocator();
    let page = Page::containing_address(VirtAddr::new(0));
    create_example_mapping(page, &mut mapper, &mut alloc);
    let planted = mapper.set_entry(0x100000, 0, 0x200000 | FLAG_PRESENT | FLAG_HUGE_PAGE);
    assert!(planted);
    let flags = PageTableFlags::new(FLAG_PRESENT | FLAG_WRITABLE);
    let got = mapper.map_to(page, PhysFrame { base: 0x3000 }, flags, &mut alloc);
    assert_eq!(got.map(|_| ()), Err(MapToError::ParentEntryHugePage));
}

#[test]
fn remapping_a_mapped_page_is_refused() {
    let mut mapper = fresh_mapper();
    let mut alloc = fresh_allocator();
    let page = Page::containing_address(VirtAddr::new(0));
    create_example_mapping(page, &mut mapper, &mut alloc);
    let flags = PageTableFlags::new(FLAG_PRESENT | FLAG_WRITABLE);
    let got = mapper.map_to(page, PhysFrame { base: 0x3000 }, flags, &mut alloc);
    assert_eq!(
        got.map(|_| ()),
        Err(MapToError::PageAlreadyMapped(PhysFrame { base: 0xb8000 }))
    );
}

#[test]
fn exhausted_allocator_fails_the_mapping() {
    let mut mapper = fresh_mapper();
    let mut alloc = EmptyFrameAllocator;
    let page = Page::containing_address(VirtAddr::new(0));
    let flags = PageTableFlags::new(FLAG_PRESENT | FLAG_WRITABLE);
    let got = mapper.map_to(page, PhysFrame { base: 0xb8000 }, flags, &mut alloc);
    assert_eq!(got.map(|_| ()), Err(MapToError::FrameAllocationFailed));
    // Nothing was mapped.
    assert_eq!(mapper.translate_addr(VirtAddr::new(0)), Ok(None));
}

#[test]
fn failed_mapping_changes_no_translation() {
    let mut mapper = fresh_mapper();
    // One frame is enough for one intermediate table, not for three.
    let mut alloc = BootInfoFrameAllocator::init(vec![MemoryRegion {
        start: 0x100000,
        end: 0x101000,
        kind: RegionKind::Usable,
    }]);
    let page = Page::containing_address(VirtAddr::new(0));
    let flags = PageTableFlags::new(FLAG_PRESENT | FLAG_WRITABLE);
    let got = mapper.map_to(page, PhysFrame { base: 0xb8000 }, flags, &mut alloc);
    assert_eq!(got.map(|_| ()), Err(MapToError::FrameAllocationFailed));
    assert_eq!(mapper.translate_addr(VirtAddr::new(0)), Ok(None));
}

#[test]
fn flush_handle_names_the_mapped_page() {
    let mut mapper = fresh_mapper();
    let mut alloc = fresh_allocator();
    let page = Page::containing_address(VirtAddr::new(0x5000));
    let flags = PageTableFlags::new(FLAG_PRESENT | FLAG_WRITABLE);
    let flush = mapper
        .map_to(page, PhysFrame { base: 0x7000 }, flags, &mut alloc)
        .expect("mapping failed");
    assert_eq!(flush.page, page);
    flush.flush();
    assert_eq!(
        mapper.translate_addr(VirtAddr::new(0x5000)),
        Ok(Some(PhysAddr { addr: 0x7000 }))
    );
}

#[test]
fn intermediate_tables_are_shared_within_a_region() {
    let mut mapper = fresh_mapper();
    let mut alloc = fresh_allocator();
    let flags = PageTableFlags::new(FLAG_PRESENT | FLAG_WRITABLE);
    // Two neighbouring pages share all three intermediate tables.
    let first = Page::containing_address(VirtAddr::new(0x0000));
    let second = Page::containing_address(VirtAddr::new(0x1000));
    mapper
        .map_to(first, PhysFrame { base: 0x10000 }, flags, &mut alloc)
        .expect("first mapping failed")
        .flush();
    mapper
        .map_to(second, PhysFrame { base: 0x11000 }, flags, &mut alloc)
        .expect("second mapping failed")
        .flush();
    assert_eq!(
        mapper.translate_addr(VirtAddr::new(0x0123)),
        Ok(Some(PhysAddr { addr: 0x10123 }))
    );
    assert_eq!(
        mapper.translate_addr(VirtAddr::new(0x1fff)),
        Ok(Some(PhysAddr { addr: 0x11fff }))
    );
    // The second mapping consumed no further table frames: the next frame
    // the allocator offers is still the fourth of the region.
    let next = alloc.allocate_frame().expect("allocator spent");
    assert_eq!(next.base, 0x103000);
}

#[test]
fn non_present_flags_leave_the_page_missing() {
    let mut mapper = fresh_mapper();
    let mut alloc = fresh_allocator();
    let page = Page::containing_address(VirtAddr::new(0));
    let flags = PageTableFlags::new(FLAG_WRITABLE);
    mapper
        .map_to(page, PhysFrame { base: 0x9000 }, flags, &mut alloc)
        .expect("mapping failed")
        .flush();
    assert_eq!(mapper.translate_addr(VirtAddr::new(0)), Ok(None));
}
