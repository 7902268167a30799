use os_626::addr::{
    p1_index, p2_index, p3_index, p4_index, page_offset, Page, PageTableFlags, PhysAddr,
    PhysFrame, VirtAddr, FLAG_PRESENT, FLAG_WRITABLE,
};

#[test]
fn virtual_address_decomposes_into_indices_and_offset() {
    let va = (1u64 << 39) | (2 << 30) | (3 << 21) | (4 << 12) | 5;
    assert_eq!(p4_index(va), 1);
    assert_eq!(p3_index(va), 2);
    assert_eq!(p2_index(va), 3);
    assert_eq!(p1_index(va), 4);
    assert_eq!(page_offset(va), 5);
}

#[test]
fn canonical_addresses_are_accepted() {
    assert_eq!(VirtAddr::try_new(0), Some(VirtAddr::new(0)));
    assert_eq!(
        VirtAddr::try_new(0xffff_8000_0000_0000),
        Some(VirtAddr::new(0xffff_8000_0000_0000))
    );
    assert_eq!(VirtAddr::try_new(0x0000_7fff_ffff_ffff).map(|a| a.as_u64()), Some(0x0000_7fff_ffff_ffff));
}

#[test]
fn non_canonical_addresses_are_refused() {
    assert_eq!(VirtAddr::try_new(0x0000_8000_0000_0000), None);
    assert_eq!(VirtAddr::try_new(0x1234_0000_0000_0000), None);
}

#[test]
fn containing_address_rounds_down_to_the_unit_base() {
    let page = Page::containing_address(VirtAddr::new(0x1234));
    assert_eq!(page.base, 0x1000);
    let frame = PhysFrame::containing_address(PhysAddr::new(0xb8123));
    assert_eq!(frame.base, 0xb8000);
    assert_eq!(frame.start_address().as_u64(), 0xb8000);
}

#[test]
fn flags_keep_only_attribute_bits() {
    let flags = PageTableFlags::new(FLAG_PRESENT | FLAG_WRITABLE);
    assert_eq!(flags.bits, 3);
    let masked = PageTableFlags::new(0xdead_beef_0000_0fff);
    assert_eq!(masked.bits, 0xfff);
    let union = PageTableFlags::new(FLAG_PRESENT).union(PageTableFlags::new(FLAG_WRITABLE));
    assert_eq!(union.bits, 3);
}
