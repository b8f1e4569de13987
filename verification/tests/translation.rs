use parva_os::translate::{phys_to_virt, virt_to_phys, PageTableView, PhysicalMemoryOffset};

const OFFSET: u64 = 0x1000_0000_0000;

#[test]
fn offset_is_recorded_once_and_read_back() {
    let offset = PhysicalMemoryOffset::new(OFFSET);
    assert_eq!(offset.get(), OFFSET);
}

#[test]
fn phys_to_virt_adds_the_offset() {
    let offset = PhysicalMemoryOffset::new(OFFSET);
    assert_eq!(phys_to_virt(&offset, 0x2000), OFFSET + 0x2000);
    assert_eq!(phys_to_virt(&offset, 0), OFFSET);
}

#[test]
fn round_trip_through_identity_mapping() {
    let offset = PhysicalMemoryOffset::new(OFFSET);
    let mut view = PageTableView::new();
    // Identity-offset mapping for the first three physical pages.
    view.map_page(OFFSET, 0x0);
    view.map_page(OFFSET + 0x1000, 0x1000);
    view.map_page(OFFSET + 0x2000, 0x2000);

    for p in [0x0u64, 0x1000, 0x2000, 0x1234, 0x2fff] {
        let virt = phys_to_virt(&offset, p);
        assert_eq!(virt_to_phys(&view, virt), Some(p));
    }
}

#[test]
fn unmapped_address_translates_to_none_without_panic() {
    let empty = PageTableView::new();
    assert_eq!(virt_to_phys(&empty, 0xdead_b000), None);

    let mut view = PageTableView::new();
    view.map_page(0x4000, 0x9000);
    assert_eq!(virt_to_phys(&view, 0x5000), None);
    assert_eq!(virt_to_phys(&view, 0x4abc), Some(0x9abc));
}
