use ostep_sim::vm::{
    check_paging_sizes, check_segments, check_sizes, page_translate, relocate, seg1_base_from_top, seg_translate, PageTranslation,
    RelocationOption, SegTranslation, SegmentError, Segments, SizeError,
};

#[test]
fn relocation_defaults() {
    let o = RelocationOption::new();
    assert_eq!(o.seed, 1);
    assert_eq!(o.asize, "1k");
    assert_eq!(o.psize, "16k");
    assert_eq!(o.num, 5);
}

#[test]
fn relocation_within_and_beyond_the_limit() {
    assert_eq!(relocate(100, 3000, 500), Some(3100));
    assert_eq!(relocate(499, 3000, 500), Some(3499));
    assert_eq!(relocate(500, 3000, 500), None);
    assert_eq!(relocate(900, 3000, 500), None);
}

#[test]
fn size_checks_name_each_error() {
    assert_eq!(check_sizes(1024, 1), Err(SizeError::NoPhysicalMemory));
    assert_eq!(check_sizes(0, 4096), Err(SizeError::NoAddressSpace));
    assert_eq!(check_sizes(4096, 4096), Err(SizeError::PhysicalNotLarger));
    assert_eq!(check_sizes(1024, 16384), Ok(()));
    assert_eq!(check_paging_sizes(0x4000_0000, 0x7000_0000), Err(SizeError::TooLarge));
    assert_eq!(check_paging_sizes(16384, 65536), Ok(()));
}

#[test]
fn segments_translate_into_their_own_range() {
    let s = Segments { base0: 1000, len0: 200, base1: 4000, len1: 100 };
    assert_eq!(check_segments(s, 1024), Ok(()));
    assert_eq!(seg_translate(10, 1024, s), SegTranslation::Seg0(1010));
    assert_eq!(seg_translate(300, 1024, s), SegTranslation::Seg0Violation);
    // the top of the address space is the top of segment 1
    assert_eq!(seg_translate(1023, 1024, s), SegTranslation::Seg1(4099));
    assert_eq!(seg_translate(924, 1024, s), SegTranslation::Seg1(4000));
    assert_eq!(seg_translate(600, 1024, s), SegTranslation::Seg1Violation);
}

#[test]
fn segment_checks() {
    let long = Segments { base0: 0, len0: 600, base1: 4000, len1: 100 };
    assert_eq!(check_segments(long, 1024), Err(SegmentError::TooLong));
    let overlap = Segments { base0: 1000, len0: 200, base1: 1100, len1: 100 };
    assert_eq!(check_segments(overlap, 1024), Err(SegmentError::Overlap));
}

#[test]
fn linear_page_table_keeps_the_offset() {
    let pt = vec![3, -1, 7, 0];
    assert_eq!(page_translate(&pt, 4, 0x05), PageTranslation::Valid { vpn: 0, paddr: 0x35 });
    assert_eq!(page_translate(&pt, 4, 0x1f), PageTranslation::Invalid { vpn: 1 });
    assert_eq!(page_translate(&pt, 4, 0x2a), PageTranslation::Valid { vpn: 2, paddr: 0x7a });
    assert_eq!(page_translate(&pt, 4, 0x3c), PageTranslation::Valid { vpn: 3, paddr: 0x0c });
}

#[test]
fn a_violation_needs_no_room_for_the_base() {
    let s = Segments { base0: i32::MAX, len0: 10, base1: 0, len1: 10 };
    assert_eq!(seg_translate(20, 100, s), SegTranslation::Seg0Violation);
    assert_eq!(seg1_base_from_top(300, 20), Some(280));
    assert_eq!(seg1_base_from_top(i32::MIN, 1), None);
}
