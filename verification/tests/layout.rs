use page_store::error::{classify_lock_failure, Error};
use page_store::layout::{
    div_even, required_bytes, required_space, round_up_to_multiple_of, DatabaseLayout,
    RegionLayout,
};

#[test]
fn full_layout() {
    let layout = RegionLayout::full_region_layout(512, 4096);
    assert_eq!(layout.num_pages, 512);
    assert_eq!(layout.page_size, 4096);
}

#[test]
fn full_layout_len_and_usable() {
    let layout = RegionLayout::full_region_layout(512, 4096);
    assert_eq!(layout.header_pages, 1);
    assert_eq!(layout.usable_bytes(), 512 * 4096);
    assert_eq!(layout.len(), 513 * 4096);
    assert_eq!(layout.num_pages(), 512);
    assert_eq!(layout.get_header_pages(), 1);
    assert_eq!(layout.data_section(), 4096..(513 * 4096));
}

#[test]
fn required_space_exact() {
    assert_eq!(required_space(1), 32);
    assert_eq!(required_space(512), 144);
    assert_eq!(required_space(1_000_000), 250_016);
}

#[test]
fn required_bytes_exact() {
    assert_eq!(required_bytes(1, 21), 176);
    assert_eq!(required_bytes(64, 21), 176);
    assert_eq!(required_bytes(65, 21), 344);
}

#[test]
fn header_pages_rounds_up_to_whole_pages() {
    assert_eq!(RegionLayout::header_pages(512, 4096), 1);
    assert_eq!(RegionLayout::header_pages(1_000_000, 4096), 62);
    assert_eq!(RegionLayout::header_pages(512, 16), 9);
}

#[test]
fn div_even_exact() {
    assert_eq!(div_even(8192, 4096), 2);
    assert_eq!(div_even(0, 7), 0);
}

#[test]
fn round_up_exact() {
    assert_eq!(round_up_to_multiple_of(240, 4096), 4096);
    assert_eq!(round_up_to_multiple_of(4096, 4096), 4096);
    assert_eq!(round_up_to_multiple_of(0, 16), 0);
    assert_eq!(round_up_to_multiple_of(4097, 4096), 8192);
}

#[test]
fn region_rejects_tiny_desired_bytes() {
    // fewer than MIN_USABLE_PAGES pages requested
    assert!(RegionLayout::calculate(10_000_000, 9 * 4096, 512, 4096).is_none());
}

#[test]
fn region_rejects_tiny_available_space() {
    // header (4096) + 10 pages = 45056 bytes needed, only 40960 available
    assert!(RegionLayout::calculate(10 * 4096, 100 * 4096, 512, 4096).is_none());
}

#[test]
fn region_never_exceeds_available_space() {
    let region = RegionLayout::calculate(100_000, 1_000_000_000, 512, 4096).unwrap();
    assert_eq!(region.num_pages, 23);
    assert_eq!(region.header_pages, 1);
    assert_eq!(region.len(), 24 * 4096);
    assert!(region.len() <= 100_000);
    assert_eq!(region.usable_bytes(), 23 * 4096);
}

#[test]
fn region_new_stores_fields() {
    let region = RegionLayout::new(23, 1, 4096);
    assert_eq!(region.num_pages(), 23);
    assert_eq!(region.get_header_pages(), 1);
    assert_eq!(region.page_size, 4096);
}

#[test]
fn database_multi_region_layout() {
    let layout = DatabaseLayout::calculate(10_000_000, 10_000_000, 512, 4096).unwrap();
    assert_eq!(layout.superheader_pages(), 1);
    assert_eq!(layout.superheader_bytes(), 4096);
    assert_eq!(layout.region_tracker_address_range(), 64..240);
    assert_eq!(layout.num_full_regions(), 4);
    assert_eq!(layout.num_regions(), 5);
    let trailing = layout.trailing_region_layout().unwrap();
    assert_eq!(trailing.num_pages, 387);
    assert_eq!(trailing.header_pages, 1);
    assert_eq!(layout.len(), 9_998_336);
    assert!(layout.len() <= 10_000_000);
    assert_eq!(layout.usable_bytes(), 4 * 512 * 4096 + 387 * 4096);
    // multi-region planning never over-commits full regions
    assert!(4 * layout.full_region_layout().usable_bytes() <= 10_000_000);
}

#[test]
fn database_region_bases_step_by_full_region_len() {
    let layout = DatabaseLayout::calculate(10_000_000, 10_000_000, 512, 4096).unwrap();
    let full_len = layout.full_region_layout().len() as usize;
    assert_eq!(layout.region_base_address(0), 4096);
    for region in 0..layout.num_regions() - 1 {
        assert_eq!(
            layout.region_base_address(region + 1) - layout.region_base_address(region),
            full_len
        );
    }
}

#[test]
fn database_regions_share_header_pages() {
    let layout = DatabaseLayout::calculate(10_000_000, 10_000_000, 512, 4096).unwrap();
    let full_header = layout.full_region_layout().get_header_pages();
    for region in 0..layout.num_regions() {
        assert_eq!(layout.region_layout(region).get_header_pages(), full_header);
    }
}

#[test]
fn database_single_region_when_desired_fits_one_full_region() {
    let layout = DatabaseLayout::calculate(10_000_000, 1_000_000, 512, 4096).unwrap();
    assert_eq!(layout.num_full_regions(), 0);
    assert_eq!(layout.num_regions(), 1);
    let trailing = layout.trailing_region_layout().unwrap();
    assert_eq!(trailing.num_pages, 244);
    assert_eq!(layout.len(), 1_007_616);
    assert!(layout.len() <= 10_000_000);
    assert_eq!(layout.usable_bytes(), 244 * 4096);
}

#[test]
fn database_single_region_when_capacity_fits_one_full_region() {
    // desired exceeds one full region's usable bytes, but the capacity after
    // the superheader cannot hold a second full region
    let layout = DatabaseLayout::calculate(2_105_000, 2_105_000, 512, 4096).unwrap();
    assert_eq!(layout.num_full_regions(), 0);
    assert_eq!(layout.num_regions(), 1);
    assert_eq!(layout.trailing_region_layout().unwrap().num_pages, 511);
    assert!(layout.len() <= 2_105_000);
}

#[test]
fn database_multi_region_boundary() {
    let layout = DatabaseLayout::calculate(3_000_000, 3_000_000, 512, 4096).unwrap();
    assert_eq!(layout.num_full_regions(), 1);
    assert_eq!(layout.num_regions(), 2);
    assert_eq!(layout.trailing_region_layout().unwrap().num_pages, 217);
    assert_eq!(layout.len(), 2_998_272);
    assert!(layout.len() <= 3_000_000);
}

#[test]
fn database_out_of_space_for_tiny_capacity() {
    assert!(matches!(
        DatabaseLayout::calculate(100, 100, 512, 4096),
        Err(Error::OutOfSpace)
    ));
    assert!(matches!(
        DatabaseLayout::calculate(40_000, 40_000, 512, 4096),
        Err(Error::OutOfSpace)
    ));
}

#[test]
fn database_out_of_space_for_tiny_desired_bytes() {
    assert!(matches!(
        DatabaseLayout::calculate(10_000_000, 100, 512, 4096),
        Err(Error::OutOfSpace)
    ));
}

#[test]
fn database_new_stores_fields() {
    let full = RegionLayout::full_region_layout(512, 4096);
    let layout = DatabaseLayout::new(1, 176, 2, full, None);
    assert_eq!(layout.superheader_pages(), 1);
    assert_eq!(layout.region_tracker_address_range(), 64..240);
    assert_eq!(layout.num_full_regions(), 2);
    assert!(layout.trailing_region_layout().is_none());
    assert_eq!(layout.num_regions(), 2);
}

#[test]
fn lock_contention_is_database_already_open() {
    assert_eq!(classify_lock_failure(true), Error::DatabaseAlreadyOpen);
    assert_eq!(classify_lock_failure(false), Error::Io);
}
