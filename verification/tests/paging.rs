use lumina_mm::flags;
use lumina_mm::paging::{MapError, PageSystem, MEGAPAGE_SIZE, PAGE_SIZE};

fn fresh_system() -> PageSystem {
    let mut ps = PageSystem::new(0x8400_0000);
    ps.init();
    ps
}

#[test]
fn map_then_translate_covers_every_offset() {
    let mut ps = fresh_system();
    assert_eq!(ps.map(0x4000_0000, 0x8020_0000, PAGE_SIZE, flags::READ_WRITE), Ok(()));
    assert_eq!(ps.translate(0x4000_0000), Some(0x8020_0000));
    assert_eq!(ps.translate(0x4000_0000 + 1), Some(0x8020_0001));
    assert_eq!(ps.translate(0x4000_0000 + 0x7ff), Some(0x8020_07ff));
    assert_eq!(ps.translate(0x4000_0000 + 0xfff), Some(0x8020_0fff));
    // The neighbouring pages stay unmapped.
    assert_eq!(ps.translate(0x4000_0000 - 1), None);
    assert_eq!(ps.translate(0x4000_1000), None);
}

#[test]
fn map_page_is_map_with_base_page_size() {
    let mut ps = fresh_system();
    assert_eq!(ps.map_page(0x1000, 0x2000, flags::READ_WRITE), Ok(()));
    assert_eq!(ps.translate(0x1234), Some(0x2234));
}

#[test]
fn megapage_map_translates_with_21_bit_offset() {
    // map(0x80000000, 0x80000000, 2MiB, READ_WRITE_EXECUTE) then
    // translate(0x80000000 + 0x1234) gives the identity.
    let mut ps = fresh_system();
    assert_eq!(
        ps.map(0x8000_0000, 0x8000_0000, MEGAPAGE_SIZE, flags::READ_WRITE_EXECUTE),
        Ok(())
    );
    assert_eq!(ps.translate(0x8000_0000 + 0x1234), Some(0x8000_0000 + 0x1234));
    assert_eq!(ps.translate(0x8000_0000), Some(0x8000_0000));
    assert_eq!(ps.translate(0x8000_0000 + 0x1f_ffff), Some(0x8000_0000 + 0x1f_ffff));
    assert_eq!(ps.translate(0x8000_0000 + 0x20_0000), None);
}

#[test]
fn optimized_range_uses_one_megapage_for_aligned_span() {
    let mut ps = fresh_system();
    let tables_before = ps.table_addrs.len();
    assert_eq!(
        ps.map_range_optimized(
            0x8000_0000,
            0x8000_0000 + MEGAPAGE_SIZE,
            0x8000_0000,
            flags::READ_WRITE_EXECUTE
        ),
        Ok(())
    );
    // One 2MiB mapping: at most the two upper-level tables were created,
    // never the 512 leaf entries a 4KiB-page walk would need.
    assert!(ps.table_addrs.len() <= tables_before + 2);
    assert_eq!(ps.translate(0x8000_0000 + 0x1234), Some(0x8000_0000 + 0x1234));
    assert_eq!(ps.translate(0x8000_0000 + 0x1f_f000), Some(0x8000_0000 + 0x1f_f000));
}

#[test]
fn optimized_range_handles_unaligned_tail() {
    let mut ps = fresh_system();
    assert_eq!(
        ps.map_range_optimized(0x4000_0000, 0x4000_3000, 0x8000_0000, flags::READ_WRITE),
        Ok(())
    );
    assert_eq!(ps.translate(0x4000_0000), Some(0x8000_0000));
    assert_eq!(ps.translate(0x4000_2fff), Some(0x8000_2fff));
}

#[test]
fn map_range_widens_to_page_boundaries() {
    let mut ps = fresh_system();
    assert_eq!(ps.map_range(0x4000_0100, 0x4000_1100, 0x8000_0100, flags::READ_WRITE), Ok(()));
    assert_eq!(ps.translate(0x4000_0000), Some(0x8000_0000));
    assert_eq!(ps.translate(0x4000_1fff), Some(0x8000_1fff));
}

#[test]
fn unmap_makes_address_unmapped_again() {
    let mut ps = fresh_system();
    assert_eq!(ps.map(0x4000_0000, 0x8020_0000, PAGE_SIZE, flags::READ_WRITE), Ok(()));
    assert_eq!(ps.unmap(0x4000_0000), Ok(()));
    assert_eq!(ps.translate(0x4000_0000), None);
    // A never-mapped address reports unmapped too.
    assert_eq!(ps.translate(0x7000_0000), None);
}

#[test]
fn unmap_clears_whole_megapage() {
    let mut ps = fresh_system();
    assert_eq!(
        ps.map(0x8000_0000, 0x8000_0000, MEGAPAGE_SIZE, flags::READ_WRITE_EXECUTE),
        Ok(())
    );
    assert_eq!(ps.unmap(0x8000_0000), Ok(()));
    assert_eq!(ps.translate(0x8000_0000 + 0x1234), None);
}

#[test]
fn error_unsupported_page_size() {
    let mut ps = fresh_system();
    assert_eq!(
        ps.map(0x4000_0000, 0x8000_0000, 8192, flags::READ_WRITE),
        Err(MapError::UnsupportedPageSize)
    );
}

#[test]
fn error_invalid_alignment() {
    let mut ps = fresh_system();
    assert_eq!(
        ps.map(0x4000_0100, 0x8000_0000, PAGE_SIZE, flags::READ_WRITE),
        Err(MapError::InvalidAlignment)
    );
    assert_eq!(
        ps.map(0x4010_0000, 0x8000_0000, MEGAPAGE_SIZE, flags::READ_WRITE_EXECUTE),
        Err(MapError::InvalidAlignment)
    );
}

#[test]
fn error_root_not_initialized() {
    let mut ps = PageSystem::new(0x8400_0000);
    assert_eq!(
        ps.map(0x4000_0000, 0x8000_0000, PAGE_SIZE, flags::READ_WRITE),
        Err(MapError::RootNotInitialized)
    );
    assert_eq!(ps.unmap(0x4000_0000), Err(MapError::RootNotInitialized));
    assert_eq!(ps.translate(0x4000_0000), None);
    assert_eq!(ps.satp_value(), None);
}

#[test]
fn error_not_mapped() {
    let mut ps = fresh_system();
    assert_eq!(ps.unmap(0x4000_0000), Err(MapError::NotMapped));
}

#[test]
fn satp_value_encodes_mode_and_root() {
    let ps = fresh_system();
    // The root table is the first frame handed out.
    assert_eq!(ps.satp_value(), Some((8u64 << 60) | (0x8400_0000u64 >> 12)));
}

#[test]
fn table_indices_split_the_address() {
    let ps = PageSystem::new(0x8400_0000);
    let idx = ps.get_table_indices(0x8000_1234);
    assert_eq!(idx[0], (0x8000_1234u64 >> 12) & 0x1ff);
    assert_eq!(idx[1], (0x8000_1234u64 >> 21) & 0x1ff);
    assert_eq!(idx[2], (0x8000_1234u64 >> 30) & 0x1ff);
    assert!(ps.is_page_aligned(0x8000_0000));
    assert!(!ps.is_page_aligned(0x8000_0001));
}
