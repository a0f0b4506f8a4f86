use zero_copy_cache::pagesizes::{
    closest_1g_page, closest_2mb_page, closest_4k_page, pgn2mb, pgoff1gb, pgoff2mb, pgoff4kb,
    PageSize, PAGESIZE, PGSIZE_1GB, PGSIZE_2MB, PGSIZE_4KB,
};

#[test]
fn page_size_constants() {
    assert_eq!(PAGESIZE, 4096);
    assert_eq!(PGSIZE_4KB, 1 << 12);
    assert_eq!(PGSIZE_2MB, 1 << 21);
    assert_eq!(PGSIZE_1GB, 1 << 30);
    assert_eq!(PageSize::PG4KB.as_num(), 4096);
    assert_eq!(PageSize::PG2MB.as_num(), 2 * 1024 * 1024);
    assert_eq!(PageSize::PG1GB.as_num(), 1024 * 1024 * 1024);
}

#[test]
fn closest_4k_page_masks_low_bits() {
    assert_eq!(closest_4k_page(0), 0);
    assert_eq!(closest_4k_page(0x1000_0000), 0x1000_0000);
    assert_eq!(closest_4k_page(0x1000_0001), 0x1000_0000);
    assert_eq!(closest_4k_page(0x1000_0fff), 0x1000_0000);
    assert_eq!(closest_4k_page(0x1000_1000), 0x1000_1000);
    assert_eq!(closest_4k_page(usize::MAX), usize::MAX - 0xfff);
}

#[test]
fn closest_2mb_page_masks_low_bits() {
    assert_eq!(closest_2mb_page(0x1f_ffff), 0);
    assert_eq!(closest_2mb_page(0x20_0000), 0x20_0000);
    assert_eq!(closest_2mb_page(0x4012_3456), 0x4000_0000);
    assert_eq!(closest_2mb_page(0x403f_ffff), 0x4020_0000);
    assert_eq!(closest_2mb_page(usize::MAX), usize::MAX - 0x1f_ffff);
}

#[test]
fn closest_1g_page_masks_low_bits() {
    assert_eq!(closest_1g_page(0x3fff_ffff), 0);
    assert_eq!(closest_1g_page(0x4000_0000), 0x4000_0000);
    assert_eq!(closest_1g_page(0x7fff_ffff), 0x4000_0000);
    assert_eq!(closest_1g_page(0x8000_0000), 0x8000_0000);
    assert_eq!(closest_1g_page(usize::MAX), usize::MAX - 0x3fff_ffff);
}

#[test]
fn closest_page_is_address_minus_offset() {
    for addr in [0usize, 1, 4095, 4096, 0x1234_5678, 0xdead_beef, usize::MAX] {
        assert_eq!(closest_4k_page(addr) + pgoff4kb(addr), addr);
        assert_eq!(closest_2mb_page(addr) + pgoff2mb(addr), addr);
        assert_eq!(closest_1g_page(addr) + pgoff1gb(addr), addr);
        assert_eq!(closest_4k_page(addr) % 4096, 0);
        assert_eq!(closest_2mb_page(addr) % (1 << 21), 0);
        assert_eq!(closest_1g_page(addr) % (1 << 30), 0);
    }
}

#[test]
fn page_offsets() {
    assert_eq!(pgoff4kb(0x1234_5678), 0x678);
    assert_eq!(pgoff2mb(0x1234_5678), 0x14_5678);
    assert_eq!(pgoff1gb(0x5234_5678), 0x1234_5678);
}

#[test]
fn page_number_of_offset() {
    assert_eq!(pgn2mb(0), 0);
    assert_eq!(pgn2mb(0x1f_ffff), 0);
    assert_eq!(pgn2mb(0x20_0000), 1);
    assert_eq!(pgn2mb(5 * 0x20_0000 + 17), 5);
}
