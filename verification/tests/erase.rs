use ch32rv::erase::{covered_pages, db_family, family_byte_from_name, overlay_page, resolve_erase};
use ch32rv::image::Segment;
use ch32rv::policy::EraseMode;

const BASE: u32 = 0x0800_0000;

fn pages(segs: &[(u32, u32)], page: u32) -> Vec<u32> {
    covered_pages(segs, page)
}

fn seg(addr: u32, data: &[u8]) -> Segment {
    Segment { addr, data: data.to_vec() }
}

#[test]
fn auto_full_image_is_chip() {
    assert_eq!(resolve_erase(EraseMode::Auto, Some(BASE), BASE, false), EraseMode::Chip);
}

#[test]
fn auto_partial_image_is_sector() {
    assert_eq!(resolve_erase(EraseMode::Auto, Some(BASE + 0x8000), BASE, false), EraseMode::Sector);
}

#[test]
fn auto_with_restore_unwritten_is_sector_even_from_base() {
    assert_eq!(resolve_erase(EraseMode::Auto, Some(BASE), BASE, true), EraseMode::Sector);
}

#[test]
fn explicit_modes_pass_through() {
    for m in [EraseMode::Chip, EraseMode::Sector, EraseMode::Off] {
        assert_eq!(resolve_erase(m, Some(BASE), BASE, false), m);
        assert_eq!(resolve_erase(m, Some(BASE + 0x100), BASE, true), m);
    }
}

#[test]
fn single_aligned_segment_one_page() {
    assert_eq!(pages(&[(0x0800_ff00, 256)], 256), vec![0x0800_ff00]);
}

#[test]
fn segment_spanning_two_pages() {
    assert_eq!(pages(&[(0x0800_0000, 260)], 256), vec![0x0800_0000, 0x0800_0100]);
}

#[test]
fn unaligned_start_pulls_in_whole_first_page() {
    assert_eq!(pages(&[(0x0800_0080, 256)], 256), vec![0x0800_0000, 0x0800_0100]);
}

#[test]
fn segments_sharing_a_page_collapse() {
    assert_eq!(pages(&[(0x0800_0000, 16), (0x0800_0040, 16)], 256), vec![0x0800_0000]);
}

#[test]
fn full_image_covers_every_page() {
    assert_eq!(
        pages(&[(0x0800_0000, 1024)], 256),
        vec![0x0800_0000, 0x0800_0100, 0x0800_0200, 0x0800_0300]
    );
}

#[test]
fn honours_a_128_byte_page_size() {
    assert_eq!(pages(&[(0x0800_0000, 256)], 128), vec![0x0800_0000, 0x0800_0080]);
}

#[test]
fn pages_come_out_sorted_whatever_the_segment_order() {
    assert_eq!(
        pages(&[(0x0800_0300, 4), (0x0800_0000, 4), (0x0800_0100, 0)], 256),
        vec![0x0800_0000, 0x0800_0300]
    );
}

#[test]
fn overlay_writes_only_the_segment_span() {
    let mut page = vec![0xff_u8; 8];
    overlay_page(0x0800_0000, &mut page, &[seg(0x0800_0000, &[1, 2, 3, 4])]);
    assert_eq!(page, [1, 2, 3, 4, 0xff, 0xff, 0xff, 0xff]);
}

#[test]
fn overlay_preserves_pre_read_bytes_outside_the_image() {
    let mut page = vec![0xA0, 0xA1, 0xA2, 0xA3, 0xA4, 0xA5, 0xA6, 0xA7];
    overlay_page(0x0800_0000, &mut page, &[seg(0x0800_0002, &[0xBB, 0xCC])]);
    assert_eq!(page, [0xA0, 0xA1, 0xBB, 0xCC, 0xA4, 0xA5, 0xA6, 0xA7]);
}

#[test]
fn overlay_clips_a_segment_to_the_page() {
    let mut page = vec![0u8; 8];
    overlay_page(0x0800_0100, &mut page, &[seg(0x0800_00fe, &[10, 11, 12, 13, 14, 15, 16, 17])]);
    assert_eq!(page, [12, 13, 14, 15, 16, 17, 0, 0]);
}

#[test]
fn overlay_ignores_a_segment_in_another_page() {
    let mut page = vec![0x55_u8; 4];
    overlay_page(0x0800_0000, &mut page, &[seg(0x0800_1000, &[1, 2, 3, 4])]);
    assert_eq!(page, [0x55, 0x55, 0x55, 0x55]);
}

#[test]
fn family_bytes_of_names_and_back() {
    assert_eq!(family_byte_from_name("ch32v003f4p6"), Some(0x09));
    assert_eq!(family_byte_from_name("CH32V203C8T6"), Some(0x05));
    assert_eq!(family_byte_from_name("V103"), Some(0x01));
    assert_eq!(family_byte_from_name("CH32L103"), Some(0x0E));
    assert_eq!(family_byte_from_name("ch641"), Some(0x49));
    assert_eq!(family_byte_from_name("nothing"), None);
    assert_eq!(db_family(0x09), Some("CH32V003"));
    assert_eq!(db_family(0x49), Some("CH32V003"));
    assert_eq!(db_family(0x0C), Some("CH32X035"));
    assert_eq!(db_family(0x4E), None);
}
