use ch32rv::blocks::sort_by_addr;
use ch32rv::image::{detect, fix_flash_addr, Image, ImageError, Segment};
use ch32rv::policy::ImageFormat;

fn uf2_block(target: u32, payload: &[u8], flags: u32) -> Vec<u8> {
    let mut b = vec![0u8; 512];
    b[0..4].copy_from_slice(&0x0A32_4655u32.to_le_bytes());
    b[4..8].copy_from_slice(&0x9E5D_5157u32.to_le_bytes());
    b[8..12].copy_from_slice(&flags.to_le_bytes());
    b[12..16].copy_from_slice(&target.to_le_bytes());
    b[16..20].copy_from_slice(&(payload.len() as u32).to_le_bytes());
    b[32..32 + payload.len()].copy_from_slice(payload);
    b[508..512].copy_from_slice(&0x0AB1_6F30u32.to_le_bytes());
    b
}

#[test]
fn program_blocks_merges_a_data_lma_onto_the_text_tail() {
    let img = Image {
        segments: vec![
            Segment { addr: 0x0800_0000, data: vec![0xaa; 0x2bac] },
            Segment { addr: 0x0800_2bac, data: vec![0x11; 0x10] },
        ],
    };
    let blocks = img.program_blocks(256);
    assert_eq!(blocks.len(), 1, "contiguous segments must merge");
    assert_eq!(blocks[0].addr, 0x0800_0000);
    assert_eq!(blocks[0].data.len(), 0x2c00, "grown to whole 256-B units");
    assert_eq!(&blocks[0].data[0x2ba0..0x2bac], &[0xaa; 12]);
    assert_eq!(&blocks[0].data[0x2bac..0x2bbc], &[0x11; 16]);
    assert_eq!(&blocks[0].data[0x2bbc..0x2c00], &[0xff; 0x44], "0xff padding");
}

#[test]
fn program_blocks_merges_segments_that_only_touch() {
    let img = Image {
        segments: vec![
            Segment { addr: 0x0800_0000, data: vec![0xaa; 0x4600] },
            Segment { addr: 0x0800_4600, data: vec![0x11; 0x58] },
        ],
    };
    let blocks = img.program_blocks(256);
    assert_eq!(blocks.len(), 1, "touching segments must merge");
    assert_eq!(blocks[0].data.len(), 0x4700);
    assert_eq!(&blocks[0].data[0x4600..0x4658], &[0x11; 0x58]);
}

#[test]
fn program_span_is_one_contiguous_region() {
    let img = Image {
        segments: vec![
            Segment { addr: 0x0800_0000, data: vec![1; 4] },
            Segment { addr: 0x0800_1000, data: vec![2; 4] },
        ],
    };
    let span = img.program_span(256).expect("non-empty image has a span");
    assert_eq!(span.addr, 0x0800_0000);
    assert_eq!(span.data.len(), 0x1100, "0x08000000 .. 0x08001100");
    assert_eq!(&span.data[0..4], &[1; 4]);
    assert_eq!(&span.data[4..0x1000], &[0xff; 0xffc], "gap is filled");
    assert_eq!(&span.data[0x1000..0x1004], &[2; 4]);
    assert!(Image::default().program_span(256).is_none());
}

#[test]
fn program_blocks_aligns_the_start_and_fills_a_same_unit_gap() {
    let img = Image {
        segments: vec![
            Segment { addr: 0x0800_0004, data: vec![1, 2, 3, 4] },
            Segment { addr: 0x0800_0010, data: vec![5, 6] },
        ],
    };
    let blocks = img.program_blocks(64);
    assert_eq!(blocks.len(), 1);
    assert_eq!(blocks[0].addr, 0x0800_0000);
    assert_eq!(blocks[0].data.len(), 64);
    assert_eq!(&blocks[0].data[0..4], &[0xff; 4]);
    assert_eq!(&blocks[0].data[4..8], &[1, 2, 3, 4]);
    assert_eq!(&blocks[0].data[8..16], &[0xff; 8], "gap stays erased");
    assert_eq!(&blocks[0].data[16..18], &[5, 6]);
}

#[test]
fn program_blocks_keeps_distant_segments_apart() {
    let img = Image {
        segments: vec![
            Segment { addr: 0x0800_0000, data: vec![1; 4] },
            Segment { addr: 0x0800_1000, data: vec![2; 4] },
        ],
    };
    let blocks = img.program_blocks(256);
    assert_eq!(blocks.len(), 2);
    assert_eq!(blocks[0].addr, 0x0800_0000);
    assert_eq!(blocks[0].data.len(), 256);
    assert_eq!(blocks[1].addr, 0x0800_1000);
    assert_eq!(blocks[1].data.len(), 256);
}

#[test]
fn program_blocks_sorts_unordered_segments() {
    let img = Image {
        segments: vec![
            Segment { addr: 0x0800_1000, data: vec![2; 4] },
            Segment { addr: 0x0800_0000, data: vec![1; 4] },
        ],
    };
    let blocks = img.program_blocks(256);
    assert_eq!(blocks.len(), 2);
    assert_eq!(blocks[0].addr, 0x0800_0000);
    assert_eq!(&blocks[0].data[..4], &[1; 4]);
    assert_eq!(blocks[1].addr, 0x0800_1000);
    let mut v = img.segments.clone();
    sort_by_addr(&mut v);
    assert_eq!(v[0].addr, 0x0800_0000);
}

#[test]
fn ihex_basic_maps_to_flash() {
    let hex = ":0400000001020304F2\n:00000001FF\n";
    let img = Image::parse(hex.as_bytes(), ImageFormat::Hex, None, 0x0800_0000).unwrap();
    assert_eq!(img.segments.len(), 1);
    assert_eq!(img.segments[0].addr, 0x0800_0000);
    assert_eq!(img.segments[0].data, vec![1, 2, 3, 4]);
}

#[test]
fn ihex_checksum_error() {
    let bad = ":0400000001020304FF\n";
    assert!(matches!(
        Image::parse(bad.as_bytes(), ImageFormat::Hex, None, 0x0800_0000),
        Err(ImageError::Hex { .. })
    ));
}

#[test]
fn bin_uses_offset() {
    let img = Image::parse(&[0xaa; 16], ImageFormat::Bin, Some(0x0800_1000), 0x0800_0000).unwrap();
    assert_eq!(img.segments[0].addr, 0x0800_1000);
    assert_eq!(img.total_len(), 16);
}

#[test]
fn detect_formats() {
    assert_eq!(detect(b"\x7fELFxxxx"), Some(ImageFormat::Elf));
    assert_eq!(detect(b":10000000ab"), Some(ImageFormat::Hex));
    assert_eq!(detect(&[0x00, 0x11]), None);
}

#[test]
fn fix_addr_windows() {
    assert_eq!(fix_flash_addr(0x0000_0000, 0x0800_0000), 0x0800_0000);
    assert_eq!(fix_flash_addr(0x0000_045c, 0x0800_0000), 0x0800_045c);
    assert_eq!(fix_flash_addr(0x0800_0000, 0x0800_0000), 0x0800_0000);
    assert_eq!(fix_flash_addr(0x2000_0000, 0x0800_0000), 0x2000_0000);
}

#[test]
fn ihex_extended_linear_address() {
    let hex = ":020000040800F2\n:04010000AABBCCDDED\n:00000001FF\n";
    let img = Image::parse(hex.as_bytes(), ImageFormat::Hex, None, 0x0800_0000).unwrap();
    assert_eq!(img.segments.len(), 1);
    assert_eq!(img.segments[0].addr, 0x0800_0100);
    assert_eq!(img.segments[0].data, vec![0xAA, 0xBB, 0xCC, 0xDD]);
}

#[test]
fn uf2_two_contiguous_blocks_merge() {
    let mut bytes = uf2_block(0x0800_0000, &[1, 2, 3, 4], 0);
    bytes.extend(uf2_block(0x0800_0004, &[5, 6, 7, 8], 0));
    let img = Image::parse(&bytes, ImageFormat::Uf2, None, 0x0800_0000).unwrap();
    assert_eq!(img.segments.len(), 1);
    assert_eq!(img.segments[0].addr, 0x0800_0000);
    assert_eq!(img.segments[0].data, vec![1, 2, 3, 4, 5, 6, 7, 8]);
}

#[test]
fn uf2_skips_not_main_flash_and_rejects_bad_magic() {
    let skip = uf2_block(0x0800_0000, &[1, 2, 3, 4], 0x0000_0001);
    assert!(Image::parse(&skip, ImageFormat::Uf2, None, 0x0800_0000).is_err());
    let mut bad = uf2_block(0x0800_0000, &[1, 2, 3, 4], 0);
    bad[508] ^= 0xff;
    assert!(matches!(
        Image::parse(&bad, ImageFormat::Uf2, None, 0x0800_0000),
        Err(ImageError::Malformed(_))
    ));
    assert!(Image::parse(&[0u8; 100], ImageFormat::Uf2, None, 0x0800_0000).is_err());
}

#[test]
fn check_within_flash_bounds() {
    let img = Image::parse(&[0xaa; 16], ImageFormat::Bin, None, 0x0800_0000).unwrap();
    assert!(img.check_within_flash(0x0800_0000, 4096).is_ok());
    assert!(img.check_within_flash(0x0800_0000, 8).is_err());
}

#[test]
fn empty_and_unknown_inputs_are_refused() {
    assert!(matches!(Image::parse(&[], ImageFormat::Auto, None, 0x0800_0000), Err(ImageError::Empty)));
    assert!(matches!(
        Image::parse(&[0x00, 0x11], ImageFormat::Auto, None, 0x0800_0000),
        Err(ImageError::UnknownFormat)
    ));
}
