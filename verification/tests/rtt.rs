use ch32rv::rtt::{
    down_plan, find_control_block, le32, rtt_setup, take_text, up_reads, DmiSource, DownPlan, RingDesc, RttChannels,
    RttHeader, RTT_DESC_LEN, RTT_HEADER_LEN, RTT_RAM_BASE,
};

const RTT_MAGIC: &[u8] = b"SEGGER RTT";

fn snapshot(at: usize, max_up: u32, max_down: u32, up0: RingDesc) -> Vec<u8> {
    let descs = (max_up + max_down) as usize;
    let mut ram = vec![0u8; at + 24 + 24 * descs + 8];
    ram[at..at + RTT_MAGIC.len()].copy_from_slice(RTT_MAGIC);
    ram[at + 16..at + 20].copy_from_slice(&max_up.to_le_bytes());
    ram[at + 20..at + 24].copy_from_slice(&max_down.to_le_bytes());
    let d = at + 24;
    ram[d + 4..d + 8].copy_from_slice(&up0.buffer.to_le_bytes());
    ram[d + 8..d + 12].copy_from_slice(&up0.size.to_le_bytes());
    ram[d + 12..d + 16].copy_from_slice(&up0.wr.to_le_bytes());
    ram[d + 16..d + 20].copy_from_slice(&up0.rd.to_le_bytes());
    ram
}

fn valid_up0() -> RingDesc {
    RingDesc { buffer: RTT_RAM_BASE + 0x100, size: 256, wr: 10, rd: 0 }
}

#[test]
fn finds_valid_control_block_with_counts() {
    let ram = snapshot(64, 1, 1, valid_up0());
    assert_eq!(find_control_block(&ram), Some(RttHeader { offset: 64, max_up: 1, max_down: 1 }));
}

#[test]
fn down_descriptor_follows_all_up_descriptors() {
    let h = RttHeader { offset: 0, max_up: 2, max_down: 1 };
    let base = RTT_RAM_BASE + h.offset as u32;
    let up = base + RTT_HEADER_LEN;
    let down = up + RTT_DESC_LEN * h.max_up;
    assert_eq!(down, RTT_RAM_BASE + 24 + 48);
    let (ch, warning) = rtt_setup(&h);
    assert_eq!(ch, RttChannels { up: RTT_RAM_BASE + 24, down: Some(RTT_RAM_BASE + 24 + 48) });
    let w = warning.expect("two up channels are reported");
    assert_eq!(w.code, "rtt-channels");
    assert_eq!(w.msg, "the RTT control block has 2 up / 1 down channels; only channel 0 is streamed");
}

#[test]
fn a_block_without_down_channel_streams_up_only() {
    let (ch, warning) = rtt_setup(&RttHeader { offset: 0x40, max_up: 1, max_down: 0 });
    assert_eq!(ch, RttChannels { up: RTT_RAM_BASE + 0x40 + 24, down: None });
    assert!(warning.is_none());
}

#[test]
fn rejects_bogus_channel_counts() {
    assert_eq!(find_control_block(&snapshot(0, 0, 1, valid_up0())), None);
    assert_eq!(find_control_block(&snapshot(0, 1000, 1, valid_up0())), None);
}

#[test]
fn skips_magic_with_bogus_descriptor() {
    let bogus = RingDesc { buffer: 0, size: 0xFFFF_FFFF, wr: 0, rd: 0 };
    assert_eq!(find_control_block(&snapshot(64, 1, 1, bogus)), None);
    assert_eq!(find_control_block(&[0u8; 64]), None);
}

#[test]
fn a_stray_magic_before_the_real_block_is_skipped() {
    let mut ram = snapshot(128, 1, 1, valid_up0());
    ram[8..8 + RTT_MAGIC.len()].copy_from_slice(RTT_MAGIC);
    assert_eq!(find_control_block(&ram), Some(RttHeader { offset: 128, max_up: 1, max_down: 1 }));
}

#[test]
fn ring_used_handles_wrap() {
    let d = RingDesc { buffer: RTT_RAM_BASE, size: 16, wr: 2, rd: 14 };
    assert_eq!(d.used(), 4);
    assert_eq!(RingDesc { wr: 9, rd: 3, ..d }.used(), 6);
}

#[test]
fn ring_reads_and_writes_split_at_the_end() {
    let d = RingDesc { buffer: RTT_RAM_BASE, size: 16, wr: 2, rd: 14 };
    assert_eq!(up_reads(&d), vec![(RTT_RAM_BASE + 14, 2), (RTT_RAM_BASE, 2)]);
    assert_eq!(up_reads(&RingDesc { wr: 9, rd: 3, ..d }), vec![(RTT_RAM_BASE + 3, 6)]);
    assert_eq!(up_reads(&RingDesc { wr: 0, rd: 3, ..d }), vec![(RTT_RAM_BASE + 3, 13)]);
    assert!(up_reads(&RingDesc { wr: 5, rd: 5, ..d }).is_empty());
    // 16-byte ring holding 4: room for 11 more; 8 wanted, 2 fit before the end.
    assert_eq!(down_plan(&RingDesc { wr: 14, rd: 10, ..d }, 8), DownPlan { n: 8, first: 2, new_wr: 6 });
    // More than the room: cut to the room.
    assert_eq!(down_plan(&RingDesc { wr: 14, rd: 10, ..d }, 100), DownPlan { n: 11, first: 2, new_wr: 9 });
}

#[test]
fn take_text_keeps_incomplete_tail_across_chunks() {
    let mut buf = b"ab\xe3\x81".to_vec();
    assert_eq!(take_text(&mut buf), "ab");
    assert_eq!(buf, b"\xe3\x81");
    buf.extend_from_slice(b"\x93!");
    assert_eq!(take_text(&mut buf), "こ!");
    assert!(buf.is_empty());
}

#[test]
fn take_text_replaces_invalid_bytes() {
    let mut buf = b"x\xffy".to_vec();
    assert_eq!(take_text(&mut buf), "x\u{FFFD}y");
    assert!(buf.is_empty());
}

#[test]
fn le32_reads_little_endian() {
    assert_eq!(le32(&[0x78, 0x56, 0x34, 0x12], 0), 0x1234_5678);
}

#[test]
fn sources_name_and_describe_themselves() {
    let rtt = DmiSource::Rtt(RttChannels { up: RTT_RAM_BASE + 0x58, down: None });
    assert_eq!(DmiSource::Dmdata.name(), "dmdata");
    assert_eq!(rtt.name(), "rtt");
    assert_eq!(DmiSource::Dmdata.idle(), 2);
    assert_eq!(rtt.idle(), 50);
    assert_eq!(DmiSource::Dmdata.describe(), "dmdata (DMI mailbox, core runs)");
    assert_eq!(rtt.describe(), "rtt (RAM ring @ 0x20000040, core briefly halts per poll)");
}
