use ch32rv::cmdparse::{parse_at, parse_reg_name, parse_source, parse_u32, parse_u8, parse_usb_id, parse_version, SourceSpec};
use ch32rv::dmi::RegName;

#[test]
fn parses_usb_id() {
    assert_eq!(parse_usb_id("1209:b803"), Ok((0x1209, 0xb803)));
    assert_eq!(parse_usb_id("0x1209:0xb003"), Ok((0x1209, 0xb003)));
    assert!(parse_usb_id("1209").is_err());
    assert!(parse_usb_id("1209:b803:x").is_err());
}

#[test]
fn usb_id_errors_name_the_bad_part() {
    assert_eq!(parse_usb_id("1209"), Err("invalid USB ID `1209`".to_string()));
    assert_eq!(parse_usb_id("1209:b803:x"), Err("invalid USB ID `1209:b803:x`".to_string()));
    assert_eq!(parse_usb_id("zz:b803"), Err("invalid VID in `zz:b803`".to_string()));
    assert_eq!(parse_usb_id("1209:12345"), Err("invalid PID in `1209:12345`".to_string()));
    assert_eq!(parse_usb_id("0x0x1209:+5"), Ok((0x1209, 5)));
}

#[test]
fn parses_register_names() {
    assert_eq!(parse_reg_name("pc"), Some(RegName::Pc));
    assert_eq!(parse_reg_name("x2"), Some(RegName::Gpr(2)));
    assert_eq!(parse_reg_name("X31"), Some(RegName::Gpr(31)));
    assert_eq!(parse_reg_name("x32"), None); // out of range
    assert_eq!(parse_reg_name("misa"), Some(RegName::Csr(0x301)));
    assert_eq!(parse_reg_name("csr:0x7b0"), Some(RegName::Csr(0x7b0)));
    assert_eq!(parse_reg_name("csr:769"), Some(RegName::Csr(769)));
    assert_eq!(parse_reg_name("nope"), None);
}

#[test]
fn register_names_cover_the_csr_table_and_limits() {
    assert_eq!(parse_reg_name("  DPC "), Some(RegName::Pc));
    assert_eq!(parse_reg_name("mstatus"), Some(RegName::Csr(0x300)));
    assert_eq!(parse_reg_name("MEPC"), Some(RegName::Csr(0x341)));
    assert_eq!(parse_reg_name("mcause"), Some(RegName::Csr(0x342)));
    assert_eq!(parse_reg_name("mtval"), Some(RegName::Csr(0x343)));
    assert_eq!(parse_reg_name("dcsr"), Some(RegName::Csr(0x7b0)));
    assert_eq!(parse_reg_name("mvendorid"), Some(RegName::Csr(0xf11)));
    assert_eq!(parse_reg_name("marchid"), Some(RegName::Csr(0xf12)));
    assert_eq!(parse_reg_name("csr:0x10000"), None);
    assert_eq!(parse_reg_name("x"), None);
    assert_eq!(parse_reg_name("x0"), Some(RegName::Gpr(0)));
}

#[test]
fn parses_u32_hex_and_decimal() {
    assert_eq!(parse_u32("0x40901105"), Some(0x4090_1105));
    assert_eq!(parse_u32("42"), Some(42));
    assert_eq!(parse_u32("zz"), None);
}

#[test]
fn parse_u32_and_u8_limits() {
    assert_eq!(parse_u32(" 0XFFFFFFFF "), Some(0xffff_ffff));
    assert_eq!(parse_u32("4294967296"), None);
    assert_eq!(parse_u32("0x"), None);
    assert_eq!(parse_u8("0xff"), Some(255));
    assert_eq!(parse_u8("256"), None);
    assert_eq!(parse_u8(" 7 "), Some(7));
}

#[test]
fn parses_versions() {
    assert_eq!(parse_version("2.12"), Some((2, 12)));
    assert_eq!(parse_version(" 2 . 9 "), Some((2, 9)));
    assert_eq!(parse_version("2"), None);
    assert_eq!(parse_version("2.1.3"), None);
    assert_eq!(parse_version("300.1"), None);
}

#[test]
fn parses_at_destinations() {
    assert_eq!(parse_at("0x20000010").unwrap(), 0x2000_0010);
    assert_eq!(parse_at("code+0x100").unwrap(), 0x0800_0100);
    assert_eq!(parse_at("ram+16").unwrap(), 0x2000_0010);
    assert_eq!(parse_at("flash").unwrap(), 0x0800_0000);
    assert_eq!(parse_at("option").unwrap(), 0x1FFF_F800);
    assert_eq!(parse_at("0xffffffff+2").unwrap(), 1);
    assert_eq!(parse_at("nowhere"), Err("bad address \"nowhere\"".to_string()));
    assert_eq!(parse_at("ram+x"), Err("bad offset \"x\"".to_string()));
}

#[test]
fn parses_word_and_hex_and_at() {
    assert_eq!(parse_source("word:0x04030201").unwrap(), SourceSpec::Bytes(vec![1, 2, 3, 4]));
    assert_eq!(parse_source("hex:a5 5a ff").unwrap(), SourceSpec::Bytes(vec![0xA5, 0x5A, 0xFF]));
    assert!(parse_source("hex:xyz").is_err());
    assert_eq!(parse_at("0x20000010").unwrap(), 0x2000_0010);
    assert_eq!(parse_at("code+0x100").unwrap(), 0x0800_0100);
    assert_eq!(parse_at("ram+16").unwrap(), 0x2000_0010);
}

#[test]
fn sources_name_files_and_report_bad_literals() {
    assert_eq!(parse_source("firmware.bin").unwrap(), SourceSpec::File);
    assert_eq!(parse_source("word:zz"), Err("bad word \"zz\"".to_string()));
    assert_eq!(parse_source("hex:abc"), Err("bad hex \"abc\" (need an even count of hex digits)".to_string()));
    assert_eq!(parse_source("hex:"), Ok(SourceSpec::Bytes(vec![])));
}
