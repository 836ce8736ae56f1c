use ch32rv::cliargs::{render_ports, sink, Cap, CliSink, ProgressMode, SinkOutput};
use ch32rv::contract::{Event, FirmwareVersion, ProbeMode, ProbeReport};
use ch32rv::dmi::DmiError;
use ch32rv::dump::{hex_dump, ihex_dump, ihex_record};
use ch32rv::exit::ErrorKind;
use ch32rv::optbytes::{Action, UserField};
use ch32rv::report::{
    attach_order, command_for, dmi_error_kind, format_row, low_speed_note, mode_str, nonstandard_note,
    speed_class, unreachable_notes,
};

#[test]
fn hex_dump_lines() {
    let data: Vec<u8> = (0x41u8..0x53).collect();
    let s = hex_dump(0x0800_0000, &data);
    let expected = format!(
        "{:08x}  {:<48}  {}\n{:08x}  {:<48}  {}\n",
        0x0800_0000u32,
        "41 42 43 44 45 46 47 48 49 4a 4b 4c 4d 4e 4f 50",
        "ABCDEFGHIJKLMNOP",
        0x0800_0010u32,
        "51 52",
        "QR"
    );
    assert_eq!(s, expected);
    assert_eq!(hex_dump(0, &[0x00, 0x7f, 0x20]), format!("00000000  {:<48}  .. \n", "00 7f 20"));
    assert_eq!(hex_dump(0xffff_fff8, &[0u8; 17]).lines().nth(1).unwrap().get(..8), Some("00000008"));
    assert_eq!(hex_dump(0, &[]), "");
}

#[test]
fn ihex_records_and_dump() {
    assert_eq!(ihex_record(0, 0x01, &[]), ":00000001FF\n");
    assert_eq!(ihex_record(0, 0x04, &[0x08, 0x00]), ":020000040800F2\n");
    assert_eq!(ihex_record(0x0000, 0x00, &[1, 2, 3, 4]), ":0400000001020304F2\n");
    assert_eq!(
        ihex_dump(0x0800_0000, &[1, 2, 3, 4]).unwrap(),
        ":020000040800F2\n:0400000001020304F2\n:00000001FF\n"
    );
    assert_eq!(ihex_dump(0xffff_fff8, &[0u8; 32]), Err("address overflow".to_string()));
}

#[test]
fn progress_sink_lines() {
    let retry = Event::Retry { phase: "program".into(), attempt: 2, cause: "transport-timeout".into() };
    let phase = Event::Phase { name: "erase".into(), total: None };
    let warn = Event::Warn { code: "speed-rounded".into(), msg: "m".into() };
    let quiet = CliSink { mode: ProgressMode::Off };
    assert_eq!(quiet.render(&retry), SinkOutput::Line("retry: program attempt 2 (transport-timeout)".into()));
    assert_eq!(quiet.render(&phase), SinkOutput::Nothing);
    let bar = CliSink { mode: ProgressMode::Bar };
    assert_eq!(bar.render(&phase), SinkOutput::Line("erase...".into()));
    assert_eq!(bar.render(&warn), SinkOutput::Line("warning[speed-rounded]: m".into()));
    assert_eq!(CliSink { mode: ProgressMode::Ndjson }.render(&phase), SinkOutput::Json);
    assert_eq!(sink(None, true, true).mode, ProgressMode::Off);
    assert_eq!(sink(None, false, true).mode, ProgressMode::Bar);
    assert_eq!(sink(None, false, false).mode, ProgressMode::Off);
    assert_eq!(sink(Some(ProgressMode::Ndjson), true, false).mode, ProgressMode::Ndjson);
}

#[test]
fn ports_and_capabilities() {
    assert_eq!(render_ports(&[]), "-");
    assert_eq!(render_ports(&["/dev/ttyACM0".to_string(), "/dev/ttyACM1".to_string()]), "/dev/ttyACM0, /dev/ttyACM1");
    let y = Cap::yes("connect", "2-wire".to_string());
    assert!(y.supported && y.op == "connect" && y.reason == "2-wire");
    assert!(!Cap::no("monitor sdi", "LinkE only".to_string()).supported);
}

#[test]
fn probe_rows_and_next_commands() {
    let mut fw = FirmwareVersion::from_major_minor(2, 12);
    fw.known_bad = Some(true);
    let r = ProbeReport {
        model: "WCH-LinkE".into(),
        serial: Some("ABC".into()),
        usb: Some("1a86:8010".into()),
        topology: None,
        mode: Some(ProbeMode::Riscv),
        firmware: Some(fw),
        ports: vec!["/dev/ttyACM0".into(), "/dev/ttyACM1".into()],
    };
    assert_eq!(
        format_row(&r, None),
        format!(
            "{:<6} {:<10} {:<14} {:<9} {:<18} {:<13} {}",
            "riscv", "1a86:8010", "ABC", "-", "WCH-LinkE", "/dev/ttyACM0,/dev/ttyACM1", "2.12 (v32, raw 020c)  [KNOWN BAD]"
        )
    );
    let bare = ProbeReport { firmware: None, ports: vec![], mode: None, ..r };
    assert!(format_row(&bare, Some("timeout")).ends_with(" -             error: timeout"));
    assert!(format_row(&bare, Some("timeout")).starts_with("?      "));
    assert_eq!(mode_str(ProbeMode::Dap), "dap");
    assert_eq!(speed_class("low"), "low");
    assert_eq!(speed_class("4000"), "medium");
    assert_eq!(speed_class("bogus"), "high");
    assert_eq!(
        command_for(None, Some("low"), Action::Unprotect).as_deref(),
        Some("ch32rv recover --method unprotect --speed low")
    );
    assert_eq!(command_for(Some("CH32V003"), Some("high"), Action::OptionReset).as_deref(), Some("ch32rv target option reset"));
    assert_eq!(
        command_for(None, None, Action::PowerOff).as_deref(),
        Some("ch32rv recover --method power-off --chip <family>")
    );
    assert_eq!(command_for(None, None, Action::Manual), None);
    assert_eq!(dmi_error_kind(&DmiError::Timeout), ErrorKind::TransportTimeout);
    assert_eq!(dmi_error_kind(&DmiError::Cancelled), ErrorKind::TransferFailed);
}

#[test]
fn diagnosis_notes() {
    assert_eq!(attach_order("high"), vec!["high".to_string(), "low".to_string()]);
    assert_eq!(attach_order("low"), vec!["low".to_string()]);
    let notes = unreachable_notes(true);
    assert_eq!(notes.len(), 2);
    assert_eq!(notes[1], "--connect-under-reset was already tried");
    assert!(unreachable_notes(false)[1].starts_with("if the probe's RST line"));
    assert_eq!(
        low_speed_note("6000"),
        "the target did not answer at --speed 6000, only at low: pass --speed low to other commands"
    );
    let fields = vec![
        UserField { field: "IWDG_SW".to_string(), bit: 0, default: 1 },
        UserField { field: "STOP_RST".to_string(), bit: 1, default: 1 },
        UserField { field: "STANDBY_RST".to_string(), bit: 2, default: 1 },
    ];
    assert_eq!(nonstandard_note(&fields, 0x3c), "USER 0x3c, documented defaults give 0x3f (fields: IWDG_SW, STOP_RST)");
}
