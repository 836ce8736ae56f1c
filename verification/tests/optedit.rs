use ch32rv::cliargs::SwitchState;
use ch32rv::optbytes::{option_bytes_plausible, UserField};
use ch32rv::optedit::{decode_option_bytes, edit_prompt, option_edit, protect_change};

const V20X: [u8; 16] = [
    0xA5, 0x5A, 0x3F, 0xC0, 0xFF, 0x00, 0xFF, 0x00, 0xFF, 0x00, 0xFF, 0x00, 0xFF, 0x00, 0xFF, 0x00,
];

fn fields() -> Vec<UserField> {
    vec![
        UserField { field: "IWDG_SW".to_string(), bit: 0, default: 1 },
        UserField { field: "STOP_RST".to_string(), bit: 1, default: 1 },
        UserField { field: "STANDBY_RST".to_string(), bit: 2, default: 1 },
    ]
}

fn kv(pairs: &[&str]) -> Vec<String> {
    pairs.iter().map(|s| s.to_string()).collect()
}

#[test]
fn sets_user_bits_and_data_with_complements() {
    let e = option_edit(&V20X, &kv(&["iwdg_sw=0", "DATA0=0x42", "data1=7"]), &fields(), "CH32V20x").unwrap();
    assert_eq!(e.image[2], 0x3E);
    assert_eq!(e.image[3], 0xC1);
    assert_eq!(e.image[4], 0x42);
    assert_eq!(e.image[5], 0xBD);
    assert_eq!(e.image[6], 0x07);
    assert_eq!(e.image[7], 0xF8);
    assert_eq!(e.changes, vec!["IWDG_SW=0".to_string(), "data0=0x42".to_string(), "data1=0x07".to_string()]);
    assert!(!e.mass_erase && !e.protect_on);
    assert!(option_bytes_plausible(&e.image));
    assert_eq!(edit_prompt(&e), "Apply option changes [IWDG_SW=0, data0=0x42, data1=0x07]?");
}

#[test]
fn clearing_protection_mass_erases_only_when_protected() {
    let mut protected = V20X;
    protected[0] = 0xFF;
    protected[1] = 0x00;
    let e = option_edit(&protected, &kv(&["rdp=OFF"]), &fields(), "CH32V20x").unwrap();
    assert!(e.mass_erase);
    assert_eq!((e.image[0], e.image[1]), (0xA5, 0x5A));
    assert_eq!(
        edit_prompt(&e),
        "Apply option changes [rdp=off]? rdp=off ERASES ALL FLASH (mass erase)."
    );
    let e = option_edit(&V20X, &kv(&["protect=none"]), &fields(), "CH32V20x").unwrap();
    assert!(!e.mass_erase);
    let e = option_edit(&V20X, &kv(&["rdp=on"]), &fields(), "CH32V20x").unwrap();
    assert!(e.protect_on);
    assert_eq!((e.image[0], e.image[1]), (0xFF, 0x00));
    assert_eq!(
        edit_prompt(&e),
        "Apply option changes [rdp=on]? rdp=on makes the flash unreadable/undebuggable."
    );
}

#[test]
fn rejected_requests() {
    let f = fields();
    let e = option_edit(&V20X, &kv(&["rdp"]), &f, "CH32V20x").unwrap_err();
    assert_eq!(e.msg, "expected key=value, got \"rdp\"");
    assert_eq!(e.hint.as_deref(), Some("e.g. IWDGSW=0 rdp=off data0=0x42"));
    let e = option_edit(&V20X, &kv(&["rdp=maybe"]), &f, "CH32V20x").unwrap_err();
    assert_eq!(e.msg, "rdp must be on/off, got \"maybe\"");
    let e = option_edit(&V20X, &kv(&["data0=300"]), &f, "CH32V20x").unwrap_err();
    assert_eq!(e.msg, "data0: expected a byte 0..255 (e.g. 0x42), got \"300\"");
    let e = option_edit(&V20X, &kv(&["NRST=1"]), &f, "CH32V20x").unwrap_err();
    assert_eq!(e.msg, "unknown option field \"NRST\" for CH32V20x");
    assert_eq!(
        e.hint.as_deref(),
        Some("known USER fields: IWDG_SW, STOP_RST, STANDBY_RST (plus rdp, data0, data1)")
    );
    let e = option_edit(&V20X, &kv(&["STOP_RST=2"]), &f, "CH32V20x").unwrap_err();
    assert_eq!(e.msg, "STOP_RST: expected 0 or 1, got \"2\"");
    let e = option_edit(&V20X, &kv(&[]), &f, "CH32V20x").unwrap_err();
    assert_eq!(e.msg, "no key=value pairs given");
    assert_eq!(e.hint, None);
    // The first bad pair stops the edit.
    let e = option_edit(&V20X, &kv(&["bogus", "rdp=maybe"]), &f, "CH32V20x").unwrap_err();
    assert_eq!(e.msg, "expected key=value, got \"bogus\"");
}

#[test]
fn protect_toggles_only_when_needed() {
    assert_eq!(protect_change(&V20X, SwitchState::Off), None);
    let on = protect_change(&V20X, SwitchState::On).unwrap();
    assert_eq!((on[0], on[1]), (0xFF, 0x00));
    assert_eq!(&on[2..], &V20X[2..]);
    assert_eq!(protect_change(&on, SwitchState::On), None);
    let off = protect_change(&on, SwitchState::Off).unwrap();
    assert_eq!(off, V20X);
}

#[test]
fn decodes_the_option_bytes() {
    let mut raw = V20X;
    raw[8] = 0xFE;
    raw[14] = 0x7F;
    let d = decode_option_bytes(&raw, &fields());
    assert_eq!((d.rdpr, d.user, d.data0, d.data1), (0xA5, 0x3F, 0xFF, 0xFF));
    assert_eq!(d.wrpr, 0x7FFF_FFFE);
    assert!(!d.read_protected);
    assert!(d.write_protected);
    assert!(!d.interim);
    assert_eq!(
        d.user_bits,
        vec![("IWDG_SW".to_string(), 1), ("STOP_RST".to_string(), 1), ("STANDBY_RST".to_string(), 1)]
    );
    let mut protected = V20X;
    protected[0] = 0xFF;
    protected[2] = 0xFA;
    let d = decode_option_bytes(&protected, &[]);
    assert!(d.read_protected);
    assert!(!d.write_protected);
    assert!(d.interim);
    assert_eq!(
        d.user_bits,
        vec![("IWDGSW".to_string(), 0), ("nRST_STOP".to_string(), 1), ("nRST_STDBY".to_string(), 0)]
    );
}
