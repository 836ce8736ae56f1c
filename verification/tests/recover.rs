use ch32rv::optbytes::{
    blanket_factory, classify, hex, option_bytes_plausible, parse_hex16, recommend, reset_user_byte, unprotect_image,
    Action, State, UserField,
};

const HEALTHY: [u8; 16] = [
    0xA5, 0x5A, 0xFF, 0x00, 0xFF, 0x00, 0xFF, 0x00, 0xFF, 0x00, 0xFF, 0x00, 0xFF, 0x00, 0xFF, 0x00,
];

fn l103_fields() -> Vec<UserField> {
    vec![
        UserField { field: "IWDG_SW".to_string(), bit: 0, default: 1 },
        UserField { field: "STOP_RST".to_string(), bit: 1, default: 1 },
        UserField { field: "STANDBY_RST".to_string(), bit: 2, default: 1 },
    ]
}

#[test]
fn classify_table() {
    let f = l103_fields();
    assert_eq!(classify(&f, &HEALTHY, &HEALTHY), State::Healthy);
    let mut prot = HEALTHY;
    prot[0] = 0x00;
    prot[1] = 0xFF;
    assert_eq!(classify(&f, &prot, &prot), State::ReadProtected);
    let mut bad = HEALTHY;
    bad[3] = 0x12;
    assert_eq!(classify(&f, &bad, &bad), State::OptionUnreadable);
    assert_eq!(classify(&f, &HEALTHY, &bad), State::OptionUnreadable);
}

#[test]
fn nonstandard_user_bit() {
    let fields = l103_fields();
    let Some(f) = fields.iter().find(|f| f.bit < 8 && f.default != 0) else {
        return;
    };
    let mut ob = HEALTHY;
    ob[2] &= !(1 << f.bit);
    ob[3] = !ob[2];
    assert_eq!(classify(&fields, &ob, &ob), State::OptionNonstandard);
}

#[test]
fn recommendations() {
    assert_eq!(recommend(State::Unreachable, true), Action::PowerOff);
    assert_eq!(recommend(State::Unreachable, false), Action::Manual);
    assert_eq!(recommend(State::OptionUnreadable, true), Action::Unprotect);
    assert_eq!(recommend(State::Healthy, true), Action::Nothing);
    assert_eq!(recommend(State::OptionNonstandard, false), Action::OptionReset);
    assert_eq!(Action::Nothing.as_str(), "none");
    assert_eq!(State::OptionNonstandard.as_str(), "option-nonstandard");
}

#[test]
fn unprotect_keeps_everything_but_rdpr() {
    let v20x = [
        0xa5, 0x5a, 0x3f, 0xc0, 0xff, 0x00, 0xff, 0x00, 0xff, 0x00, 0xff, 0x00, 0xff, 0x00, 0xff, 0x00,
    ];
    let out = unprotect_image(&v20x);
    assert_eq!(out[0], 0xA5, "RDPR cleared");
    assert_eq!(out[1], 0x5A, "RDPR complement");
    assert_eq!(out[2], 0x3f, "USER must survive (RAM_CODE_MOD = SRAM/flash split)");
    assert_eq!(&out[4..], &v20x[4..], "Data/WRPR must survive");
    let protected = [
        0x00, 0xff, 0xf7, 0x08, 0xff, 0x00, 0xff, 0x00, 0xff, 0x00, 0xff, 0x00, 0xff, 0x00, 0xff, 0x00,
    ];
    let out = unprotect_image(&protected);
    assert_eq!((out[0], out[1]), (0xA5, 0x5A));
    assert_eq!(out[2], 0xf7, "CH32V003 RST_MODE must survive");
}

#[test]
fn plausibility_checks_rdpr_and_user_only() {
    let v103 = [
        0xa5, 0x5a, 0xff, 0x00, 0xff, 0xff, 0xff, 0xff, 0xff, 0xff, 0xff, 0xff, 0xff, 0xff, 0xff, 0xff,
    ];
    assert!(option_bytes_plausible(&v103), "CH32V103 as shipped is valid");
    let garbage = [0u8; 16];
    assert!(!option_bytes_plausible(&garbage));
    let half = [
        0xa5, 0x5a, 0xff, 0xff, 0xff, 0x00, 0xff, 0x00, 0xff, 0x00, 0xff, 0x00, 0xff, 0x00, 0xff, 0x00,
    ];
    assert!(!option_bytes_plausible(&half), "USER/complement disagree");
    assert!(option_bytes_plausible(&blanket_factory()));
}

#[test]
fn reset_restores_documented_bits_only() {
    let v20x = vec![
        UserField { field: "IWDG_SW".to_string(), bit: 0, default: 1 },
        UserField { field: "STOP_RST".to_string(), bit: 1, default: 1 },
        UserField { field: "STANDBY_RST".to_string(), bit: 2, default: 1 },
    ];
    assert_eq!(reset_user_byte(&v20x, 0x3f), 0x3f);
    assert_eq!(reset_user_byte(&v20x, 0x3e), 0x3f);
    assert_eq!(reset_user_byte(&[], 0x12), 0x12);
    let cleared = vec![UserField { field: "X".to_string(), bit: 4, default: 0 }];
    assert_eq!(reset_user_byte(&cleared, 0xff), 0xef);
    let out_of_byte = vec![UserField { field: "Y".to_string(), bit: 9, default: 0 }];
    assert_eq!(reset_user_byte(&out_of_byte, 0xff), 0xff);
}

#[test]
fn parses_16_contiguous_bytes() {
    let b = parse_hex16("a55aff00ff00ff00ff00ff00ff00ff00").unwrap();
    assert_eq!(b[0], 0xA5);
    assert_eq!(b[1], 0x5A);
    assert_eq!(b[15], 0x00);
}

#[test]
fn accepts_separators() {
    let a = parse_hex16("a5:5a:ff:00:ff:00:ff:00:ff:00:ff:00:ff:00:ff:00").unwrap();
    let b = parse_hex16("a5 5a ff 00 ff 00 ff 00 ff 00 ff 00 ff 00 ff 00").unwrap();
    assert_eq!(a, b);
    assert_eq!(a[0], 0xA5);
}

#[test]
fn rejects_wrong_length() {
    assert!(parse_hex16("abcd").is_err());
    assert!(parse_hex16("a55aff00ff00ff00ff00ff00ff00ff0000").is_err());
}

#[test]
fn rejects_non_hex() {
    assert!(parse_hex16("zz5aff00ff00ff00ff00ff00ff00ff00").is_err());
}

#[test]
fn hex16_error_counts_the_digits() {
    assert_eq!(
        parse_hex16("ab_cd"),
        Err("expected 16 hex bytes (32 hex digits), got 4 digit(s)".to_string())
    );
    assert_eq!(hex(&[0xa5, 0x0f]), "a50f");
}
