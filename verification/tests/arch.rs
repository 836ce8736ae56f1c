use ch32rv::arch::{Rv32CoreRegs, Rv32RegId};

#[test]
fn core_regs_serialize_roundtrip() {
    let mut regs = Rv32CoreRegs::default();
    for (i, x) in regs.x.iter_mut().enumerate() {
        *x = 0x1000_0000 + i as u32;
    }
    regs.pc = 0x0800_0000;
    let bytes = regs.serialize();
    assert_eq!(bytes.len(), 33 * 4);
    assert_eq!(&bytes[0..4], &0x1000_0000u32.to_le_bytes());
    assert_eq!(&bytes[128..132], &0x0800_0000u32.to_le_bytes());
    let mut back = Rv32CoreRegs::default();
    back.deserialize(&bytes).unwrap();
    assert_eq!(back, regs);
}

#[test]
fn deserialize_rejects_short_input() {
    let mut regs = Rv32CoreRegs::default();
    assert!(regs.deserialize(&[0u8; 131]).is_err());
}

#[test]
fn reg_id_mapping() {
    assert_eq!(Rv32RegId::from_raw_id(0).map(|(r, _)| r), Some(Rv32RegId::Gpr(0)));
    assert_eq!(Rv32RegId::from_raw_id(31).map(|(r, _)| r), Some(Rv32RegId::Gpr(31)));
    assert_eq!(Rv32RegId::from_raw_id(32).map(|(r, _)| r), Some(Rv32RegId::Pc));
    assert!(Rv32RegId::from_raw_id(33).is_none());
    assert_eq!(Rv32RegId::Pc.to_raw_id(), 32);
    assert_eq!(Rv32RegId::Gpr(7).to_raw_id(), 7);
}
