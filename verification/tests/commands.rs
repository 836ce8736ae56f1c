use ch32rv::cliargs::{ProbeModeSet, SwitchState};
use ch32rv::commands::{
    canonical_name, ArduinoCmd, BootCmd, Command, DbCmd, DbgCmd, DfuCmd, DoctorArgs, EepromCmd,
    FirmwareCmd, HidBootCmd, IspArgs, IspCmd, IspConfigCmd, ModeCmd, MonitorArgs, MonitorCmd,
    OptionCmd, ProbeCmd, RegCmd, TargetCmd, VerifyArgs,
};
use ch32rv::cliargs::IspTransport;
use ch32rv::policy::{ImageFormat, MonitorSource, Region};

fn monitor(cmd: Option<MonitorCmd>) -> Command {
    Command::Monitor(MonitorArgs {
        cmd,
        source: MonitorSource::Uart,
        port: None,
        baud: 115200,
        timestamps: false,
        log: None,
        raw: false,
        no_reconnect: false,
    })
}

fn isp(cmd: IspCmd) -> Command {
    Command::Isp(IspArgs { cmd, transport: IspTransport::Usb, port: None, baud: None, device: None })
}

#[test]
fn canonical_names_follow_the_tree() {
    let cases: Vec<(Command, &str)> = vec![
        (
            Command::Verify(VerifyArgs {
                file: "a.elf".to_string(),
                format: ImageFormat::Auto,
                offset: None,
                region: Region::Code,
            }),
            "verify",
        ),
        (Command::Probe(ProbeCmd::List { watch: true }), "probe.list"),
        (Command::Probe(ProbeCmd::Mode(ModeCmd::SetTo { mode: ProbeModeSet::Dap })), "probe.mode.set"),
        (Command::Probe(ProbeCmd::Firmware(FirmwareCmd::ExitIap)), "probe.firmware.exit-iap"),
        (Command::Probe(ProbeCmd::Firmware(FirmwareCmd::Check { min: None })), "probe.firmware.check"),
        (Command::Target(TargetCmd::Opt(OptionCmd::WriteRaw { hex: "a5".to_string() })), "target.option.write-raw"),
        (Command::Target(TargetCmd::Opt(OptionCmd::SetKv { kv: vec![] })), "target.option.set"),
        (Command::Target(TargetCmd::Protect { state: SwitchState::Off }), "target.protect"),
        (Command::Dbg(DbgCmd::Reg(RegCmd::Read { name: "pc".to_string() })), "dbg.reg"),
        (Command::Dbg(DbgCmd::Step { n: Some(3) }), "dbg.step"),
        (monitor(None), "monitor"),
        (monitor(Some(MonitorCmd::List)), "monitor.list"),
        (monitor(Some(MonitorCmd::Sdi { state: SwitchState::On })), "monitor.sdi"),
        (isp(IspCmd::Eeprom(EepromCmd::Erase)), "isp.eeprom.erase"),
        (isp(IspCmd::Config(IspConfigCmd::SetKv { kv: vec![] })), "isp.config.set"),
        (isp(IspCmd::Reset), "isp.reset"),
        (Command::Boot(BootCmd::Dfu(DfuCmd::Info)), "boot.dfu.info"),
        (Command::Boot(BootCmd::Hid(HidBootCmd::Flash { file: "x.bin".to_string() })), "boot.hid.flash"),
        (Command::Db(DbCmd::Info { sku: "CH32V003F4P6".to_string() }), "db.info"),
        (Command::Doctor(DoctorArgs { emit_udev: false }), "doctor"),
        (Command::Capabilities, "capabilities"),
        (Command::Version, "version"),
        (Command::Arduino(ArduinoCmd::Discovery), "arduino.discovery"),
    ];
    for (cmd, name) in &cases {
        assert_eq!(canonical_name(cmd), *name);
    }
}
