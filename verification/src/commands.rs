//! The command tree: every command, subcommand and flag of the command line as plain data, and
//! the canonical dotted name (`probe.firmware.check`, `target.option.set`, ...) that the JSON
//! result envelope carries in its `cmd` field. Paths are kept as the strings the user typed.

use vstd::prelude::*;

use crate::cliargs::{
    IspErase, IspReset, IspTransport, IspVerify, ProbeModeSet, ProgressMode, ReadFormat, Shell,
    SwitchState, WriteErase,
};
use crate::policy::{
    ConfirmRunMode, EraseMode, ImageFormat, MonitorSource, RecoverMethod, Region, ResetPolicy,
    VerifyMode,
};

verus! {

/// The whole command line: one command and the global options.
#[derive(Debug, Clone)]
pub struct Cli {
    pub command: Command,
    /// Probe selector: VID:PID[:SERIAL] | serial:<sn> | name:<alias> | usb:<bus>-<ports> | index:<n>
    pub probe: Option<String>,
    /// Target SKU or family (auto-detected when omitted).
    pub chip: Option<String>,
    /// Core index for dual-core parts.
    pub core: u32,
    /// Debug speed: low | medium | high | <kHz>.
    pub speed: String,
    pub connect_under_reset: bool,
    pub json: bool,
    pub progress: Option<ProgressMode>,
    pub non_interactive: bool,
    pub yes: bool,
    /// Seconds to wait for the device lock.
    pub lock_timeout: u64,
    /// Transport timeout override, in seconds.
    pub timeout: Option<u64>,
    pub db: Option<String>,
    pub log_file: Option<String>,
    /// Record USB transactions to this file.
    pub capture: Option<String>,
    /// Run against a recorded capture instead of hardware.
    pub replay: Option<String>,
    pub dry_run: bool,
    pub verbose: u8,
    pub quiet: u8,
}

#[derive(Debug, Clone)]
pub enum Command {
    Flash(FlashArgs),
    Verify(VerifyArgs),
    Read(ReadArgs),
    Write(WriteArgs),
    Erase(EraseArgs),
    Reset(ResetArgs),
    Run(RunArgs),
    Recover(RecoverArgs),
    Probe(ProbeCmd),
    Target(TargetCmd),
    Dbg(DbgCmd),
    Monitor(MonitorArgs),
    Gdb(GdbArgs),
    Dap(DapArgs),
    Isp(IspArgs),
    Boot(BootCmd),
    Db(DbCmd),
    Capabilities,
    Doctor(DoctorArgs),
    Version,
    Complete(CompleteArgs),
    Arduino(ArduinoCmd),
}

#[derive(Debug, Clone)]
pub struct FlashArgs {
    /// Input image (ELF / Intel HEX / bin / UF2).
    pub file: String,
    pub format: ImageFormat,
    /// Load address for bin input.
    pub offset: Option<String>,
    pub region: Region,
    pub erase: EraseMode,
    pub verify: VerifyMode,
    pub preverify: bool,
    pub reset: ResetPolicy,
    pub confirm_run: Option<ConfirmRunMode>,
    pub sdi: Option<SwitchState>,
    pub monitor: Option<MonitorSource>,
    pub restore_unwritten: bool,
    pub repeat: bool,
}

#[derive(Debug, Clone)]
pub struct VerifyArgs {
    pub file: String,
    pub format: ImageFormat,
    pub offset: Option<String>,
    pub region: Region,
}

#[derive(Debug, Clone)]
pub struct ReadArgs {
    /// Range to read: <addr>[+len|..end].
    pub range: Option<String>,
    /// Region name: code | system | option | eeprom | ram [+off][+len].
    pub region: Option<String>,
    /// Output file (- for stdout).
    pub out: Option<String>,
    pub format: ReadFormat,
    pub blank_check: bool,
}

#[derive(Debug, Clone)]
pub struct WriteArgs {
    /// Input: <FILE> | hex:<bytes> | word:<u32>.
    pub source: String,
    /// Destination: <addr> | <region>[+off].
    pub at: String,
    pub erase: WriteErase,
}

#[derive(Debug, Clone)]
pub struct EraseArgs {
    pub all: bool,
    pub region: Option<String>,
    /// Range: <a>..<b>.
    pub range: Option<String>,
}

#[derive(Debug, Clone)]
pub struct ResetArgs {
    pub halt: bool,
    pub dm: bool,
    pub confirm_run: Option<ConfirmRunMode>,
}

#[derive(Debug, Clone)]
pub struct RunArgs {
    pub elf: String,
    pub no_flash: bool,
    pub source: Option<MonitorSource>,
    /// Exit condition: semihosting | timeout=<s>.
    pub exit_on: Option<String>,
}

#[derive(Debug, Clone)]
pub struct RecoverArgs {
    pub method: RecoverMethod,
}

#[derive(Debug, Clone)]
pub enum ProbeCmd {
    List { watch: bool },
    Info,
    Power(PowerCmd),
    Mode(ModeCmd),
    Firmware(FirmwareCmd),
    Vendor { hex: Vec<String> },
}

#[derive(Debug, Clone)]
pub enum PowerCmd {
    V3v3 { state: SwitchState },
    V5 { state: SwitchState },
    Cycle { off_ms: u64 },
}

#[derive(Debug, Clone)]
pub enum ModeCmd {
    Get,
    SetTo { mode: ProbeModeSet },
}

#[derive(Debug, Clone)]
pub enum FirmwareCmd {
    Info,
    Check { min: Option<String> },
    ExitIap,
    Update { image: String },
}

#[derive(Debug, Clone)]
pub enum TargetCmd {
    Info,
    Opt(OptionCmd),
    Protect { state: SwitchState },
}

#[derive(Debug, Clone)]
pub enum OptionCmd {
    Get,
    SetKv { kv: Vec<String> },
    Reset,
    WriteRaw { hex: String },
}

#[derive(Debug, Clone)]
pub enum DbgCmd {
    Halt { reset: bool },
    Resume,
    Step { n: Option<u32> },
    Regs,
    Reg(RegCmd),
    Dmi(DmiCmd),
}

#[derive(Debug, Clone)]
pub enum RegCmd {
    Read { name: String },
    Write { name: String, value: String },
}

#[derive(Debug, Clone)]
pub enum DmiCmd {
    Read { addr: String },
    Write { addr: String, value: String },
}

#[derive(Debug, Clone)]
pub struct MonitorArgs {
    pub cmd: Option<MonitorCmd>,
    pub source: MonitorSource,
    /// Port selector: path:<dev> | usb:VID:PID[:SERIAL][:IFACE].
    pub port: Option<String>,
    pub baud: u32,
    pub timestamps: bool,
    pub log: Option<String>,
    pub raw: bool,
    pub no_reconnect: bool,
}

#[derive(Debug, Clone)]
pub enum MonitorCmd {
    List,
    Sdi { state: SwitchState },
}

#[derive(Debug, Clone)]
pub struct GdbArgs {
    pub listen: String,
    pub reset_halt: bool,
    pub no_flash: bool,
}

#[derive(Debug, Clone)]
pub struct DapArgs {
    pub port: Option<u16>,
    pub stdio: bool,
}

#[derive(Debug, Clone)]
pub struct IspArgs {
    pub cmd: IspCmd,
    pub transport: IspTransport,
    pub port: Option<String>,
    pub baud: Option<u32>,
    /// ISP device selector: usb:<bus>-<ports> | index:<n>.
    pub device: Option<String>,
}

#[derive(Debug, Clone)]
pub enum IspCmd {
    List,
    Info,
    Enter { via: Option<String> },
    Flash { file: String, erase: IspErase, verify: IspVerify, reset: IspReset },
    Verify { file: String },
    Erase,
    Eeprom(EepromCmd),
    Config(IspConfigCmd),
    Reset,
}

#[derive(Debug, Clone)]
pub enum EepromCmd {
    Read { out: Option<String> },
    Write { file: String },
    Erase,
}

#[derive(Debug, Clone)]
pub enum IspConfigCmd {
    Get,
    SetKv { kv: Vec<String> },
    Reset,
}

#[derive(Debug, Clone)]
pub enum BootCmd {
    Enter { method: Option<String>, port: Option<String> },
    Dfu(DfuCmd),
    Uf2(Uf2Cmd),
    Uart(UartBootCmd),
    Hid(HidBootCmd),
}

#[derive(Debug, Clone)]
pub enum DfuCmd {
    Flash { file: String, alt: Option<u8>, address: Option<String> },
    Info,
}

#[derive(Debug, Clone)]
pub enum Uf2Cmd {
    Flash { file: String, volume: Option<String> },
}

#[derive(Debug, Clone)]
pub enum UartBootCmd {
    Flash { file: String, node: Option<String> },
    Info { node: Option<String> },
}

#[derive(Debug, Clone)]
pub enum HidBootCmd {
    Flash { file: String },
}

#[derive(Debug, Clone)]
pub enum DbCmd {
    List { family: Option<String>, verified_only: bool },
    Info { sku: String },
}

#[derive(Debug, Clone)]
pub struct DoctorArgs {
    pub emit_udev: bool,
}

#[derive(Debug, Clone)]
pub struct CompleteArgs {
    pub shell: Shell,
}

#[derive(Debug, Clone)]
pub enum ArduinoCmd {
    Discovery,
    Monitor,
}

/// The canonical dotted name of a command: the top-level command, then each subcommand level
/// that selects a different operation.
pub open spec fn command_name(cmd: Command) -> Seq<char> {
    match cmd {
        Command::Flash(_) => "flash"@,
        Command::Verify(_) => "verify"@,
        Command::Read(_) => "read"@,
        Command::Write(_) => "write"@,
        Command::Erase(_) => "erase"@,
        Command::Reset(_) => "reset"@,
        Command::Run(_) => "run"@,
        Command::Recover(_) => "recover"@,
        Command::Probe(p) => match p {
            ProbeCmd::List { .. } => "probe.list"@,
            ProbeCmd::Info => "probe.info"@,
            ProbeCmd::Power(_) => "probe.power"@,
            ProbeCmd::Mode(ModeCmd::Get) => "probe.mode.get"@,
            ProbeCmd::Mode(ModeCmd::SetTo { .. }) => "probe.mode.set"@,
            ProbeCmd::Firmware(FirmwareCmd::Info) => "probe.firmware.info"@,
            ProbeCmd::Firmware(FirmwareCmd::Check { .. }) => "probe.firmware.check"@,
            ProbeCmd::Firmware(FirmwareCmd::ExitIap) => "probe.firmware.exit-iap"@,
            ProbeCmd::Firmware(FirmwareCmd::Update { .. }) => "probe.firmware.update"@,
            ProbeCmd::Vendor { .. } => "probe.vendor"@,
        },
        Command::Target(t) => match t {
            TargetCmd::Info => "target.info"@,
            TargetCmd::Opt(OptionCmd::Get) => "target.option.get"@,
            TargetCmd::Opt(OptionCmd::SetKv { .. }) => "target.option.set"@,
            TargetCmd::Opt(OptionCmd::Reset) => "target.option.reset"@,
            TargetCmd::Opt(OptionCmd::WriteRaw { .. }) => "target.option.write-raw"@,
            TargetCmd::Protect { .. } => "target.protect"@,
        },
        Command::Dbg(d) => match d {
            DbgCmd::Halt { .. } => "dbg.halt"@,
            DbgCmd::Resume => "dbg.resume"@,
            DbgCmd::Step { .. } => "dbg.step"@,
            DbgCmd::Regs => "dbg.regs"@,
            DbgCmd::Reg(_) => "dbg.reg"@,
            DbgCmd::Dmi(_) => "dbg.dmi"@,
        },
        Command::Monitor(m) => match m.cmd {
            Some(MonitorCmd::List) => "monitor.list"@,
            Some(MonitorCmd::Sdi { .. }) => "monitor.sdi"@,
            None => "monitor"@,
        },
        Command::Gdb(_) => "gdb"@,
        Command::Dap(_) => "dap"@,
        Command::Isp(i) => match i.cmd {
            IspCmd::List => "isp.list"@,
            IspCmd::Info => "isp.info"@,
            IspCmd::Enter { .. } => "isp.enter"@,
            IspCmd::Flash { .. } => "isp.flash"@,
            IspCmd::Verify { .. } => "isp.verify"@,
            IspCmd::Erase => "isp.erase"@,
            IspCmd::Eeprom(EepromCmd::Read { .. }) => "isp.eeprom.read"@,
            IspCmd::Eeprom(EepromCmd::Write { .. }) => "isp.eeprom.write"@,
            IspCmd::Eeprom(EepromCmd::Erase) => "isp.eeprom.erase"@,
            IspCmd::Config(IspConfigCmd::Get) => "isp.config.get"@,
            IspCmd::Config(IspConfigCmd::SetKv { .. }) => "isp.config.set"@,
            IspCmd::Config(IspConfigCmd::Reset) => "isp.config.reset"@,
            IspCmd::Reset => "isp.reset"@,
        },
        Command::Boot(b) => match b {
            BootCmd::Enter { .. } => "boot.enter"@,
            BootCmd::Dfu(DfuCmd::Flash { .. }) => "boot.dfu.flash"@,
            BootCmd::Dfu(DfuCmd::Info) => "boot.dfu.info"@,
            BootCmd::Uf2(Uf2Cmd::Flash { .. }) => "boot.uf2.flash"@,
            BootCmd::Uart(UartBootCmd::Flash { .. }) => "boot.uart.flash"@,
            BootCmd::Uart(UartBootCmd::Info { .. }) => "boot.uart.info"@,
            BootCmd::Hid(HidBootCmd::Flash { .. }) => "boot.hid.flash"@,
        },
        Command::Db(d) => match d {
            DbCmd::List { .. } => "db.list"@,
            DbCmd::Info { .. } => "db.info"@,
        },
        Command::Capabilities => "capabilities"@,
        Command::Doctor(_) => "doctor"@,
        Command::Version => "version"@,
        Command::Complete(_) => "complete"@,
        Command::Arduino(a) => match a {
            ArduinoCmd::Discovery => "arduino.discovery"@,
            ArduinoCmd::Monitor => "arduino.monitor"@,
        },
    }
}

/// The canonical command name (`cmd` of the JSON result envelope).
pub fn canonical_name(cmd: &Command) -> (name: &'static str)
    ensures
        name@ == command_name(*cmd),
{
    match cmd {
        Command::Flash(_) => "flash",
        Command::Verify(_) => "verify",
        Command::Read(_) => "read",
        Command::Write(_) => "write",
        Command::Erase(_) => "erase",
        Command::Reset(_) => "reset",
        Command::Run(_) => "run",
        Command::Recover(_) => "recover",
        Command::Probe(p) => match p {
            ProbeCmd::List { .. } => "probe.list",
            ProbeCmd::Info => "probe.info",
            ProbeCmd::Power(_) => "probe.power",
            ProbeCmd::Mode(ModeCmd::Get) => "probe.mode.get",
            ProbeCmd::Mode(ModeCmd::SetTo { .. }) => "probe.mode.set",
            ProbeCmd::Firmware(FirmwareCmd::Info) => "probe.firmware.info",
            ProbeCmd::Firmware(FirmwareCmd::Check { .. }) => "probe.firmware.check",
            ProbeCmd::Firmware(FirmwareCmd::ExitIap) => "probe.firmware.exit-iap",
            ProbeCmd::Firmware(FirmwareCmd::Update { .. }) => "probe.firmware.update",
            ProbeCmd::Vendor { .. } => "probe.vendor",
        },
        Command::Target(t) => match t {
            TargetCmd::Info => "target.info",
            TargetCmd::Opt(OptionCmd::Get) => "target.option.get",
            TargetCmd::Opt(OptionCmd::SetKv { .. }) => "target.option.set",
            TargetCmd::Opt(OptionCmd::Reset) => "target.option.reset",
            TargetCmd::Opt(OptionCmd::WriteRaw { .. }) => "target.option.write-raw",
            TargetCmd::Protect { .. } => "target.protect",
        },
        Command::Dbg(d) => match d {
            DbgCmd::Halt { .. } => "dbg.halt",
            DbgCmd::Resume => "dbg.resume",
            DbgCmd::Step { .. } => "dbg.step",
            DbgCmd::Regs => "dbg.regs",
            DbgCmd::Reg(_) => "dbg.reg",
            DbgCmd::Dmi(_) => "dbg.dmi",
        },
        Command::Monitor(m) => match &m.cmd {
            Some(MonitorCmd::List) => "monitor.list",
            Some(MonitorCmd::Sdi { .. }) => "monitor.sdi",
            None => "monitor",
        },
        Command::Gdb(_) => "gdb",
        Command::Dap(_) => "dap",
        Command::Isp(i) => match &i.cmd {
            IspCmd::List => "isp.list",
            IspCmd::Info => "isp.info",
            IspCmd::Enter { .. } => "isp.enter",
            IspCmd::Flash { .. } => "isp.flash",
            IspCmd::Verify { .. } => "isp.verify",
            IspCmd::Erase => "isp.erase",
            IspCmd::Eeprom(EepromCmd::Read { .. }) => "isp.eeprom.read",
            IspCmd::Eeprom(EepromCmd::Write { .. }) => "isp.eeprom.write",
            IspCmd::Eeprom(EepromCmd::Erase) => "isp.eeprom.erase",
            IspCmd::Config(IspConfigCmd::Get) => "isp.config.get",
            IspCmd::Config(IspConfigCmd::SetKv { .. }) => "isp.config.set",
            IspCmd::Config(IspConfigCmd::Reset) => "isp.config.reset",
            IspCmd::Reset => "isp.reset",
        },
        Command::Boot(b) => match b {
            BootCmd::Enter { .. } => "boot.enter",
            BootCmd::Dfu(DfuCmd::Flash { .. }) => "boot.dfu.flash",
            BootCmd::Dfu(DfuCmd::Info) => "boot.dfu.info",
            BootCmd::Uf2(Uf2Cmd::Flash { .. }) => "boot.uf2.flash",
            BootCmd::Uart(UartBootCmd::Flash { .. }) => "boot.uart.flash",
            BootCmd::Uart(UartBootCmd::Info { .. }) => "boot.uart.info",
            BootCmd::Hid(HidBootCmd::Flash { .. }) => "boot.hid.flash",
        },
        Command::Db(d) => match d {
            DbCmd::List { .. } => "db.list",
            DbCmd::Info { .. } => "db.info",
        },
        Command::Capabilities => "capabilities",
        Command::Doctor(_) => "doctor",
        Command::Version => "version",
        Command::Complete(_) => "complete",
        Command::Arduino(a) => match a {
            ArduinoCmd::Discovery => "arduino.discovery",
            ArduinoCmd::Monitor => "arduino.monitor",
        },
    }
}

} // verus!
