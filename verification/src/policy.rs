//! Operation-policy vocabulary shared by the command line and the JSON output: each value has
//! one lowercase (kebab-case) spelling.

use vstd::prelude::*;

verus! {

/// Erase policy applied before programming.
#[derive(Debug, Clone, Copy, PartialEq, Eq, Structural)]
pub enum EraseMode {
    Auto,
    Sector,
    Chip,
    Off,
}

impl EraseMode {
    pub open spec fn name(self) -> Seq<char> {
        match self {
            EraseMode::Auto => "auto"@,
            EraseMode::Sector => "sector"@,
            EraseMode::Chip => "chip"@,
            EraseMode::Off => "none"@,
        }
    }

    pub fn as_str(self) -> (s: &'static str)
        ensures
            s@ == self.name(),
    {
        match self {
            EraseMode::Auto => "auto",
            EraseMode::Sector => "sector",
            EraseMode::Chip => "chip",
            EraseMode::Off => "none",
        }
    }
}

/// Verify policy after programming; readback is the default, none an explicit opt-out.
#[derive(Debug, Clone, Copy, PartialEq, Eq, Structural)]
pub enum VerifyMode {
    Readback,
    Crc,
    Off,
}

impl VerifyMode {
    pub open spec fn name(self) -> Seq<char> {
        match self {
            VerifyMode::Readback => "readback"@,
            VerifyMode::Crc => "crc"@,
            VerifyMode::Off => "none"@,
        }
    }

    pub fn as_str(self) -> (s: &'static str)
        ensures
            s@ == self.name(),
    {
        match self {
            VerifyMode::Readback => "readback",
            VerifyMode::Crc => "crc",
            VerifyMode::Off => "none",
        }
    }
}

/// Reset policy after programming.
#[derive(Debug, Clone, Copy, PartialEq, Eq, Structural)]
pub enum ResetPolicy {
    Run,
    Halt,
    Off,
}

impl ResetPolicy {
    pub open spec fn name(self) -> Seq<char> {
        match self {
            ResetPolicy::Run => "run"@,
            ResetPolicy::Halt => "halt"@,
            ResetPolicy::Off => "none"@,
        }
    }

    pub fn as_str(self) -> (s: &'static str)
        ensures
            s@ == self.name(),
    {
        match self {
            ResetPolicy::Run => "run",
            ResetPolicy::Halt => "halt",
            ResetPolicy::Off => "none",
        }
    }
}

/// How a confirmed run is checked: the Debug Module running state only, or also a sampled PC
/// that must lie in flash.
#[derive(Debug, Clone, Copy, PartialEq, Eq, Structural)]
pub enum ConfirmRunMode {
    Status,
    Pc,
}

impl ConfirmRunMode {
    pub open spec fn name(self) -> Seq<char> {
        match self {
            ConfirmRunMode::Status => "status"@,
            ConfirmRunMode::Pc => "pc"@,
        }
    }

    pub fn as_str(self) -> (s: &'static str)
        ensures
            s@ == self.name(),
    {
        match self {
            ConfirmRunMode::Status => "status",
            ConfirmRunMode::Pc => "pc",
        }
    }
}

/// Input image format.
#[derive(Debug, Clone, Copy, PartialEq, Eq, Structural)]
pub enum ImageFormat {
    Auto,
    Elf,
    Hex,
    Bin,
    Uf2,
}

impl ImageFormat {
    pub open spec fn name(self) -> Seq<char> {
        match self {
            ImageFormat::Auto => "auto"@,
            ImageFormat::Elf => "elf"@,
            ImageFormat::Hex => "hex"@,
            ImageFormat::Bin => "bin"@,
            ImageFormat::Uf2 => "uf2"@,
        }
    }

    pub fn as_str(self) -> (s: &'static str)
        ensures
            s@ == self.name(),
    {
        match self {
            ImageFormat::Auto => "auto",
            ImageFormat::Elf => "elf",
            ImageFormat::Hex => "hex",
            ImageFormat::Bin => "bin",
            ImageFormat::Uf2 => "uf2",
        }
    }
}

/// Monitor transport; distinct even when they share a COM port.
#[derive(Debug, Clone, Copy, PartialEq, Eq, Structural)]
pub enum MonitorSource {
    Uart,
    Sdi,
    Dmdata,
    Rtt,
}

impl MonitorSource {
    pub open spec fn name(self) -> Seq<char> {
        match self {
            MonitorSource::Uart => "uart"@,
            MonitorSource::Sdi => "sdi"@,
            MonitorSource::Dmdata => "dmdata"@,
            MonitorSource::Rtt => "rtt"@,
        }
    }

    pub fn as_str(self) -> (s: &'static str)
        ensures
            s@ == self.name(),
    {
        match self {
            MonitorSource::Uart => "uart",
            MonitorSource::Sdi => "sdi",
            MonitorSource::Dmdata => "dmdata",
            MonitorSource::Rtt => "rtt",
        }
    }
}

/// Recovery method.
#[derive(Debug, Clone, Copy, PartialEq, Eq, Structural)]
pub enum RecoverMethod {
    PowerOff,
    Nrst,
    Unprotect,
    Unbrick,
}

impl RecoverMethod {
    pub open spec fn name(self) -> Seq<char> {
        match self {
            RecoverMethod::PowerOff => "power-off"@,
            RecoverMethod::Nrst => "nrst"@,
            RecoverMethod::Unprotect => "unprotect"@,
            RecoverMethod::Unbrick => "unbrick"@,
        }
    }

    pub fn as_str(self) -> (s: &'static str)
        ensures
            s@ == self.name(),
    {
        match self {
            RecoverMethod::PowerOff => "power-off",
            RecoverMethod::Nrst => "nrst",
            RecoverMethod::Unprotect => "unprotect",
            RecoverMethod::Unbrick => "unbrick",
        }
    }
}

/// Debug speed class (400 kHz / 4 MHz / 6 MHz).
#[derive(Debug, Clone, Copy, PartialEq, Eq, Structural)]
pub enum SpeedClass {
    Low,
    Medium,
    High,
}

impl SpeedClass {
    pub open spec fn name(self) -> Seq<char> {
        match self {
            SpeedClass::Low => "low"@,
            SpeedClass::Medium => "medium"@,
            SpeedClass::High => "high"@,
        }
    }

    pub fn as_str(self) -> (s: &'static str)
        ensures
            s@ == self.name(),
    {
        match self {
            SpeedClass::Low => "low",
            SpeedClass::Medium => "medium",
            SpeedClass::High => "high",
        }
    }
}

/// Named memory regions.
#[derive(Debug, Clone, Copy, PartialEq, Eq, Structural)]
pub enum Region {
    Code,
    System,
    Option,
    Eeprom,
    Ram,
}

impl Region {
    pub open spec fn name(self) -> Seq<char> {
        match self {
            Region::Code => "code"@,
            Region::System => "system"@,
            Region::Option => "option"@,
            Region::Eeprom => "eeprom"@,
            Region::Ram => "ram"@,
        }
    }

    pub fn as_str(self) -> (s: &'static str)
        ensures
            s@ == self.name(),
    {
        match self {
            Region::Code => "code",
            Region::System => "system",
            Region::Option => "option",
            Region::Eeprom => "eeprom",
            Region::Ram => "ram",
        }
    }
}

} // verus!
