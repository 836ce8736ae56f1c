//! Verified core of the ch32rv flashing and debugging tool for WCH CH32 RISC-V
//! microcontrollers: the shared result vocabulary, the RISC-V Debug Module driver and its
//! sequenced console, firmware image handling, probe selectors and the small parsers that the
//! command line uses.

pub mod arch;
pub mod blocks;
pub mod cliargs;
pub mod cmdparse;
pub mod commands;
pub mod boot;
pub mod contract;
pub mod dbgregs;
pub mod dm;
pub mod dmi;
pub mod dmseq;
pub mod doctor;
pub mod dump;
pub mod erase;
pub mod exit;
pub mod flashcfg;
pub mod flashctl;
pub mod flashflow;
pub mod fwupdate;
pub mod hidflash;
pub mod ihex;
pub mod image;
pub mod memwrite;
pub mod optbytes;
pub mod optedit;
pub mod optprog;
pub mod parse;
pub mod policy;
pub mod probeinfo;
pub mod progress;
pub mod rangeerase;
pub mod report;
pub mod rtt;
pub mod selector;
pub mod semihost;
pub mod semiserve;
pub mod text;
pub mod usb;
pub mod wchwin;
