//! The value types of the command line (each option that takes one of a fixed set of words),
//! and the progress sink of the command line: which line, if any, an event becomes.

use vstd::prelude::*;

use crate::contract::Event;
use crate::text::{dec, join_with, push_dec, push_joined, push_str, string_of, string_views};

verus! {

/// `--progress`: a progress bar of phase lines, NDJSON events, or nothing (`none`).
#[derive(Debug, Clone, Copy, PartialEq, Eq, Structural)]
pub enum ProgressMode {
    Bar,
    Ndjson,
    Off,
}

/// `on` / `off` of a switch.
#[derive(Debug, Clone, Copy, PartialEq, Eq, Structural)]
pub enum SwitchState {
    On,
    Off,
}

/// `read --format`: raw binary, a hex dump, or Intel HEX.
#[derive(Debug, Clone, Copy, PartialEq, Eq, Structural)]
pub enum ReadFormat {
    Bin,
    Hex,
    Ihex,
}

/// `write --erase`: erase the touched pages first, or not (`none`).
#[derive(Debug, Clone, Copy, PartialEq, Eq, Structural)]
pub enum WriteErase {
    Auto,
    Off,
}

/// `probe mode set`: the probe's RISC-V mode or its DAP (ARM) mode.
#[derive(Debug, Clone, Copy, PartialEq, Eq, Structural)]
pub enum ProbeModeSet {
    Riscv,
    Dap,
}

/// `isp --transport`.
#[derive(Debug, Clone, Copy, PartialEq, Eq, Structural)]
pub enum IspTransport {
    Usb,
    Uart,
}

/// `isp flash --erase`: erase as needed, or not (`none`).
#[derive(Debug, Clone, Copy, PartialEq, Eq, Structural)]
pub enum IspErase {
    Auto,
    Off,
}

/// `isp flash --verify`: verify, or not (`none`).
#[derive(Debug, Clone, Copy, PartialEq, Eq, Structural)]
pub enum IspVerify {
    On,
    Off,
}

/// `isp flash --reset`: run the application afterwards, or not (`none`).
#[derive(Debug, Clone, Copy, PartialEq, Eq, Structural)]
pub enum IspReset {
    Run,
    Off,
}

/// The shells that completion scripts are written for.
#[derive(Debug, Clone, Copy, PartialEq, Eq, Structural)]
pub enum Shell {
    Bash,
    Zsh,
    Fish,
    Powershell,
}

/// The progress mode of an invocation: the one asked for; otherwise a bar on an interactive
/// terminal, and nothing when the result is JSON or the terminal is not interactive.
pub open spec fn sink_mode_spec(progress: Option<ProgressMode>, json: bool, stderr_is_tty: bool) -> ProgressMode {
    match progress {
        Some(m) => m,
        None => if json { ProgressMode::Off } else if stderr_is_tty { ProgressMode::Bar } else { ProgressMode::Off },
    }
}

/// The progress sink of the command line.
#[derive(Debug, Clone, Copy, PartialEq, Eq, Structural)]
pub struct CliSink {
    pub mode: ProgressMode,
}

/// Pick the sink for an invocation.
pub fn sink(progress: Option<ProgressMode>, json: bool, stderr_is_tty: bool) -> (s: CliSink)
    ensures
        s.mode == sink_mode_spec(progress, json, stderr_is_tty),
{
    let mode = match progress {
        Some(m) => m,
        None => if json { ProgressMode::Off } else if stderr_is_tty { ProgressMode::Bar } else { ProgressMode::Off },
    };
    CliSink { mode }
}

/// What an event becomes on standard error.
#[derive(Debug, Clone, PartialEq, Eq)]
pub enum SinkOutput {
    /// Nothing is written.
    Nothing,
    /// This line is written.
    Line(String),
    /// The event is written as one JSON line.
    Json,
}

/// The line of a retry, which every mode shows.
pub open spec fn retry_line(phase: Seq<char>, attempt: u32, cause: Seq<char>) -> Seq<char> {
    "retry: "@ + phase + " attempt "@ + dec(attempt as nat) + " ("@ + cause + ")"@
}

/// What `mode` writes for `ev`: NDJSON mode writes every event as JSON; the bar mode a line per
/// phase start, retry and warning; the quiet mode only retries.
pub open spec fn render_spec(mode: ProgressMode, ev: Event) -> Option<Option<Seq<char>>> {
    match mode {
        ProgressMode::Ndjson => None,
        ProgressMode::Off => match ev {
            Event::Retry { phase, attempt, cause } => Some(Some(retry_line(phase@, attempt, cause@))),
            _ => Some(None),
        },
        ProgressMode::Bar => match ev {
            Event::Phase { name, .. } => Some(Some(name@ + "..."@)),
            Event::Retry { phase, attempt, cause } => Some(Some(retry_line(phase@, attempt, cause@))),
            Event::Warn { code, msg } => Some(Some("warning["@ + code@ + "]: "@ + msg@)),
            _ => Some(None),
        },
    }
}

/// The output matches what [`render_spec`] says: `None` is JSON, `Some(None)` nothing.
pub open spec fn output_is(o: SinkOutput, r: Option<Option<Seq<char>>>) -> bool {
    match r {
        None => o is Json,
        Some(None) => o is Nothing,
        Some(Some(l)) => o matches SinkOutput::Line(s) && s@ == l,
    }
}

impl CliSink {
    /// What this sink writes for one event.
    pub fn render(&self, ev: &Event) -> (o: SinkOutput)
        ensures
            output_is(o, render_spec(self.mode, *ev)),
    {
        match self.mode {
            ProgressMode::Ndjson => SinkOutput::Json,
            ProgressMode::Off => match ev {
                Event::Retry { phase, attempt, cause } => SinkOutput::Line(retry_text(phase, *attempt, cause)),
                _ => SinkOutput::Nothing,
            },
            ProgressMode::Bar => match ev {
                Event::Phase { name, .. } => {
                    let mut v: Vec<char> = Vec::new();
                    push_str(&mut v, name.as_str());
                    push_str(&mut v, "...");
                    SinkOutput::Line(string_of(v.as_slice()))
                },
                Event::Retry { phase, attempt, cause } => SinkOutput::Line(retry_text(phase, *attempt, cause)),
                Event::Warn { code, msg } => {
                    let mut v: Vec<char> = Vec::new();
                    push_str(&mut v, "warning[");
                    push_str(&mut v, code.as_str());
                    push_str(&mut v, "]: ");
                    push_str(&mut v, msg.as_str());
                    SinkOutput::Line(string_of(v.as_slice()))
                },
                _ => SinkOutput::Nothing,
            },
        }
    }
}

fn retry_text(phase: &String, attempt: u32, cause: &String) -> (s: String)
    ensures
        s@ == retry_line(phase@, attempt, cause@),
{
    let mut v: Vec<char> = Vec::new();
    push_str(&mut v, "retry: ");
    push_str(&mut v, phase.as_str());
    push_str(&mut v, " attempt ");
    push_dec(&mut v, attempt as u64);
    push_str(&mut v, " (");
    push_str(&mut v, cause.as_str());
    push_str(&mut v, ")");
    string_of(v.as_slice())
}

/// Retries are never silent: whatever the mode, a retry event is written.
pub proof fn lemma_retries_always_shown(mode: ProgressMode, ev: Event)
    requires
        ev is Retry,
    ensures
        render_spec(mode, ev) is None || render_spec(mode, ev) matches Some(Some(_)),
{
}

/// A ports cell of a table: the ports joined by `, `, or `-` when there are none.
pub open spec fn ports_cell(ports: Seq<Seq<char>>) -> Seq<char> {
    if ports.len() == 0 { "-"@ } else { join_with(ports, ", "@) }
}

/// Render a list of ports for a table cell.
pub fn render_ports(ports: &[String]) -> (s: String)
    ensures
        s@ == ports_cell(string_views(ports@)),
{
    let mut v: Vec<char> = Vec::new();
    if ports.len() == 0 {
        push_str(&mut v, "-");
    } else {
        push_joined(&mut v, ports, ", ");
    }
    string_of(v.as_slice())
}

/// One row of the capability matrix: an operation, whether it is supported, and why.
#[derive(Debug, Clone)]
pub struct Cap {
    pub op: &'static str,
    pub supported: bool,
    pub reason: String,
}

impl Cap {
    /// A supported operation.
    pub fn yes(op: &'static str, reason: String) -> (c: Cap)
        ensures
            c.op == op && c.supported && c.reason == reason,
    {
        Cap { op, supported: true, reason }
    }

    /// An unsupported operation.
    pub fn no(op: &'static str, reason: String) -> (c: Cap)
        ensures
            c.op == op && !c.supported && c.reason == reason,
    {
        Cap { op, supported: false, reason }
    }
}

} // verus!
