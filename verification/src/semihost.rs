//! The decisions of the `run` command: how it ends (a timeout or a semihosting exit), whether
//! a halt is a RISC-V semihosting call, which call it is, and the exit code it carries.

use vstd::prelude::*;

use crate::image::le32_at;
use crate::selector::{parse_unsigned, parse_unsigned_range};
use crate::text::chars_of;

verus! {

/// RISC-V semihosting call sequence: `slli x0,x0,0x1f; ebreak; srai x0,x0,7`.
pub const SEMI_SLLI: u32 = 0x01f0_1013;
pub const SEMI_EBREAK: u32 = 0x0010_0073;
pub const SEMI_SRAI: u32 = 0x4070_5013;
/// The semihosting operations serviced.
pub const SYS_WRITEC: u32 = 0x03;
pub const SYS_WRITE0: u32 = 0x04;
pub const SYS_EXIT: u32 = 0x18;
pub const SYS_EXIT_EXTENDED: u32 = 0x20;
/// `ADP_Stopped_ApplicationExit`: a plain SYS_EXIT reason that means "exited normally".
pub const ADP_APPLICATION_EXIT: u32 = 0x2_0026;

/// Is `(before, at, after)` the RISC-V semihosting `slli/ebreak/srai` sequence?
pub fn is_semihosting_seq(before: u32, at: u32, after: u32) -> (r: bool)
    ensures
        r == (before == SEMI_SLLI && at == SEMI_EBREAK && after == SEMI_SRAI),
{
    before == SEMI_SLLI && at == SEMI_EBREAK && after == SEMI_SRAI
}

/// How a run ends.
#[derive(Debug, Clone, Copy, PartialEq, Eq, Structural)]
pub enum ExitMode {
    /// Stream output until this many seconds have passed (none: until interrupted), then exit 0.
    Timeout(Option<u64>),
    /// Service semihosting and propagate the target's exit code, for at most this many seconds.
    Semihosting { cap_secs: u64 },
}

/// What `--exit-on` (with the global `--timeout`) selects, or why it is refused.
pub open spec fn exit_mode_spec(exit_on: Option<Seq<char>>, timeout: Option<u64>) -> Result<ExitMode, Seq<char>> {
    match exit_on {
        None => Ok(ExitMode::Timeout(timeout)),
        Some(s) => if s == "semihosting"@ {
            Ok(ExitMode::Semihosting { cap_secs: match timeout { Some(t) => t, None => 60 } })
        } else if s.len() >= 8 && s.take(8) == seq!['t', 'i', 'm', 'e', 'o', 'u', 't', '='] {
            match parse_unsigned(s.skip(8), 10, u64::MAX as nat) {
                Some(v) => Ok(ExitMode::Timeout(Some(v as u64))),
                None => Err("invalid --exit-on timeout value"@),
            }
        } else {
            Err("--exit-on must be `semihosting` or `timeout=<seconds>`"@)
        },
    }
}

/// Read `--exit-on`: `semihosting` (bounded by `--timeout`, 60 s by default) or
/// `timeout=<seconds>`; without it the run streams until `--timeout`.
pub fn exit_mode(exit_on: Option<&str>, timeout: Option<u64>) -> (r: Result<ExitMode, &'static str>)
    ensures
        match exit_mode_spec(match exit_on { Some(s) => Some(s@), None => None::<Seq<char>> }, timeout) {
            Ok(m) => r == Ok::<ExitMode, &'static str>(m),
            Err(e) => r matches Err(x) && x@ == e,
        },
{
    match exit_on {
        None => Ok(ExitMode::Timeout(timeout)),
        Some(s) => {
            let cs = chars_of(s);
            if crate::parse::eq_str(cs.as_slice(), "semihosting") {
                return Ok(ExitMode::Semihosting { cap_secs: match timeout { Some(t) => t, None => 60 } });
            }
            let n = cs.len();
            if n >= 8 && cs[0] == 't' && cs[1] == 'i' && cs[2] == 'm' && cs[3] == 'e' && cs[4] == 'o'
                && cs[5] == 'u' && cs[6] == 't' && cs[7] == '=' {
                proof {
                    assert(cs@.take(8) =~= seq!['t', 'i', 'm', 'e', 'o', 'u', 't', '=']);
                    assert(cs@.subrange(8, n as int) =~= s@.skip(8));
                }
                match parse_unsigned_range(cs.as_slice(), 8, n, 10, u64::MAX) {
                    Some(v) => Ok(ExitMode::Timeout(Some(v))),
                    None => Err("invalid --exit-on timeout value"),
                }
            } else {
                proof {
                    if s@.len() >= 8 && s@.take(8) == seq!['t', 'i', 'm', 'e', 'o', 'u', 't', '='] {
                        assert(s@.take(8)[0] == 't');
                    }
                }
                Err("--exit-on must be `semihosting` or `timeout=<seconds>`")
            }
        },
    }
}

/// The semihosting operations, as `run` services them.
#[derive(Debug, Clone, Copy, PartialEq, Eq, Structural)]
pub enum SemihostCall {
    /// `SYS_EXIT` or `SYS_EXIT_EXTENDED`: end the run with the target's code.
    Exit,
    /// `SYS_WRITE0`: print the NUL-terminated string at the argument.
    Write0,
    /// `SYS_WRITEC`: print the character at the argument.
    WriteC,
    /// Anything else: skipped.
    Ignored,
}

/// The operation in `a0`.
pub open spec fn call_spec(op: u32) -> SemihostCall {
    if op == SYS_EXIT || op == SYS_EXIT_EXTENDED {
        SemihostCall::Exit
    } else if op == SYS_WRITE0 {
        SemihostCall::Write0
    } else if op == SYS_WRITEC {
        SemihostCall::WriteC
    } else {
        SemihostCall::Ignored
    }
}

/// Which operation a semihosting call with `op` in `a0` is.
pub fn semihost_call(op: u32) -> (c: SemihostCall)
    ensures
        c == call_spec(op),
{
    if op == SYS_EXIT || op == SYS_EXIT_EXTENDED {
        SemihostCall::Exit
    } else if op == SYS_WRITE0 {
        SemihostCall::Write0
    } else if op == SYS_WRITEC {
        SemihostCall::WriteC
    } else {
        SemihostCall::Ignored
    }
}

/// The exit code of an exit call: for `SYS_EXIT_EXTENDED` the second word of the parameter
/// block (1 when the block could not be read whole); for `SYS_EXIT`, 0 for a normal
/// application exit and 1 for any other reason.
pub open spec fn exit_code_spec(op: u32, arg: u32, block: Option<Seq<u8>>) -> u32 {
    if op == SYS_EXIT_EXTENDED {
        match block {
            Some(b) => if b.len() == 8 { le32_at(b, 4) } else { 1 },
            None => 1,
        }
    } else if arg == ADP_APPLICATION_EXIT {
        0
    } else {
        1
    }
}

/// The exit code of an exit call, given the 8-byte parameter block read at `arg` (when the
/// call is `SYS_EXIT_EXTENDED` and the read succeeded).
pub fn semihosting_exit_code(op: u32, arg: u32, block: Option<&[u8]>) -> (code: u32)
    ensures
        code == exit_code_spec(op, arg, match block { Some(b) => Some(b@), None => None::<Seq<u8>> }),
{
    if op == SYS_EXIT_EXTENDED {
        match block {
            Some(b) => {
                if b.len() == 8 {
                    proof { assert(b@.subrange(4, 8) =~= seq![b@[4], b@[5], b@[6], b@[7]]); }
                    (b[4] as u32) | ((b[5] as u32) << 8) | ((b[6] as u32) << 16) | ((b[7] as u32) << 24)
                } else {
                    1
                }
            },
            None => 1,
        }
    } else if arg == ADP_APPLICATION_EXIT {
        0
    } else {
        1
    }
}

/// A plain exit reports success exactly for a normal application exit.
pub proof fn lemma_plain_exit_code(arg: u32, block: Option<Seq<u8>>)
    ensures
        (exit_code_spec(SYS_EXIT, arg, block) == 0) <==> arg == ADP_APPLICATION_EXIT,
        exit_code_spec(SYS_EXIT, arg, block) <= 1,
{
}

} // verus!
