# ch32rv

A flashing and debugging tool for WCH CH32 RISC-V microcontrollers, written as a Verus
library with a thin command line around it.

## Layout

- `src/` - the verified library. Verus proves every function here against its
  `requires`/`ensures` contract. The one exception in what is stated is the cancellation flag
  (`progress::CancelToken`), a flag shared by its clones whose value the contracts cannot
  follow; its functions have no `ensures`.
  - `dmi.rs`, `dm.rs` - the Debug Module Interface access model (a trace of DMI transfers) and
    the RISC-V Debug Module driver: halt, resume, single step, abstract registers, memory
    access through the program buffer, hardware triggers.
  - `flashctl.rs`, `flashflow.rs`, `memwrite.rs`, `rangeerase.rs`, `erase.rs` - direct
    FLASH-controller programming, the erase policy, read-back verification and the
    page-preserving writes.
  - `optbytes.rs`, `optedit.rs`, `optprog.rs` - option-byte decoding, editing and programming.
  - `dmseq.rs`, `rtt.rs`, `semihost.rs`, `semiserve.rs` - the console channels of a running
    target.
  - `image.rs`, `blocks.rs`, `ihex.rs` - firmware images and their programming layout.
  - `fwupdate.rs`, `hidflash.rs`, `usb.rs`, `wchwin.rs`, `selector.rs`, `probeinfo.rs` - probe
    selection, probe firmware updates and the transport-level helpers.
  - `cliargs.rs`, `cmdparse.rs`, `commands.rs`, `contract.rs`, `exit.rs`, `report.rs` - the
    command-line vocabulary, result envelopes and exit codes.
  - `doctor.rs` - the environment checks of `doctor` and the next step each suggests.
- `tests/` - ordinary Rust tests of the library, including a fake Debug Module over plain
  memory.
- `app/` - the command line: argument parsing, files, the terminal, captures and replay.

## Model of the target

Functions that talk to the target take a `DebugModule` over a `DtmAccess` transport. Their
contracts are stated over the trace of DMI transfers the transport records: what an `Ok` call
carried out, and that an `Err` is owed only to a failed transfer, a reported abstract-command
error, a command that stayed busy for its whole poll budget, or a refusal from the target
(a hart that does not halt, a busy or write-protected FLASH controller).
