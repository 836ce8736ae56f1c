//! The USB layer's own logic: transfer errors, the capture line format, lock-file keys, and the
//! offline replay of a captured session, where each channel and direction is an independent FIFO
//! served in recorded order.

use vstd::prelude::*;

use std::collections::VecDeque;

use crate::text::{chars_of, dec, hex2, hex_lower, push_dec, push_hex2, push_str, string_of};

verus! {

/// A USB failure.
#[derive(Debug, Clone, PartialEq, Eq)]
pub enum UsbError {
    Enumerate(String),
    AccessDenied(String),
    Busy(String),
    Open(String),
    Endpoint(u8),
    Timeout,
    Transfer(String),
}

/// The transfer channel: the command endpoints (0x01 / 0x81) or the flash data endpoints (0x02 /
/// 0x82).
#[derive(Debug, Clone, Copy, PartialEq, Eq, Structural)]
pub enum Chan {
    Cmd,
    Data,
}

impl Chan {
    pub open spec fn name(self) -> Seq<char> {
        match self {
            Chan::Cmd => "cmd"@,
            Chan::Data => "data"@,
        }
    }

    pub fn as_str(self) -> (s: &'static str)
        ensures
            s@ == self.name(),
    {
        match self {
            Chan::Cmd => "cmd",
            Chan::Data => "data",
        }
    }
}

/// The transfer direction, from the host's point of view.
#[derive(Debug, Clone, Copy, PartialEq, Eq, Structural)]
pub enum Dir {
    Out,
    In,
}

impl Dir {
    pub open spec fn name(self) -> Seq<char> {
        match self {
            Dir::Out => "out"@,
            Dir::In => "in"@,
        }
    }

    pub fn as_str(self) -> (s: &'static str)
        ensures
            s@ == self.name(),
    {
        match self {
            Dir::Out => "out",
            Dir::In => "in",
        }
    }
}

/// Two lower-case hex digits per byte.
pub open spec fn hex_bytes(d: Seq<u8>) -> Seq<char>
    decreases d.len(),
{
    if d.len() == 0 { Seq::empty() } else { hex_bytes(d.drop_last()) + hex2(d.last()) }
}

/// Decimal notation of a 128-bit number.
pub open spec fn dec128(n: u128) -> Seq<char> {
    dec(n as nat)
}

fn push_dec128(out: &mut Vec<char>, n: u128)
    ensures
        final(out)@ == old(out)@ + dec(n as nat),
    decreases n,
{
    if n >= 10 {
        push_dec128(out, n / 10);
    }
    out.push(((n % 10) as u8 + 48) as char);
}

/// `"true"` or `"false"`.
pub open spec fn bool_text(b: bool) -> Seq<char> {
    if b { "true"@ } else { "false"@ }
}

/// The NDJSON line of one recorded transfer.
pub open spec fn capture_line(seq: u64, t_us: u128, ep: u8, chan: Chan, dir: Dir, data: Seq<u8>, ok: bool) -> Seq<char> {
    "{\"seq\":"@ + dec(seq as nat) + ",\"t_us\":"@ + dec(t_us as nat) + ",\"ep\":\"0x"@ + hex2(ep)
        + "\",\"chan\":\""@ + chan.name() + "\",\"dir\":\""@ + dir.name() + "\",\"len\":"@
        + dec(data.len()) + ",\"ok\":"@ + bool_text(ok) + ",\"data\":\""@ + hex_bytes(data) + "\"}"@
}

/// Format one capture line: sequence number, microseconds since start, the endpoint address
/// (authoritative: the channel alone is ambiguous across enumerations), channel, direction,
/// length, success and the bytes in lower-case hex.
pub fn encode_line(seq: u64, t_us: u128, ep: u8, chan: Chan, dir: Dir, data: &[u8], ok: bool) -> (s: String)
    ensures
        s@ == capture_line(seq, t_us, ep, chan, dir, data@, ok),
{
    let mut hex: Vec<char> = Vec::new();
    let mut k: usize = 0;
    while k < data.len()
        invariant
            k <= data@.len(),
            hex@ == hex_bytes(data@.take(k as int)),
        decreases data@.len() - k,
    {
        proof { assert(data@.take(k + 1).drop_last() =~= data@.take(k as int)); }
        push_hex2(&mut hex, data[k]);
        k = k + 1;
    }
    proof { assert(data@.take(data@.len() as int) =~= data@); }
    let mut v: Vec<char> = Vec::new();
    push_str(&mut v, "{\"seq\":");
    push_dec(&mut v, seq);
    push_str(&mut v, ",\"t_us\":");
    push_dec128(&mut v, t_us);
    push_str(&mut v, ",\"ep\":\"0x");
    push_hex2(&mut v, ep);
    push_str(&mut v, "\",\"chan\":\"");
    push_str(&mut v, chan.as_str());
    push_str(&mut v, "\",\"dir\":\"");
    push_str(&mut v, dir.as_str());
    push_str(&mut v, "\",\"len\":");
    push_dec(&mut v, data.len() as u64);
    push_str(&mut v, ",\"ok\":");
    push_str(&mut v, if ok { "true" } else { "false" });
    push_str(&mut v, ",\"data\":\"");
    let mut k: usize = 0;
    let ghost before = v@;
    while k < hex.len()
        invariant
            k <= hex@.len(),
            v@ == before + hex@.take(k as int),
        decreases hex@.len() - k,
    {
        v.push(hex[k]);
        proof { assert(v@ =~= before + hex@.take(k + 1)); }
        k = k + 1;
    }
    proof { assert(hex@.take(hex@.len() as int) =~= hex@); }
    push_str(&mut v, "\"}");
    proof {
        assert(v@ =~= capture_line(seq, t_us, ep, chan, dir, data@, ok));
    }
    string_of(v.as_slice())
}

/// A character allowed in a lock-file name: ASCII letters and digits, `.`, `_` and `-`.
pub open spec fn safe_char(c: char) -> bool {
    ('a' <= c && c <= 'z') || ('A' <= c && c <= 'Z') || ('0' <= c && c <= '9') || c == '.' || c == '_' || c == '-'
}

/// `key` as a safe single path component: unsafe characters become `_`, and an empty key is
/// `unknown`.
pub open spec fn sanitized(key: Seq<char>) -> Seq<char> {
    if key.len() == 0 {
        "unknown"@
    } else {
        Seq::new(key.len(), |i: int| if safe_char(key[i]) { key[i] } else { '_' })
    }
}

/// Make a probe key (serial or bus topology) a safe lock-file name.
pub fn sanitize(key: &str) -> (s: String)
    ensures
        s@ == sanitized(key@),
{
    let cs = chars_of(key);
    let mut out: Vec<char> = Vec::new();
    let mut i: usize = 0;
    while i < cs.len()
        invariant
            i <= cs@.len(),
            cs@ == key@,
            out@ == Seq::new(i as nat, |j: int| if safe_char(cs@[j]) { cs@[j] } else { '_' }),
        decreases cs@.len() - i,
    {
        let c = cs[i];
        let safe = ('a' <= c && c <= 'z') || ('A' <= c && c <= 'Z') || ('0' <= c && c <= '9') || c == '.' || c == '_' || c == '-';
        out.push(if safe { c } else { '_' });
        proof {
            assert(out@ =~= Seq::new((i + 1) as nat, |j: int| if safe_char(cs@[j]) { cs@[j] } else { '_' }));
        }
        i = i + 1;
    }
    if out.len() == 0 {
        push_str(&mut out, "unknown");
    }
    string_of(out.as_slice())
}

// ---- replay ----

/// The identity of a recorded device.
#[derive(Debug, Clone)]
pub struct ReplayDevice {
    pub vid: u16,
    pub pid: u16,
    pub serial: Option<String>,
    pub topology: String,
    pub product: Option<String>,
    pub ports: Vec<String>,
}

/// One line of a capture, as read: a device line, a transfer on a named channel and direction
/// with its data in hex, or anything else.
#[derive(Debug, Clone)]
pub enum ReplayLine {
    Device(ReplayDevice),
    Transfer { chan: String, dir: String, hex: String },
    Other,
}

/// The recorded transfers of a session, served in order, with the count of writes that differed
/// from the recording and of reads past the end of a queue.
#[derive(Debug)]
pub struct ReplayLog {
    pub device: ReplayDevice,
    pub cmd_in: VecDeque<Vec<u8>>,
    pub cmd_out: VecDeque<Vec<u8>>,
    pub data_in: VecDeque<Vec<u8>>,
    pub data_out: VecDeque<Vec<u8>>,
    pub divergences: u32,
    pub underruns: u32,
}

/// The bytes that leading pairs of hex digits spell, up to the first pair that is not one.
pub open spec fn hex_prefix_bytes(cs: Seq<char>) -> Seq<u8>
    decreases cs.len(),
{
    if cs.len() < 2 {
        Seq::empty()
    } else {
        match (crate::ihex::hex_val(cs[0]), crate::ihex::hex_val(cs[1])) {
            (Some(h), Some(l)) => seq![(h * 16 + l) as u8] + hex_prefix_bytes(cs.skip(2)),
            _ => Seq::empty(),
        }
    }
}

/// Decode pairs of hex digits, stopping at the first pair that is not one (a trailing odd digit
/// is ignored).
pub fn decode_hex(s: &str) -> (v: Vec<u8>)
    ensures
        v@ == hex_prefix_bytes(s@),
{
    let cs = chars_of(s);
    let mut out: Vec<u8> = Vec::new();
    let mut i: usize = 0;
    proof {
        assert(cs@.skip(0) =~= cs@);
        assert(out@ + hex_prefix_bytes(cs@) =~= hex_prefix_bytes(cs@));
    }
    while i < cs.len() && cs.len() - i >= 2
        invariant
            i <= cs@.len(),
            cs@ == s@,
            hex_prefix_bytes(s@) == out@ + hex_prefix_bytes(cs@.skip(i as int)),
        decreases cs@.len() - i,
    {
        proof { assert(cs@.skip(i as int).skip(2) =~= cs@.skip(i + 2)); }
        let h = digit_of(cs[i]);
        let l = digit_of(cs[i + 1]);
        if h.is_none() || l.is_none() {
            proof { assert(hex_prefix_bytes(cs@.skip(i as int)) =~= Seq::<u8>::empty()); assert(out@ + Seq::<u8>::empty() =~= out@); }
            return out;
        }
        let b = h.unwrap() * 16 + l.unwrap();
        let ghost o0 = out@;
        out.push(b);
        proof { assert(o0 + (seq![b] + hex_prefix_bytes(cs@.skip(i + 2))) =~= out@ + hex_prefix_bytes(cs@.skip(i + 2))); }
        i = i + 2;
    }
    proof { assert(hex_prefix_bytes(cs@.skip(i as int)) =~= Seq::<u8>::empty()); assert(out@ + Seq::<u8>::empty() =~= out@); }
    out
}

fn digit_of(c: char) -> (r: Option<u8>)
    ensures
        r == crate::ihex::hex_val(c),
{
    let v = c as u32;
    if 0x30 <= v && v <= 0x39 {
        Some((v - 0x30) as u8)
    } else if 0x61 <= v && v <= 0x66 {
        Some((v - 0x57) as u8)
    } else if 0x41 <= v && v <= 0x46 {
        Some((v - 0x37) as u8)
    } else {
        None
    }
}

/// Which queue a transfer line feeds: 0 command in, 1 command out, 2 data in, 3 data out, or
/// none for an unknown channel or direction.
pub open spec fn queue_of(chan: Seq<char>, dir: Seq<char>) -> Option<int> {
    if chan == "cmd"@ && dir == "in"@ {
        Some(0)
    } else if chan == "cmd"@ && dir == "out"@ {
        Some(1)
    } else if chan == "data"@ && dir == "in"@ {
        Some(2)
    } else if chan == "data"@ && dir == "out"@ {
        Some(3)
    } else {
        None
    }
}

/// The transfers of `lines` that feed queue `q`, decoded, in order.
pub open spec fn queue_spec(lines: Seq<ReplayLine>, q: int) -> Seq<Seq<u8>>
    decreases lines.len(),
{
    if lines.len() == 0 {
        Seq::empty()
    } else {
        let rest = queue_spec(lines.drop_last(), q);
        match lines.last() {
            ReplayLine::Transfer { chan, dir, hex } => if queue_of(chan@, dir@) == Some(q) {
                rest.push(hex_prefix_bytes(hex@))
            } else {
                rest
            },
            _ => rest,
        }
    }
}

/// The first device line of `lines`, if any.
pub open spec fn first_device(lines: Seq<ReplayLine>) -> Option<ReplayDevice>
    decreases lines.len(),
{
    if lines.len() == 0 {
        None
    } else {
        match first_device(lines.drop_last()) {
            Some(d) => Some(d),
            None => match lines.last() {
                ReplayLine::Device(d) => Some(d),
                _ => None,
            },
        }
    }
}

/// The views of a queue of transfers.
pub open spec fn views(q: Seq<Vec<u8>>) -> Seq<Seq<u8>> {
    Seq::new(q.len(), |i: int| q[i]@)
}

/// `cs` spells exactly `p`.
fn eq_chars(s: &str, p: &str) -> (r: bool)
    ensures
        r == (s@ == p@),
{
    let a = chars_of(s);
    let b = chars_of(p);
    if a.len() != b.len() {
        return false;
    }
    let mut i: usize = 0;
    while i < a.len()
        invariant
            i <= a@.len(),
            a@.len() == b@.len(),
            a@ == s@,
            b@ == p@,
            forall|j: int| 0 <= j < i ==> a@[j] == b@[j],
        decreases a@.len() - i,
    {
        if a[i] != b[i] {
            return false;
        }
        i = i + 1;
    }
    proof { assert(a@ =~= b@); }
    true
}

fn classify(chan: &str, dir: &str) -> (r: Option<u8>)
    ensures
        match queue_of(chan@, dir@) {
            Some(q) => r == Some(q as u8),
            None => r is None,
        },
{
    let cmd = eq_chars(chan, "cmd");
    let data = eq_chars(chan, "data");
    let din = eq_chars(dir, "in");
    let dout = eq_chars(dir, "out");
    if cmd && din { Some(0) } else if cmd && dout { Some(1) } else if data && din { Some(2) } else if data && dout { Some(3) } else { None }
}

/// The state of a replay: the four queues still to serve and the two counters.
pub struct ReplayState {
    pub cmd_in: Seq<Seq<u8>>,
    pub cmd_out: Seq<Seq<u8>>,
    pub data_in: Seq<Seq<u8>>,
    pub data_out: Seq<Seq<u8>>,
    pub divergences: int,
    pub underruns: int,
}

/// One call made on a replay: a read of a channel, or a write of bytes to one.
pub enum ReplayCall {
    Read(Chan),
    Write(Chan, Seq<u8>),
}

/// The queue a call pops from.
pub open spec fn call_queue(q: ReplayState, c: ReplayCall) -> Seq<Seq<u8>> {
    match c {
        ReplayCall::Read(Chan::Cmd) => q.cmd_in,
        ReplayCall::Read(Chan::Data) => q.data_in,
        ReplayCall::Write(Chan::Cmd, _) => q.cmd_out,
        ReplayCall::Write(Chan::Data, _) => q.data_out,
    }
}

/// The call found its channel's queue empty.
pub open spec fn underran(q: ReplayState, c: ReplayCall) -> bool {
    call_queue(q, c).len() == 0
}

/// The call was a write whose bytes differ from the recorded transfer it popped.
pub open spec fn diverged(q: ReplayState, c: ReplayCall) -> bool {
    match c {
        ReplayCall::Write(_, d) => call_queue(q, c).len() > 0 && call_queue(q, c)[0] != d,
        _ => false,
    }
}

/// The state after one call.
pub open spec fn replay_step(q: ReplayState, c: ReplayCall) -> ReplayState {
    let rest = if underran(q, c) { call_queue(q, c) } else { call_queue(q, c).skip(1) };
    let q1 = ReplayState {
        divergences: q.divergences + if diverged(q, c) { 1int } else { 0int },
        underruns: q.underruns + if underran(q, c) { 1int } else { 0int },
        ..q
    };
    match c {
        ReplayCall::Read(Chan::Cmd) => ReplayState { cmd_in: rest, ..q1 },
        ReplayCall::Read(Chan::Data) => ReplayState { data_in: rest, ..q1 },
        ReplayCall::Write(Chan::Cmd, _) => ReplayState { cmd_out: rest, ..q1 },
        ReplayCall::Write(Chan::Data, _) => ReplayState { data_out: rest, ..q1 },
    }
}

/// The state after the calls `cs`, in order.
pub open spec fn replay_run(q: ReplayState, cs: Seq<ReplayCall>) -> ReplayState
    decreases cs.len(),
{
    if cs.len() == 0 {
        q
    } else {
        replay_step(replay_run(q, cs.drop_last()), cs.last())
    }
}

/// How many of the calls `cs` were writes that differed from the recording.
pub open spec fn count_diverged(q: ReplayState, cs: Seq<ReplayCall>) -> int
    decreases cs.len(),
{
    if cs.len() == 0 {
        0
    } else {
        count_diverged(q, cs.drop_last()) + if diverged(replay_run(q, cs.drop_last()), cs.last()) { 1int } else { 0int }
    }
}

/// How many of the calls `cs` found their channel's queue empty.
pub open spec fn count_underran(q: ReplayState, cs: Seq<ReplayCall>) -> int
    decreases cs.len(),
{
    if cs.len() == 0 {
        0
    } else {
        count_underran(q, cs.drop_last()) + if underran(replay_run(q, cs.drop_last()), cs.last()) { 1int } else { 0int }
    }
}

/// The summary of a replay counts, over any sequence of reads and writes, the writes that
/// differed from the recorded transfer they popped and the calls that found their queue empty.
pub proof fn lemma_replay_counts(q: ReplayState, cs: Seq<ReplayCall>)
    ensures
        replay_run(q, cs).divergences == q.divergences + count_diverged(q, cs),
        replay_run(q, cs).underruns == q.underruns + count_underran(q, cs),
    decreases cs.len(),
{
    if cs.len() > 0 {
        lemma_replay_counts(q, cs.drop_last());
    }
}

impl ReplayLog {
    /// The replay's state: its queues and counters.
    pub open spec fn state(&self) -> ReplayState {
        ReplayState {
            cmd_in: self.cmd_in@.map_values(|v: Vec<u8>| v@),
            cmd_out: self.cmd_out@.map_values(|v: Vec<u8>| v@),
            data_in: self.data_in@.map_values(|v: Vec<u8>| v@),
            data_out: self.data_out@.map_values(|v: Vec<u8>| v@),
            divergences: self.divergences as int,
            underruns: self.underruns as int,
        }
    }

    /// The session that the lines of a capture record: its first device line, and each
    /// channel's transfers in order. None when there is no device line.
    pub fn from_lines(lines: Vec<ReplayLine>) -> (r: Option<ReplayLog>)
        ensures
            first_device(lines@) is None <==> r is None,
            r matches Some(log) ==> {
                &&& Some(log.device) == first_device(lines@)
                &&& views(log.cmd_in@) == queue_spec(lines@, 0)
                &&& views(log.cmd_out@) == queue_spec(lines@, 1)
                &&& views(log.data_in@) == queue_spec(lines@, 2)
                &&& views(log.data_out@) == queue_spec(lines@, 3)
                &&& log.divergences == 0
                &&& log.underruns == 0
            },
    {
        let ghost all = lines@;
        let mut device: Option<ReplayDevice> = None;
        let mut q0: VecDeque<Vec<u8>> = VecDeque::new();
        let mut q1: VecDeque<Vec<u8>> = VecDeque::new();
        let mut q2: VecDeque<Vec<u8>> = VecDeque::new();
        let mut q3: VecDeque<Vec<u8>> = VecDeque::new();
        let mut rest = lines;
        let n = rest.len();
        let mut k: usize = 0;
        proof {
            assert(all.take(0) =~= Seq::<ReplayLine>::empty());
            assert(views(q0@) =~= Seq::<Seq<u8>>::empty());
            assert(views(q1@) =~= Seq::<Seq<u8>>::empty());
            assert(views(q2@) =~= Seq::<Seq<u8>>::empty());
            assert(views(q3@) =~= Seq::<Seq<u8>>::empty());
        }
        while k < n
            invariant
                n == all.len(),
                k <= n,
                rest@ =~= all.skip(k as int),
                device == first_device(all.take(k as int)),
                views(q0@) == queue_spec(all.take(k as int), 0),
                views(q1@) == queue_spec(all.take(k as int), 1),
                views(q2@) == queue_spec(all.take(k as int), 2),
                views(q3@) == queue_spec(all.take(k as int), 3),
            decreases n - k,
        {
            let line = rest.remove(0);
            let ghost pre = all.take(k as int);
            proof {
                assert(line == all[k as int]);
                assert(all.take(k + 1).drop_last() =~= pre);
                assert(all.take(k + 1).last() == line);
            }
            match line {
                ReplayLine::Device(d) => {
                    if device.is_none() {
                        device = Some(d);
                    }
                }
                ReplayLine::Transfer { chan, dir, hex } => {
                    let bytes = decode_hex(hex.as_str());
                    match classify(chan.as_str(), dir.as_str()) {
                        Some(0) => {
                            let ghost v0 = q0@;
                            q0.push_back(bytes);
                            proof { assert(views(q0@) =~= views(v0).push(bytes@)); }
                        }
                        Some(1) => {
                            let ghost v0 = q1@;
                            q1.push_back(bytes);
                            proof { assert(views(q1@) =~= views(v0).push(bytes@)); }
                        }
                        Some(2) => {
                            let ghost v0 = q2@;
                            q2.push_back(bytes);
                            proof { assert(views(q2@) =~= views(v0).push(bytes@)); }
                        }
                        Some(3) => {
                            let ghost v0 = q3@;
                            q3.push_back(bytes);
                            proof { assert(views(q3@) =~= views(v0).push(bytes@)); }
                        }
                        _ => {}
                    }
                }
                ReplayLine::Other => {}
            }
            k = k + 1;
        }
        proof { assert(all.take(n as int) =~= all); }
        match device {
            Some(d) => Some(ReplayLog {
                device: d,
                cmd_in: q0,
                cmd_out: q1,
                data_in: q2,
                data_out: q3,
                divergences: 0,
                underruns: 0,
            }),
            None => None,
        }
    }

    /// The next recorded IN transfer of `chan`, or an empty one (counted as an underrun) when
    /// its queue is exhausted.
    pub fn serve_read(&mut self, chan: Chan) -> (r: Vec<u8>)
        requires
            call_queue(old(self).state(), ReplayCall::Read(chan)).len() == 0 ==> old(self).underruns < u32::MAX,
        ensures
            final(self).state() == replay_step(old(self).state(), ReplayCall::Read(chan)),
            final(self).device == old(self).device,
            final(self).cmd_out@ == old(self).cmd_out@,
            final(self).data_out@ == old(self).data_out@,
            final(self).divergences == old(self).divergences,
            ({
                let q0 = if chan == Chan::Cmd { old(self).cmd_in@ } else { old(self).data_in@ };
                let q1 = if chan == Chan::Cmd { final(self).cmd_in@ } else { final(self).data_in@ };
                &&& (if chan == Chan::Cmd { final(self).data_in@ == old(self).data_in@ } else { final(self).cmd_in@ == old(self).cmd_in@ })
                &&& if q0.len() > 0 {
                    r == q0[0] && q1 == q0.skip(1) && final(self).underruns == old(self).underruns
                } else {
                    r@.len() == 0 && q1 == q0 && final(self).underruns == old(self).underruns + 1
                }
            }),
    {
        let popped = match chan {
            Chan::Cmd => self.cmd_in.pop_front(),
            Chan::Data => self.data_in.pop_front(),
        };
        let r = match popped {
            Some(b) => b,
            None => {
                self.underruns = self.underruns + 1;
                Vec::new()
            }
        };
        proof {
            let c = ReplayCall::Read(chan);
            let want = replay_step(old(self).state(), c);
            assert(self.state().cmd_in =~= want.cmd_in);
            assert(self.state().data_in =~= want.data_in);
            assert(self.state().cmd_out =~= want.cmd_out);
            assert(self.state().data_out =~= want.data_out);
        }
        r
    }

    /// Consume the next recorded OUT transfer of `chan`, counting a divergence when `data`
    /// differs from it and an underrun when the queue is exhausted.
    pub fn consume_write(&mut self, chan: Chan, data: &[u8])
        requires
            call_queue(old(self).state(), ReplayCall::Write(chan, data@)).len() == 0 ==> old(self).underruns < u32::MAX,
            call_queue(old(self).state(), ReplayCall::Write(chan, data@)).len() > 0 ==> old(self).divergences < u32::MAX,
        ensures
            final(self).state() == replay_step(old(self).state(), ReplayCall::Write(chan, data@)),
            final(self).device == old(self).device,
            final(self).cmd_in@ == old(self).cmd_in@,
            final(self).data_in@ == old(self).data_in@,
            ({
                let q0 = if chan == Chan::Cmd { old(self).cmd_out@ } else { old(self).data_out@ };
                let q1 = if chan == Chan::Cmd { final(self).cmd_out@ } else { final(self).data_out@ };
                &&& (if chan == Chan::Cmd { final(self).data_out@ == old(self).data_out@ } else { final(self).cmd_out@ == old(self).cmd_out@ })
                &&& if q0.len() > 0 {
                    &&& q1 == q0.skip(1)
                    &&& final(self).underruns == old(self).underruns
                    &&& final(self).divergences == old(self).divergences + if q0[0]@ == data@ { 0int } else { 1int }
                } else {
                    &&& q1 == q0
                    &&& final(self).underruns == old(self).underruns + 1
                    &&& final(self).divergences == old(self).divergences
                }
            }),
    {
        let popped = match chan {
            Chan::Cmd => self.cmd_out.pop_front(),
            Chan::Data => self.data_out.pop_front(),
        };
        match popped {
            Some(recorded) => {
                if !same_bytes(recorded.as_slice(), data) {
                    self.divergences = self.divergences + 1;
                }
            }
            None => {
                self.underruns = self.underruns + 1;
            }
        }
        proof {
            let c = ReplayCall::Write(chan, data@);
            let want = replay_step(old(self).state(), c);
            assert(self.state().cmd_in =~= want.cmd_in);
            assert(self.state().data_in =~= want.data_in);
            assert(self.state().cmd_out =~= want.cmd_out);
            assert(self.state().data_out =~= want.data_out);
            let q0 = call_queue(old(self).state(), c);
            if q0.len() > 0 {
                let raw = if chan == Chan::Cmd { old(self).cmd_out@ } else { old(self).data_out@ };
                assert(q0[0] == raw[0]@);
            }
        }
    }

    /// How the replay went: (divergences, underruns).
    pub fn summary(&self) -> (r: (u32, u32))
        ensures
            r == (self.divergences, self.underruns),
    {
        (self.divergences, self.underruns)
    }
}

/// The two byte strings are equal.
fn same_bytes(a: &[u8], b: &[u8]) -> (r: bool)
    ensures
        r == (a@ == b@),
{
    if a.len() != b.len() {
        return false;
    }
    let mut i: usize = 0;
    while i < a.len()
        invariant
            i <= a@.len(),
            a@.len() == b@.len(),
            forall|j: int| 0 <= j < i ==> a@[j] == b@[j],
        decreases a@.len() - i,
    {
        if a[i] != b[i] {
            return false;
        }
        i = i + 1;
    }
    proof { assert(a@ =~= b@); }
    true
}

/// The kind of an I/O error from opening a device, as far as it decides the error reported.
#[derive(Debug, Clone, Copy, PartialEq, Eq, Structural)]
pub enum OpenErrorKind {
    PermissionDenied,
    ResourceBusy,
    Other,
}

/// The error reported for a failed open: access denied and busy are told apart from the rest;
/// `msg` is the I/O error's text.
pub fn classify_open_error(kind: OpenErrorKind, msg: String) -> (e: UsbError)
    ensures
        e == (match kind {
            OpenErrorKind::PermissionDenied => UsbError::AccessDenied(msg),
            OpenErrorKind::ResourceBusy => UsbError::Busy(msg),
            OpenErrorKind::Other => UsbError::Open(msg),
        }),
{
    match kind {
        OpenErrorKind::PermissionDenied => UsbError::AccessDenied(msg),
        OpenErrorKind::ResourceBusy => UsbError::Busy(msg),
        OpenErrorKind::Other => UsbError::Open(msg),
    }
}

/// The state of a running capture: the sequence number of the next line.
#[derive(Debug, Clone, Copy, PartialEq, Eq, Structural)]
pub struct CaptureState {
    pub next_seq: u64,
}

/// Record one bulk transfer: nothing when no capture was started; otherwise its line (at
/// `t_us` microseconds since the start), with the next sequence number, which is then taken.
pub fn record(capture: &mut Option<CaptureState>, t_us: u128, ep: u8, chan: Chan, dir: Dir, data: &[u8], ok: bool)
    -> (line: Option<String>)
    requires
        *old(capture) matches Some(c) ==> c.next_seq < u64::MAX,
    ensures
        *old(capture) is None ==> line is None && *final(capture) is None,
        *old(capture) matches Some(c) ==> line matches Some(l)
            && l@ == capture_line(c.next_seq, t_us, ep, chan, dir, data@, ok)
            && *final(capture) == Some(CaptureState { next_seq: (c.next_seq + 1) as u64 }),
{
    match capture {
        None => None,
        Some(c) => {
            let seq = c.next_seq;
            c.next_seq = seq + 1;
            Some(encode_line(seq, t_us, ep, chan, dir, data, ok))
        },
    }
}

/// A lower-case hex digit reads back as its value.
pub proof fn lemma_hex_digit_value(n: nat)
    requires
        n < 16,
    ensures
        crate::ihex::hex_val(hex_lower(n)) == Some(n as u8),
{
}

/// The two digits of a byte read back as the byte.
pub proof fn lemma_hex2_value(b: u8)
    ensures
        hex2(b).len() == 2,
        crate::ihex::hex_val(hex2(b)[0]) == Some(b / 16),
        crate::ihex::hex_val(hex2(b)[1]) == Some(b % 16),
        (b / 16) * 16 + b % 16 == b,
{
    lemma_hex_digit_value((b / 16) as nat);
    lemma_hex_digit_value((b % 16) as nat);
}

proof fn lemma_hex_bytes_front(d: Seq<u8>)
    requires
        d.len() > 0,
    ensures
        hex_bytes(d) == hex2(d[0]) + hex_bytes(d.skip(1)),
    decreases d.len(),
{
    if d.len() == 1 {
        assert(d.skip(1) =~= Seq::<u8>::empty());
        assert(d.drop_last() =~= Seq::<u8>::empty());
        assert(hex_bytes(d.drop_last()) =~= Seq::<char>::empty());
        assert(hex_bytes(d.skip(1)) =~= Seq::<char>::empty());
        assert(d.last() == d[0]);
        assert(hex_bytes(d) =~= hex2(d[0]));
    } else {
        lemma_hex_bytes_front(d.drop_last());
        assert(d.drop_last().skip(1) =~= d.skip(1).drop_last());
        assert(d.skip(1).last() == d.last());
        assert(hex_bytes(d) =~= hex2(d[0]) + hex_bytes(d.skip(1)));
    }
}

/// What a capture records, replay gives back: the hex of a transfer's bytes, as the capture line
/// writes it, decodes to exactly those bytes.
pub proof fn lemma_replay_decodes_capture(d: Seq<u8>)
    ensures
        hex_prefix_bytes(hex_bytes(d)) == d,
    decreases d.len(),
{
    if d.len() > 0 {
        lemma_hex_bytes_front(d);
        lemma_hex2_value(d[0]);
        let cs = hex_bytes(d);
        assert(cs.skip(2) =~= hex_bytes(d.skip(1)));
        assert(cs[0] == hex2(d[0])[0]);
        assert(cs[1] == hex2(d[0])[1]);
        lemma_replay_decodes_capture(d.skip(1));
        assert(d =~= seq![d[0]] + d.skip(1));
    }
}

} // verus!
