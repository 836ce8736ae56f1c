//! The sequenced debug-module console (`dmseq`), host side. A session is a small state machine
//! fed with the eight mailbox bytes of one poll; each target frame carries a status byte, up to
//! six payload bytes and a CRC-8, and each host answer carries a status byte, up to two payload
//! bytes and a CRC-8.

use vstd::prelude::*;

use crate::dm::DebugModule;
use crate::dmi::{added, faulted_since, grows, lemma_grows_by, rd, wr, DmiError, DmiOp, DtmAccess, DMDATA0, DMDATA1};

verus! {

/// One step of the CRC-8 shift register (polynomial 0x07).
pub open spec fn crc_shift(c: u8) -> u8 {
    if c & 0x80u8 != 0 {
        ((c << 1u8) ^ 0x07u8) as u8
    } else {
        (c << 1u8) as u8
    }
}

/// `n` shift steps.
pub open spec fn crc_shifts(c: u8, n: nat) -> u8
    decreases n,
{
    if n == 0 {
        c
    } else {
        crc_shifts(crc_shift(c), (n - 1) as nat)
    }
}

/// The register after absorbing one byte.
pub open spec fn crc_byte(c: u8, b: u8) -> u8 {
    crc_shifts(c ^ b, 8)
}

/// CRC-8 with polynomial 0x07, initial value 0xFF, no reflection and no final xor.
pub open spec fn crc8_spec(s: Seq<u8>) -> u8
    decreases s.len(),
{
    if s.len() == 0 {
        0xffu8
    } else {
        crc_byte(crc8_spec(s.drop_last()), s.last())
    }
}

/// CRC-8 (poly 0x07, init 0xFF, no reflection, no final xor) over `bytes`.
pub fn crc8(bytes: &[u8]) -> (crc: u8)
    ensures
        crc == crc8_spec(bytes@),
{
    let mut crc: u8 = 0xff;
    let mut i: usize = 0;
    while i < bytes.len()
        invariant
            i <= bytes.len(),
            crc == crc8_spec(bytes@.take(i as int)),
        decreases bytes.len() - i,
    {
        let b = bytes[i];
        let ghost start = crc ^ b;
        crc = crc ^ b;
        let mut k: u8 = 0;
        while k < 8
            invariant
                k <= 8,
                crc == crc_shifts(start, k as nat),
            decreases 8 - k,
        {
            proof {
                lemma_crc_shifts_step(start, k as nat);
            }
            crc = if crc & 0x80 != 0 {
                (crc << 1) ^ 0x07
            } else {
                crc << 1
            };
            k = k + 1;
        }
        assert(bytes@.take(i + 1).drop_last() =~= bytes@.take(i as int));
        i = i + 1;
    }
    assert(bytes@.take(bytes.len() as int) =~= bytes@);
    crc
}

proof fn lemma_crc_shifts_step(c: u8, n: nat)
    ensures
        crc_shifts(c, n + 1) == crc_shift(crc_shifts(c, n)),
    decreases n,
{
    reveal_with_fuel(crc_shifts, 2);
    if n > 0 {
        lemma_crc_shifts_step(crc_shift(c), (n - 1) as nat);
    }
}


/// Largest target -> host payload (byte 0 is the status, the CRC follows the payload, and the
/// two data registers hold eight bytes).
pub const MAX_TARGET_PAYLOAD: usize = 6;
/// Largest host -> target payload: the host only ever writes DATA0, and the CRC follows.
pub const MAX_HOST_PAYLOAD: usize = 2;

/// Status-byte bits (both directions; the host's answer has bit 7 clear).
pub const BIT_T: u8 = 0x80;
pub const BIT_TO: u8 = 0x40;
pub const BIT_S: u8 = 0x20;
pub const BIT_A: u8 = 0x10;
pub const BIT_SYN: u8 = 0x08;
pub const MASK_N: u8 = 0x07;

/// A little-endian word from its four bytes.
pub open spec fn le_word(b: Seq<u8>) -> u32 {
    (b[0] as u32) | ((b[1] as u32) << 8u32) | ((b[2] as u32) << 16u32) | ((b[3] as u32) << 24u32)
}

/// Byte `i` (0 = least significant) of a word.
pub open spec fn word_byte(w: u32, i: int) -> u8 {
    ((w >> ((8 * i) as u32)) & 0xffu32) as u8
}

/// The four bytes of a word, spelled out.
pub proof fn lemma_word_bytes(w: u32)
    ensures
        word_byte(w, 0) == (w & 0xff) as u8,
        word_byte(w, 1) == ((w >> 8) & 0xff) as u8,
        word_byte(w, 2) == ((w >> 16) & 0xff) as u8,
        word_byte(w, 3) == ((w >> 24) & 0xff) as u8,
{
    assert((w >> 0u32) == w) by (bit_vector);
}

/// Declared payload length of a frame (the low three bits of its status byte).
pub open spec fn frame_len(b: Seq<u8>) -> int {
    (b[0] & MASK_N) as int
}

/// A frame is valid when its length fits and its CRC checks.
pub open spec fn frame_valid(b: Seq<u8>) -> bool {
    frame_len(b) <= MAX_TARGET_PAYLOAD && crc8_spec(b.take(1 + frame_len(b))) == b[1 + frame_len(b)]
}

pub open spec fn frame_s(b: Seq<u8>) -> bool {
    b[0] & BIT_S != 0
}

pub open spec fn frame_a(b: Seq<u8>) -> bool {
    b[0] & BIT_A != 0
}

pub open spec fn frame_syn(b: Seq<u8>) -> bool {
    b[0] & BIT_SYN != 0
}

pub open spec fn frame_to(b: Seq<u8>) -> bool {
    b[0] & BIT_TO != 0
}

/// The payload a valid frame carries.
pub open spec fn frame_payload(b: Seq<u8>) -> Seq<u8> {
    b.subrange(1, 1 + frame_len(b))
}

/// The status byte of an answer: K in bit 5, H in bit 4, the payload length in the low bits.
pub open spec fn answer_status(k: bool, h: bool, len: nat) -> u8 {
    ((if k { BIT_S } else { 0u8 }) | (if h { BIT_A } else { 0u8 }) | (len as u8)) as u8
}

/// The four bytes of an answer: status, payload, CRC, zero padding.
pub open spec fn answer_bytes(k: bool, h: bool, payload: Seq<u8>) -> Seq<u8> {
    let head = seq![answer_status(k, h, payload.len())] + payload;
    let body = head.push(crc8_spec(head));
    body + Seq::new((4 - body.len()) as nat, |i: int| 0u8)
}

/// The answer word written back to DATA0.
pub open spec fn answer_word(k: bool, h: bool, payload: Seq<u8>) -> u32 {
    le_word(answer_bytes(k, h, payload))
}

/// The abstract state of a host-side session.
pub struct DmSeqState {
    pub synced: bool,
    pub last_s: bool,
    pub last_syn: bool,
    pub h: bool,
    pub pending: Seq<u8>,
    pub bad_run: u8,
    pub to_reported: bool,
    pub duplicates: u64,
    pub invalid: u64,
}

impl DmSeqState {
    /// At most one host payload of up to two bytes is ever outstanding.
    pub open spec fn well_formed(self) -> bool {
        self.pending.len() <= MAX_HOST_PAYLOAD
    }
}

/// What one poll reports, abstractly.
pub struct PollSpec {
    pub received: Seq<u8>,
    pub sent: nat,
    pub frame: bool,
    pub timed_out: bool,
}

pub open spec fn poll_empty() -> PollSpec {
    PollSpec { received: Seq::empty(), sent: 0, frame: false, timed_out: false }
}

/// Rule 1 for a word that does not validate: count it, and once synced break a deadlock after
/// three in a row by answering the last accepted S with no payload.
pub open spec fn react_invalid(st: DmSeqState) -> (DmSeqState, Option<u32>) {
    let run = if st.bad_run == u8::MAX { u8::MAX } else { (st.bad_run + 1) as u8 };
    let counted = DmSeqState { invalid: (st.invalid + 1) as u64, bad_run: run, ..st };
    if run >= 3 && st.synced {
        (
            DmSeqState { bad_run: 0, ..counted },
            Some(answer_word(st.last_s, st.h, Seq::empty())),
        )
    } else {
        (counted, None)
    }
}

/// Rule 2: a frame with the S of the last accepted frame is a duplicate, unless it is a SYN frame
/// following a frame that was not SYN.
pub open spec fn is_duplicate(st: DmSeqState, b: Seq<u8>) -> bool {
    st.synced && frame_s(b) == st.last_s && (!frame_syn(b) || st.last_syn)
}

/// Rule 3: (re)synchronise on a new SYN frame, or on the first frame of a session.
pub open spec fn after_sync(st: DmSeqState, b: Seq<u8>) -> DmSeqState {
    if !is_duplicate(st, b) && (frame_syn(b) || !st.synced) {
        DmSeqState {
            last_s: !frame_s(b),
            h: !frame_a(b),
            pending: Seq::empty(),
            synced: true,
            bad_run: 0,
            ..st
        }
    } else {
        DmSeqState { bad_run: 0, ..st }
    }
}

/// Rule 4: a frame whose S differs from the last accepted one is new and delivered.
pub open spec fn after_accept(st: DmSeqState, b: Seq<u8>) -> DmSeqState {
    if frame_s(b) != st.last_s {
        DmSeqState { last_s: frame_s(b), last_syn: frame_syn(b), ..st }
    } else {
        DmSeqState { duplicates: (st.duplicates + 1) as u64, ..st }
    }
}

/// Rule 5: the target acknowledges the outstanding host payload by echoing H in A.
pub open spec fn after_ack(st: DmSeqState, b: Seq<u8>) -> DmSeqState {
    if st.pending.len() > 0 && frame_a(b) == st.h {
        DmSeqState { h: !st.h, pending: Seq::empty(), ..st }
    } else {
        st
    }
}

/// How many bytes of `input` are taken over: up to two, and only when nothing is outstanding.
pub open spec fn take_count(st: DmSeqState, input: Seq<u8>) -> nat {
    if st.pending.len() == 0 && input.len() > 0 {
        if input.len() < MAX_HOST_PAYLOAD {
            input.len()
        } else {
            MAX_HOST_PAYLOAD as nat
        }
    } else {
        0
    }
}

/// The host rules applied to the eight bytes `b` of a mailbox read with `input` waiting:
/// the next state, the word to write back (None: do not answer) and the report.
pub open spec fn react_spec(st: DmSeqState, b: Seq<u8>, input: Seq<u8>) -> (DmSeqState, Option<u32>, PollSpec) {
    if !frame_valid(b) {
        let (next, answer) = react_invalid(st);
        (next, answer, poll_empty())
    } else {
        let st2 = after_sync(st, b);
        let st3 = after_accept(st2, b);
        let received = if frame_s(b) != st2.last_s { frame_payload(b) } else { Seq::empty() };
        let st4 = after_ack(st3, b);
        let sent = take_count(st4, input);
        let pending = if sent > 0 { input.take(sent as int) } else { st4.pending };
        let st5 = DmSeqState { pending: pending, to_reported: frame_to(b), ..st4 };
        (
            st5,
            Some(answer_word(frame_s(b), st5.h, pending)),
            PollSpec {
                received: received,
                sent: sent,
                frame: true,
                timed_out: frame_to(b) && !st4.to_reported,
            },
        )
    }
}

/// Result of one poll of the sequenced console.
#[derive(Debug, Clone, PartialEq, Eq)]
pub struct DmSeqPoll {
    /// Target -> host payload accepted this poll (empty for a duplicate, an empty frame, or when
    /// the mailbox held no frame).
    pub received: Vec<u8>,
    /// How many leading bytes of `host_input` were taken over for delivery (0..=2).
    pub sent: usize,
    /// A valid frame was read (new or duplicate). False for "nothing there" and for a bad word.
    pub frame: bool,
    /// The target had stopped waiting for an answer, so output written in the meantime was
    /// dropped. Reported once per episode.
    pub timed_out: bool,
}

impl DmSeqPoll {
    /// The report of a poll that read nothing usable.
    pub fn empty() -> (p: DmSeqPoll)
        ensures
            p.spec() == poll_empty(),
    {
        DmSeqPoll { received: Vec::new(), sent: 0, frame: false, timed_out: false }
    }

    pub open spec fn spec(&self) -> PollSpec {
        PollSpec {
            received: self.received@,
            sent: self.sent as nat,
            frame: self.frame,
            timed_out: self.timed_out,
        }
    }
}

/// One host-side session. A session starts unsynced; a host that resets the target starts a new
/// one, because a one-bit SYN cannot always tell a restarted target from a reposted frame.
#[derive(Debug, Clone)]
pub struct DmSeq {
    synced: bool,
    last_s: bool,
    last_syn: bool,
    h: bool,
    pending: Vec<u8>,
    bad_run: u8,
    to_reported: bool,
    /// Frames discarded as duplicates (diagnostics).
    pub duplicates: u64,
    /// Words rejected as invalid - bad CRC or N > 6 (diagnostics).
    pub invalid: u64,
}

impl View for DmSeq {
    type V = DmSeqState;

    closed spec fn view(&self) -> DmSeqState {
        DmSeqState {
            synced: self.synced,
            last_s: self.last_s,
            last_syn: self.last_syn,
            h: self.h,
            pending: self.pending@,
            bad_run: self.bad_run,
            to_reported: self.to_reported,
            duplicates: self.duplicates,
            invalid: self.invalid,
        }
    }
}

/// The state of a fresh session.
pub open spec fn initial_state() -> DmSeqState {
    DmSeqState {
        synced: false,
        last_s: false,
        last_syn: false,
        h: false,
        pending: Seq::empty(),
        bad_run: 0,
        to_reported: false,
        duplicates: 0,
        invalid: 0,
    }
}

/// Copy `b[from..to]` into a fresh vector.
fn copy_range(b: &[u8], from: usize, to: usize) -> (out: Vec<u8>)
    requires
        from <= to <= b@.len(),
    ensures
        out@ == b@.subrange(from as int, to as int),
{
    let mut out: Vec<u8> = Vec::new();
    let mut i = from;
    while i < to
        invariant
            from <= i <= to <= b@.len(),
            out@ == b@.subrange(from as int, i as int),
        decreases to - i,
    {
        out.push(b[i]);
        i = i + 1;
    }
    out
}

/// Copy `b[from..to]` of a mailbox read into a fresh vector.
fn copy_frame(b: &[u8; 8], from: usize, to: usize) -> (out: Vec<u8>)
    requires
        from <= to <= 8,
    ensures
        out@ == b@.subrange(from as int, to as int),
{
    let mut out: Vec<u8> = Vec::new();
    let mut i = from;
    while i < to
        invariant
            from <= i <= to <= 8,
            b@.len() == 8,
            out@ == b@.subrange(from as int, i as int),
        decreases to - i,
    {
        out.push(b[i]);
        i = i + 1;
    }
    out
}

impl DmSeq {
    pub fn new() -> (s: DmSeq)
        ensures
            s@ == initial_state(),
            s@.well_formed(),
    {
        DmSeq {
            synced: false,
            last_s: false,
            last_syn: false,
            h: false,
            pending: Vec::new(),
            bad_run: 0,
            to_reported: false,
            duplicates: 0,
            invalid: 0,
        }
    }

    /// Whether a frame has ever been accepted in this session.
    pub fn synced(&self) -> (r: bool)
        ensures
            r == self@.synced,
    {
        self.synced
    }

    /// Host payload handed over but not yet acknowledged.
    pub fn pending(&self) -> (r: &[u8])
        ensures
            r@ == self@.pending,
    {
        self.pending.as_slice()
    }

    /// The host rules of the protocol, applied to the eight bytes of a mailbox read. Returns the
    /// word to write back (None = do not answer, read again next poll) and what the caller should
    /// report.
    pub fn react(&mut self, b: &[u8; 8], host_input: &[u8]) -> (r: (Option<u32>, DmSeqPoll))
        requires
            old(self)@.well_formed(),
            old(self)@.invalid < u64::MAX,
            old(self)@.duplicates < u64::MAX,
        ensures
            final(self)@.well_formed(),
            ({
                let (st, answer, poll) = react_spec(old(self)@, b@, host_input@);
                &&& final(self)@ == st
                &&& r.0 == answer
                &&& r.1.spec() == poll
            }),
    {
        let b0 = b[0];
        let n = (b0 & MASK_N) as usize;
        assert((b0 & 7u8) <= 7u8) by (bit_vector);
        let valid = if n > MAX_TARGET_PAYLOAD {
            false
        } else {
            let head = copy_frame(b, 0, 1 + n);
            assert(head@ =~= b@.take(1 + n as int));
            crc8(head.as_slice()) == b[1 + n]
        };
        if !valid {
            self.reject_word()
        } else {
            self.take_frame(b, host_input)
        }
    }

    /// Rule 1 for a word that does not validate.
    fn reject_word(&mut self) -> (r: (Option<u32>, DmSeqPoll))
        requires
            old(self)@.well_formed(),
            old(self)@.invalid < u64::MAX,
        ensures
            final(self)@.well_formed(),
            ({
                let (st, answer) = react_invalid(old(self)@);
                &&& final(self)@ == st
                &&& r.0 == answer
                &&& r.1.spec() == poll_empty()
            }),
    {
        self.invalid = self.invalid + 1;
        self.bad_run = self.bad_run.saturating_add(1);
        if self.bad_run >= 3 && self.synced {
            self.bad_run = 0;
            let none: Vec<u8> = Vec::new();
            let w = self.answer(self.last_s, none.as_slice());
            return (Some(w), DmSeqPoll::empty());
        }
        (None, DmSeqPoll::empty())
    }

    /// Rules 2 to 4 for a valid frame: resynchronise if needed, then deliver a new payload or
    /// count a duplicate. Returns the delivered payload.
    fn sync_and_accept(&mut self, b: &[u8; 8]) -> (received: Vec<u8>)
        requires
            old(self)@.well_formed(),
            old(self)@.duplicates < u64::MAX,
            frame_valid(b@),
        ensures
            final(self)@.well_formed(),
            final(self)@ == after_accept(after_sync(old(self)@, b@), b@),
            received@ == (if frame_s(b@) != after_sync(old(self)@, b@).last_s {
                frame_payload(b@)
            } else {
                Seq::empty()
            }),
    {
        let b0 = b[0];
        let n = (b0 & MASK_N) as usize;
        let s = b0 & BIT_S != 0;
        let a = b0 & BIT_A != 0;
        let syn = b0 & BIT_SYN != 0;
        self.bad_run = 0;
        let duplicate = self.synced && s == self.last_s && (!syn || self.last_syn);
        if !duplicate && (syn || !self.synced) {
            self.last_s = !s;
            self.h = !a;
            self.pending.clear();
            self.synced = true;
        }
        let ghost st2 = self@;
        assert(st2 == after_sync(old(self)@, b@));
        if s != self.last_s {
            let received = copy_frame(b, 1, 1 + n);
            self.last_s = s;
            self.last_syn = syn;
            received
        } else {
            self.duplicates = self.duplicates + 1;
            Vec::new()
        }
    }

    /// Rule 5 and the hand-over of new host input. Returns how many bytes were taken.
    fn ack_and_take(&mut self, a: bool, host_input: &[u8]) -> (sent: usize)
        requires
            old(self)@.well_formed(),
        ensures
            final(self)@.well_formed(),
            ({
                let st4 = if old(self)@.pending.len() > 0 && a == old(self)@.h {
                    DmSeqState { h: !old(self)@.h, pending: Seq::empty(), ..old(self)@ }
                } else {
                    old(self)@
                };
                let n = take_count(st4, host_input@);
                &&& sent == n
                &&& final(self)@ == (DmSeqState {
                    pending: if n > 0 { host_input@.take(n as int) } else { st4.pending },
                    ..st4
                })
            }),
    {
        if self.pending.len() > 0 && a == self.h {
            self.h = !self.h;
            self.pending.clear();
        }
        let ghost st4 = self@;
        let mut sent: usize = 0;
        if self.pending.len() == 0 && host_input.len() > 0 {
            sent = if host_input.len() < MAX_HOST_PAYLOAD {
                host_input.len()
            } else {
                MAX_HOST_PAYLOAD
            };
            let mut i: usize = 0;
            while i < sent
                invariant
                    i <= sent <= host_input@.len(),
                    sent <= MAX_HOST_PAYLOAD,
                    self.pending@ =~= host_input@.take(i as int),
                    self@ == (DmSeqState { pending: self.pending@, ..st4 }),
                decreases sent - i,
            {
                self.pending.push(host_input[i]);
                i = i + 1;
            }
        }
        sent
    }

    /// All rules for a frame that validates.
    fn take_frame(&mut self, b: &[u8; 8], host_input: &[u8]) -> (r: (Option<u32>, DmSeqPoll))
        requires
            old(self)@.well_formed(),
            old(self)@.duplicates < u64::MAX,
            frame_valid(b@),
        ensures
            final(self)@.well_formed(),
            ({
                let (st, answer, poll) = react_spec(old(self)@, b@, host_input@);
                &&& final(self)@ == st
                &&& r.0 == answer
                &&& r.1.spec() == poll
            }),
    {
        let b0 = b[0];
        let s = b0 & BIT_S != 0;
        let a = b0 & BIT_A != 0;
        let timed_out = b0 & BIT_TO != 0;
        let received = self.sync_and_accept(b);
        let sent = self.ack_and_take(a, host_input);
        let report_to = timed_out && !self.to_reported;
        self.to_reported = timed_out;
        let word = self.answer(s, self.pending.as_slice());
        (Some(word), DmSeqPoll { received, sent, frame: true, timed_out: report_to })
    }

    /// Build an answer word: K = `k`, H = this session's `h`, M = `payload.len()`, then the CRC.
    fn answer(&self, k: bool, payload: &[u8]) -> (w: u32)
        requires
            payload@.len() <= MAX_HOST_PAYLOAD,
        ensures
            w == answer_word(k, self@.h, payload@),
    {
        let status: u8 = (if k { BIT_S } else { 0 }) | (if self.h { BIT_A } else { 0 }) | (payload.len() as u8);
        let mut head: Vec<u8> = Vec::new();
        head.push(status);
        let mut i: usize = 0;
        while i < payload.len()
            invariant
                i <= payload@.len() <= 2,
                head@ == seq![status] + payload@.take(i as int),
            decreases payload.len() - i,
        {
            head.push(payload[i]);
            i = i + 1;
        }
        assert(payload@.take(payload@.len() as int) =~= payload@);
        let crc = crc8(head.as_slice());
        head.push(crc);
        let ghost body = head@;
        assert(body.len() == payload@.len() + 2);
        while head.len() < 4
            invariant
                body.len() <= head@.len() <= 4,
                head@ =~= body + Seq::new((head@.len() - body.len()) as nat, |i: int| 0u8),
            decreases 4 - head.len(),
        {
            head.push(0);
            assert(head@ =~= body + Seq::new((head@.len() - body.len()) as nat, |i: int| 0u8));
        }
        let ghost expected = answer_bytes(k, self@.h, payload@);
        assert(head@ =~= expected);
        (head[0] as u32) | ((head[1] as u32) << 8) | ((head[2] as u32) << 16) | ((head[3] as u32) << 24)
    }
}


/// The eight bytes of a mailbox read: DATA0, then DATA1 when DATA0 announces three or more
/// payload bytes (zeros otherwise).
pub open spec fn mailbox_bytes(w0: u32, w1: Option<u32>) -> Seq<u8> {
    let hi = match w1 {
        Some(w) => seq![word_byte(w, 0), word_byte(w, 1), word_byte(w, 2), word_byte(w, 3)],
        None => seq![0u8, 0u8, 0u8, 0u8],
    };
    seq![word_byte(w0, 0), word_byte(w0, 1), word_byte(w0, 2), word_byte(w0, 3)] + hi
}

/// Whether DATA0 announces a payload long enough to spill into DATA1.
pub open spec fn needs_data1(w0: u32) -> bool {
    let n = word_byte(w0, 0) & MASK_N;
    3 <= n <= MAX_TARGET_PAYLOAD
}

impl<'a, T: DtmAccess> DebugModule<'a, T> {
    /// One sequenced-console exchange, in the order the protocol fixes: read DATA0; if it holds
    /// a frame whose N >= 3, read DATA1; check; only then write the answer. The core keeps
    /// running. A word with bit 7 clear is the host's own answer, still uncollected, or nothing
    /// yet: the mailbox is left alone and the poll is empty.
    pub fn dmseq_poll(&mut self, session: &mut DmSeq, host_input: &[u8]) -> (r: Result<DmSeqPoll, DmiError>)
        requires
            old(session)@.well_formed(),
            old(session)@.invalid < u64::MAX,
            old(session)@.duplicates < u64::MAX,
        ensures
            final(session)@.well_formed(),
            old(self).trace().len() <= final(self).trace().len(),
            r is Err ==> faulted_since(old(self).trace().len() as int, final(self).trace()),
            r is Ok ==> grows(old(self).trace(), final(self).trace()),
            r matches Ok(poll) ==> {
                let ops = added(old(self).trace(), final(self).trace());
                let w0 = crate::dm::read_value(ops[0]);
                &&& ops[0] == rd(DMDATA0, w0)
                &&& if w0 & 0x80 == 0 {
                    &&& ops.len() == 1
                    &&& poll.spec() == poll_empty()
                    &&& final(session)@ == old(session)@
                } else {
                    let w1 = if needs_data1(w0) { Some(crate::dm::read_value(ops[1])) } else { None };
                    let b = mailbox_bytes(w0, w1);
                    let (st, answer, p) = react_spec(old(session)@, b, host_input@);
                    let reads = if needs_data1(w0) { 2int } else { 1int };
                    &&& needs_data1(w0) ==> ops[1] == rd(DMDATA1, w1.unwrap())
                    &&& final(session)@ == st
                    &&& poll.spec() == p
                    &&& ops.len() == reads + if answer is Some { 1int } else { 0int }
                    &&& answer matches Some(w) ==> ops.last() == wr(DMDATA0, w)
                }
            },
    {
        let ghost t0 = self.trace();
        let w0 = self.read(DMDATA0)?;
        proof { lemma_word_bytes(w0); }
        if w0 & (BIT_T as u32) == 0 {
            proof {
                assert(self.trace() =~= t0 + seq![rd(DMDATA0, w0)]);
                lemma_grows_by(t0, seq![rd(DMDATA0, w0)]);
                assert((w0 & 0x80u32 == 0) == (w0 & (BIT_T as u32) == 0));
            }
            return Ok(DmSeqPoll::empty());
        }
        let b0 = (w0 & 0xff) as u8;
        let n = b0 & MASK_N;
        let mut ops_w1: Option<u32> = None;
        let b = if 3 <= n && n <= 6 {
            let w1 = self.read(DMDATA1)?;
            ops_w1 = Some(w1);
            [b0, ((w0 >> 8) & 0xff) as u8, ((w0 >> 16) & 0xff) as u8, ((w0 >> 24) & 0xff) as u8,
             (w1 & 0xff) as u8, ((w1 >> 8) & 0xff) as u8, ((w1 >> 16) & 0xff) as u8, ((w1 >> 24) & 0xff) as u8]
        } else {
            [b0, ((w0 >> 8) & 0xff) as u8, ((w0 >> 16) & 0xff) as u8, ((w0 >> 24) & 0xff) as u8, 0, 0, 0, 0]
        };
        let ghost t1 = self.trace();
        proof {
            match ops_w1 {
                Some(w1) => {
                    lemma_word_bytes(w1);
                    assert(t1 =~= t0 + seq![rd(DMDATA0, w0), rd(DMDATA1, w1)]);
                }
                None => {
                    assert(t1 =~= t0 + seq![rd(DMDATA0, w0)]);
                }
            }
            assert(b@ =~= mailbox_bytes(w0, ops_w1));
            assert((w0 & 0x80u32 == 0) == (w0 & (BIT_T as u32) == 0));
        }
        let (answer, poll) = session.react(&b, host_input);
        match answer {
            Some(word) => {
                self.write(DMDATA0, word)?;
                proof {
                    let ext = added(t0, t1).push(wr(DMDATA0, word));
                    lemma_grows_by(t0, added(t0, t1));
                    assert(self.trace() =~= t0 + ext);
                    lemma_grows_by(t0, ext);
                }
            }
            None => {
                proof {
                    lemma_grows_by(t0, added(t0, t1));
                    assert(t0 + added(t0, t1) =~= t1);
                }
            }
        }
        Ok(poll)
    }
}

/// Every poll, from any well-formed state and for any mailbox bytes and host input: an answer,
/// when there is one, is a well-formed host frame (bit 7 clear, at most two payload bytes, its
/// CRC in place); at most two input bytes, and no more than were offered, are taken over; at most
/// six bytes are received; and a poll that read no frame receives, sends and reports nothing.
pub proof fn lemma_poll_law(st: DmSeqState, b: Seq<u8>, input: Seq<u8>)
    requires
        st.well_formed(),
        b.len() == 8,
    ensures
        ({
            let (st2, answer, p) = react_spec(st, b, input);
            &&& answer matches Some(w) ==> {
                let bytes = Seq::new(4, |i: int| word_byte(w, i));
                let m = (bytes[0] & MASK_N) as int;
                &&& bytes[0] & BIT_T == 0
                &&& m <= MAX_HOST_PAYLOAD
                &&& crc8_spec(bytes.take(1 + m)) == bytes[1 + m]
            }
            &&& p.sent <= MAX_HOST_PAYLOAD
            &&& p.sent <= input.len()
            &&& p.received.len() <= MAX_TARGET_PAYLOAD
            &&& !p.frame ==> p.received.len() == 0 && p.sent == 0 && !p.timed_out
        }),
{
    if !frame_valid(b) {
        lemma_answer_is_well_formed(st.last_s, st.h, Seq::empty());
    } else {
        let st2 = after_sync(st, b);
        let st3 = after_accept(st2, b);
        let st4 = after_ack(st3, b);
        let sent = take_count(st4, input);
        let pending = if sent > 0 { input.take(sent as int) } else { st4.pending };
        let st5 = DmSeqState { pending: pending, to_reported: frame_to(b), ..st4 };
        assert(st4.pending.len() <= MAX_HOST_PAYLOAD);
        lemma_answer_is_well_formed(frame_s(b), st5.h, pending);
        assert(frame_payload(b).len() == frame_len(b));
    }
}

/// The state after handling the mailbox reads `frames`, with `inputs[i]` waiting at read `i`.
pub open spec fn react_seq(st: DmSeqState, frames: Seq<Seq<u8>>, inputs: Seq<Seq<u8>>) -> DmSeqState
    decreases frames.len(),
{
    if frames.len() == 0 {
        st
    } else {
        react_spec(react_seq(st, frames.drop_last(), inputs.drop_last()), frames.last(), inputs.last()).0
    }
}

/// Read `i` of the run reported a frame.
pub open spec fn frame_at(st: DmSeqState, frames: Seq<Seq<u8>>, inputs: Seq<Seq<u8>>, i: int) -> bool {
    react_spec(react_seq(st, frames.take(i), inputs.take(i)), frames[i], inputs[i]).2.frame
}

/// A session is synchronised exactly when some poll so far reported a frame: a new session is
/// not, invalid words never make it so, and once synchronised it stays so.
pub proof fn lemma_synced_iff_frame_seen(frames: Seq<Seq<u8>>, inputs: Seq<Seq<u8>>)
    requires
        frames.len() == inputs.len(),
    ensures
        react_seq(initial_state(), frames, inputs).synced
            <==> exists|i: int| 0 <= i < frames.len() && #[trigger] frame_at(initial_state(), frames, inputs, i),
    decreases frames.len(),
{
    let st0 = initial_state();
    if frames.len() > 0 {
        let n = frames.len() - 1;
        let fs = frames.drop_last();
        let xs = inputs.drop_last();
        lemma_synced_iff_frame_seen(fs, xs);
        assert(frames.take(n) =~= fs);
        assert(inputs.take(n) =~= xs);
        assert forall|i: int| 0 <= i < n implies frame_at(st0, frames, inputs, i) == #[trigger] frame_at(st0, fs, xs, i) by {
            assert(frames.take(i) =~= fs.take(i));
            assert(inputs.take(i) =~= xs.take(i));
        }
        let prev = react_seq(st0, fs, xs);
        let r = react_spec(prev, frames.last(), inputs.last());
        assert(frame_at(st0, frames, inputs, n) == r.2.frame);
        assert(r.0.synced == (prev.synced || r.2.frame));
        assert(react_seq(st0, frames, inputs) == r.0);
        if exists|i: int| 0 <= i < frames.len() && #[trigger] frame_at(st0, frames, inputs, i) {
            let i = choose|i: int| 0 <= i < frames.len() && #[trigger] frame_at(st0, frames, inputs, i);
            if i < n {
                assert(frame_at(st0, fs, xs, i));
            }
        }
        if react_seq(st0, frames, inputs).synced {
            if prev.synced {
                let i = choose|i: int| 0 <= i < fs.len() && #[trigger] frame_at(st0, fs, xs, i);
                assert(frame_at(st0, frames, inputs, i));
            } else {
                assert(frame_at(st0, frames, inputs, n));
            }
        }
    }
}

/// A frame that was just handled - accepted or already a duplicate - is a duplicate when it is
/// read again, whatever host input is waiting: a reposted frame (its answer was lost) is never
/// delivered twice, SYN frames included.
pub proof fn lemma_repost_is_duplicate(st: DmSeqState, b: Seq<u8>, first: Seq<u8>, again: Seq<u8>)
    requires
        b.len() == 8,
        frame_valid(b),
        st.duplicates < u64::MAX - 1,
    ensures
        ({
            let st1 = react_spec(st, b, first).0;
            let (st2, answer, poll) = react_spec(st1, b, again);
            &&& poll.received == Seq::<u8>::empty()
            &&& poll.frame
            &&& st2.duplicates == st1.duplicates + 1
            &&& answer == Some(answer_word(frame_s(b), st2.h, st2.pending))
        }),
{
    let st1 = react_spec(st, b, first).0;
    assert(st1.synced);
    assert(st1.last_s == frame_s(b));
    assert(frame_syn(b) ==> st1.last_syn);
    assert(is_duplicate(st1, b));
}

/// A target-timeout frame raises the warning at most once: read again, it does not warn.
pub proof fn lemma_timeout_reported_once(st: DmSeqState, b: Seq<u8>, first: Seq<u8>, again: Seq<u8>)
    requires
        b.len() == 8,
        frame_valid(b),
        frame_to(b),
    ensures
        !react_spec(react_spec(st, b, first).0, b, again).2.timed_out,
{
}

/// A word that does not validate is never answered while the session is unsynced or before the
/// third invalid read in a row, and it never changes the sequence state or the pending payload.
pub proof fn lemma_invalid_word_is_not_answered(st: DmSeqState, b: Seq<u8>, input: Seq<u8>)
    requires
        !frame_valid(b),
        !st.synced || st.bad_run < 2,
    ensures
        ({
            let (st1, answer, poll) = react_spec(st, b, input);
            &&& answer is None
            &&& poll == poll_empty()
            &&& st1.pending == st.pending
            &&& st1.last_s == st.last_s
            &&& st1.h == st.h
            &&& st1.synced == st.synced
        }),
{
}

/// Every rule keeps at most one host payload of up to two bytes outstanding.
pub proof fn lemma_react_keeps_well_formed(st: DmSeqState, b: Seq<u8>, input: Seq<u8>)
    requires
        st.well_formed(),
    ensures
        react_spec(st, b, input).0.well_formed(),
        react_spec(st, b, input).2.sent <= MAX_HOST_PAYLOAD,
{
}

proof fn lemma_le_word_bytes(b0: u8, b1: u8, b2: u8, b3: u8)
    ensures
        ({
            let w = (b0 as u32) | ((b1 as u32) << 8u32) | ((b2 as u32) << 16u32) | ((b3 as u32) << 24u32);
            &&& ((w >> 0u32) & 0xffu32) as u8 == b0
            &&& ((w >> 8u32) & 0xffu32) as u8 == b1
            &&& ((w >> 16u32) & 0xffu32) as u8 == b2
            &&& ((w >> 24u32) & 0xffu32) as u8 == b3
        }),
{
    assert(({
        let w = (b0 as u32) | ((b1 as u32) << 8u32) | ((b2 as u32) << 16u32) | ((b3 as u32) << 24u32);
        &&& ((w >> 0u32) & 0xffu32) as u8 == b0
        &&& ((w >> 8u32) & 0xffu32) as u8 == b1
        &&& ((w >> 16u32) & 0xffu32) as u8 == b2
        &&& ((w >> 24u32) & 0xffu32) as u8 == b3
    })) by (bit_vector);
}

/// The bytes of a word are the bytes it was built from.
pub proof fn lemma_le_word_roundtrip(b: Seq<u8>)
    requires
        b.len() == 4,
    ensures
        forall|i: int| 0 <= i < 4 ==> #[trigger] word_byte(le_word(b), i) == b[i],
{
    lemma_le_word_bytes(b[0], b[1], b[2], b[3]);
    assert(word_byte(le_word(b), 0) == b[0]);
    assert(word_byte(le_word(b), 1) == b[1]);
    assert(word_byte(le_word(b), 2) == b[2]);
    assert(word_byte(le_word(b), 3) == b[3]);
}

/// An answer is a well-formed host frame: bit 7 clear (so the target never takes it for its own
/// frame), K and H in their bits, the length field equal to the payload length, the payload
/// right after the status byte, and a CRC that checks.
pub proof fn lemma_answer_is_well_formed(k: bool, h: bool, payload: Seq<u8>)
    requires
        payload.len() <= MAX_HOST_PAYLOAD,
    ensures
        ({
            let w = answer_word(k, h, payload);
            let bytes = Seq::new(4, |i: int| word_byte(w, i));
            let m = (bytes[0] & MASK_N) as int;
            &&& bytes[0] & BIT_T == 0
            &&& (bytes[0] & BIT_S != 0) == k
            &&& (bytes[0] & BIT_A != 0) == h
            &&& m == payload.len()
            &&& bytes.subrange(1, 1 + m) == payload
            &&& crc8_spec(bytes.take(1 + m)) == bytes[1 + m]
        }),
{
    let ab = answer_bytes(k, h, payload);
    lemma_le_word_roundtrip(ab);
    let w = answer_word(k, h, payload);
    let bytes = Seq::new(4, |i: int| word_byte(w, i));
    assert(bytes =~= ab);
    let st = answer_status(k, h, payload.len());
    let len = payload.len() as u8;
    assert(len <= 2);
    let kb: u8 = if k { BIT_S } else { 0u8 };
    let hb: u8 = if h { BIT_A } else { 0u8 };
    assert(st == kb | hb | len);
    assert((kb == 0x20u8 || kb == 0u8) && (hb == 0x10u8 || hb == 0u8) && len <= 2 ==> {
        &&& (kb | hb | len) & 0x80u8 == 0
        &&& ((kb | hb | len) & 0x20u8 != 0) == (kb == 0x20u8)
        &&& ((kb | hb | len) & 0x10u8 != 0) == (hb == 0x10u8)
        &&& ((kb | hb | len) & 0x07u8) == len
    }) by (bit_vector);
    let head = seq![st] + payload;
    assert(ab.take(1 + payload.len() as int) =~= head);
    assert(ab.subrange(1, 1 + payload.len() as int) =~= payload);
}

/// An all-zero word never validates, so a data register that holds nothing, or a mailbox the
/// host cleared, is never taken for a frame.
pub proof fn lemma_zero_word_is_invalid()
    ensures
        !frame_valid(Seq::new(8, |i: int| 0u8)),
{
    let z = Seq::new(8, |i: int| 0u8);
    assert((0u8 & MASK_N) == 0u8) by (bit_vector);
    assert(z.take(1) =~= seq![0u8]);
    assert(seq![0u8].drop_last() =~= Seq::<u8>::empty());
    assert(crc_shift(0xffu8) == 0xf9u8) by (bit_vector);
    assert(crc_shift(0xf9u8) == 0xf5u8) by (bit_vector);
    assert(crc_shift(0xf5u8) == 0xedu8) by (bit_vector);
    assert(crc_shift(0xedu8) == 0xddu8) by (bit_vector);
    assert(crc_shift(0xddu8) == 0xbdu8) by (bit_vector);
    assert(crc_shift(0xbdu8) == 0x7du8) by (bit_vector);
    assert(crc_shift(0x7du8) == 0xfau8) by (bit_vector);
    assert(crc_shift(0xfau8) == 0xf3u8) by (bit_vector);
    assert((0xffu8 ^ 0u8) == 0xffu8) by (bit_vector);
    reveal_with_fuel(crc_shifts, 9);
    assert(crc_byte(0xffu8, 0u8) == 0xf3u8);
    assert(frame_len(z) == 0);
    assert(crc8_spec(z.take(1)) == crc_byte(crc8_spec(z.take(1).drop_last()), z.take(1).last()));
    assert(crc8_spec(z.take(1)) == 0xf3u8);
    assert(z[1] == 0u8);
}

} // verus!
