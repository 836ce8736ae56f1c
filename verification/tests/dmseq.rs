use ch32rv::dmseq::{crc8, DmSeq, BIT_A, BIT_S, BIT_SYN, BIT_T, BIT_TO, MASK_N, MAX_HOST_PAYLOAD};

fn frame(s: bool, a: bool, syn: bool, to: bool, payload: &[u8]) -> [u8; 8] {
    let mut b = [0u8; 8];
    b[0] = BIT_T
        | (if to { BIT_TO } else { 0 })
        | (if s { BIT_S } else { 0 })
        | (if a { BIT_A } else { 0 })
        | (if syn { BIT_SYN } else { 0 })
        | payload.len() as u8;
    b[1..1 + payload.len()].copy_from_slice(payload);
    b[1 + payload.len()] = crc8(&b[..1 + payload.len()]);
    b
}

fn answer_parts(word: u32) -> (bool, bool, Vec<u8>) {
    let b = word.to_le_bytes();
    let m = (b[0] & MASK_N) as usize;
    assert!(m <= MAX_HOST_PAYLOAD, "M must fit the host's two bytes");
    assert_eq!(crc8(&b[..1 + m]), b[1 + m], "answer CRC");
    assert_eq!(b[0] & BIT_T, 0, "an answer never sets bit 7");
    (b[0] & BIT_S != 0, b[0] & BIT_A != 0, b[1..1 + m].to_vec())
}

#[test]
fn crc8_matches_the_spec_parameters() {
    assert_eq!(crc8(&[]), 0xff);
    assert_eq!(crc8(&[0x00]), 0xf3);
    let zero = [0u8; 8];
    let n = (zero[0] & MASK_N) as usize;
    assert_ne!(crc8(&zero[..1 + n]), zero[1 + n]);
}

#[test]
fn first_frame_syncs_and_is_accepted() {
    let mut st = DmSeq::new();
    let (answer, poll) = st.react(&frame(false, true, true, false, b"hi"), b"");
    assert_eq!(poll.received, b"hi");
    assert!(poll.frame);
    let (k, _h, payload) = answer_parts(answer.unwrap());
    assert!(!k, "K is the frame's S");
    assert!(payload.is_empty());
    assert!(st.synced());
}

#[test]
fn a_reposted_frame_is_a_duplicate() {
    let mut st = DmSeq::new();
    let f = frame(false, true, false, false, b"ab");
    st.react(&f, b"");
    let (answer, poll) = st.react(&f, b"");
    assert!(poll.received.is_empty(), "the same S is a duplicate");
    assert_eq!(st.duplicates, 1);
    let (k, _, _) = answer_parts(answer.unwrap());
    assert!(!k, "a duplicate is still answered, with its own S");
}

#[test]
fn a_reposted_syn_frame_is_a_duplicate() {
    let mut st = DmSeq::new();
    let f = frame(false, true, true, false, b"READY");
    assert_eq!(st.react(&f, b"").1.received, b"READY");
    let (_, poll) = st.react(&f, b"");
    assert!(poll.received.is_empty(), "a reposted SYN frame must not be delivered twice");
}

#[test]
fn a_restart_resyncs_and_drops_pending_host_input() {
    let mut st = DmSeq::new();
    st.react(&frame(false, true, false, false, b"x"), b"ab");
    assert_eq!(st.pending(), b"ab", "handed over, not yet acknowledged");
    let (answer, poll) = st.react(&frame(false, true, true, false, b"READY"), b"");
    assert_eq!(poll.received, b"READY", "a restart is not a duplicate");
    assert!(st.pending().is_empty(), "queued input belonged to the old session");
    let (_, _, payload) = answer_parts(answer.unwrap());
    assert!(payload.is_empty());
}

#[test]
fn host_payload_is_resent_until_acknowledged() {
    let mut st = DmSeq::new();
    let (answer, poll) = st.react(&frame(false, true, false, false, b""), b"abc");
    assert_eq!(poll.sent, 2, "at most two bytes per answer");
    let (_, h, payload) = answer_parts(answer.unwrap());
    assert_eq!(payload, b"ab");
    let (answer, poll) = st.react(&frame(true, true, false, false, b""), b"c");
    assert_eq!(poll.sent, 0, "nothing new is taken while one is outstanding");
    let (_, h2, payload2) = answer_parts(answer.unwrap());
    assert_eq!((h2, payload2), (h, b"ab".to_vec()));
    let (answer, poll) = st.react(&frame(false, h, false, false, b""), b"c");
    assert_eq!(poll.sent, 1);
    let (_, h3, payload3) = answer_parts(answer.unwrap());
    assert_eq!(payload3, b"c");
    assert_ne!(h3, h, "the sequence bit flips once it is delivered");
}

#[test]
fn attach_garbage_is_rejected_not_parsed() {
    let mut st = DmSeq::new();
    let (answer, poll) = st.react(&[0xff; 8], b"");
    assert!(answer.is_none(), "an invalid word is not answered");
    assert!(!poll.frame);
    assert_eq!(st.invalid, 1);
}

#[test]
fn three_invalid_reads_answer_the_last_accepted_s() {
    let mut st = DmSeq::new();
    st.react(&frame(true, true, false, false, b"x"), b"");
    let bad = [0x80u8, 0, 0, 0, 0, 0, 0, 0];
    assert!(st.react(&bad, b"").0.is_none());
    assert!(st.react(&bad, b"").0.is_none());
    let (answer, _) = st.react(&bad, b"");
    let (k, _, payload) = answer_parts(answer.expect("the breaker answers"));
    assert!(k, "K = the last accepted S");
    assert!(payload.is_empty(), "the breaker carries no payload");
    let mut fresh = DmSeq::new();
    for _ in 0..5 {
        assert!(fresh.react(&bad, b"").0.is_none());
    }
}

#[test]
fn timeout_is_reported_once_per_episode() {
    let mut st = DmSeq::new();
    let f = frame(false, true, false, true, b"lost");
    let (_, poll) = st.react(&f, b"");
    assert_eq!(poll.received, b"lost", "a TO frame still carries its payload");
    assert!(poll.timed_out);
    assert!(!st.react(&f, b"").1.timed_out, "the repost does not warn again");
    st.react(&frame(true, true, false, false, b"ok"), b"");
    assert!(st.react(&frame(false, true, false, true, b"x"), b"").1.timed_out);
}

#[test]
fn a_full_frame_spans_both_registers() {
    let f = frame(false, true, false, false, b"abcdef");
    assert_eq!(f[0] & MASK_N, 6);
    assert_eq!(f[7], crc8(&f[..7]), "the CRC is the last byte of DATA1");
    let mut st = DmSeq::new();
    assert_eq!(st.react(&f, b"").1.received, b"abcdef");
}
