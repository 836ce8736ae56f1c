//! The rv003usb / UIAPduino HID scratchpad bootloader (`1209:b003`, `1209:b803`): it accepts a
//! 128-byte feature report that carries a small RISC-V stub with its arguments, and runs it.
//! This module builds those reports and plans the sector writes of an image.

use vstd::prelude::*;

use crate::dmseq::le_word;

verus! {

pub const V003_FLASH_BASE: u32 = 0x0800_0000;
pub const V003_FLASH_SIZE: usize = 16384;
pub const SECTOR_SIZE: usize = 64;
pub const REPORT_SIZE: usize = 128;
pub const REPORT_ID: u8 = 0xaa;
pub const BOOT_FLASH_STATR: u32 = 0x4002_200c;

/// A bootloader failure.
#[derive(Debug, Clone, PartialEq, Eq)]
pub enum HidBootError {
    Init(String),
    NotFound(u16, u16),
    Transfer(String),
    Timeout,
    ImageTooLarge { actual: usize, limit: usize },
    FlashLocked(u32),
    ReadProtected(u32),
    FlashStatus(u32),
    Verify(u32),
    Payload,
}

/// What a flash run did.
#[derive(Debug, Clone, Copy, PartialEq, Eq, Structural)]
pub struct FlashReport {
    pub bytes: usize,
    pub sectors_written: usize,
    pub vid: u16,
    pub pid: u16,
}

/// The machine code of the stub built by the function below.
pub open spec fn write64_code() -> Seq<u8> {
    seq![0x13u8, 0x07, 0x45, 0x03, 0x0c, 0x43, 0x13, 0x86, 0x05, 0x04, 0x5c, 0x43, 0x8c, 0xc7, 0x14, 0x47, 0x94, 0xc1, 0xb7, 0x06, 0x05, 0x00, 0xd4, 0xc3, 0x94, 0x41, 0x91, 0x05, 0x11, 0x07, 0xe3, 0xc8, 0xc5, 0xfe, 0xc1, 0x66, 0x93, 0x86, 0x06, 0x04, 0xd4, 0xc3, 0xfd, 0x56, 0x14, 0xc1, 0x82, 0x80]
}

/// The stub that writes one 64-byte sector from the report into the flash page buffer.
pub fn write64_flash_stub() -> (v: Vec<u8>)
    ensures
        v@ == write64_code(),
{
    let v = vec![
        0x13u8, 0x07, 0x45, 0x03, 0x0c, 0x43, 0x13, 0x86, 0x05, 0x04, 0x5c, 0x43, 0x8c, 0xc7, 0x14, 0x47,
        0x94, 0xc1, 0xb7, 0x06, 0x05, 0x00, 0xd4, 0xc3, 0x94, 0x41, 0x91, 0x05, 0x11, 0x07, 0xe3, 0xc8,
        0xc5, 0xfe, 0xc1, 0x66, 0x93, 0x86, 0x06, 0x04, 0xd4, 0xc3, 0xfd, 0x56, 0x14, 0xc1, 0x82, 0x80,
    ];
    proof { assert(v@ =~= write64_code()); }
    v
}

/// The little-endian bytes of some words.
pub open spec fn words_le(ws: Seq<u32>) -> Seq<u8>
    decreases ws.len(),
{
    if ws.len() == 0 {
        Seq::empty()
    } else {
        words_le(ws.drop_last()) + crate::dm::bytes4(ws.last())
    }
}

pub(crate) proof fn lemma_words_le_len(ws: Seq<u32>)
    ensures
        words_le(ws).len() == 4 * ws.len(),
    decreases ws.len(),
{
    if ws.len() > 0 {
        lemma_words_le_len(ws.drop_last());
    }
}

/// The report that carries `stub` with its argument `words` and `data`: the report id and three
/// zeros, the stub, the words little-endian, the data, zeros, and the marker `0x1234abcd`
/// (little-endian) in the last four bytes. It must leave those four bytes free.
pub open spec fn report_spec(stub: Seq<u8>, words: Seq<u32>, data: Seq<u8>) -> Option<Seq<u8>> {
    let body = seq![REPORT_ID, 0u8, 0u8, 0u8] + stub + words_le(words) + data;
    if body.len() > REPORT_SIZE - 4 {
        None
    } else {
        Some(body + Seq::new((REPORT_SIZE - 4 - body.len()) as nat, |i: int| 0u8) + seq![0xcdu8, 0xab, 0x34, 0x12])
    }
}

/// Build the feature report for a stub call.
pub fn payload(stub: &[u8], words: &[u32], data: &[u8]) -> (r: Result<[u8; 128], HidBootError>)
    requires
        4 + stub@.len() + 4 * words@.len() + data@.len() <= usize::MAX,
    ensures
        match report_spec(stub@, words@, data@) {
            None => r == Err::<[u8; 128], HidBootError>(HidBootError::Payload),
            Some(rep) => r matches Ok(a) && a@ == rep,
        },
{
    proof { lemma_words_le_len(words@); }
    let used = 4 + stub.len() + words.len() * 4 + data.len();
    if used > REPORT_SIZE - 4 {
        return Err(HidBootError::Payload);
    }
    let mut out: Vec<u8> = Vec::new();
    out.push(REPORT_ID);
    out.push(0);
    out.push(0);
    out.push(0);
    let mut k: usize = 0;
    while k < stub.len()
        invariant
            k <= stub@.len(),
            out@ == seq![REPORT_ID, 0u8, 0u8, 0u8] + stub@.take(k as int),
        decreases stub@.len() - k,
    {
        out.push(stub[k]);
        proof { assert(out@ =~= seq![REPORT_ID, 0u8, 0u8, 0u8] + stub@.take(k + 1)); }
        k = k + 1;
    }
    proof { assert(stub@.take(stub@.len() as int) =~= stub@); }
    let ghost head = out@;
    let mut k: usize = 0;
    while k < words.len()
        invariant
            k <= words@.len(),
            out@ == head + words_le(words@.take(k as int)),
        decreases words@.len() - k,
    {
        let w = words[k];
        out.push((w & 0xff) as u8);
        out.push(((w >> 8) & 0xff) as u8);
        out.push(((w >> 16) & 0xff) as u8);
        out.push(((w >> 24) & 0xff) as u8);
        proof {
            crate::dmseq::lemma_word_bytes(w);
            assert(words@.take(k + 1).drop_last() =~= words@.take(k as int));
            assert(out@ =~= head + words_le(words@.take(k + 1)));
        }
        k = k + 1;
    }
    proof { assert(words@.take(words@.len() as int) =~= words@); }
    let ghost head2 = out@;
    let mut k: usize = 0;
    while k < data.len()
        invariant
            k <= data@.len(),
            out@ == head2 + data@.take(k as int),
        decreases data@.len() - k,
    {
        out.push(data[k]);
        proof { assert(out@ =~= head2 + data@.take(k + 1)); }
        k = k + 1;
    }
    proof { assert(data@.take(data@.len() as int) =~= data@); }
    let ghost body = out@;
    while out.len() < REPORT_SIZE - 4
        invariant
            body.len() <= out@.len() <= REPORT_SIZE - 4,
            out@ == body + Seq::new((out@.len() - body.len()) as nat, |i: int| 0u8),
        decreases REPORT_SIZE - 4 - out@.len(),
    {
        let ghost o0 = out@;
        out.push(0);
        proof { assert(out@ =~= body + Seq::new((out@.len() - body.len()) as nat, |i: int| 0u8)); }
    }
    out.push(0xcd);
    out.push(0xab);
    out.push(0x34);
    out.push(0x12);
    let mut report = [0u8; 128];
    let mut k: usize = 0;
    while k < 128
        invariant
            k <= 128,
            out@.len() == 128,
            forall|j: int| 0 <= j < k ==> report@[j] == out@[j],
        decreases 128 - k,
    {
        report.set(k, out[k]);
        k = k + 1;
    }
    proof {
        assert(report@ =~= out@);
        assert(out@ =~= body + Seq::new((REPORT_SIZE - 4 - body.len()) as nat, |i: int| 0u8) + seq![0xcdu8, 0xab, 0x34, 0x12]);
    }
    Ok(report)
}

/// The word a stub reply carries at bytes 60..64.
pub fn reply_word(response: &[u8; 128]) -> (w: u32)
    ensures
        w == le_word(response@.subrange(60, 64)),
{
    proof { assert(response@.subrange(60, 64) =~= seq![response@[60], response@[61], response@[62], response@[63]]); }
    (response[60] as u32) | ((response[61] as u32) << 8) | ((response[62] as u32) << 16) | ((response[63] as u32) << 24)
}

/// `image` padded with `0xff` to whole 64-byte sectors.
pub open spec fn padded_image(image: Seq<u8>) -> Seq<u8> {
    let n = ((image.len() + SECTOR_SIZE - 1) / (SECTOR_SIZE as int)) * SECTOR_SIZE;
    image + Seq::new((n - image.len()) as nat, |i: int| 0xffu8)
}

/// Pad an image to whole sectors with `0xff`; an image larger than the CH32V003 code flash is
/// refused.
pub fn pad_image(image: &[u8]) -> (r: Result<Vec<u8>, HidBootError>)
    ensures
        image@.len() > V003_FLASH_SIZE ==> r == Err::<Vec<u8>, HidBootError>(
            HidBootError::ImageTooLarge { actual: image@.len() as usize, limit: V003_FLASH_SIZE },
        ),
        image@.len() <= V003_FLASH_SIZE ==> (r matches Ok(v) && v@ == padded_image(image@)),
{
    if image.len() > V003_FLASH_SIZE {
        return Err(HidBootError::ImageTooLarge { actual: image.len(), limit: V003_FLASH_SIZE });
    }
    let padded_len = (image.len() + SECTOR_SIZE - 1) / SECTOR_SIZE * SECTOR_SIZE;
    proof {
        assert(padded_len >= image@.len()) by (nonlinear_arith)
            requires padded_len == (image@.len() + 63) / 64 * 64;
    }
    let mut v: Vec<u8> = Vec::new();
    let mut k: usize = 0;
    while k < image.len()
        invariant
            k <= image@.len(),
            v@ == image@.take(k as int),
        decreases image@.len() - k,
    {
        v.push(image[k]);
        proof { assert(v@ =~= image@.take(k + 1)); }
        k = k + 1;
    }
    proof { assert(image@.take(image@.len() as int) =~= image@); }
    while v.len() < padded_len
        invariant
            image@.len() <= v@.len() <= padded_len,
            v@ == image@ + Seq::new((v@.len() - image@.len()) as nat, |i: int| 0xffu8),
        decreases padded_len - v@.len(),
    {
        v.push(0xff);
        proof { assert(v@ =~= image@ + Seq::new((v@.len() - image@.len()) as nat, |i: int| 0xffu8)); }
    }
    Ok(v)
}

/// The error kind a failed HID bootloader flash is reported as.
pub open spec fn hid_error_kind_spec(e: HidBootError) -> crate::exit::ErrorKind {
    match e {
        HidBootError::NotFound(..) => crate::exit::ErrorKind::DeviceNotFound,
        HidBootError::Init(_) | HidBootError::Transfer(_) => crate::exit::ErrorKind::DeviceOpenFailed,
        HidBootError::ReadProtected(_) => crate::exit::ErrorKind::TargetProtected,
        HidBootError::Verify(_) => crate::exit::ErrorKind::VerifyMismatch,
        HidBootError::ImageTooLarge { .. } | HidBootError::Payload => crate::exit::ErrorKind::Usage,
        HidBootError::Timeout | HidBootError::FlashLocked(_) | HidBootError::FlashStatus(_) =>
            crate::exit::ErrorKind::TransferFailed,
    }
}

/// Classify a HID bootloader failure: no device, an unusable device, a protected part, a
/// mismatch, a bad request, or a failed transfer.
pub fn hid_error_kind(e: &HidBootError) -> (k: crate::exit::ErrorKind)
    ensures
        k == hid_error_kind_spec(*e),
{
    match e {
        HidBootError::NotFound(..) => crate::exit::ErrorKind::DeviceNotFound,
        HidBootError::Init(_) | HidBootError::Transfer(_) => crate::exit::ErrorKind::DeviceOpenFailed,
        HidBootError::ReadProtected(_) => crate::exit::ErrorKind::TargetProtected,
        HidBootError::Verify(_) => crate::exit::ErrorKind::VerifyMismatch,
        HidBootError::ImageTooLarge { .. } | HidBootError::Payload => crate::exit::ErrorKind::Usage,
        HidBootError::Timeout | HidBootError::FlashLocked(_) | HidBootError::FlashStatus(_) =>
            crate::exit::ErrorKind::TransferFailed,
    }
}

/// The bootloader ids tried when none is given: `1209:b803`, then `1209:b003`.
pub fn default_hid_ids() -> (ids: Vec<(u16, u16)>)
    ensures
        ids@ == seq![(0x1209u16, 0xb803u16), (0x1209u16, 0xb003u16)],
{
    let mut ids: Vec<(u16, u16)> = Vec::new();
    ids.push((0x1209, 0xb803));
    ids.push((0x1209, 0xb003));
    proof { assert(ids@ =~= seq![(0x1209u16, 0xb803u16), (0x1209u16, 0xb003u16)]); }
    ids
}

/// The ids to look for: the one asked for, or the defaults.
pub fn candidate_ids(usb_id: Option<(u16, u16)>) -> (ids: Vec<(u16, u16)>)
    ensures
        ids@ == match usb_id {
            Some(id) => seq![id],
            None => seq![(0x1209u16, 0xb803u16), (0x1209u16, 0xb003u16)],
        },
{
    match usb_id {
        Some(id) => {
            let mut v: Vec<(u16, u16)> = Vec::new();
            v.push(id);
            proof { assert(v@ =~= seq![id]); }
            v
        },
        None => default_hid_ids(),
    }
}

/// The error when no bootloader answered: it names the id asked for, or the first default.
pub fn not_found(usb_id: Option<(u16, u16)>) -> (e: HidBootError)
    ensures
        e == match usb_id {
            Some((v, p)) => HidBootError::NotFound(v, p),
            None => HidBootError::NotFound(0x1209, 0xb803),
        },
{
    match usb_id {
        Some((v, p)) => HidBootError::NotFound(v, p),
        None => HidBootError::NotFound(0x1209, 0xb803),
    }
}

/// A feature-report read is the stub's reply once it has more than one byte and the stub
/// marked it done (`0xff` in its second byte).
pub fn reply_ready(n: usize, response: &[u8; 128]) -> (r: bool)
    ensures
        r == (n > 1 && response@[1] == 0xff),
{
    n > 1 && response[1] == 0xff
}

/// The machine code of the stub built by the function below.
pub open spec fn halt_wait_code() -> Seq<u8> {
    seq![0x81u8, 0x46, 0x94, 0xc1, 0xfd, 0x56, 0x14, 0xc1, 0x82, 0x80]
}

/// The stub that waits with the core halted (sent once when the bootloader is opened).
pub fn halt_wait_stub() -> (v: Vec<u8>)
    ensures
        v@ == halt_wait_code(),
{
    let v = vec![0x81u8, 0x46, 0x94, 0xc1, 0xfd, 0x56, 0x14, 0xc1, 0x82, 0x80];
    proof { assert(v@ =~= halt_wait_code()); }
    v
}

/// The machine code of the stub built by the function below.
pub open spec fn word_read_code() -> Seq<u8> {
    seq![0x23u8, 0xa0, 0x05, 0x00, 0x13, 0x07, 0x45, 0x03, 0x0c, 0x43, 0x50, 0x43, 0x2e, 0x96, 0x21, 0x07, 0x94, 0x41, 0x14, 0xc3, 0x91, 0x05, 0x11, 0x07, 0xe3, 0xcc, 0xc5, 0xfe, 0x93, 0x06, 0xf0, 0xff, 0x14, 0xc1, 0x82, 0x80, 0, 0, 0, 0, 0, 0, 0, 0, 0, 0, 0, 0]
}

/// The stub that reads words into the reply.
pub fn word_read_stub() -> (v: Vec<u8>)
    ensures
        v@ == word_read_code(),
{
    let v = vec![
        0x23u8, 0xa0, 0x05, 0x00, 0x13, 0x07, 0x45, 0x03, 0x0c, 0x43, 0x50, 0x43, 0x2e, 0x96, 0x21, 0x07,
        0x94, 0x41, 0x14, 0xc3, 0x91, 0x05, 0x11, 0x07, 0xe3, 0xcc, 0xc5, 0xfe, 0x93, 0x06, 0xf0, 0xff,
        0x14, 0xc1, 0x82, 0x80, 0, 0, 0, 0, 0, 0, 0, 0, 0, 0, 0, 0,
    ];
    proof { assert(v@ =~= word_read_code()); }
    v
}

/// The machine code of the stub built by the function below.
pub open spec fn word_write_code() -> Seq<u8> {
    seq![0x23u8, 0xa0, 0x05, 0x00, 0x13, 0x07, 0x45, 0x03, 0x0c, 0x43, 0x50, 0x43, 0x2e, 0x96, 0x21, 0x07, 0x14, 0x43, 0x94, 0xc1, 0x91, 0x05, 0x11, 0x07, 0xe3, 0xcc, 0xc5, 0xfe, 0x93, 0x06, 0xf0, 0xff, 0x14, 0xc1, 0x82, 0x80, 0, 0, 0, 0, 0, 0, 0, 0, 0, 0, 0, 0]
}

/// The stub that writes words from the report.
pub fn word_write_stub() -> (v: Vec<u8>)
    ensures
        v@ == word_write_code(),
{
    let v = vec![
        0x23u8, 0xa0, 0x05, 0x00, 0x13, 0x07, 0x45, 0x03, 0x0c, 0x43, 0x50, 0x43, 0x2e, 0x96, 0x21, 0x07,
        0x14, 0x43, 0x94, 0xc1, 0x91, 0x05, 0x11, 0x07, 0xe3, 0xcc, 0xc5, 0xfe, 0x93, 0x06, 0xf0, 0xff,
        0x14, 0xc1, 0x82, 0x80, 0, 0, 0, 0, 0, 0, 0, 0, 0, 0, 0, 0,
    ];
    proof { assert(v@ =~= word_write_code()); }
    v
}

/// The machine code of the stub built by the function below.
pub open spec fn run_app_code() -> Seq<u8> {
    seq![0xb7u8, 0xf5, 0xff, 0x1f, 0x93, 0x87, 0xc5, 0x77, 0x03, 0xa7, 0x07, 0x00, 0x13, 0x57, 0x07, 0x01, 0x83, 0x96, 0x07, 0x00, 0x93, 0xc7, 0xc6, 0x77, 0x63, 0x16, 0xf7, 0x00, 0x33, 0x87, 0xb6, 0x00, 0x67, 0x00, 0x07, 0x00, 0xb7, 0x27, 0x02, 0x40, 0x93, 0x87, 0x87, 0x02, 0x37, 0x07, 0x67, 0x45, 0x13, 0x07, 0x37, 0x12, 0x23, 0xa0, 0xe7, 0x00, 0xb7, 0x27, 0x02, 0x40, 0x93, 0x87, 0x87, 0x02, 0x37, 0x97, 0xef, 0xcd, 0x13, 0x07, 0xb7, 0x9a, 0x23, 0xa0, 0xe7, 0x00, 0xb7, 0x27, 0x02, 0x40, 0x93, 0x87, 0xc7, 0x00, 0x23, 0xa0, 0x07, 0x00, 0xb7, 0x27, 0x02, 0x40, 0x93, 0x87, 0x07, 0x01, 0x13, 0x07, 0x00, 0x08, 0x23, 0xa0, 0xe7, 0x00, 0xb7, 0xf7, 0x00, 0xe0, 0x93, 0x87, 0x07, 0xd1, 0x37, 0x07, 0x00, 0x80, 0x23, 0xa0, 0xe7, 0x00]
}

/// The stub that locks the flash again and starts the application.
pub fn run_app_stub() -> (v: Vec<u8>)
    ensures
        v@ == run_app_code(),
{
    let v = vec![
        0xb7u8, 0xf5, 0xff, 0x1f, 0x93, 0x87, 0xc5, 0x77, 0x03, 0xa7, 0x07, 0x00, 0x13, 0x57, 0x07, 0x01,
        0x83, 0x96, 0x07, 0x00, 0x93, 0xc7, 0xc6, 0x77, 0x63, 0x16, 0xf7, 0x00, 0x33, 0x87, 0xb6, 0x00,
        0x67, 0x00, 0x07, 0x00, 0xb7, 0x27, 0x02, 0x40, 0x93, 0x87, 0x87, 0x02, 0x37, 0x07, 0x67, 0x45,
        0x13, 0x07, 0x37, 0x12, 0x23, 0xa0, 0xe7, 0x00, 0xb7, 0x27, 0x02, 0x40, 0x93, 0x87, 0x87, 0x02,
        0x37, 0x97, 0xef, 0xcd, 0x13, 0x07, 0xb7, 0x9a, 0x23, 0xa0, 0xe7, 0x00, 0xb7, 0x27, 0x02, 0x40,
        0x93, 0x87, 0xc7, 0x00, 0x23, 0xa0, 0x07, 0x00, 0xb7, 0x27, 0x02, 0x40, 0x93, 0x87, 0x07, 0x01,
        0x13, 0x07, 0x00, 0x08, 0x23, 0xa0, 0xe7, 0x00, 0xb7, 0xf7, 0x00, 0xe0, 0x93, 0x87, 0x07, 0xd1,
        0x37, 0x07, 0x00, 0x80, 0x23, 0xa0, 0xe7, 0x00,
    ];
    proof { assert(v@ =~= run_app_code()); }
    v
}

} // verus!
