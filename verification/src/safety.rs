//! End-to-end data protection for LIN payloads.
//!
//! `Protector` prepends a 10-byte header before transmission; `Receiver`
//! validates it on receipt. Wire format (little-endian):
//!
//! | Bytes | Field |
//! |---|---|
//! | 0–1 | DataID (u16) |
//! | 2–3 | SourceID (u16) |
//! | 4–7 | SequenceCounter (u32, increases by one per message) |
//! | 8–9 | CRC-16/CCITT-FALSE over bytes 0–7, two zero bytes, and the payload |
//! | 10+ | Original payload |

use vstd::prelude::*;

use crate::text::{decimal, hex4, push_decimal, push_hex4};

verus! {

/// Size of the protection header in bytes.
pub const HEADER_SIZE: usize = 10;

/// Configuration of the protection parameters.
#[derive(Clone, Copy, Debug, PartialEq, Eq, Structural)]
pub struct Config {
    /// Identifies the logical data element.
    pub data_id: u16,
    /// Identifies the sender node.
    pub source_id: u16,
}

/// Categorises end-to-end check failures.
#[derive(Clone, Copy, Debug, PartialEq, Eq, Structural)]
pub enum ErrorKind {
    /// CRC in the header did not match the computed value.
    CrcMismatch,
    /// One or more sequence numbers were skipped (or repeated).
    SequenceGap,
    /// Payload is shorter than the 10-byte header.
    HeaderTooShort,
}

/// The name of an error kind, as its `Debug` form prints it.
pub open spec fn kind_name(k: ErrorKind) -> Seq<char> {
    match k {
        ErrorKind::CrcMismatch => "CrcMismatch"@,
        ErrorKind::SequenceGap => "SequenceGap"@,
        ErrorKind::HeaderTooShort => "HeaderTooShort"@,
    }
}

impl ErrorKind {
    /// The name of the kind.
    pub fn name(self) -> (r: &'static str)
        ensures
            r@ == kind_name(self),
    {
        match self {
            ErrorKind::CrcMismatch => "CrcMismatch",
            ErrorKind::SequenceGap => "SequenceGap",
            ErrorKind::HeaderTooShort => "HeaderTooShort",
        }
    }
}

/// Returned when an end-to-end check fails.
#[derive(Debug)]
pub struct E2eError {
    /// Classification of the failure.
    pub kind: ErrorKind,
    /// Sequence counter from the received header (where applicable).
    pub counter: u32,
    /// Human-readable description.
    pub message: String,
}

impl E2eError {
    /// The error's text: kind, counter and description.
    pub fn to_string(&self) -> (r: String)
        ensures
            r@ == "lin/safety: E2E error (kind="@ + kind_name(self.kind) + ", counter="@ + decimal(
                self.counter as nat,
            ) + "): "@ + self.message@,
    {
        let mut s = "lin/safety: E2E error (kind=".to_owned();
        s.append(self.kind.name());
        s.append(", counter=");
        push_decimal(&mut s, self.counter as u64);
        s.append("): ");
        s.append(self.message.as_str());
        s
    }
}

// ---------------------------------------------------------------------------
// CRC-16/CCITT-FALSE
// ---------------------------------------------------------------------------

/// One bit step of the CRC register: shift left, and XOR the polynomial
/// 0x1021 when the bit shifted out was set.
pub open spec fn crc_shift(crc: u16) -> u16 {
    if crc & 0x8000 != 0 {
        ((crc << 1) ^ 0x1021) as u16
    } else {
        (crc << 1) as u16
    }
}

/// `n` bit steps of the CRC register.
pub open spec fn crc_shifts(crc: u16, n: nat) -> u16
    decreases n,
{
    if n == 0 {
        crc
    } else {
        crc_shift(crc_shifts(crc, (n - 1) as nat))
    }
}

/// The CRC register after taking in one byte, most significant bit first.
pub open spec fn crc_update(crc: u16, b: u8) -> u16 {
    crc_shifts(crc ^ (((b as u16) << 8) as u16), 8)
}

/// CRC-16/CCITT-FALSE (poly 0x1021, init 0xFFFF, no reflection, no final
/// XOR) of a byte sequence.
pub open spec fn crc16_of(data: Seq<u8>) -> u16
    decreases data.len(),
{
    if data.len() == 0 {
        0xFFFF
    } else {
        crc_update(crc16_of(data.drop_last()), data.last())
    }
}

/// CRC-16/CCITT-FALSE of `data`.
fn crc16(data: &[u8]) -> (r: u16)
    ensures
        r == crc16_of(data@),
{
    let mut crc: u16 = 0xFFFF;
    let mut i: usize = 0;
    while i < data.len()
        invariant
            i <= data@.len(),
            crc == crc16_of(data@.subrange(0, i as int)),
        decreases data.len() - i,
    {
        proof {
            assert(data@.subrange(0, i + 1).drop_last() =~= data@.subrange(0, i as int));
        }
        let b = data[i];
        crc = crc ^ ((b as u16) << 8);
        let ghost start = crc;
        let mut k: u32 = 0;
        while k < 8
            invariant
                k <= 8,
                crc == crc_shifts(start, k as nat),
            decreases 8 - k,
        {
            if crc & 0x8000 != 0 {
                crc = (crc << 1) ^ 0x1021;
            } else {
                crc = crc << 1;
            }
            k = k + 1;
        }
        i = i + 1;
    }
    proof {
        assert(data@.subrange(0, data@.len() as int) =~= data@);
    }
    crc
}

// ---------------------------------------------------------------------------
// Header encoding
// ---------------------------------------------------------------------------

/// Little-endian bytes of a 16-bit value.
pub open spec fn le16(v: u16) -> Seq<u8> {
    seq![(v % 256) as u8, (v / 256) as u8]
}

/// Little-endian bytes of a 32-bit value.
pub open spec fn le32(v: u32) -> Seq<u8> {
    seq![
        (v % 256) as u8,
        ((v / 256) % 256) as u8,
        ((v / 65536) % 256) as u8,
        (v / 16777216) as u8,
    ]
}

/// The 16-bit value of two little-endian bytes.
pub open spec fn le16_value(b0: u8, b1: u8) -> u16 {
    (b0 + 256 * b1) as u16
}

/// The 32-bit value of four little-endian bytes.
pub open spec fn le32_value(b0: u8, b1: u8, b2: u8, b3: u8) -> u32 {
    (b0 + 256 * b1 + 65536 * b2 + 16777216 * b3) as u32
}

/// The first eight header bytes: DataID, SourceID and the counter.
pub open spec fn header_prefix(cfg: Config, seq: u32) -> Seq<u8> {
    le16(cfg.data_id) + le16(cfg.source_id) + le32(seq)
}

/// The CRC a protected message carries: over the header prefix, two zero
/// bytes in place of the CRC, and the payload.
pub open spec fn protection_crc(cfg: Config, seq: u32, payload: Seq<u8>) -> u16 {
    crc16_of(header_prefix(cfg, seq) + seq![0u8, 0u8] + payload)
}

/// The protected form of `payload` sent with counter `seq`.
pub open spec fn protected_message(cfg: Config, seq: u32, payload: Seq<u8>) -> Seq<u8> {
    header_prefix(cfg, seq) + le16(protection_crc(cfg, seq, payload)) + payload
}

fn push_le16(v: &mut Vec<u8>, x: u16)
    ensures
        final(v)@ == old(v)@ + le16(x),
{
    v.push((x % 256) as u8);
    v.push((x / 256) as u8);
    proof {
        assert(final(v)@ =~= old(v)@ + le16(x));
    }
}

fn push_le32(v: &mut Vec<u8>, x: u32)
    ensures
        final(v)@ == old(v)@ + le32(x),
{
    v.push((x % 256) as u8);
    v.push(((x / 256) % 256) as u8);
    v.push(((x / 65536) % 256) as u8);
    v.push((x / 16777216) as u8);
    proof {
        assert(final(v)@ =~= old(v)@ + le32(x));
    }
}

fn append_bytes(v: &mut Vec<u8>, src: &[u8])
    ensures
        final(v)@ == old(v)@ + src@,
{
    let mut i: usize = 0;
    while i < src.len()
        invariant
            i <= src@.len(),
            v@ == old(v)@ + src@.subrange(0, i as int),
        decreases src.len() - i,
    {
        v.push(src[i]);
        i = i + 1;
        proof {
            assert(v@ =~= old(v)@ + src@.subrange(0, i as int));
        }
    }
    proof {
        assert(src@.subrange(0, src@.len() as int) =~= src@);
    }
}

/// Builds the protected message for `payload` with counter `seq`.
fn build_protected(cfg: Config, seq: u32, payload: &[u8]) -> (r: Vec<u8>)
    ensures
        r@ == protected_message(cfg, seq, payload@),
{
    let mut hdr: Vec<u8> = Vec::new();
    push_le16(&mut hdr, cfg.data_id);
    push_le16(&mut hdr, cfg.source_id);
    push_le32(&mut hdr, seq);
    let mut crc_input = hdr.clone();
    crc_input.push(0);
    crc_input.push(0);
    append_bytes(&mut crc_input, payload);
    proof {
        assert(crc_input@ =~= header_prefix(cfg, seq) + seq![0u8, 0u8] + payload@);
    }
    let crc = crc16(crc_input.as_slice());
    let mut out = hdr;
    push_le16(&mut out, crc);
    append_bytes(&mut out, payload);
    out
}

// ---------------------------------------------------------------------------
// Protector
// ---------------------------------------------------------------------------

/// Adds the protection header to payloads before transmission.
///
/// The counter starts at 0 and increases by one (wrapping) per call.
pub struct Protector {
    cfg: Config,
    seq: u32,
}

impl View for Protector {
    /// The configuration and the counter the next message will carry.
    type V = (Config, u32);

    closed spec fn view(&self) -> (Config, u32) {
        (self.cfg, self.seq)
    }
}

/// The counter that follows `seq`.
pub open spec fn next_seq(seq: u32) -> u32 {
    if seq == u32::MAX {
        0
    } else {
        (seq + 1) as u32
    }
}

impl Protector {
    /// Create a protector whose counter starts at 0.
    pub fn new(cfg: Config) -> (r: Protector)
        ensures
            r@ == (cfg, 0u32),
    {
        Protector { cfg, seq: 0 }
    }

    /// Prepend the header and return the protected payload; its length is
    /// exactly 10 plus the payload's.
    pub fn protect(&mut self, payload: &[u8]) -> (r: Vec<u8>)
        ensures
            r@ == protected_message(old(self)@.0, old(self)@.1, payload@),
            final(self)@ == (old(self)@.0, next_seq(old(self)@.1)),
    {
        let seq = self.seq;
        self.seq = if seq == u32::MAX {
            0
        } else {
            seq + 1
        };
        build_protected(self.cfg, seq, payload)
    }
}

// ---------------------------------------------------------------------------
// Receiver
// ---------------------------------------------------------------------------

/// Validates protection headers on received payloads.
///
/// The first accepted message may carry any counter.
pub struct Receiver {
    cfg: Config,
    last_seq: u32,
    first: bool,
}

/// What a receiver remembers between messages.
#[derive(Clone, Copy, PartialEq, Eq, Structural)]
pub struct ReceiverState {
    /// Counter of the last message that passed the CRC check.
    pub last_seq: u32,
    /// Whether no message has been accepted yet.
    pub first: bool,
}

impl View for Receiver {
    type V = (Config, ReceiverState);

    closed spec fn view(&self) -> (Config, ReceiverState) {
        (self.cfg, ReceiverState { last_seq: self.last_seq, first: self.first })
    }
}

/// The counter a message carries.
pub open spec fn carried_seq(data: Seq<u8>) -> u32 {
    le32_value(data[4], data[5], data[6], data[7])
}

/// The CRC a message carries.
pub open spec fn carried_crc(data: Seq<u8>) -> u16 {
    le16_value(data[8], data[9])
}

/// The CRC a receiver computes: over the message with its CRC slot zeroed.
pub open spec fn computed_crc(data: Seq<u8>) -> u16 {
    crc16_of(data.subrange(0, 8) + seq![0u8, 0u8] + data.subrange(10, data.len() as int))
}

/// Whether a message names the receiver's DataID and SourceID.
pub open spec fn ids_match(cfg: Config, data: Seq<u8>) -> bool {
    le16_value(data[0], data[1]) == cfg.data_id && le16_value(data[2], data[3]) == cfg.source_id
}

/// Whether a long enough message fails the integrity check: its CRC does
/// not match, or it names another DataID or SourceID than the receiver's.
pub open spec fn integrity_fails(cfg: Config, data: Seq<u8>) -> bool {
    computed_crc(data) != carried_crc(data) || !ids_match(cfg, data)
}

/// The outcome of checking `data` with configuration `cfg` in state `st`:
/// the payload or the kind of failure, with the counter reported, and the
/// next state. A refused message leaves the state as it was.
pub open spec fn unwrap_outcome(cfg: Config, st: ReceiverState, data: Seq<u8>) -> (
    Result<Seq<u8>, (ErrorKind, u32)>,
    ReceiverState,
) {
    if data.len() < HEADER_SIZE {
        (Err((ErrorKind::HeaderTooShort, 0u32)), st)
    } else if integrity_fails(cfg, data) {
        (Err((ErrorKind::CrcMismatch, carried_seq(data))), st)
    } else if !st.first && carried_seq(data) != next_seq(st.last_seq) {
        (Err((ErrorKind::SequenceGap, carried_seq(data))), st)
    } else {
        (
            Ok(data.subrange(HEADER_SIZE as int, data.len() as int)),
            ReceiverState { last_seq: carried_seq(data), first: false },
        )
    }
}

/// The description a failed check carries.
pub open spec fn failure_message(cfg: Config, st: ReceiverState, data: Seq<u8>) -> Seq<char> {
    if data.len() < HEADER_SIZE {
        "got "@ + decimal(data.len()) + " bytes, need at least "@ + decimal(HEADER_SIZE as nat)
    } else if integrity_fails(cfg, data) {
        "CRC mismatch: wire=0x"@ + hex4(carried_crc(data)) + " calc=0x"@ + hex4(
            computed_crc(data),
        )
    } else {
        "sequence gap: last="@ + decimal(st.last_seq as nat) + " recv="@ + decimal(
            carried_seq(data) as nat,
        )
    }
}

fn read_le32(data: &[u8], at: usize) -> (r: u32)
    requires
        at + 4 <= data@.len(),
    ensures
        r == le32_value(data@[at as int], data@[at + 1], data@[at + 2], data@[at + 3]),
{
    let b0 = data[at] as u32;
    let b1 = data[at + 1] as u32;
    let b2 = data[at + 2] as u32;
    let b3 = data[at + 3] as u32;
    b0 + 256 * b1 + 65536 * b2 + 16777216 * b3
}

impl Receiver {
    /// Create a receiver; the first message it accepts may carry any
    /// counter.
    pub fn new(cfg: Config) -> (r: Receiver)
        ensures
            r@ == (cfg, ReceiverState { last_seq: 0, first: true }),
    {
        Receiver { cfg, last_seq: 0, first: true }
    }

    /// Validate the header and return an independent copy of the payload.
    ///
    /// Fails on a message shorter than the header, on a CRC mismatch or a
    /// DataID or SourceID other than the receiver's, or on a counter that is
    /// not the successor of the last one accepted; a refused message leaves
    /// the receiver as it was.
    pub fn unwrap(&mut self, data: &[u8]) -> (r: Result<Vec<u8>, E2eError>)
        ensures
            final(self)@.0 == old(self)@.0,
            final(self)@.1 == unwrap_outcome(old(self)@.0, old(self)@.1, data@).1,
            match unwrap_outcome(old(self)@.0, old(self)@.1, data@).0 {
                Ok(p) => r matches Ok(v) && v@ == p,
                Err((k, c)) => r matches Err(e) && e.kind == k && e.counter == c && e.message@
                    == failure_message(old(self)@.0, old(self)@.1, data@),
            },
    {
        if data.len() < HEADER_SIZE {
            let mut m = "got ".to_owned();
            push_decimal(&mut m, data.len() as u64);
            m.append(" bytes, need at least ");
            push_decimal(&mut m, HEADER_SIZE as u64);
            return Err(E2eError { kind: ErrorKind::HeaderTooShort, counter: 0, message: m });
        }
        let seq = read_le32(data, 4);
        let crc_wire = (data[8] as u16) + 256 * (data[9] as u16);
        let mut compute_buf: Vec<u8> = Vec::new();
        let mut i: usize = 0;
        while i < 8
            invariant
                i <= 8,
                8 <= data@.len(),
                compute_buf@ == data@.subrange(0, i as int),
            decreases 8 - i,
        {
            compute_buf.push(data[i]);
            i = i + 1;
            proof {
                assert(compute_buf@ =~= data@.subrange(0, i as int));
            }
        }
        compute_buf.push(0);
        compute_buf.push(0);
        let mut payload: Vec<u8> = Vec::new();
        let mut j: usize = HEADER_SIZE;
        while j < data.len()
            invariant
                HEADER_SIZE <= j <= data@.len(),
                payload@ == data@.subrange(HEADER_SIZE as int, j as int),
            decreases data.len() - j,
        {
            payload.push(data[j]);
            j = j + 1;
            proof {
                assert(payload@ =~= data@.subrange(HEADER_SIZE as int, j as int));
            }
        }
        append_bytes(&mut compute_buf, payload.as_slice());
        proof {
            assert(compute_buf@ =~= data@.subrange(0, 8) + seq![0u8, 0u8] + data@.subrange(
                10,
                data@.len() as int,
            ));
        }
        let crc_calc = crc16(compute_buf.as_slice());
        let data_id = (data[0] as u16) + 256 * (data[1] as u16);
        let source_id = (data[2] as u16) + 256 * (data[3] as u16);
        if crc_calc != crc_wire || data_id != self.cfg.data_id || source_id != self.cfg.source_id {
            let mut m = "CRC mismatch: wire=0x".to_owned();
            push_hex4(&mut m, crc_wire);
            m.append(" calc=0x");
            push_hex4(&mut m, crc_calc);
            return Err(E2eError { kind: ErrorKind::CrcMismatch, counter: seq, message: m });
        }
        let expected = if self.last_seq == u32::MAX {
            0
        } else {
            self.last_seq + 1
        };
        if !self.first && seq != expected {
            let prev = self.last_seq;
            let mut m = "sequence gap: last=".to_owned();
            push_decimal(&mut m, prev as u64);
            m.append(" recv=");
            push_decimal(&mut m, seq as u64);
            return Err(E2eError { kind: ErrorKind::SequenceGap, counter: seq, message: m });
        }
        self.last_seq = seq;
        self.first = false;
        Ok(payload)
    }
}

// ---------------------------------------------------------------------------
// Laws
// ---------------------------------------------------------------------------

proof fn lemma_le32_roundtrip(v: u32)
    ensures
        le32_value(le32(v)[0], le32(v)[1], le32(v)[2], le32(v)[3]) == v,
{
}

/// A protected message is exactly ten bytes longer than its payload.
pub proof fn lemma_protected_length(cfg: Config, seq: u32, payload: Seq<u8>)
    ensures
        protected_message(cfg, seq, payload).len() == payload.len() + HEADER_SIZE,
{
}

/// A protected message carries the DataID, the SourceID and the counter
/// it was built with.
pub proof fn lemma_protected_fields(cfg: Config, seq: u32, payload: Seq<u8>)
    ensures
        le16_value(protected_message(cfg, seq, payload)[0], protected_message(cfg, seq, payload)[1])
            == cfg.data_id,
        le16_value(protected_message(cfg, seq, payload)[2], protected_message(cfg, seq, payload)[3])
            == cfg.source_id,
        carried_seq(protected_message(cfg, seq, payload)) == seq,
{
    lemma_le32_roundtrip(seq);
}

/// A receiver accepts an unaltered protected message whose counter follows
/// the last one it saw (any counter, for its first message), returns the
/// original payload, and then remembers that counter.
pub proof fn lemma_protect_unwrap_roundtrip(
    cfg: Config,
    seq: u32,
    payload: Seq<u8>,
    st: ReceiverState,
)
    requires
        st.first || seq == next_seq(st.last_seq),
    ensures
        unwrap_outcome(cfg, st, protected_message(cfg, seq, payload)) == (
            Ok::<Seq<u8>, (ErrorKind, u32)>(payload),
            ReceiverState { last_seq: seq, first: false },
        ),
{
    let m = protected_message(cfg, seq, payload);
    lemma_protected_fields(cfg, seq, payload);
    let c = protection_crc(cfg, seq, payload);
    assert(m.subrange(0, 8) =~= header_prefix(cfg, seq));
    assert(m.subrange(10, m.len() as int) =~= payload);
    assert(le16_value(le16(c)[0], le16(c)[1]) == c);
    assert(carried_crc(m) == c);
}

/// Once a receiver has accepted a message, the same counter again is a
/// sequence gap: a replayed message is refused.
pub proof fn lemma_replay_refused(cfg: Config, st: ReceiverState, data: Seq<u8>)
    requires
        !st.first,
        data.len() >= HEADER_SIZE,
        !integrity_fails(cfg, data),
        carried_seq(data) == st.last_seq,
    ensures
        unwrap_outcome(cfg, st, data).0 == Err::<Seq<u8>, (ErrorKind, u32)>(
            (ErrorKind::SequenceGap, st.last_seq),
        ),
{
}

/// A refused message changes nothing: the receiver still expects the
/// successor of the last counter it accepted, so no number of refused
/// replays makes an old counter acceptable again.
pub proof fn lemma_refusal_keeps_state(cfg: Config, st: ReceiverState, data: Seq<u8>)
    requires
        unwrap_outcome(cfg, st, data).0 is Err,
    ensures
        unwrap_outcome(cfg, st, data).1 == st,
{
}

/// A message that names another DataID or SourceID than the receiver's is
/// refused.
pub proof fn lemma_foreign_ids_refused(cfg: Config, st: ReceiverState, data: Seq<u8>)
    requires
        data.len() >= HEADER_SIZE,
        !ids_match(cfg, data),
    ensures
        unwrap_outcome(cfg, st, data).0 == Err::<Seq<u8>, (ErrorKind, u32)>(
            (ErrorKind::CrcMismatch, carried_seq(data)),
        ),
{
}

/// Whether a receiver in state `st` gives back each of `payloads` in turn
/// when a protector with configuration `cfg` and counter `seq` protects
/// them one after the other.
pub open spec fn delivers_all(cfg: Config, seq: u32, st: ReceiverState, payloads: Seq<Seq<u8>>) -> bool
    decreases payloads.len(),
{
    if payloads.len() == 0 {
        true
    } else {
        let out = unwrap_outcome(cfg, st, protected_message(cfg, seq, payloads[0]));
        &&& out.0 == Ok::<Seq<u8>, (ErrorKind, u32)>(payloads[0])
        &&& delivers_all(cfg, next_seq(seq), out.1, payloads.drop_first())
    }
}

/// A protector and a receiver with the same configuration, the receiver
/// fresh or expecting the protector's counter, exchange any sequence of
/// payloads: each message unwraps to its payload, in order.
pub proof fn lemma_protect_unwrap_sequence(
    cfg: Config,
    seq: u32,
    st: ReceiverState,
    payloads: Seq<Seq<u8>>,
)
    requires
        st.first || seq == next_seq(st.last_seq),
    ensures
        delivers_all(cfg, seq, st, payloads),
    decreases payloads.len(),
{
    if payloads.len() > 0 {
        lemma_protect_unwrap_roundtrip(cfg, seq, payloads[0], st);
        lemma_protect_unwrap_sequence(
            cfg,
            next_seq(seq),
            ReceiverState { last_seq: seq, first: false },
            payloads.drop_first(),
        );
    }
}

} // verus!
