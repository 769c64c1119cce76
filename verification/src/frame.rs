//! LIN frame types, constants, validation, protected identifiers and
//! checksums (LIN 2.x wire format).

use vstd::prelude::*;

use vstd::arithmetic::div_mod::{
    lemma_fundamental_div_mod, lemma_fundamental_div_mod_converse, lemma_mod_pos_bound,
};

use crate::error::Error;
use crate::text::{decimal, hex2, push_decimal, push_hex2};

verus! {

/// Maximum number of data bytes in a LIN frame payload.
pub const LIN_MAX_DATA_LEN: usize = 8;

/// Maximum raw LIN frame identifier (6 bits).
pub const LIN_MAX_ID: u8 = 0x3F;

/// Master request diagnostic frame ID.
pub const LIN_DIAG_REQUEST_ID: u8 = 0x3C;

/// Slave response diagnostic frame ID.
pub const LIN_DIAG_RESPONSE_ID: u8 = 0x3D;

/// Selects the checksum algorithm applied to a LIN frame.
#[derive(Clone, Copy, Debug, PartialEq, Eq, Structural)]
pub enum ChecksumType {
    /// Classic (LIN 1.x): covers data bytes only.
    Classic,
    /// Enhanced (LIN 2.x): covers PID + data bytes.
    Enhanced,
}

impl Default for ChecksumType {
    fn default() -> (r: Self)
        ensures
            r == ChecksumType::Classic,
    {
        ChecksumType::Classic
    }
}

/// The wire number of a checksum type.
pub open spec fn checksum_type_code(ct: ChecksumType) -> u8 {
    match ct {
        ChecksumType::Classic => 0,
        ChecksumType::Enhanced => 1,
    }
}

/// The name of a checksum type.
pub open spec fn checksum_type_name(ct: ChecksumType) -> Seq<char> {
    match ct {
        ChecksumType::Classic => "classic"@,
        ChecksumType::Enhanced => "enhanced"@,
    }
}

impl ChecksumType {
    /// The wire number: 0 for classic, 1 for enhanced.
    pub fn to_u8(self) -> (r: u8)
        ensures
            r == checksum_type_code(self),
    {
        match self {
            ChecksumType::Classic => 0,
            ChecksumType::Enhanced => 1,
        }
    }

    /// Decodes a wire number; any other value is refused with a message.
    pub fn from_u8(v: u8) -> (r: Result<ChecksumType, String>)
        ensures
            v == 0 ==> r == Ok::<ChecksumType, String>(ChecksumType::Classic),
            v == 1 ==> r == Ok::<ChecksumType, String>(ChecksumType::Enhanced),
            v > 1 ==> (r matches Err(m) && m@ == "unknown checksum type: "@ + decimal(v as nat)),
    {
        match v {
            0 => Ok(ChecksumType::Classic),
            1 => Ok(ChecksumType::Enhanced),
            _ => {
                let mut m = "unknown checksum type: ".to_owned();
                push_decimal(&mut m, v as u64);
                Err(m)
            },
        }
    }

    /// The name: "classic" or "enhanced".
    pub fn as_str(self) -> (r: &'static str)
        ensures
            r@ == checksum_type_name(self),
    {
        match self {
            ChecksumType::Classic => "classic",
            ChecksumType::Enhanced => "enhanced",
        }
    }

    /// The name as an owned string.
    pub fn to_string(self) -> (r: String)
        ensures
            r@ == checksum_type_name(self),
    {
        self.as_str().to_owned()
    }
}

impl From<ChecksumType> for u8 {
    /// The wire number of a checksum type.
    fn from(ct: ChecksumType) -> (r: u8) {
        ct.to_u8()
    }
}

impl vstd::std_specs::convert::FromSpecImpl<ChecksumType> for u8 {
    open spec fn obeys_from_spec() -> bool {
        true
    }

    open spec fn from_spec(ct: ChecksumType) -> u8 {
        checksum_type_code(ct)
    }
}

/// A LIN bus frame: a 6-bit identifier, 1 to 8 data bytes, the wire
/// checksum and the checksum algorithm.
#[derive(Debug, PartialEq, Eq)]
pub struct Frame {
    /// 6-bit frame identifier (0x00–0x3F).
    pub id: u8,
    /// Frame payload (1–8 bytes).
    pub data: Vec<u8>,
    /// Wire checksum byte.
    pub checksum: u8,
    /// Whether the checksum is classic or enhanced.
    pub checksum_type: ChecksumType,
}

/// The mathematical value of a frame.
pub struct FrameView {
    pub id: u8,
    pub data: Seq<u8>,
    pub checksum: u8,
    pub checksum_type: ChecksumType,
}

impl View for Frame {
    type V = FrameView;

    open spec fn view(&self) -> FrameView {
        FrameView {
            id: self.id,
            data: self.data@,
            checksum: self.checksum,
            checksum_type: self.checksum_type,
        }
    }
}

impl Clone for Frame {
    fn clone(&self) -> (r: Self)
        ensures
            r@ == self@,
    {
        Frame {
            id: self.id,
            data: self.data.clone(),
            checksum: self.checksum,
            checksum_type: self.checksum_type,
        }
    }
}

impl Default for Frame {
    fn default() -> (r: Self)
        ensures
            r.id == 0,
            r.data@ == Seq::<u8>::empty(),
            r.checksum == 0,
            r.checksum_type == ChecksumType::Classic,
    {
        Frame { id: 0, data: Vec::new(), checksum: 0, checksum_type: ChecksumType::Classic }
    }
}

/// A content filter for LIN frames: an exact identifier, or every frame
/// when `all` is set.
#[derive(Clone, Copy, Debug, PartialEq, Eq, Structural)]
pub struct Filter {
    /// Exact LIN frame identifier to match (0x00–0x3F).
    pub id: u8,
    /// When true, overrides `id` and matches every frame.
    pub all: bool,
}

impl Default for Filter {
    fn default() -> (r: Self)
        ensures
            r.id == 0,
            !r.all,
    {
        Filter { id: 0, all: false }
    }
}

/// Whether a frame with identifier `id` passes filter `f`.
pub open spec fn filter_passes(f: Filter, id: u8) -> bool {
    f.all || f.id == id
}

impl Filter {
    /// Returns true if `fr` passes this filter.
    pub fn matches(&self, fr: &Frame) -> (r: bool)
        ensures
            r == filter_passes(*self, fr.id),
    {
        if self.all {
            return true;
        }
        fr.id == self.id
    }
}

/// One slot in a LIN schedule table.
#[derive(Clone, Copy, Debug, PartialEq, Eq, Structural)]
pub struct ScheduleEntry {
    /// Frame identifier transmitted by the master in this slot.
    pub id: u8,
    /// Slot duration in milliseconds.
    pub delay_ms: u32,
}

impl Default for ScheduleEntry {
    fn default() -> (r: Self)
        ensures
            r.id == 0,
            r.delay_ms == 0,
    {
        ScheduleEntry { id: 0, delay_ms: 0 }
    }
}

/// Bit `i` of `x` (0 or 1).
pub open spec fn bit(x: u8, i: u8) -> u8 {
    (x >> i) & 1
}

/// Parity bit P0 = ID0 ^ ID1 ^ ID2 ^ ID4.
pub open spec fn parity_p0(id: u8) -> u8 {
    bit(id, 0) ^ bit(id, 1) ^ bit(id, 2) ^ bit(id, 4)
}

/// Parity bit P1 = NOT(ID1 ^ ID3 ^ ID4 ^ ID5).
pub open spec fn parity_p1(id: u8) -> u8 {
    (1 - (bit(id, 1) ^ bit(id, 3) ^ bit(id, 4) ^ bit(id, 5))) as u8
}

/// The protected identifier: the low six bits of `id`, P0 in bit 6 and P1
/// in bit 7.
pub open spec fn pid_of(id: u8) -> u8 {
    let low = id & 0x3F;
    (low + 64 * parity_p0(low) + 128 * parity_p1(low)) as u8
}

/// Computes the Protected Identifier for a 6-bit LIN frame ID.
pub fn protect_id(id: u8) -> (r: u8)
    ensures
        r == pid_of(id),
{
    let raw = id;
    let id = raw & LIN_MAX_ID;
    let p0 = (id ^ (id >> 1) ^ (id >> 2) ^ (id >> 4)) & 0x01;
    let p1 = (!((id >> 1) ^ (id >> 3) ^ (id >> 4) ^ (id >> 5))) & 0x01;
    let r = id | (p0 << 6) | (p1 << 7);
    assert(r == (id + 64 * parity_p0(id) + 128 * parity_p1(id)) as u8) by (bit_vector)
        requires
            id == raw & 0x3F,
            p0 == (id ^ (id >> 1) ^ (id >> 2) ^ (id >> 4)) & 0x01,
            p1 == (!((id >> 1) ^ (id >> 3) ^ (id >> 4) ^ (id >> 5))) & 0x01,
            r == id | (p0 << 6) | (p1 << 7),
    ;
    r
}

/// The reason text for a PID whose parity bits are wrong.
pub open spec fn pid_parity_reason(pid: u8) -> Seq<char> {
    "PID 0x"@ + hex2(pid) + " parity mismatch"@
}

/// Checks the parity bits of a Protected Identifier and returns its raw
/// 6-bit ID.
pub fn verify_pid(pid: u8) -> (r: Result<u8, Error>)
    ensures
        pid_of(pid & 0x3F) == pid ==> r == Ok::<u8, Error>(pid & 0x3F),
        pid_of(pid & 0x3F) != pid ==> (r matches Err(Error::InvalidFrame { reason })
            && reason@ == pid_parity_reason(pid)),
{
    let id = pid & LIN_MAX_ID;
    if protect_id(id) != pid {
        let mut m = "PID 0x".to_owned();
        push_hex2(&mut m, pid);
        m.append(" parity mismatch");
        return Err(Error::invalid_frame(m));
    }
    Ok(id)
}

/// One step of LIN carry-around addition: add, and fold a carry out of
/// the byte back in by subtracting 0xFF.
pub open spec fn carry_add(sum: int, b: u8) -> int {
    if sum + b > 0xFF {
        sum + b - 0xFF
    } else {
        sum + b
    }
}

/// The carry-around sum of `init` followed by the bytes of `data`.
pub open spec fn carry_sum(init: int, data: Seq<u8>) -> int
    decreases data.len(),
{
    if data.len() == 0 {
        init
    } else {
        carry_add(carry_sum(init, data.drop_last()), data.last())
    }
}

/// The value the sum starts from: the PID for enhanced, 0 for classic.
pub open spec fn checksum_init(pid: u8, ct: ChecksumType) -> int {
    match ct {
        ChecksumType::Enhanced => pid as int,
        ChecksumType::Classic => 0,
    }
}

/// The LIN checksum: the inverted carry-around sum.
pub open spec fn checksum_of(pid: u8, data: Seq<u8>, ct: ChecksumType) -> u8 {
    (0xFF - carry_sum(checksum_init(pid, ct), data)) as u8
}

proof fn lemma_carry_sum_bounded(init: int, data: Seq<u8>)
    requires
        0 <= init <= 0xFF,
    ensures
        0 <= carry_sum(init, data) <= 0xFF,
    decreases data.len(),
{
    if data.len() > 0 {
        lemma_carry_sum_bounded(init, data.drop_last());
    }
}

/// The plain sum of the bytes of `data`.
pub open spec fn byte_total(data: Seq<u8>) -> int
    decreases data.len(),
{
    if data.len() == 0 {
        0
    } else {
        byte_total(data.drop_last()) + data.last()
    }
}

/// What carry-around addition leaves of a plain total: 0 for 0, else the
/// total folded into 1..=0xFF.
pub open spec fn fold_carries(total: int) -> int {
    if total <= 0 {
        0
    } else {
        (total - 1) % 255 + 1
    }
}

proof fn lemma_fold_step(t: int, b: u8)
    requires
        t >= 0,
    ensures
        carry_add(fold_carries(t), b) == fold_carries(t + b),
{
    if t == 0 {
        if b > 0 {
            lemma_fundamental_div_mod_converse(b - 1, 255, 0, b - 1);
        }
    } else {
        let q = (t - 1) / 255;
        let r = (t - 1) % 255;
        lemma_fundamental_div_mod(t - 1, 255);
        lemma_mod_pos_bound(t - 1, 255);
        assert(t - 1 == q * 255 + r) by (nonlinear_arith)
            requires
                t - 1 == 255 * q + r,
        ;
        if r + b < 255 {
            lemma_fundamental_div_mod_converse(t + b - 1, 255, q, r + b);
        } else {
            assert(t + b - 1 == (q + 1) * 255 + (r + b - 255)) by (nonlinear_arith)
                requires
                    t - 1 == q * 255 + r,
            ;
            lemma_fundamental_div_mod_converse(t + b - 1, 255, q + 1, r + b - 255);
        }
    }
}

proof fn lemma_byte_total_nonneg(data: Seq<u8>)
    ensures
        byte_total(data) >= 0,
    decreases data.len(),
{
    if data.len() > 0 {
        lemma_byte_total_nonneg(data.drop_last());
    }
}

/// Carry-around addition from a start in 0..=0xFF depends only on the
/// plain total of start and bytes.
proof fn lemma_carry_sum_folds_total(init: int, data: Seq<u8>)
    requires
        0 <= init <= 0xFF,
    ensures
        carry_sum(init, data) == fold_carries(init + byte_total(data)),
    decreases data.len(),
{
    if data.len() == 0 {
        if init > 0 {
            lemma_fundamental_div_mod_converse(init - 1, 255, 0, init - 1);
        }
    } else {
        lemma_carry_sum_folds_total(init, data.drop_last());
        lemma_byte_total_nonneg(data.drop_last());
        lemma_fold_step(init + byte_total(data.drop_last()), data.last());
    }
}

proof fn lemma_byte_total_remove(data: Seq<u8>, i: int)
    requires
        0 <= i < data.len(),
    ensures
        byte_total(data) == byte_total(data.remove(i)) + data[i],
    decreases data.len(),
{
    if i == data.len() - 1 {
        assert(data.remove(i) =~= data.drop_last());
    } else {
        lemma_byte_total_remove(data.drop_last(), i);
        assert(data.remove(i).drop_last() =~= data.drop_last().remove(i));
    }
}

proof fn lemma_byte_total_permutation(a: Seq<u8>, b: Seq<u8>)
    requires
        a.to_multiset() == b.to_multiset(),
    ensures
        byte_total(a) == byte_total(b),
    decreases a.len(),
{
    broadcast use vstd::multiset::group_multiset_axioms;
    broadcast use vstd::seq_lib::to_multiset_build;
    broadcast use vstd::seq_lib::to_multiset_len;
    broadcast use vstd::seq_lib::to_multiset_contains;
    broadcast use vstd::seq_lib::to_multiset_remove;

    if a.len() == 0 {
        assert(b.to_multiset().len() == 0);
        assert(b =~= a);
    } else {
        let x = a.last();
        let rest = a.drop_last();
        assert(rest.push(x) =~= a);
        assert(a.to_multiset() =~= rest.to_multiset().insert(x));
        assert(b.to_multiset().count(x) > 0);
        assert(b.contains(x));
        let j = choose|j: int| 0 <= j < b.len() && b[j] == x;
        assert(b.remove(j).to_multiset() == b.to_multiset().remove(x));
        assert(rest.to_multiset().insert(x).remove(x) =~= rest.to_multiset());
        lemma_byte_total_permutation(rest, b.remove(j));
        lemma_byte_total_remove(b, j);
    }
}

proof fn lemma_carry_sum_concat(init: int, a: Seq<u8>, b: Seq<u8>)
    ensures
        carry_sum(init, a + b) == carry_sum(carry_sum(init, a), b),
    decreases b.len(),
{
    if b.len() == 0 {
        assert(a + b =~= a);
    } else {
        lemma_carry_sum_concat(init, a, b.drop_last());
        assert((a + b).drop_last() =~= a + b.drop_last());
    }
}

/// The checksum does not depend on the order of the data bytes: any
/// reordering of the payload gives the same checksum.
pub proof fn lemma_checksum_order_free(pid: u8, data: Seq<u8>, other: Seq<u8>, ct: ChecksumType)
    requires
        other.to_multiset() == data.to_multiset(),
    ensures
        checksum_of(pid, other, ct) == checksum_of(pid, data, ct),
{
    lemma_carry_sum_folds_total(checksum_init(pid, ct), data);
    lemma_carry_sum_folds_total(checksum_init(pid, ct), other);
    lemma_byte_total_permutation(data, other);
}

/// The enhanced checksum is the classic checksum of the data with the PID
/// in front of it.
pub proof fn lemma_enhanced_is_classic_with_pid(pid: u8, data: Seq<u8>, q: u8)
    ensures
        checksum_of(pid, data, ChecksumType::Enhanced) == checksum_of(
            q,
            seq![pid] + data,
            ChecksumType::Classic,
        ),
{
    lemma_carry_sum_concat(0, seq![pid], data);
    assert(carry_sum(0, seq![pid]) == pid as int) by {
        assert(seq![pid].drop_last() =~= Seq::<u8>::empty());
        assert(carry_sum(0, Seq::<u8>::empty()) == 0);
        assert(seq![pid].last() == pid);
    }
}

/// A trailing zero byte leaves the checksum unchanged.
pub proof fn lemma_trailing_zero_keeps_checksum(pid: u8, data: Seq<u8>, ct: ChecksumType)
    ensures
        checksum_of(pid, data.push(0), ct) == checksum_of(pid, data, ct),
{
    lemma_carry_sum_bounded(checksum_init(pid, ct), data);
    assert(data.push(0).drop_last() =~= data);
}

/// Computes the LIN checksum for the given PID and data: classic sums the
/// data bytes only, enhanced includes the PID; both invert the
/// carry-around 8-bit sum.
pub fn calc_checksum(pid: u8, data: &[u8], ct: ChecksumType) -> (r: u8)
    ensures
        r == checksum_of(pid, data@, ct),
{
    let mut sum: u16 = if ct == ChecksumType::Enhanced {
        pid as u16
    } else {
        0
    };
    let mut i: usize = 0;
    while i < data.len()
        invariant
            i <= data@.len(),
            sum == carry_sum(checksum_init(pid, ct), data@.subrange(0, i as int)),
            sum <= 0xFF,
        decreases data.len() - i,
    {
        proof {
            assert(data@.subrange(0, i + 1).drop_last() =~= data@.subrange(0, i as int));
        }
        sum = sum + data[i] as u16;
        if sum > 0xFF {
            sum = sum - 0xFF;
        }
        i = i + 1;
    }
    proof {
        assert(data@.subrange(0, data@.len() as int) =~= data@);
    }
    0xFF - (sum as u8)
}

/// Whether a frame satisfies the structural rules: ID at most 0x3F, 1 to 8
/// data bytes, and the classic checksum on the diagnostic IDs.
pub open spec fn frame_is_valid(id: u8, len: nat, ct: ChecksumType) -> bool {
    &&& id <= LIN_MAX_ID
    &&& 1 <= len <= LIN_MAX_DATA_LEN
    &&& (id == LIN_DIAG_REQUEST_ID || id == LIN_DIAG_RESPONSE_ID) ==> ct == ChecksumType::Classic
}

/// The reason `validate_frame` gives for a frame it refuses.
pub open spec fn invalid_frame_reason(id: u8, len: nat, ct: ChecksumType) -> Seq<char> {
    if id > LIN_MAX_ID {
        "frame ID 0x"@ + hex2(id) + " exceeds maximum 0x"@ + hex2(LIN_MAX_ID)
    } else if len == 0 {
        "frame data must not be empty"@
    } else if len > LIN_MAX_DATA_LEN {
        "frame data length "@ + decimal(len) + " exceeds maximum "@ + decimal(
            LIN_MAX_DATA_LEN as nat,
        )
    } else {
        "diagnostic frame 0x"@ + hex2(id) + " must use classic checksum"@
    }
}

/// Validates a LIN frame against the structural rules, returning
/// `Error::InvalidFrame` with the first rule it breaks.
pub fn validate_frame(f: &Frame) -> (r: Result<(), Error>)
    ensures
        frame_is_valid(f.id, f.data@.len(), f.checksum_type) ==> r is Ok,
        !frame_is_valid(f.id, f.data@.len(), f.checksum_type) ==> (r matches Err(
            Error::InvalidFrame { reason },
        ) && reason@ == invalid_frame_reason(f.id, f.data@.len(), f.checksum_type)),
{
    if f.id > LIN_MAX_ID {
        let mut m = "frame ID 0x".to_owned();
        push_hex2(&mut m, f.id);
        m.append(" exceeds maximum 0x");
        push_hex2(&mut m, LIN_MAX_ID);
        return Err(Error::invalid_frame(m));
    }
    if f.data.len() == 0 {
        return Err(Error::invalid_frame("frame data must not be empty".to_owned()));
    }
    if f.data.len() > LIN_MAX_DATA_LEN {
        let mut m = "frame data length ".to_owned();
        push_decimal(&mut m, f.data.len() as u64);
        m.append(" exceeds maximum ");
        push_decimal(&mut m, LIN_MAX_DATA_LEN as u64);
        return Err(Error::invalid_frame(m));
    }
    if (f.id == LIN_DIAG_REQUEST_ID || f.id == LIN_DIAG_RESPONSE_ID) && f.checksum_type
        != ChecksumType::Classic {
        let mut m = "diagnostic frame 0x".to_owned();
        push_hex2(&mut m, f.id);
        m.append(" must use classic checksum");
        return Err(Error::invalid_frame(m));
    }
    Ok(())
}

/// A PID made from a valid ID keeps the ID in its low six bits, and
/// checking its parity gives the ID back.
pub proof fn lemma_pid_roundtrip(id: u8)
    requires
        id <= LIN_MAX_ID,
    ensures
        pid_of(id) & 0x3F == id,
        pid_of(pid_of(id) & 0x3F) == pid_of(id),
{
    let p0 = parity_p0(id);
    let p1 = parity_p1(id);
    assert(((id + 64 * parity_p0(id) + 128 * parity_p1(id)) as u8) & 0x3F == id) by (bit_vector)
        requires
            id <= 0x3F,
    ;
    assert(id & 0x3F == id) by (bit_vector)
        requires
            id <= 0x3F,
    ;
}

/// Flipping either parity bit of a valid PID makes the check fail.
pub proof fn lemma_parity_flip_detected(id: u8)
    requires
        id <= LIN_MAX_ID,
    ensures
        pid_of((pid_of(id) ^ 0x40) & 0x3F) != pid_of(id) ^ 0x40,
        pid_of((pid_of(id) ^ 0x80) & 0x3F) != pid_of(id) ^ 0x80,
{
    assert(((((id + 64 * parity_p0(id) + 128 * parity_p1(id)) as u8) ^ 0x40) & 0x3F) == id)
        by (bit_vector)
        requires
            id <= 0x3F,
    ;
    assert(((((id + 64 * parity_p0(id) + 128 * parity_p1(id)) as u8) ^ 0x80) & 0x3F) == id)
        by (bit_vector)
        requires
            id <= 0x3F,
    ;
    assert(((id + 64 * parity_p0(id) + 128 * parity_p1(id)) as u8) != (((id + 64 * parity_p0(id)
        + 128 * parity_p1(id)) as u8) ^ 0x40)) by (bit_vector);
    assert(((id + 64 * parity_p0(id) + 128 * parity_p1(id)) as u8) != (((id + 64 * parity_p0(id)
        + 128 * parity_p1(id)) as u8) ^ 0x80)) by (bit_vector);
    assert(id & 0x3F == id) by (bit_vector)
        requires
            id <= 0x3F,
    ;
}

/// Adding the checksum to the carry-around sum of the covered bytes gives
/// 0xFF: the receiver's check of a frame the sender summed.
pub proof fn lemma_checksum_verifies(pid: u8, data: Seq<u8>, ct: ChecksumType)
    ensures
        carry_add(carry_sum(checksum_init(pid, ct), data), checksum_of(pid, data, ct)) == 0xFF,
{
    lemma_carry_sum_bounded(checksum_init(pid, ct), data);
}

/// The classic checksum does not depend on the PID.
pub proof fn lemma_classic_ignores_pid(pid1: u8, pid2: u8, data: Seq<u8>)
    ensures
        checksum_of(pid1, data, ChecksumType::Classic) == checksum_of(
            pid2,
            data,
            ChecksumType::Classic,
        ),
{
}

/// A filter with `all` set passes every frame.
pub proof fn lemma_filter_all_passes(f: Filter, id: u8)
    requires
        f.all,
    ensures
        filter_passes(f, id),
{
}

} // verus!
