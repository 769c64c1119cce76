//! What the command-line tool decides: reading the frame identifier and
//! data that `send` is given, checking what `convert` and
//! `send --format json` are given, and the lines it prints.

use vstd::prelude::*;
use vstd::string::StringSliceAdditionalSpecFns;

use crate::adapt::{
    from_message, from_message_reason, message_converts, message_frame_id, meta_checksum, meta_checksum_type,
    to_message, frame_meta,
};
use crate::chars::{digit_of, eq_ignore_case, equals_ignore_case, has_prefix, radix_digit, starts_with, to_chars, slice_of};
use crate::error::Error;
use crate::frame::{
    checksum_type_name, frame_is_valid, invalid_frame_reason, validate_frame, Frame,
    LIN_MAX_DATA_LEN,
};
use crate::relay::{Message, Protocol, Version};
use crate::text::{decimal, hex2, push_decimal, push_hex2};

verus! {

broadcast use vstd::string::group_string_axioms;

// ---------------------------------------------------------------------------
// Frame identifiers
// ---------------------------------------------------------------------------

/// Why a number could not be read, as the standard library's integer
/// parsing tells it.
#[derive(Clone, Copy, Debug, PartialEq, Eq, Structural)]
pub enum IntError {
    Empty,
    InvalidDigit,
    TooLarge,
}

/// The standard library's text for each `IntError`.
pub open spec fn int_error_text(e: IntError) -> Seq<char> {
    match e {
        IntError::Empty => "cannot parse integer from empty string"@,
        IntError::InvalidDigit => "invalid digit found in string"@,
        IntError::TooLarge => "number too large to fit in target type"@,
    }
}

impl IntError {
    /// The error's text.
    pub fn to_string(&self) -> (r: String)
        ensures
            r@ == int_error_text(*self),
    {
        match self {
            IntError::Empty => "cannot parse integer from empty string".to_owned(),
            IntError::InvalidDigit => "invalid digit found in string".to_owned(),
            IntError::TooLarge => "number too large to fit in target type".to_owned(),
        }
    }
}

/// Reads the digits `d` in base `radix` into a byte, from the value `acc`
/// read so far: the first character that is not a digit, or the first
/// digit that takes the value past 255, stops it.
pub open spec fn scan_u8(d: Seq<char>, radix: int, acc: int) -> Result<u8, IntError>
    decreases d.len(),
{
    if d.len() == 0 {
        Ok(acc as u8)
    } else {
        match radix_digit(d[0], radix) {
            None => Err(IntError::InvalidDigit),
            Some(x) => if acc * radix + x > 255 {
                Err(IntError::TooLarge)
            } else {
                scan_u8(d.drop_first(), radix, acc * radix + x)
            },
        }
    }
}

/// A byte written in base `radix` with an optional `+`, as
/// `u8::from_str_radix` reads it.
pub open spec fn u8_radix(s: Seq<char>, radix: int) -> Result<u8, IntError> {
    if s.len() == 0 {
        Err(IntError::Empty)
    } else if (s[0] == '+' || s[0] == '-') && s.len() == 1 {
        Err(IntError::InvalidDigit)
    } else if s[0] == '+' {
        scan_u8(s.drop_first(), radix, 0)
    } else {
        scan_u8(s, radix, 0)
    }
}

/// A frame identifier as `send` takes it: hexadecimal after `0x` or
/// `0X`, decimal otherwise.
pub open spec fn frame_id_of(s: Seq<char>) -> Result<u8, IntError> {
    if starts_with(s, "0x"@) || starts_with(s, "0X"@) {
        u8_radix(s.skip(2), 16)
    } else {
        u8_radix(s, 10)
    }
}

fn parse_u8_radix(s: &[char], radix: u32) -> (r: Result<u8, IntError>)
    requires
        radix == 10 || radix == 16,
    ensures
        r == u8_radix(s@, radix as int),
{
    if s.len() == 0 {
        return Err(IntError::Empty);
    }
    if (s[0] == '+' || s[0] == '-') && s.len() == 1 {
        return Err(IntError::InvalidDigit);
    }
    let start: usize = if s[0] == '+' {
        1
    } else {
        0
    };
    proof {
        assert(s@.skip(0) =~= s@);
        assert(s@.skip(1) =~= s@.drop_first());
    }
    let mut acc: u32 = 0;
    let mut i: usize = start;
    while i < s.len()
        invariant
            start <= i <= s@.len(),
            radix == 10 || radix == 16,
            acc <= 255,
            u8_radix(s@, radix as int) == scan_u8(s@.skip(i as int), radix as int, acc as int),
        decreases s.len() - i,
    {
        proof {
            assert(s@.skip(i as int)[0] == s@[i as int]);
            assert(s@.skip(i as int).drop_first() =~= s@.skip(i + 1));
        }
        let x = match digit_of(s[i], radix) {
            Some(x) => x,
            None => {
                return Err(IntError::InvalidDigit);
            },
        };
        if acc * radix + x > 255 {
            return Err(IntError::TooLarge);
        }
        acc = acc * radix + x;
        i = i + 1;
    }
    proof {
        assert(s@.skip(i as int).len() == 0);
    }
    Ok(acc as u8)
}

/// Reads a frame identifier as `frame_id_of` describes.
pub fn parse_frame_id(s: &str) -> (r: Result<u8, IntError>)
    ensures
        r == frame_id_of(s@),
{
    let cs = to_chars(s);
    let lower = to_chars("0x");
    let upper = to_chars("0X");
    proof {
        reveal_strlit("0x");
        reveal_strlit("0X");
    }
    if has_prefix(cs.as_slice(), lower.as_slice()) || has_prefix(cs.as_slice(), upper.as_slice()) {
        let body = slice_of(cs.as_slice(), 2, cs.len());
        proof {
            assert(body@ =~= s@.skip(2));
        }
        parse_u8_radix(body.as_slice(), 16)
    } else {
        parse_u8_radix(cs.as_slice(), 10)
    }
}

// ---------------------------------------------------------------------------
// Hexadecimal data
// ---------------------------------------------------------------------------

/// Why hexadecimal text could not be decoded, as the `hex` crate tells it.
#[derive(Clone, Copy, Debug, PartialEq, Eq, Structural)]
pub enum HexError {
    /// A byte that is not a hexadecimal digit, and its position.
    InvalidCharacter { c: char, index: usize },
    /// An odd number of digits.
    OddLength,
    /// A length that does not fit the target.
    InvalidStringLength,
}

/// The value of a hexadecimal digit byte, in either case.
pub open spec fn hex_byte_value(b: u8) -> Option<int> {
    if 0x30 <= b <= 0x39 {
        Some(b - 0x30)
    } else if 0x61 <= b <= 0x66 {
        Some(b - 0x61 + 10)
    } else if 0x41 <= b <= 0x46 {
        Some(b - 0x41 + 10)
    } else {
        None
    }
}

/// The position of the first byte of `d` that is not a hexadecimal digit.
pub open spec fn first_non_hex(d: Seq<u8>) -> Option<int>
    decreases d.len(),
{
    if d.len() == 0 {
        None
    } else {
        match first_non_hex(d.drop_last()) {
            Some(i) => Some(i),
            None => if hex_byte_value(d.last()) is None {
                Some(d.len() - 1)
            } else {
                None
            },
        }
    }
}

/// The bytes that pairs of hexadecimal digits stand for, the first digit
/// of each pair the more significant.
pub open spec fn hex_bytes(d: Seq<u8>) -> Seq<u8> {
    Seq::new(
        d.len() / 2,
        |i: int| (hex_byte_value(d[2 * i])->0 * 16 + hex_byte_value(d[2 * i + 1])->0) as u8,
    )
}

/// What `hex::decode` gives for the bytes `d`: an odd length is refused
/// first, then the first byte that is not a digit.
pub open spec fn hex_decoded(d: Seq<u8>) -> Result<Seq<u8>, HexError> {
    if d.len() % 2 == 1 {
        Err(HexError::OddLength)
    } else {
        match first_non_hex(d) {
            Some(i) => Err(HexError::InvalidCharacter { c: (d[i] as u32) as char, index: i as usize }),
            None => Ok(hex_bytes(d)),
        }
    }
}

/// Decodes hexadecimal text through `hex::decode`, which reads the bytes
/// two at a time, refusing an odd length before anything else and then
/// the first byte that is not a digit (`0-9`, `a-f`, `A-F`); its error is
/// given here as a `HexError` with the same variant and fields.
#[verifier::external_body]
fn hex_decode(data: &[u8]) -> (r: Result<Vec<u8>, HexError>)
    ensures
        match hex_decoded(data@) {
            Ok(v) => r matches Ok(w) && w@ == v,
            Err(e) => r == Err::<Vec<u8>, HexError>(e),
        },
{
    match hex::decode(data) {
        Ok(v) => Ok(v),
        Err(hex::FromHexError::InvalidHexCharacter { c, index }) => Err(
            HexError::InvalidCharacter { c, index },
        ),
        Err(hex::FromHexError::OddLength) => Err(HexError::OddLength),
        Err(hex::FromHexError::InvalidStringLength) => Err(HexError::InvalidStringLength),
    }
}

/// A lower-case hexadecimal digit.
pub open spec fn lower_hex_digit(d: int) -> char {
    if d < 10 {
        ((d + 48) as u8) as char
    } else {
        ((d - 10 + 97) as u8) as char
    }
}

/// Two lower-case hexadecimal digits for each byte, most significant first.
pub open spec fn lower_hex(s: Seq<u8>) -> Seq<char>
    decreases s.len(),
{
    if s.len() == 0 {
        Seq::empty()
    } else {
        lower_hex(s.drop_last()) + seq![
            lower_hex_digit(s.last() as int / 16),
            lower_hex_digit(s.last() as int % 16),
        ]
    }
}

/// Encodes bytes as lower-case hexadecimal text through `hex::encode`,
/// which writes two digits per byte, the high nibble first.
#[verifier::external_body]
fn hex_encode(data: &[u8]) -> (r: String)
    ensures
        r@ == lower_hex(data@),
{
    hex::encode(data)
}

/// The text `format!("{:?}", c)` gives for a character: the character in
/// single quotes, escaped as Rust's `Debug` escapes it.
pub uninterp spec fn char_debug_text(c: char) -> Seq<char>;

/// Formats a character with `Debug`.
#[verifier::external_body]
fn debug_char(c: char) -> (r: String)
    ensures
        r@ == char_debug_text(c),
{
    format!("{:?}", c)
}

/// The `hex` crate's text for each `HexError`.
pub open spec fn hex_error_text(e: HexError) -> Seq<char> {
    match e {
        HexError::InvalidCharacter { c, index } => "Invalid character "@ + char_debug_text(c)
            + " at position "@ + decimal(index as nat),
        HexError::OddLength => "Odd number of digits"@,
        HexError::InvalidStringLength => "Invalid string length"@,
    }
}

impl HexError {
    /// The error's text.
    pub fn to_string(&self) -> (r: String)
        ensures
            r@ == hex_error_text(*self),
    {
        match self {
            HexError::InvalidCharacter { c, index } => {
                let mut s = "Invalid character ".to_owned();
                s.append(debug_char(*c).as_str());
                s.append(" at position ");
                push_decimal(&mut s, *index as u64);
                s
            },
            HexError::OddLength => "Odd number of digits".to_owned(),
            HexError::InvalidStringLength => "Invalid string length".to_owned(),
        }
    }
}

// ---------------------------------------------------------------------------
// send
// ---------------------------------------------------------------------------

/// Why `send` refuses what it is given in text mode.
#[derive(Clone, Copy, Debug, PartialEq, Eq, Structural)]
pub enum SendError {
    /// No `--id`.
    MissingId,
    /// No `--data`.
    MissingData,
    /// The identifier does not read as a byte.
    BadId(IntError),
    /// The data is not hexadecimal.
    BadData(HexError),
    /// More data bytes than a frame holds.
    TooLong(usize),
}

/// The text of each `SendError`.
pub open spec fn send_error_text(e: SendError) -> Seq<char> {
    match e {
        SendError::MissingId => "rust-lin: --id is required in text mode"@,
        SendError::MissingData => "rust-lin: --data is required in text mode"@,
        SendError::BadId(k) => int_error_text(k),
        SendError::BadData(h) => hex_error_text(h),
        SendError::TooLong(n) => "rust-lin: data length "@ + decimal(n as nat)
            + " exceeds maximum "@ + decimal(LIN_MAX_DATA_LEN as nat),
    }
}

impl SendError {
    /// The error's text.
    pub fn to_string(&self) -> (r: String)
        ensures
            r@ == send_error_text(*self),
    {
        match self {
            SendError::MissingId => "rust-lin: --id is required in text mode".to_owned(),
            SendError::MissingData => "rust-lin: --data is required in text mode".to_owned(),
            SendError::BadId(k) => k.to_string(),
            SendError::BadData(h) => h.to_string(),
            SendError::TooLong(n) => {
                let mut s = "rust-lin: data length ".to_owned();
                push_decimal(&mut s, *n as u64);
                s.append(" exceeds maximum ");
                push_decimal(&mut s, LIN_MAX_DATA_LEN as u64);
                s
            },
        }
    }
}

/// The bytes `b` without the spaces (0x20) among them.
pub open spec fn drop_spaces(b: Seq<u8>) -> Seq<u8>
    decreases b.len(),
{
    if b.len() == 0 {
        Seq::empty()
    } else if b.last() == 0x20 {
        drop_spaces(b.drop_last())
    } else {
        drop_spaces(b.drop_last()).push(b.last())
    }
}

fn without_spaces(b: &[u8]) -> (r: Vec<u8>)
    ensures
        r@ == drop_spaces(b@),
{
    let mut out: Vec<u8> = Vec::new();
    let mut i: usize = 0;
    while i < b.len()
        invariant
            i <= b@.len(),
            out@ == drop_spaces(b@.take(i as int)),
        decreases b.len() - i,
    {
        proof {
            assert(b@.take(i + 1).drop_last() =~= b@.take(i as int));
            assert(b@.take(i + 1).last() == b@[i as int]);
        }
        if b[i] != 0x20 {
            out.push(b[i]);
        }
        i = i + 1;
    }
    proof {
        assert(b@.take(b@.len() as int) =~= b@);
    }
    out
}

/// What `send` makes of its `--id` and `--data` in text mode: both must
/// be given; the identifier is read by `frame_id_of`, the data (the UTF-8
/// bytes of the text, spaces taken out) by `hex::decode`, and at most
/// eight data bytes are allowed.
pub open spec fn send_outcome(id: Option<Seq<char>>, data: Option<Seq<u8>>) -> Result<
    (u8, Seq<u8>),
    SendError,
> {
    match id {
        None => Err(SendError::MissingId),
        Some(i) => match data {
            None => Err(SendError::MissingData),
            Some(d) => match frame_id_of(i) {
                Err(e) => Err(SendError::BadId(e)),
                Ok(n) => match hex_decoded(drop_spaces(d)) {
                    Err(e) => Err(SendError::BadData(e)),
                    Ok(bytes) => if bytes.len() > LIN_MAX_DATA_LEN {
                        Err(SendError::TooLong(bytes.len() as usize))
                    } else {
                        Ok((n, bytes))
                    },
                },
            },
        },
    }
}

/// Reads the identifier and data `send` is given in text mode.
pub fn send_request(id: Option<&str>, data: Option<&str>) -> (r: Result<(u8, Vec<u8>), SendError>)
    ensures
        match send_outcome(
            match id {
                Some(s) => Some(s@),
                None => None,
            },
            match data {
                Some(s) => Some(s.spec_bytes()),
                None => None,
            },
        ) {
            Ok((n, bytes)) => r matches Ok((m, v)) && m == n && v@ == bytes,
            Err(e) => r == Err::<(u8, Vec<u8>), SendError>(e),
        },
{
    let id_text = match id {
        None => {
            return Err(SendError::MissingId);
        },
        Some(s) => s,
    };
    let data_text = match data {
        None => {
            return Err(SendError::MissingData);
        },
        Some(s) => s,
    };
    let n = match parse_frame_id(id_text) {
        Err(e) => {
            return Err(SendError::BadId(e));
        },
        Ok(n) => n,
    };
    let digits = without_spaces(data_text.as_bytes());
    let bytes = match hex_decode(digits.as_slice()) {
        Err(e) => {
            return Err(SendError::BadData(e));
        },
        Ok(v) => v,
    };
    if bytes.len() > LIN_MAX_DATA_LEN {
        return Err(SendError::TooLong(bytes.len()));
    }
    Ok((n, bytes))
}

/// The line `send` prints for a frame it published:
/// `published: id=0xNN data=<hex>`.
pub open spec fn published_text(id: u8, data: Seq<u8>) -> Seq<char> {
    "published: id=0x"@ + hex2(id) + " data="@ + lower_hex(data)
}

/// The line `send` prints for a frame it published.
pub fn published_line(id: u8, data: &[u8]) -> (r: String)
    ensures
        r@ == published_text(id, data@),
{
    let mut s = "published: id=0x".to_owned();
    push_hex2(&mut s, id);
    s.append(" data=");
    s.append(hex_encode(data).as_str());
    s
}

// ---------------------------------------------------------------------------
// send --format json
// ---------------------------------------------------------------------------

/// Why `send --format json` skips a message.
#[derive(Debug)]
pub enum JsonRefusal {
    /// The message does not convert to a frame.
    Conversion(Error),
    /// The frame it converts to is not a valid frame.
    Invalid(Error),
}

/// The frame `send --format json` publishes for a message: the frame the
/// message converts to, when it converts and is valid.
pub fn frame_to_publish(m: &Message) -> (r: Result<Frame, JsonRefusal>)
    ensures
        !message_converts(m) ==> (r matches Err(JsonRefusal::Conversion(Error::InvalidFrame { reason }))
            && reason@ == from_message_reason(m)),
        message_converts(m) && !frame_is_valid(
            message_frame_id(m)->0,
            m.payload@.len(),
            meta_checksum_type(m.meta@),
        ) ==> (r matches Err(JsonRefusal::Invalid(Error::InvalidFrame { reason })) && reason@
            == invalid_frame_reason(
            message_frame_id(m)->0,
            m.payload@.len(),
            meta_checksum_type(m.meta@),
        )),
        message_converts(m) && frame_is_valid(
            message_frame_id(m)->0,
            m.payload@.len(),
            meta_checksum_type(m.meta@),
        ) ==> (r matches Ok(f) && f.id == message_frame_id(m)->0 && f.data@ == m.payload@
            && f.checksum_type == meta_checksum_type(m.meta@) && f.checksum == meta_checksum(
            m.meta@,
        )),
{
    let f = match from_message(m) {
        Ok(f) => f,
        Err(e) => {
            return Err(JsonRefusal::Conversion(e));
        },
    };
    match validate_frame(&f) {
        Ok(()) => Ok(f),
        Err(e) => Err(JsonRefusal::Invalid(e)),
    }
}

// ---------------------------------------------------------------------------
// subscribe
// ---------------------------------------------------------------------------

/// The line `subscribe` prints in text mode for the `n`-th frame:
/// `[n] id=0xNN checksum=0xNN ct=<type> data=<hex>`.
pub open spec fn frame_text(n: u64, f: &Frame) -> Seq<char> {
    "["@ + decimal(n as nat) + "] id=0x"@ + hex2(f.id) + " checksum=0x"@ + hex2(f.checksum)
        + " ct="@ + checksum_type_name(f.checksum_type) + " data="@ + lower_hex(f.data@)
}

/// Whether `subscribe` waits for another frame after `received` of them:
/// always when `count` is 0 (no limit), else until `count` arrived.
pub fn keep_receiving(count: usize, received: usize) -> (r: bool)
    ensures
        r == (count == 0 || received < count),
{
    count == 0 || received < count
}

/// The line `subscribe` prints in text mode for the `n`-th frame.
pub fn frame_line(n: u64, f: &Frame) -> (r: String)
    ensures
        r@ == frame_text(n, f),
{
    let mut s = "[".to_owned();
    push_decimal(&mut s, n);
    s.append("] id=0x");
    push_hex2(&mut s, f.id);
    s.append(" checksum=0x");
    push_hex2(&mut s, f.checksum);
    s.append(" ct=");
    s.append(f.checksum_type.as_str());
    s.append(" data=");
    s.append(hex_encode(f.data.as_slice()).as_str());
    s
}

/// The data of a frame as lower-case hexadecimal text, as `subscribe`
/// writes it in JSON mode.
pub fn data_hex(data: &[u8]) -> (r: String)
    ensures
        r@ == lower_hex(data@),
{
    hex_encode(data)
}

// ---------------------------------------------------------------------------
// convert
// ---------------------------------------------------------------------------

/// Whether `convert --protocol` names LIN, in any letter case.
pub fn is_lin_protocol(name: &str) -> (r: bool)
    ensures
        r == eq_ignore_case(name@, "LIN"@),
{
    let cs = to_chars(name);
    let lin = to_chars("LIN");
    equals_ignore_case(cs.as_slice(), lin.as_slice())
}

/// What `convert` prints for a frame: the message `to_message` makes of a
/// valid frame, with its timestamp at the Unix epoch; an invalid frame is
/// refused with the error `validate_frame` gives.
pub fn convert_frame(f: &Frame) -> (r: Result<Message, Error>)
    ensures
        frame_is_valid(f.id, f.data@.len(), f.checksum_type) ==> (r matches Ok(m) && m.protocol
            == Protocol::Lin && m.version == (Version { major: 1, minor: 10 }) && m.id@ == decimal(
            f.id as nat,
        ) && m.payload@ == f.data@ && m.timestamp_us == 0 && m.seq == 0 && m.meta@ == frame_meta(
            f,
        )),
        !frame_is_valid(f.id, f.data@.len(), f.checksum_type) ==> (r matches Err(
            Error::InvalidFrame { reason },
        ) && reason@ == invalid_frame_reason(f.id, f.data@.len(), f.checksum_type)),
{
    match validate_frame(f) {
        Err(e) => Err(e),
        Ok(()) => {
            let mut m = to_message(f);
            m.timestamp_us = 0;
            Ok(m)
        },
    }
}

} // verus!
