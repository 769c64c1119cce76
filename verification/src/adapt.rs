//! RELAY adapter logic: conversion between LIN frames and RELAY messages,
//! and the decisions the adapter node makes when it sends.

use vstd::prelude::*;

use crate::error::{sentinel_of, Error};
use crate::frame::{
    checksum_type_name, ChecksumType, Frame, LIN_MAX_DATA_LEN, LIN_MAX_ID,
};
use crate::relay::{self, Message, Meta, Protocol, Version};
use crate::text::{decimal, decimal_string, parse_u8, parse_u8_spec, push_decimal};

verus! {

/// The metadata key that names the checksum type.
pub open spec fn checksum_type_key() -> Seq<char> {
    "lin.checksum_type"@
}

/// The metadata key that holds the checksum byte.
pub open spec fn checksum_key() -> Seq<char> {
    "lin.checksum"@
}

/// The metadata `to_message` writes for a frame.
pub open spec fn frame_meta(f: &Frame) -> Map<Seq<char>, Seq<char>> {
    Map::<Seq<char>, Seq<char>>::empty().insert(
        checksum_type_key(),
        checksum_type_name(f.checksum_type),
    ).insert(checksum_key(), decimal(f.checksum as nat))
}

/// Convert a LIN frame to a RELAY message: protocol LIN, the decimal ID,
/// the data as payload, and the checksum type and checksum as metadata.
/// The timestamp is the current time.
pub fn to_message(f: &Frame) -> (r: Message)
    ensures
        r.protocol == Protocol::Lin,
        r.version == (Version { major: 1, minor: 10 }),
        r.id@ == decimal(f.id as nat),
        r.payload@ == f.data@,
        r.seq == 0,
        r.meta@ == frame_meta(f),
{
    let mut meta = Meta::new();
    meta.insert("lin.checksum_type".to_owned(), f.checksum_type.to_string());
    meta.insert("lin.checksum".to_owned(), decimal_string(f.checksum as u64));
    Message {
        protocol: Protocol::Lin,
        version: Version::default(),
        id: decimal_string(f.id as u64),
        payload: f.data.clone(),
        timestamp_us: relay::now_micros(),
        seq: 0,
        meta,
    }
}

/// `to_message` with the message's position in its stream.
pub fn to_sequenced_message(f: &Frame, seq: u64) -> (r: Message)
    ensures
        r.protocol == Protocol::Lin,
        r.version == (Version { major: 1, minor: 10 }),
        r.id@ == decimal(f.id as nat),
        r.payload@ == f.data@,
        r.seq == seq,
        r.meta@ == frame_meta(f),
{
    let mut m = to_message(f);
    m.seq = seq;
    m
}

/// The checksum type a message's metadata names: enhanced only when the
/// value is exactly "enhanced".
pub open spec fn meta_checksum_type(meta: Map<Seq<char>, Seq<char>>) -> ChecksumType {
    if meta.contains_key(checksum_type_key()) && meta[checksum_type_key()] == "enhanced"@ {
        ChecksumType::Enhanced
    } else {
        ChecksumType::Classic
    }
}

/// The checksum a message's metadata holds: its value parsed as a `u8`,
/// or 0 when it is missing or does not parse.
pub open spec fn meta_checksum(meta: Map<Seq<char>, Seq<char>>) -> u8 {
    if meta.contains_key(checksum_key()) {
        match parse_u8_spec(meta[checksum_key()]) {
            Some(v) => v,
            None => 0,
        }
    } else {
        0
    }
}

/// The frame ID a message carries, when its ID text parses and is at
/// most 0x3F.
pub open spec fn message_frame_id(m: &Message) -> Option<u8> {
    match parse_u8_spec(m.id@) {
        Some(v) => if v <= LIN_MAX_ID {
            Some(v)
        } else {
            None
        },
        None => None,
    }
}

/// Whether `from_message` converts a message: protocol LIN, an ID that
/// parses and is at most 0x3F, and at most 8 payload bytes.
pub open spec fn message_converts(m: &Message) -> bool {
    m.protocol == Protocol::Lin && message_frame_id(m) is Some && m.payload@.len()
        <= LIN_MAX_DATA_LEN
}

/// The reason `from_message` gives for a message it refuses.
pub open spec fn from_message_reason(m: &Message) -> Seq<char> {
    if m.protocol != Protocol::Lin {
        "protocol Can is not LIN (expected Protocol::Lin = 3)"@
    } else {
        match parse_u8_spec(m.id@) {
            None => "invalid LIN ID: '"@ + m.id@ + "'"@,
            Some(v) => if v > LIN_MAX_ID {
                "LIN ID "@ + decimal(v as nat) + " exceeds maximum "@ + decimal(LIN_MAX_ID as nat)
            } else {
                "LIN payload length "@ + decimal(m.payload@.len()) + " exceeds maximum "@
                    + decimal(LIN_MAX_DATA_LEN as nat)
            },
        }
    }
}

/// Convert a RELAY message back to a LIN frame.
///
/// Refused with `Error::InvalidFrame` when the protocol is not LIN, or the
/// ID does not parse as a `u8`, or it exceeds 0x3F, or the payload holds
/// more than 8 bytes.
pub fn from_message(m: &Message) -> (r: Result<Frame, Error>)
    ensures
        message_converts(m) ==> (r matches Ok(f) && f.id == message_frame_id(m)->0 && f.data@
            == m.payload@ && f.checksum_type == meta_checksum_type(m.meta@) && f.checksum
            == meta_checksum(m.meta@)),
        !message_converts(m) ==> (r matches Err(Error::InvalidFrame { reason }) && reason@
            == from_message_reason(m)),
{
    if m.protocol != Protocol::Lin {
        proof {
            reveal_strlit("protocol Can is not LIN (expected Protocol::Lin = 3)");
        }
        return Err(
            Error::invalid_frame("protocol Can is not LIN (expected Protocol::Lin = 3)".to_owned()),
        );
    }
    let id = match parse_u8(m.id.as_str()) {
        Some(v) => v,
        None => {
            let mut reason = "invalid LIN ID: '".to_owned();
            reason.append(m.id.as_str());
            reason.append("'");
            return Err(Error::invalid_frame(reason));
        },
    };
    if id > LIN_MAX_ID {
        let mut reason = "LIN ID ".to_owned();
        push_decimal(&mut reason, id as u64);
        reason.append(" exceeds maximum ");
        push_decimal(&mut reason, LIN_MAX_ID as u64);
        return Err(Error::invalid_frame(reason));
    }
    if m.payload.len() > LIN_MAX_DATA_LEN {
        let mut reason = "LIN payload length ".to_owned();
        push_decimal(&mut reason, m.payload.len() as u64);
        reason.append(" exceeds maximum ");
        push_decimal(&mut reason, LIN_MAX_DATA_LEN as u64);
        return Err(Error::invalid_frame(reason));
    }
    let checksum_type = match m.meta.get("lin.checksum_type") {
        Some(s) => {
            let enhanced = "enhanced".to_owned();
            if *s == enhanced {
                ChecksumType::Enhanced
            } else {
                ChecksumType::Classic
            }
        },
        None => ChecksumType::Classic,
    };
    let checksum = match m.meta.get("lin.checksum") {
        Some(s) => match parse_u8(s.as_str()) {
            Some(v) => v,
            None => 0,
        },
        None => 0,
    };
    Ok(Frame { id, data: m.payload.clone(), checksum, checksum_type })
}

/// The RELAY sentinel the adapter reports for a LIN error: its mapped
/// sentinel, or `Closed` when it has none.
pub fn relay_error(e: &Error) -> (r: relay::Error)
    ensures
        r == (match sentinel_of(e) {
            Some(k) => k,
            None => relay::Error::Closed,
        }),
{
    match e.kind() {
        Some(k) => k,
        None => relay::Error::Closed,
    }
}

/// What the adapter node publishes for a message it is asked to send: the
/// frame, or the sentinel it answers with. A payload over 8 bytes is
/// `PayloadTooLarge` before anything else; a message that does not convert
/// is `Closed`.
pub fn prepare_send(m: &Message) -> (r: Result<Frame, relay::Error>)
    ensures
        m.payload@.len() > LIN_MAX_DATA_LEN ==> r == Err::<Frame, relay::Error>(
            relay::Error::PayloadTooLarge,
        ),
        m.payload@.len() <= LIN_MAX_DATA_LEN && !(m.protocol == Protocol::Lin && message_frame_id(
            m,
        ) is Some) ==> r == Err::<Frame, relay::Error>(relay::Error::Closed),
        m.payload@.len() <= LIN_MAX_DATA_LEN && m.protocol == Protocol::Lin && message_frame_id(
            m,
        ) is Some ==> (r matches Ok(f) && f.id == message_frame_id(m)->0 && f.data@
            == m.payload@),
{
    if m.payload.len() > LIN_MAX_DATA_LEN {
        return Err(relay::Error::PayloadTooLarge);
    }
    match from_message(m) {
        Ok(f) => Ok(f),
        Err(e) => Err(relay_error(&e)),
    }
}

/// A message carrying what `to_message` makes of a frame with a valid ID
/// converts back to that frame: same ID, data, checksum and checksum type.
pub proof fn lemma_message_roundtrip(f: &Frame, m: &Message)
    requires
        f.id <= LIN_MAX_ID,
        m.protocol == Protocol::Lin,
        m.id@ == decimal(f.id as nat),
        m.payload@ == f.data@,
        m.meta@ == frame_meta(f),
    ensures
        message_frame_id(m) == Some(f.id),
        meta_checksum_type(m.meta@) == f.checksum_type,
        meta_checksum(m.meta@) == f.checksum,
{
    crate::text::lemma_parse_decimal_u8(f.id);
    crate::text::lemma_parse_decimal_u8(f.checksum);
    reveal_strlit("lin.checksum_type");
    reveal_strlit("lin.checksum");
    reveal_strlit("enhanced");
    reveal_strlit("classic");
    assert(checksum_type_key() != checksum_key()) by {
        assert(checksum_type_key().len() != checksum_key().len());
    }
    assert("classic"@ != "enhanced"@) by {
        assert("classic"@.len() != "enhanced"@.len());
    }
}

} // verus!
