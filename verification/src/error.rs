//! The unified error type: the four RELAY sentinels plus the LIN-specific
//! failures, with the sentinel each one maps to and its message text.

use vstd::prelude::*;

use crate::relay;

verus! {

#[verifier::external_type_specification]
#[verifier::external_body]
pub struct ExIoError(std::io::Error);

/// The unified error type for all LIN operations.
#[derive(Debug)]
pub enum Error {
    /// Operation on a closed bus or subscription.
    Closed,
    /// Operation before the bus is connected.
    NotConnected,
    /// Operation timed out.
    Timeout,
    /// Payload exceeds the protocol maximum (8 bytes for LIN).
    PayloadTooLarge,
    /// LIN frame failed structural validation.
    InvalidFrame { reason: String },
    /// No slave has registered a response for the requested frame ID.
    NoResponse,
    /// Generic LIN error with a message string.
    Other(String),
    /// Underlying I/O error.
    Io(std::io::Error),
}

/// The RELAY sentinel an error maps to; `NoResponse` is a timeout.
pub open spec fn sentinel_of(e: &Error) -> Option<relay::Error> {
    match e {
        Error::Closed => Some(relay::Error::Closed),
        Error::NotConnected => Some(relay::Error::NotConnected),
        Error::Timeout => Some(relay::Error::Timeout),
        Error::PayloadTooLarge => Some(relay::Error::PayloadTooLarge),
        Error::NoResponse => Some(relay::Error::Timeout),
        Error::Other(_) => Some(relay::Error::Other),
        _ => None,
    }
}

/// Whether `r` is the error a RELAY sentinel converts to: the variant of
/// the same name, and for `Other` the message "other".
pub open spec fn converts_from(e: relay::Error, r: Error) -> bool {
    match e {
        relay::Error::Closed => r is Closed,
        relay::Error::NotConnected => r is NotConnected,
        relay::Error::Timeout => r is Timeout,
        relay::Error::PayloadTooLarge => r is PayloadTooLarge,
        relay::Error::Other => r matches Error::Other(m) && m@ == "other"@,
    }
}

/// The message text of an error that does not wrap an I/O error.
pub open spec fn message_of(e: &Error) -> Seq<char> {
    match e {
        Error::Closed => "relay: closed"@,
        Error::NotConnected => "relay: not connected"@,
        Error::Timeout => "relay: timeout"@,
        Error::PayloadTooLarge => "relay: payload too large"@,
        Error::InvalidFrame { reason } => "lin: invalid frame: "@ + reason@,
        Error::NoResponse => "lin: no slave response"@,
        Error::Other(m) => "lin: "@ + m@,
        Error::Io(_) => Seq::empty(),
    }
}

/// Renders an I/O error through its `Display` implementation.
#[verifier::external_body]
fn io_error_text(e: &std::io::Error) -> String {
    e.to_string()
}

impl Error {
    /// Return the RELAY sentinel this error maps to, if any.
    ///
    /// `NoResponse` maps to `Timeout`.
    pub fn kind(&self) -> (r: Option<relay::Error>)
        ensures
            r == sentinel_of(self),
    {
        match self {
            Error::Closed => Some(relay::Error::Closed),
            Error::NotConnected => Some(relay::Error::NotConnected),
            Error::Timeout => Some(relay::Error::Timeout),
            Error::PayloadTooLarge => Some(relay::Error::PayloadTooLarge),
            Error::NoResponse => Some(relay::Error::Timeout),
            Error::Other(_) => Some(relay::Error::Other),
            _ => None,
        }
    }

    /// Convenience constructor for an `InvalidFrame` error.
    pub fn invalid_frame(reason: String) -> (r: Error)
        ensures
            r matches Error::InvalidFrame { reason: x } && x@ == reason@,
    {
        Error::InvalidFrame { reason }
    }

    /// The error's message text; an I/O error is rendered as itself.
    pub fn to_string(&self) -> (r: String)
        ensures
            !(self is Io) ==> r@ == message_of(self),
    {
        match self {
            Error::Closed => {
                proof { reveal_strlit("relay: closed"); }
                "relay: closed".to_owned()
            },
            Error::NotConnected => {
                proof { reveal_strlit("relay: not connected"); }
                "relay: not connected".to_owned()
            },
            Error::Timeout => {
                proof { reveal_strlit("relay: timeout"); }
                "relay: timeout".to_owned()
            },
            Error::PayloadTooLarge => {
                proof { reveal_strlit("relay: payload too large"); }
                "relay: payload too large".to_owned()
            },
            Error::InvalidFrame { reason } => {
                let mut s = "lin: invalid frame: ".to_owned();
                s.append(reason.as_str());
                s
            },
            Error::NoResponse => {
                proof { reveal_strlit("lin: no slave response"); }
                "lin: no slave response".to_owned()
            },
            Error::Other(m) => {
                let mut s = "lin: ".to_owned();
                s.append(m.as_str());
                s
            },
            Error::Io(e) => io_error_text(e),
        }
    }
}

impl From<relay::Error> for Error {
    /// The error of the same name; the `Other` sentinel becomes
    /// `Other("other")`.
    fn from(e: relay::Error) -> (r: Error)
        ensures
            converts_from(e, r),
    {
        match e {
            relay::Error::Closed => Error::Closed,
            relay::Error::NotConnected => Error::NotConnected,
            relay::Error::Timeout => Error::Timeout,
            relay::Error::PayloadTooLarge => Error::PayloadTooLarge,
            relay::Error::Other => {
                proof {
                    reveal_strlit("other");
                }
                Error::Other("other".to_owned())
            },
        }
    }
}

/// `from` states its own result through `converts_from`: the `Other`
/// sentinel becomes an error holding a message, which no single spec value
/// names, so the generic conversion claims nothing here.
impl vstd::std_specs::convert::FromSpecImpl<relay::Error> for Error {
    open spec fn obeys_from_spec() -> bool {
        false
    }

    open spec fn from_spec(e: relay::Error) -> Error {
        match e {
            relay::Error::Closed => Error::Closed,
            relay::Error::NotConnected => Error::NotConnected,
            relay::Error::Timeout => Error::Timeout,
            relay::Error::PayloadTooLarge => Error::PayloadTooLarge,
            relay::Error::Other => Error::Other(arbitrary()),
        }
    }
}

/// Converting a sentinel into an error and back gives the sentinel again.
pub proof fn lemma_sentinel_roundtrip(e: relay::Error, r: Error)
    requires
        converts_from(e, r),
    ensures
        sentinel_of(&r) == Some(e),
{
}

} // verus!
