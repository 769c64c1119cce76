//! RELAY data model shared by all protocol adapters: the four sentinel
//! errors, protocol identifiers, messages with their metadata, subscriber
//! options, health and metrics.

use vstd::prelude::*;

use crate::keyed::{Keyed, keyed_map, distinct_keys};

verus! {

/// The RELAY sentinel errors: the four mandatory ones, and `Other` for a
/// failure none of them names.
#[derive(Clone, Copy, Debug, PartialEq, Eq, Structural)]
pub enum Error {
    Closed,
    NotConnected,
    Timeout,
    PayloadTooLarge,
    Other,
}

/// Protocol identifiers carried by RELAY messages.
#[derive(Clone, Copy, Debug, PartialEq, Eq, Structural)]
pub enum Protocol {
    Can,
    Lin,
}

impl Protocol {
    /// The protocol's wire number (CAN = 1, LIN = 3).
    pub fn code(self) -> (r: i32)
        ensures
            r == (match self {
                Protocol::Can => 1i32,
                Protocol::Lin => 3i32,
            }),
    {
        match self {
            Protocol::Can => 1,
            Protocol::Lin => 3,
        }
    }

    /// The protocol with wire number `code`, if there is one.
    pub fn from_code(code: i32) -> (r: Option<Protocol>)
        ensures
            r == (if code == 1 {
                Some(Protocol::Can)
            } else if code == 3 {
                Some(Protocol::Lin)
            } else {
                None::<Protocol>
            }),
    {
        if code == 1 {
            Some(Protocol::Can)
        } else if code == 3 {
            Some(Protocol::Lin)
        } else {
            None
        }
    }
}

/// Reading back a protocol's wire number gives the protocol, and a number
/// that reads back names a protocol with that number.
pub proof fn lemma_protocol_code_roundtrip(p: Protocol, code: i32)
    ensures
        (match p {
            Protocol::Can => 1i32,
            Protocol::Lin => 3i32,
        }) == code <==> (if code == 1 {
            Some(Protocol::Can)
        } else if code == 3 {
            Some(Protocol::Lin)
        } else {
            None::<Protocol>
        }) == Some(p),
{
}

/// Back-pressure policy of a subscriber queue that is full.
#[derive(Clone, Copy, Debug, PartialEq, Eq, Structural)]
pub enum BackPressurePolicy {
    /// Reject the arriving frame.
    DropNewest,
    /// Evict the oldest queued frame to make room.
    DropOldest,
    /// Never drop: the queue grows past its depth.
    Block,
}

/// Options of a subscription.
#[derive(Clone, Copy, Debug, PartialEq, Eq, Structural)]
pub struct SubscriberOptions {
    /// Queue depth; 0 selects the transport's default.
    pub channel_depth: usize,
    /// What happens when the queue is full.
    pub back_pressure: BackPressurePolicy,
    /// Maximum frames accepted per second; 0 means unlimited.
    pub rate_limit_per_sec: u32,
}

impl SubscriberOptions {
    /// The effective queue depth: `channel_depth`, or `default` when it is 0.
    pub open spec fn chan_depth_spec(&self, default: usize) -> usize {
        if self.channel_depth == 0 {
            default
        } else {
            self.channel_depth
        }
    }

    /// The effective queue depth: `channel_depth`, or `default` when it is 0.
    pub fn chan_depth(&self, default: usize) -> (r: usize)
        ensures
            r == self.chan_depth_spec(default),
    {
        if self.channel_depth == 0 {
            default
        } else {
            self.channel_depth
        }
    }
}

impl Default for SubscriberOptions {
    fn default() -> (r: Self)
        ensures
            r.channel_depth == 0,
            r.back_pressure == BackPressurePolicy::DropNewest,
            r.rate_limit_per_sec == 0,
    {
        SubscriberOptions {
            channel_depth: 0,
            back_pressure: BackPressurePolicy::DropNewest,
            rate_limit_per_sec: 0,
        }
    }
}

/// Self-assessed health status of a transport.
#[derive(Clone, Copy, Debug, PartialEq, Eq, Structural)]
pub enum HealthStatus {
    Healthy,
    Down,
}

/// Health report of a transport.
#[derive(Clone, Debug, PartialEq, Eq)]
pub struct Health {
    pub status: HealthStatus,
    pub message: String,
}

impl Health {
    /// A healthy report with an empty message.
    pub fn ok() -> (r: Health)
        ensures
            r.status == HealthStatus::Healthy,
            r.message@ == Seq::<char>::empty(),
    {
        Health { status: HealthStatus::Healthy, message: String::new() }
    }

    /// A report of a transport that is down, with the reason.
    pub fn down(message: &str) -> (r: Health)
        ensures
            r.status == HealthStatus::Down,
            r.message@ == message@,
    {
        Health { status: HealthStatus::Down, message: message.to_owned() }
    }
}

/// Traffic counters of a transport.
#[derive(Clone, Copy, Debug, PartialEq, Eq, Structural)]
pub struct Metrics {
    pub write_count: u64,
    pub deliver_count: u64,
    pub drop_count: u64,
    pub bytes_written: u64,
    pub bytes_delivered: u64,
    pub error_count: u64,
}

/// Metadata of a message: a map from keys to values, in insertion order.
#[derive(Debug)]
pub struct Meta {
    map: Keyed<String>,
}

impl View for Meta {
    type V = Map<Seq<char>, Seq<char>>;

    closed spec fn view(&self) -> Map<Seq<char>, Seq<char>> {
        self.map@
    }
}

impl Clone for Meta {
    fn clone(&self) -> (r: Self)
        ensures
            r@ == self@,
    {
        let es = self.map.entries();
        let mut map: Keyed<String> = Keyed::new();
        let mut i: usize = 0;
        while i < es.len()
            invariant
                i <= es@.len(),
                map@ == keyed_map(es@.take(i as int)),
            decreases es.len() - i,
        {
            proof {
                assert(es@.take(i + 1).drop_last() =~= es@.take(i as int));
            }
            map.insert(es[i].0.clone(), es[i].1.clone());
            i = i + 1;
        }
        proof {
            assert(es@.take(es@.len() as int) =~= es@);
        }
        Meta { map }
    }
}

impl Meta {
    /// An empty map.
    pub fn new() -> (r: Meta)
        ensures
            r@ == Map::<Seq<char>, Seq<char>>::empty(),
    {
        Meta { map: Keyed::new() }
    }

    /// The number of keys.
    pub fn len(&self) -> (r: usize)
        ensures
            r == self@.dom().len(),
    {
        self.map.len()
    }

    /// The value stored for `key`, if any.
    pub fn get(&self, key: &str) -> (r: Option<&String>)
        ensures
            match r {
                Some(v) => self@.contains_key(key@) && self@[key@] == v@,
                None => !self@.contains_key(key@),
            },
    {
        self.map.get(key)
    }

    /// Stores `value` for `key`, returning the value it replaces.
    pub fn insert(&mut self, key: String, value: String) -> (r: Option<String>)
        ensures
            final(self)@ == old(self)@.insert(key@, value@),
            match r {
                Some(v) => old(self)@.contains_key(key@) && old(self)@[key@] == v@,
                None => !old(self)@.contains_key(key@),
            },
    {
        let prev = match self.map.get(key.as_str()) {
            Some(v) => Some(v.clone()),
            None => None,
        };
        self.map.insert(key, value);
        prev
    }

    /// The entries, in the order their keys were first stored.
    pub fn entries(&self) -> (r: &Vec<(String, String)>)
        ensures
            keyed_map(r@) == self@,
            distinct_keys(r@),
    {
        self.map.entries()
    }
}

/// A RELAY protocol version.
#[derive(Clone, Copy, Debug, PartialEq, Eq, Structural)]
pub struct Version {
    pub major: u32,
    pub minor: u32,
}

impl Default for Version {
    /// The RELAY version this library targets, 1.10.
    fn default() -> (r: Self)
        ensures
            r.major == 1,
            r.minor == 10,
    {
        Version { major: 1, minor: 10 }
    }
}

/// Reads the system clock through `std::time::SystemTime::now`, taken
/// into `chrono::DateTime<Utc>` by its `From<SystemTime>` impl, as
/// microseconds since the Unix epoch (`timestamp_micros`); a clock set
/// before 1970 gives a negative value. Nothing is promised of the value:
/// it is the time. The conversion panics only for a clock outside
/// chrono's range of about 262,000 years either side of the epoch.
#[verifier::external_body]
pub(crate) fn now_micros() -> i64 {
    chrono::DateTime::<chrono::Utc>::from(std::time::SystemTime::now()).timestamp_micros()
}

/// A protocol-neutral RELAY message.
#[derive(Debug)]
pub struct Message {
    /// Protocol the message belongs to.
    pub protocol: Protocol,
    /// RELAY version of the message format.
    pub version: Version,
    /// Protocol-specific identifier, as text.
    pub id: String,
    /// Message payload.
    pub payload: Vec<u8>,
    /// Creation time in microseconds since the Unix epoch.
    pub timestamp_us: i64,
    /// Position in the stream the message came from.
    pub seq: u64,
    /// Protocol-specific metadata.
    pub meta: Meta,
}

impl Message {
    /// A message with the current time, sequence number 0 and no metadata.
    pub fn new(protocol: Protocol, id: &str, payload: Vec<u8>) -> (r: Message)
        ensures
            r.protocol == protocol,
            r.version == (Version { major: 1, minor: 10 }),
            r.id@ == id@,
            r.payload@ == payload@,
            r.seq == 0,
            r.meta@ == Map::<Seq<char>, Seq<char>>::empty(),
    {
        Message {
            protocol,
            version: Version::default(),
            id: id.to_owned(),
            payload,
            timestamp_us: now_micros(),
            seq: 0,
            meta: Meta::new(),
        }
    }
}

} // verus!
