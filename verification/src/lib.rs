//! LIN bus library: frame wire format (protected identifiers, checksums,
//! validation), end-to-end payload protection, RELAY message conversion,
//! subscriber queues, the in-process virtual bus and mock bus state
//! machines, master/slave node logic, the LDF parser and the decisions of
//! the command-line tool.

pub mod adapt;
pub mod base64;
pub mod bus;
pub mod chars;
pub mod command;
pub mod error;
pub mod frame;
pub mod keyed;
pub mod ldf;
pub mod master;
pub mod mock;
pub mod relay;
pub mod safety;
pub mod slave;
pub mod text;
pub mod virtual_bus;

pub use adapt::{from_message, to_message};
pub use bus::{HealthProvider, MetricsProvider};
pub use error::Error;
pub use frame::{
    calc_checksum, protect_id, validate_frame, verify_pid, ChecksumType, Filter, Frame,
    ScheduleEntry, LIN_DIAG_REQUEST_ID, LIN_DIAG_RESPONSE_ID, LIN_MAX_DATA_LEN, LIN_MAX_ID,
};

use vstd::prelude::*;

verus! {

/// The RELAY specification version this library follows.
pub const SPEC_VERSION: &'static str = "1.10";

/// The RELAY specification version, under the name the command-line tool
/// uses.
pub const RELAY_SPEC_VERSION: &'static str = "1.10";

} // verus!
