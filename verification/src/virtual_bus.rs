//! The in-process virtual LIN bus, as a state machine: slave responses are
//! registered with `publish`, and the master's `send_header` looks up the
//! response, computes the PID and checksum, validates the frame and
//! delivers it to the matching subscribers.

use vstd::prelude::*;

use crate::bus::{
    delivered_to, retained_subs, closed_sub, HealthProvider, MetricsProvider, Subscribers,
    SubscriptionView,
};
use crate::error::Error;
use crate::frame::{
    calc_checksum, checksum_of, frame_is_valid, invalid_frame_reason, pid_of, protect_id,
    validate_frame, ChecksumType, Filter, Frame, FrameView, ScheduleEntry, LIN_MAX_ID,
};
use crate::relay::{Health, HealthStatus, Metrics, SubscriberOptions};
use crate::text::{hex2, push_hex2};
use vstd::wrapping::u64_specs::{wrapping_add, wrapping_mul};

verus! {

broadcast use vstd::std_specs::hash::group_hash_axioms;

/// A registered slave response: payload and checksum type.
#[derive(Debug)]
pub struct SlaveResponse {
    data: Vec<u8>,
    checksum_type: ChecksumType,
}

/// The state of a virtual bus.
pub struct VirtualBusView {
    /// Registered responses by frame ID.
    pub responses: Map<u8, (Seq<u8>, ChecksumType)>,
    /// The installed schedule table.
    pub schedule: Seq<ScheduleEntry>,
    pub closed: bool,
    pub metrics: Metrics,
}

/// A virtual LIN bus's own state (its subscriptions are kept beside it).
pub struct VirtualBusState {
    responses: std::collections::HashMap<u8, SlaveResponse>,
    schedule: Vec<ScheduleEntry>,
    closed: bool,
    metrics: Metrics,
}

/// The reason given for a frame ID above 0x3F.
pub open spec fn id_overflow_reason(id: u8) -> Seq<char> {
    "frame ID 0x"@ + hex2(id) + " exceeds maximum 0x"@ + hex2(LIN_MAX_ID)
}

/// The reason given for a schedule entry whose ID is above 0x3F.
pub open spec fn schedule_id_reason(id: u8) -> Seq<char> {
    "schedule entry ID 0x"@ + hex2(id) + " exceeds maximum 0x"@ + hex2(LIN_MAX_ID)
}

/// Metrics with the error counter advanced by one.
pub open spec fn count_error(m: Metrics) -> Metrics {
    Metrics { error_count: wrapping_add(m.error_count, 1), ..m }
}

/// How a bus operation ends.
pub enum BusOutcome {
    Done,
    Closed,
    BadId,
    NoResponse,
    Invalid,
}

/// The bytes of an optional payload.
pub open spec fn opt_bytes(data: Option<Vec<u8>>) -> Option<Seq<u8>> {
    match data {
        Some(d) => Some(d@),
        None => None,
    }
}

/// The outcome of `publish_with_type` and the state after it.
pub open spec fn publish_step(
    st: VirtualBusView,
    id: u8,
    data: Option<Seq<u8>>,
    ct: ChecksumType,
) -> (BusOutcome, VirtualBusView) {
    if st.closed {
        (BusOutcome::Closed, VirtualBusView { metrics: count_error(st.metrics), ..st })
    } else if id > LIN_MAX_ID {
        (BusOutcome::BadId, VirtualBusView { metrics: count_error(st.metrics), ..st })
    } else {
        match data {
            Some(d) => (
                BusOutcome::Done,
                VirtualBusView { responses: st.responses.insert(id, (d, ct)), ..st },
            ),
            None => (BusOutcome::Done, VirtualBusView { responses: st.responses.remove(id), ..st }),
        }
    }
}

/// The frame the bus synthesises for a registered response.
pub open spec fn response_frame(id: u8, d: Seq<u8>, ct: ChecksumType) -> FrameView {
    FrameView { id, data: d, checksum: checksum_of(pid_of(id), d, ct), checksum_type: ct }
}

/// The outcome of `send_header`, with the frame it synthesises when it
/// gets that far.
pub open spec fn header_outcome(st: VirtualBusView, id: u8) -> (BusOutcome, Option<FrameView>) {
    if st.closed {
        (BusOutcome::Closed, None)
    } else if id > LIN_MAX_ID {
        (BusOutcome::BadId, None)
    } else if !st.responses.contains_key(id) {
        (BusOutcome::NoResponse, None)
    } else {
        let (d, ct) = st.responses[id];
        let f = response_frame(id, d, ct);
        if frame_is_valid(id, d.len(), ct) {
            (BusOutcome::Done, Some(f))
        } else {
            (BusOutcome::Invalid, Some(f))
        }
    }
}

/// The bus state after a successful exchange of `f` delivered to
/// `delivered` subscribers and dropped by `dropped`.
pub open spec fn after_exchange(st: VirtualBusView, f: FrameView, delivered: u64, dropped: u64) -> VirtualBusView {
    let len = f.data.len() as u64;
    VirtualBusView {
        metrics: Metrics {
            write_count: wrapping_add(st.metrics.write_count, 1),
            bytes_written: wrapping_add(st.metrics.bytes_written, len),
            deliver_count: wrapping_add(st.metrics.deliver_count, delivered),
            drop_count: wrapping_add(st.metrics.drop_count, dropped),
            bytes_delivered: wrapping_add(st.metrics.bytes_delivered, wrapping_mul(len, delivered)),
            ..st.metrics
        },
        ..st
    }
}

/// The outcome of `set_schedule`.
pub open spec fn schedule_step(st: VirtualBusView, entries: Seq<ScheduleEntry>) -> (BusOutcome, VirtualBusView) {
    if st.closed {
        (BusOutcome::Closed, st)
    } else if exists|i: int| 0 <= i < entries.len() && entries[i].id > LIN_MAX_ID {
        (BusOutcome::BadId, st)
    } else {
        (BusOutcome::Done, VirtualBusView { schedule: entries, ..st })
    }
}

/// The first schedule entry whose ID is above 0x3F.
pub open spec fn first_bad_entry(entries: Seq<ScheduleEntry>) -> int {
    choose|i: int|
        0 <= i < entries.len() && entries[i].id > LIN_MAX_ID && forall|j: int|
            0 <= j < i ==> entries[j].id <= LIN_MAX_ID
}

/// Metrics with every counter at zero.
pub open spec fn zero_metrics() -> Metrics {
    Metrics {
        write_count: 0,
        deliver_count: 0,
        drop_count: 0,
        bytes_written: 0,
        bytes_delivered: 0,
        error_count: 0,
    }
}

/// Checks that every entry's ID is at most 0x3F, naming the first that is
/// not.
pub fn check_schedule_ids(entries: &Vec<ScheduleEntry>) -> (r: Result<(), Error>)
    ensures
        (forall|i: int| 0 <= i < entries@.len() ==> entries@[i].id <= LIN_MAX_ID) ==> r is Ok,
        (exists|i: int| 0 <= i < entries@.len() && entries@[i].id > LIN_MAX_ID) ==> (r matches Err(
            Error::InvalidFrame { reason },
        ) && 0 <= first_bad_entry(entries@) < entries@.len() && entries@[first_bad_entry(
            entries@,
        )].id > LIN_MAX_ID && reason@ == schedule_id_reason(entries@[first_bad_entry(entries@)].id)),
{
    let mut i: usize = 0;
    while i < entries.len()
        invariant
            i <= entries@.len(),
            forall|j: int| 0 <= j < i ==> entries@[j].id <= LIN_MAX_ID,
        decreases entries.len() - i,
    {
        if entries[i].id > LIN_MAX_ID {
            proof {
                let k = first_bad_entry(entries@);
                assert(0 <= k < entries@.len() && entries@[k].id > LIN_MAX_ID && forall|j: int|
                    0 <= j < k ==> entries@[j].id <= LIN_MAX_ID) by {
                    assert(entries@[i as int].id > LIN_MAX_ID);
                }
                if k < i {
                } else if k > i {
                    assert(entries@[i as int].id <= LIN_MAX_ID);
                }
                assert(k == i);
            }
            let mut m = "schedule entry ID 0x".to_owned();
            push_hex2(&mut m, entries[i].id);
            m.append(" exceeds maximum 0x");
            push_hex2(&mut m, LIN_MAX_ID);
            return Err(Error::invalid_frame(m));
        }
        i = i + 1;
    }
    Ok(())
}

fn id_overflow_error(id: u8) -> (r: Error)
    ensures
        r matches Error::InvalidFrame { reason } && reason@ == id_overflow_reason(id),
{
    let mut m = "frame ID 0x".to_owned();
    push_hex2(&mut m, id);
    m.append(" exceeds maximum 0x");
    push_hex2(&mut m, LIN_MAX_ID);
    Error::invalid_frame(m)
}

impl View for VirtualBusState {
    type V = VirtualBusView;

    closed spec fn view(&self) -> VirtualBusView {
        VirtualBusView {
            responses: self.responses@.map_values(
                |r: SlaveResponse| (r.data@, r.checksum_type),
            ),
            schedule: self.schedule@,
            closed: self.closed,
            metrics: self.metrics,
        }
    }
}

impl VirtualBusState {
    /// A new open bus with no responses, no schedule and zero counters.
    pub fn new() -> (r: VirtualBusState)
        ensures
            r@.responses == Map::<u8, (Seq<u8>, ChecksumType)>::empty(),
            r@.schedule == Seq::<ScheduleEntry>::empty(),
            !r@.closed,
            r@.metrics == zero_metrics(),
    {
        let r = VirtualBusState {
            responses: std::collections::HashMap::new(),
            schedule: Vec::new(),
            closed: false,
            metrics: Metrics {
                write_count: 0,
                deliver_count: 0,
                drop_count: 0,
                bytes_written: 0,
                bytes_delivered: 0,
                error_count: 0,
            },
        };
        proof {
            assert(r@.responses =~= Map::<u8, (Seq<u8>, ChecksumType)>::empty());
        }
        r
    }

    fn count_error(&mut self)
        ensures
            final(self)@ == (VirtualBusView { metrics: count_error(old(self)@.metrics), ..old(self)@ }),
    {
        self.metrics.error_count = self.metrics.error_count.wrapping_add(1);
        proof {
            assert(final(self)@.responses =~= old(self)@.responses);
        }
    }

    /// Register (`Some`) or remove (`None`) the response for `id` with the
    /// given checksum type.
    pub fn publish_with_type(&mut self, id: u8, data: Option<Vec<u8>>, ct: ChecksumType) -> (r: Result<(), Error>)
        ensures
            final(self)@ == publish_step(old(self)@, id, opt_bytes(data), ct).1,
            match publish_step(old(self)@, id, opt_bytes(data), ct).0 {
                BusOutcome::Done => r is Ok,
                BusOutcome::Closed => r matches Err(Error::Closed),
                _ => r matches Err(Error::InvalidFrame { reason }) && reason@ == id_overflow_reason(id),
            },
    {
        if self.closed {
            self.count_error();
            return Err(Error::Closed);
        }
        if id > LIN_MAX_ID {
            self.count_error();
            return Err(id_overflow_error(id));
        }
        let ghost old_view = self@;
        let ghost dv = opt_bytes(data);
        match data {
            Some(d) => {
                let _ = self.responses.insert(id, SlaveResponse { data: d, checksum_type: ct });
            },
            None => {
                let _ = self.responses.remove(&id);
            },
        }
        proof {
            match dv {
                Some(d) => {
                    assert(self@.responses =~= old_view.responses.insert(id, (d, ct)));
                },
                None => {
                    assert(self@.responses =~= old_view.responses.remove(id));
                },
            }
        }
        Ok(())
    }

    /// Register (`Some`) or remove (`None`) the response for `id`; the
    /// checksum type is enhanced.
    pub fn publish(&mut self, id: u8, data: Option<Vec<u8>>) -> (r: Result<(), Error>)
        ensures
            final(self)@ == publish_step(old(self)@, id, opt_bytes(data), ChecksumType::Enhanced).1,
            match publish_step(old(self)@, id, opt_bytes(data), ChecksumType::Enhanced).0 {
                BusOutcome::Done => r is Ok,
                BusOutcome::Closed => r matches Err(Error::Closed),
                _ => r matches Err(Error::InvalidFrame { reason }) && reason@ == id_overflow_reason(id),
            },
    {
        self.publish_with_type(id, data, ChecksumType::Enhanced)
    }

    /// Register a response with the classic checksum (as diagnostic frames
    /// need).
    pub fn publish_classic(&mut self, id: u8, data: Vec<u8>) -> (r: Result<(), Error>)
        ensures
            final(self)@ == publish_step(old(self)@, id, Some(data@), ChecksumType::Classic).1,
            match publish_step(old(self)@, id, Some(data@), ChecksumType::Classic).0 {
                BusOutcome::Done => r is Ok,
                BusOutcome::Closed => r matches Err(Error::Closed),
                _ => r matches Err(Error::InvalidFrame { reason }) && reason@ == id_overflow_reason(id),
            },
    {
        self.publish_with_type(id, Some(data), ChecksumType::Classic)
    }

    /// Drive a frame exchange for `id`: look up the registered response,
    /// compute the PID and checksum, validate the frame, deliver it to the
    /// subscribers whose filters it passes, and return it.
    ///
    /// Closed subscriptions that have nothing left to be received are
    /// dropped first (once the bus is open and the ID valid).
    pub fn send_header(&mut self, subs: &mut Subscribers, id: u8) -> (r: Result<Frame, Error>)
        requires
            old(subs).wf(),
        ensures
            final(subs).wf(),
            final(subs)@.0 == old(subs)@.0,
            match header_outcome(old(self)@, id) {
                (BusOutcome::Closed, _) => (r matches Err(Error::Closed)) && final(self)@ == (
                VirtualBusView { metrics: count_error(old(self)@.metrics), ..old(self)@ })
                    && final(subs)@ == old(subs)@,
                (BusOutcome::BadId, _) => (r matches Err(Error::InvalidFrame { reason })
                    && reason@ == id_overflow_reason(id)) && final(self)@ == (VirtualBusView {
                    metrics: count_error(old(self)@.metrics),
                    ..old(self)@
                }) && final(subs)@ == old(subs)@,
                (BusOutcome::NoResponse, _) => (r matches Err(Error::NoResponse)) && final(self)@ == (
                VirtualBusView { metrics: count_error(old(self)@.metrics), ..old(self)@ })
                    && final(subs)@.1 == retained_subs(old(subs)@.1),
                (BusOutcome::Invalid, Some(f)) => (r matches Err(Error::InvalidFrame { reason })
                    && reason@ == invalid_frame_reason(id, f.data.len(), f.checksum_type))
                    && final(self)@ == old(self)@ && final(subs)@.1 == retained_subs(
                    old(subs)@.1,
                ),
                (BusOutcome::Done, Some(f)) => (r matches Ok(fr) && fr@ == f) && exists|
                    delivered: u64,
                    dropped: u64,
                |
                    final(self)@ == after_exchange(old(self)@, f, delivered, dropped)
                        && delivered_to(
                        retained_subs(old(subs)@.1),
                        final(subs)@.1,
                        f,
                        true,
                        delivered,
                        dropped,
                    ),
                _ => false,
            },
    {
        if self.closed {
            self.count_error();
            return Err(Error::Closed);
        }
        if id > LIN_MAX_ID {
            self.count_error();
            return Err(id_overflow_error(id));
        }
        subs.gc();
        let ghost cleaned = subs@.1;
        let (data, ct) = match self.responses.get(&id) {
            Some(resp) => (resp.data.clone(), resp.checksum_type),
            None => {
                self.count_error();
                return Err(Error::NoResponse);
            },
        };
        let pid = protect_id(id);
        let checksum = calc_checksum(pid, data.as_slice(), ct);
        let frame = Frame { id, data, checksum, checksum_type: ct };
        match validate_frame(&frame) {
            Ok(()) => {},
            Err(e) => {
                return Err(e);
            },
        }
        let payload_len = frame.data.len() as u64;
        self.metrics.bytes_written = self.metrics.bytes_written.wrapping_add(payload_len);
        self.metrics.write_count = self.metrics.write_count.wrapping_add(1);
        let (delivered, dropped) = subs.deliver(&frame, true);
        self.metrics.deliver_count = self.metrics.deliver_count.wrapping_add(delivered);
        self.metrics.drop_count = self.metrics.drop_count.wrapping_add(dropped);
        self.metrics.bytes_delivered = self.metrics.bytes_delivered.wrapping_add(
            payload_len.wrapping_mul(delivered),
        );
        proof {
            assert(self@.responses =~= old(self)@.responses);
            assert(self@ == after_exchange(old(self)@, frame@, delivered, dropped));
            assert(delivered_to(cleaned, subs@.1, frame@, true, delivered, dropped));
        }
        Ok(frame)
    }

    /// Add a subscription with the given filters; refused once the bus is
    /// closed.
    pub fn subscribe(&self, subs: &mut Subscribers, filters: Vec<Filter>, opts: SubscriberOptions) -> (r: Result<u64, Error>)
        requires
            old(subs).wf(),
        ensures
            final(subs).wf(),
            self@.closed ==> (r matches Err(Error::Closed) && final(subs)@ == old(subs)@),
            !self@.closed && old(subs)@.0 < u64::MAX ==> r == Ok::<u64, Error>(old(subs)@.0)
                && final(subs)@.1.drop_last() == old(subs)@.1 && final(subs)@.1.len() == old(
                subs,
            )@.1.len() + 1 && final(subs)@.1.last().id == old(subs)@.0
                && final(subs)@.1.last().filters == filters@,
            !self@.closed && old(subs)@.0 == u64::MAX ==> r is Err && final(subs)@ == old(subs)@,
    {
        if self.closed {
            return Err(Error::Closed);
        }
        subs.add(filters, opts)
    }

    /// Close the bus and every subscription; closing again changes nothing.
    pub fn close(&mut self, subs: &mut Subscribers) -> (r: Result<(), Error>)
        requires
            old(subs).wf(),
        ensures
            r is Ok,
            final(subs).wf(),
            final(self)@ == (VirtualBusView { closed: true, ..old(self)@ }),
            old(self)@.closed ==> final(subs)@ == old(subs)@,
            !old(self)@.closed ==> final(subs)@.0 == old(subs)@.0 && final(subs)@.1 == retained_subs(
                old(subs)@.1.map_values(|s: SubscriptionView| closed_sub(s)),
            ),
    {
        if self.closed {
            return Ok(());
        }
        self.closed = true;
        subs.close_all();
        proof {
            assert(self@.responses =~= old(self)@.responses);
        }
        Ok(())
    }

    /// Install a schedule table after checking every entry's ID; refused
    /// once the bus is closed.
    pub fn set_schedule(&mut self, entries: Vec<ScheduleEntry>) -> (r: Result<(), Error>)
        ensures
            final(self)@ == schedule_step(old(self)@, entries@).1,
            match schedule_step(old(self)@, entries@).0 {
                BusOutcome::Done => r is Ok,
                BusOutcome::Closed => r matches Err(Error::Closed),
                _ => r matches Err(Error::InvalidFrame { reason }) && reason@ == schedule_id_reason(
                    entries@[first_bad_entry(entries@)].id,
                ),
            },
    {
        if self.closed {
            return Err(Error::Closed);
        }
        match check_schedule_ids(&entries) {
            Ok(()) => {},
            Err(e) => {
                return Err(e);
            },
        }
        self.schedule = entries;
        proof {
            assert(self@.responses =~= old(self)@.responses);
        }
        Ok(())
    }

    /// The installed schedule table.
    pub fn schedule(&self) -> (r: &Vec<ScheduleEntry>)
        ensures
            r@ == self@.schedule,
    {
        &self.schedule
    }

    /// Whether the bus was closed.
    pub fn is_closed(&self) -> (r: bool)
        ensures
            r == self@.closed,
    {
        self.closed
    }
}

impl HealthProvider for VirtualBusState {
    /// Down with "bus is closed" once closed, healthy before.
    fn health(&self) -> (r: Health)
        ensures
            self@.closed ==> r.status == HealthStatus::Down && r.message@ == "bus is closed"@,
            !self@.closed ==> r.status == HealthStatus::Healthy && r.message@ == Seq::<char>::empty(),
    {
        if self.closed {
            Health::down("bus is closed")
        } else {
            Health::ok()
        }
    }
}

impl MetricsProvider for VirtualBusState {
    /// The traffic counters.
    fn metrics(&self) -> (r: Metrics)
        ensures
            r == self@.metrics,
    {
        self.metrics
    }
}

/// On an open bus, a response registered for a valid ID comes back from
/// the next exchange for that ID: the same data, the PID-based checksum of
/// the registered type, and that type.
pub proof fn lemma_publish_then_exchange(
    st: VirtualBusView,
    id: u8,
    d: Seq<u8>,
    ct: ChecksumType,
)
    requires
        !st.closed,
        frame_is_valid(id, d.len(), ct),
    ensures
        publish_step(st, id, Some(d), ct).0 == BusOutcome::Done,
        header_outcome(publish_step(st, id, Some(d), ct).1, id) == (
            BusOutcome::Done,
            Some(response_frame(id, d, ct)),
        ),
{
}

/// Removing the response for a valid ID makes the next exchange for it
/// end with no response.
pub proof fn lemma_remove_then_no_response(st: VirtualBusView, id: u8, ct: ChecksumType)
    requires
        !st.closed,
        id <= LIN_MAX_ID,
    ensures
        header_outcome(publish_step(st, id, None, ct).1, id).0 == BusOutcome::NoResponse,
{
}

/// Registering or removing the response for one ID leaves every other
/// ID's response as it was.
pub proof fn lemma_publish_keeps_other_ids(
    st: VirtualBusView,
    id: u8,
    data: Option<Seq<u8>>,
    ct: ChecksumType,
    other: u8,
)
    requires
        other != id,
    ensures
        publish_step(st, id, data, ct).1.responses.contains_key(other) == st.responses.contains_key(
            other,
        ),
        st.responses.contains_key(other) ==> publish_step(st, id, data, ct).1.responses[other]
            == st.responses[other],
{
}

/// A closed bus refuses registrations, exchanges and schedules with
/// `Closed`, and changes nothing but its error counter.
pub proof fn lemma_closed_bus_refuses(
    st: VirtualBusView,
    id: u8,
    data: Option<Seq<u8>>,
    ct: ChecksumType,
    entries: Seq<ScheduleEntry>,
)
    requires
        st.closed,
    ensures
        publish_step(st, id, data, ct) == (
            BusOutcome::Closed,
            VirtualBusView { metrics: count_error(st.metrics), ..st },
        ),
        header_outcome(st, id).0 == BusOutcome::Closed,
        schedule_step(st, entries) == (BusOutcome::Closed, st),
{
}

/// A frame an exchange returns passes validation and its checksum checks
/// out: the carry-around sum of what it covers plus the checksum is 0xFF.
pub proof fn lemma_exchanged_frame_checks(st: VirtualBusView, id: u8)
    requires
        header_outcome(st, id).0 == BusOutcome::Done,
    ensures
        header_outcome(st, id).1 matches Some(f) && frame_is_valid(f.id, f.data.len(), f.checksum_type)
            && crate::frame::carry_add(
            crate::frame::carry_sum(
                crate::frame::checksum_init(pid_of(f.id), f.checksum_type),
                f.data,
            ),
            f.checksum,
        ) == 0xFF,
{
    let (d, ct) = st.responses[id];
    crate::frame::lemma_checksum_verifies(pid_of(id), d, ct);
}

} // verus!
