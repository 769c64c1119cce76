//! The mock LIN bus for tests, as a state machine: it records every
//! publish and every header sent, answers headers from the registered
//! responses with the enhanced checksum, and delivers frames to every open
//! subscription without filtering.

use vstd::prelude::*;

use crate::bus::{closed_sub, delivered_to, retained_subs, Subscribers, SubscriptionView};
use crate::error::Error;
use crate::frame::{
    calc_checksum, checksum_of, pid_of, protect_id, ChecksumType, Filter, Frame, FrameView,
    ScheduleEntry, LIN_MAX_DATA_LEN, LIN_MAX_ID,
};
use crate::relay::SubscriberOptions;
use crate::text::{hex2, push_hex2};
use crate::virtual_bus::{id_overflow_reason, opt_bytes};

verus! {

broadcast use vstd::std_specs::hash::group_hash_axioms;

/// The state of a mock bus.
pub struct MockView {
    /// Registered responses by frame ID.
    pub responses: Map<u8, Seq<u8>>,
    /// Every publish call, in order.
    pub published: Seq<(u8, Option<Seq<u8>>)>,
    /// The ID of every header sent, in order.
    pub sent_headers: Seq<u8>,
    pub closed: bool,
}

/// The mock bus's own state (its subscriptions are kept beside it).
pub struct MockState {
    responses: std::collections::HashMap<u8, Vec<u8>>,
    published: Vec<(u8, Option<Vec<u8>>)>,
    sent_headers: Vec<u8>,
    closed: bool,
}

/// A recorded publish call, as values.
pub open spec fn record_view(e: (u8, Option<Vec<u8>>)) -> (u8, Option<Seq<u8>>) {
    (e.0, opt_bytes(e.1))
}

/// The frame the mock answers a header with.
pub open spec fn mock_frame(id: u8, d: Seq<u8>) -> FrameView {
    FrameView {
        id,
        data: d,
        checksum: checksum_of(pid_of(id), d, ChecksumType::Enhanced),
        checksum_type: ChecksumType::Enhanced,
    }
}

fn copy_opt_bytes(d: &Option<Vec<u8>>) -> (r: Option<Vec<u8>>)
    ensures
        opt_bytes(r) == opt_bytes(*d),
{
    match d {
        Some(v) => Some(v.clone()),
        None => None,
    }
}

impl View for MockState {
    type V = MockView;

    closed spec fn view(&self) -> MockView {
        MockView {
            responses: self.responses@.map_values(|d: Vec<u8>| d@),
            published: self.published@.map_values(|e: (u8, Option<Vec<u8>>)| record_view(e)),
            sent_headers: self.sent_headers@,
            closed: self.closed,
        }
    }
}

impl MockState {
    /// A new open mock with nothing registered or recorded.
    pub fn new() -> (r: MockState)
        ensures
            r@.responses == Map::<u8, Seq<u8>>::empty(),
            r@.published == Seq::<(u8, Option<Seq<u8>>)>::empty(),
            r@.sent_headers == Seq::<u8>::empty(),
            !r@.closed,
    {
        let r = MockState {
            responses: std::collections::HashMap::new(),
            published: Vec::new(), sent_headers: Vec::new(), closed: false };
        proof {
            assert(r@.responses =~= Map::<u8, Seq<u8>>::empty());
            assert(r@.published =~= Seq::<(u8, Option<Seq<u8>>)>::empty());
        }
        r
    }

    /// Record the call and register (`Some`) or remove (`None`) the
    /// response for `id`; refused once closed, and refused with
    /// `PayloadTooLarge` for more than 8 data bytes, recording nothing.
    pub fn publish(&mut self, id: u8, data: Option<Vec<u8>>) -> (r: Result<(), Error>)
        ensures
            old(self)@.closed ==> (r matches Err(Error::Closed)) && final(self)@ == old(self)@,
            !old(self)@.closed && (opt_bytes(data) matches Some(d) && d.len() > LIN_MAX_DATA_LEN)
                ==> (r matches Err(Error::PayloadTooLarge)) && final(self)@ == old(self)@,
            !old(self)@.closed && !(opt_bytes(data) matches Some(d) && d.len() > LIN_MAX_DATA_LEN)
                ==> r is Ok && final(self)@ == (MockView {
                published: old(self)@.published.push((id, opt_bytes(data))),
                responses: match opt_bytes(data) {
                    Some(d) => old(self)@.responses.insert(id, d),
                    None => old(self)@.responses.remove(id),
                },
                ..old(self)@
            }),
    {
        if self.closed {
            return Err(Error::Closed);
        }
        match &data {
            Some(d) => {
                if d.len() > LIN_MAX_DATA_LEN {
                    return Err(Error::PayloadTooLarge);
                }
            },
            None => {},
        }
        let ghost before = self@;
        let ghost dv = opt_bytes(data);
        let ghost log = self.published@;
        let copy = copy_opt_bytes(&data);
        self.published.push((id, copy));
        let ghost table = self.responses@;
        match data {
            Some(d) => {
                let _ = self.responses.insert(id, d);
            },
            None => {
                let _ = self.responses.remove(&id);
            },
        }
        proof {
            assert(self.published@.drop_last() =~= log);
            assert(self@.published =~= before.published.push((id, dv)));
            match dv {
                Some(d) => {
                    assert(self.responses@ == table.insert(id, data->0));
                    assert(self@.responses =~= before.responses.insert(id, d));
                },
                None => {
                    assert(self.responses@ == table.remove(id));
                    assert(self@.responses =~= before.responses.remove(id));
                },
            }
        }
        Ok(())
    }

    /// Add a subscription that receives every frame (filters are ignored);
    /// refused once closed.
    pub fn subscribe(&self, subs: &mut Subscribers, filters: Vec<Filter>, opts: SubscriberOptions) -> (r: Result<u64, Error>)
        requires
            old(subs).wf(),
        ensures
            final(subs).wf(),
            self@.closed ==> (r matches Err(Error::Closed)) && final(subs)@ == old(subs)@,
            !self@.closed && old(subs)@.0 < u64::MAX ==> r == Ok::<u64, Error>(old(subs)@.0)
                && final(subs)@.1.drop_last() == old(subs)@.1 && final(subs)@.1.len() == old(
                subs,
            )@.1.len() + 1 && final(subs)@.1.last().id == old(subs)@.0
                && final(subs)@.1.last().filters == Seq::<Filter>::empty(),
            !self@.closed && old(subs)@.0 == u64::MAX ==> r is Err && final(subs)@ == old(subs)@,
    {
        if self.closed {
            return Err(Error::Closed);
        }
        subs.add(Vec::new(), opts)
    }

    /// Close the mock and every subscription; closing again changes
    /// nothing.
    pub fn close(&mut self, subs: &mut Subscribers) -> (r: Result<(), Error>)
        requires
            old(subs).wf(),
        ensures
            r is Ok,
            final(subs).wf(),
            final(self)@ == (MockView { closed: true, ..old(self)@ }),
            old(self)@.closed ==> final(subs)@ == old(subs)@,
            !old(self)@.closed ==> final(subs)@.0 == old(subs)@.0 && final(subs)@.1 == retained_subs(
                old(subs)@.1.map_values(|s: SubscriptionView| closed_sub(s)),
            ),
    {
        if self.closed {
            return Ok(());
        }
        self.closed = true;
        subs.close_all();
        proof {
            assert(self@.responses =~= old(self)@.responses);
        }
        Ok(())
    }

    /// Deliver `frame` to every open subscription.
    pub fn inject(&self, subs: &mut Subscribers, frame: &Frame)
        requires
            old(subs).wf(),
        ensures
            final(subs).wf(),
            final(subs)@.0 == old(subs)@.0,
            exists|delivered: u64, dropped: u64|
                delivered_to(old(subs)@.1, final(subs)@.1, frame@, false, delivered, dropped),
    {
        let _ = subs.deliver(frame, false);
    }

    /// Answer a header: record it, and return the registered response as
    /// an enhanced-checksum frame, delivered to every open subscription.
    pub fn send_header(&mut self, subs: &mut Subscribers, id: u8) -> (r: Result<Frame, Error>)
        requires
            old(subs).wf(),
        ensures
            final(subs).wf(),
            final(subs)@.0 == old(subs)@.0,
            old(self)@.closed ==> (r matches Err(Error::Closed)) && final(self)@ == old(self)@
                && final(subs)@ == old(subs)@,
            !old(self)@.closed && id > LIN_MAX_ID ==> (r matches Err(Error::InvalidFrame { reason })
                && reason@ == id_overflow_reason(id)) && final(self)@ == old(self)@ && final(subs)@
                == old(subs)@,
            !old(self)@.closed && id <= LIN_MAX_ID ==> final(self)@ == (MockView {
                sent_headers: old(self)@.sent_headers.push(id),
                ..old(self)@
            }),
            !old(self)@.closed && id <= LIN_MAX_ID && !old(self)@.responses.contains_key(id) ==> (r matches Err(Error::NoResponse)) && final(subs)@ == old(subs)@,
            !old(self)@.closed && id <= LIN_MAX_ID && old(self)@.responses.contains_key(id) ==> (r matches Ok(f) && f@ == mock_frame(id, old(self)@.responses[id])) && exists|
                delivered: u64,
                dropped: u64,
            |
                delivered_to(
                    old(subs)@.1,
                    final(subs)@.1,
                    mock_frame(id, old(self)@.responses[id]),
                    false,
                    delivered,
                    dropped,
                ),
    {
        if self.closed {
            return Err(Error::Closed);
        }
        if id > LIN_MAX_ID {
            let mut m = "frame ID 0x".to_owned();
            push_hex2(&mut m, id);
            m.append(" exceeds maximum 0x");
            push_hex2(&mut m, LIN_MAX_ID);
            return Err(Error::invalid_frame(m));
        }
        self.sent_headers.push(id);
        proof {
            assert(self@.responses =~= old(self)@.responses);
            assert(self@.published =~= old(self)@.published);
        }
        let data = match self.responses.get(&id) {
            Some(d) => d.clone(),
            None => {
                return Err(Error::NoResponse);
            },
        };
        let pid = protect_id(id);
        let cs = calc_checksum(pid, data.as_slice(), ChecksumType::Enhanced);
        let frame = Frame { id, data, checksum: cs, checksum_type: ChecksumType::Enhanced };
        let _ = subs.deliver(&frame, false);
        Ok(frame)
    }

    /// Accept any schedule table.
    pub fn set_schedule(&self, entries: Vec<ScheduleEntry>) -> (r: Result<(), Error>)
        ensures
            r is Ok,
    {
        Ok(())
    }

    /// A copy of every recorded publish call.
    pub fn published_responses(&self) -> (r: Vec<(u8, Option<Vec<u8>>)>)
        ensures
            r@.map_values(|e: (u8, Option<Vec<u8>>)| record_view(e)) == self@.published,
    {
        let mut out: Vec<(u8, Option<Vec<u8>>)> = Vec::new();
        let mut i: usize = 0;
        while i < self.published.len()
            invariant
                i <= self.published@.len(),
                out@.len() == i,
                forall|k: int| 0 <= k < i ==> #[trigger] record_view(out@[k]) == record_view(
                    self.published@[k],
                ),
            decreases self.published.len() - i,
        {
            let e = &self.published[i];
            out.push((e.0, copy_opt_bytes(&e.1)));
            i = i + 1;
        }
        proof {
            assert(out@.map_values(|e: (u8, Option<Vec<u8>>)| record_view(e)) =~= self@.published);
        }
        out
    }

    /// A copy of the ID of every header sent.
    pub fn sent_header_ids(&self) -> (r: Vec<u8>)
        ensures
            r@ == self@.sent_headers,
    {
        self.sent_headers.clone()
    }

    /// Clear the records of publish calls and headers sent.
    pub fn reset(&mut self)
        ensures
            final(self)@ == (MockView {
                published: Seq::empty(),
                sent_headers: Seq::empty(),
                ..old(self)@
            }),
    {
        self.published.clear();
        self.sent_headers.clear();
        proof {
            assert(self@.responses =~= old(self)@.responses);
            assert(self@.published =~= Seq::<(u8, Option<Seq<u8>>)>::empty());
        }
    }

    /// Whether the mock was closed.
    pub fn is_closed(&self) -> (r: bool)
        ensures
            r == self@.closed,
    {
        self.closed
    }
}

} // verus!
