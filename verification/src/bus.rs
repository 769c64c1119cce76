//! Subscriber queues: back-pressure policies, per-second rate limiting,
//! and the registry of a bus's subscriptions with filtered delivery.

use vstd::prelude::*;

use crate::error::Error;
use crate::frame::{filter_passes, Filter, Frame, FrameView};
use crate::relay::{BackPressurePolicy, Health, Metrics, SubscriberOptions};

verus! {

/// A bus that can report its health.
pub trait HealthProvider {
    /// The bus's current health.
    fn health(&self) -> Health;
}

/// A bus that can report its traffic counters.
pub trait MetricsProvider {
    /// The bus's current counters.
    fn metrics(&self) -> Metrics;
}

#[verifier::external_type_specification]
#[verifier::external_body]
pub struct ExInstant(std::time::Instant);

/// Reads the monotonic clock through `std::time::Instant::now`. Nothing
/// is promised of the value: it is the time.
#[verifier::external_body]
fn instant_now() -> std::time::Instant {
    std::time::Instant::now()
}

/// Whole seconds from `earlier` to `later`, through
/// `Instant::duration_since` and `Duration::as_secs`. Nothing is promised
/// of the value: it depends on clock readings.
#[verifier::external_body]
fn whole_seconds_between(later: std::time::Instant, earlier: std::time::Instant) -> u64 {
    later.duration_since(earlier).as_secs()
}

/// The state of a subscriber queue.
pub struct SubQueueView {
    /// Frames waiting to be received, oldest first.
    pub frames: Seq<FrameView>,
    /// Queue depth that triggers the back-pressure policy.
    pub capacity: usize,
    pub policy: BackPressurePolicy,
    /// Frames admitted per one-second window; 0 means unlimited.
    pub rate_limit: u32,
    /// Frames admitted in the current window.
    pub window_count: u32,
    pub closed: bool,
}

/// Whether the rate limiter admits a frame: no limit, or a new window has
/// begun, or the window still has room.
pub open spec fn rate_admits(q: SubQueueView, window_elapsed: bool) -> bool {
    q.rate_limit == 0 || window_elapsed || q.window_count < q.rate_limit
}

/// The window count after the limiter saw a frame.
pub open spec fn count_after(q: SubQueueView, window_elapsed: bool) -> u32 {
    if q.rate_limit == 0 {
        q.window_count
    } else if window_elapsed {
        1
    } else if q.window_count < q.rate_limit {
        (q.window_count + 1) as u32
    } else {
        q.window_count
    }
}

/// The queued frames after offering `f` under the back-pressure policy,
/// or `None` when the policy drops it.
pub open spec fn enqueue(
    frames: Seq<FrameView>,
    capacity: usize,
    policy: BackPressurePolicy,
    f: FrameView,
) -> Option<Seq<FrameView>> {
    match policy {
        BackPressurePolicy::DropNewest => if frames.len() >= capacity {
            None
        } else {
            Some(frames.push(f))
        },
        BackPressurePolicy::DropOldest => if frames.len() >= capacity && frames.len() > 0 {
            Some(frames.drop_first().push(f))
        } else {
            Some(frames.push(f))
        },
        BackPressurePolicy::Block => Some(frames.push(f)),
    }
}

/// Whether offering `f` is accepted, and the queue state after it, when
/// the limiter's window has (`window_elapsed`) or has not ended.
pub open spec fn push_outcome(q: SubQueueView, f: FrameView, window_elapsed: bool) -> (
    bool,
    SubQueueView,
) {
    if !rate_admits(q, window_elapsed) {
        (false, q)
    } else {
        let q1 = SubQueueView { window_count: count_after(q, window_elapsed), ..q };
        match enqueue(q.frames, q.capacity, q.policy, f) {
            Some(fs) => (true, SubQueueView { frames: fs, ..q1 }),
            None => (false, q1),
        }
    }
}

/// `(accepted, after)` is the outcome of offering `f` to `q` for one of
/// the two things the clock may have said.
pub open spec fn push_step(q: SubQueueView, f: FrameView, accepted: bool, after: SubQueueView) -> bool {
    push_outcome(q, f, false) == (accepted, after) || push_outcome(q, f, true) == (accepted, after)
}

/// A subscriber queue.
pub struct SubQueue {
    queue: std::collections::VecDeque<Frame>,
    capacity: usize,
    policy: BackPressurePolicy,
    rate_limit: u32,
    window_start: std::time::Instant,
    window_count: u32,
    closed: bool,
}

impl View for SubQueue {
    type V = SubQueueView;

    closed spec fn view(&self) -> SubQueueView {
        SubQueueView {
            frames: self.queue@.map_values(|f: Frame| f@),
            capacity: self.capacity,
            policy: self.policy,
            rate_limit: self.rate_limit,
            window_count: self.window_count,
            closed: self.closed,
        }
    }
}

impl SubQueue {
    /// An empty, open queue with a fresh rate window.
    pub fn new(capacity: usize, policy: BackPressurePolicy, rate_limit: u32) -> (r: SubQueue)
        ensures
            r@.frames == Seq::<FrameView>::empty(),
            r@.capacity == capacity,
            r@.policy == policy,
            r@.rate_limit == rate_limit,
            r@.window_count == 0,
            !r@.closed,
    {
        let q = SubQueue {
            queue: std::collections::VecDeque::new(),
            capacity,
            policy,
            rate_limit,
            window_start: instant_now(),
            window_count: 0,
            closed: false,
        };
        proof {
            assert(q@.frames =~= Seq::<FrameView>::empty());
        }
        q
    }

    /// Offer a frame, `window_elapsed` saying whether a second has passed
    /// since the limiter's window began (`now` starts the next window).
    /// Returns whether the frame was accepted.
    pub fn push_in_window(
        &mut self,
        frame: Frame,
        now: std::time::Instant,
        window_elapsed: bool,
    ) -> (r: bool)
        ensures
            (r, final(self)@) == push_outcome(old(self)@, frame@, window_elapsed),
    {
        if self.rate_limit > 0 {
            if window_elapsed {
                self.window_start = now;
                self.window_count = 0;
            }
            if self.window_count >= self.rate_limit {
                return false;
            }
            self.window_count = self.window_count + 1;
        }
        let ghost before = self.queue@;
        match self.policy {
            BackPressurePolicy::DropNewest => {
                if self.queue.len() >= self.capacity {
                    return false;
                }
                self.queue.push_back(frame);
                proof {
                    assert(self.queue@.map_values(|f: Frame| f@) =~= before.map_values(
                        |f: Frame| f@,
                    ).push(frame@));
                }
                true
            },
            BackPressurePolicy::DropOldest => {
                if self.queue.len() >= self.capacity {
                    self.queue.pop_front();
                }
                let ghost mid = self.queue@;
                self.queue.push_back(frame);
                proof {
                    if before.len() >= self.capacity && before.len() > 0 {
                        assert(mid =~= before.drop_first());
                        assert(self.queue@.map_values(|f: Frame| f@) =~= before.map_values(
                            |f: Frame| f@,
                        ).drop_first().push(frame@));
                    } else {
                        assert(mid =~= before);
                        assert(self.queue@.map_values(|f: Frame| f@) =~= before.map_values(
                            |f: Frame| f@,
                        ).push(frame@));
                    }
                }
                true
            },
            BackPressurePolicy::Block => {
                self.queue.push_back(frame);
                proof {
                    assert(self.queue@.map_values(|f: Frame| f@) =~= before.map_values(
                        |f: Frame| f@,
                    ).push(frame@));
                }
                true
            },
        }
    }

    /// Offer a frame, reading the clock to see whether the limiter's
    /// one-second window has ended. Returns whether it was accepted; the
    /// outcome is the one for whichever answer the clock gave.
    pub fn push(&mut self, frame: Frame) -> (r: bool)
        ensures
            push_step(old(self)@, frame@, r, final(self)@),
            old(self)@.rate_limit == 0 ==> (r, final(self)@) == push_outcome(
                old(self)@,
                frame@,
                false,
            ),
    {
        if self.rate_limit > 0 {
            let now = instant_now();
            let elapsed = whole_seconds_between(now, self.window_start) >= 1;
            self.push_in_window(frame, now, elapsed)
        } else {
            let now = self.window_start;
            self.push_in_window(frame, now, false)
        }
    }

    /// Take the oldest queued frame.
    pub fn pop(&mut self) -> (r: Option<Frame>)
        ensures
            old(self)@.frames.len() == 0 ==> r is None && final(self)@ == old(self)@,
            old(self)@.frames.len() > 0 ==> (r matches Some(f) && f@ == old(self)@.frames[0])
                && final(self)@ == (SubQueueView {
                frames: old(self)@.frames.drop_first(),
                ..old(self)@
            }),
    {
        let ghost before = self.queue@;
        let r = self.queue.pop_front();
        proof {
            if before.len() > 0 {
                assert(self.queue@.map_values(|f: Frame| f@) =~= before.map_values(
                    |f: Frame| f@,
                ).drop_first());
            } else {
                assert(self.queue@ =~= before);
            }
        }
        r
    }

    /// The number of queued frames.
    pub fn len(&self) -> (r: usize)
        ensures
            r == self@.frames.len(),
    {
        self.queue.len()
    }

    /// Whether no frame is queued.
    pub fn is_empty(&self) -> (r: bool)
        ensures
            r == (self@.frames.len() == 0),
    {
        self.queue.len() == 0
    }

    /// Mark the queue closed; queued frames stay to be received.
    pub fn close(&mut self)
        ensures
            final(self)@ == (SubQueueView { closed: true, ..old(self)@ }),
    {
        self.closed = true;
    }

    /// Whether the queue was closed.
    pub fn is_closed(&self) -> (r: bool)
        ensures
            r == self@.closed,
    {
        self.closed
    }
}

// ---------------------------------------------------------------------------
// Subscription registry
// ---------------------------------------------------------------------------

/// The state of one subscription.
pub struct SubscriptionView {
    pub id: u64,
    pub filters: Seq<Filter>,
    pub queue: SubQueueView,
}

/// A subscription: its identifier, filters and queue.
pub struct Subscription {
    id: u64,
    filters: Vec<Filter>,
    queue: SubQueue,
}

impl View for Subscription {
    type V = SubscriptionView;

    closed spec fn view(&self) -> SubscriptionView {
        SubscriptionView { id: self.id, filters: self.filters@, queue: self.queue@ }
    }
}

/// Whether a frame with identifier `id` passes one of `filters`, an empty
/// list passing every frame.
pub open spec fn filters_pass(filters: Seq<Filter>, id: u8) -> bool {
    filters.len() == 0 || exists|j: int| 0 <= j < filters.len() && filter_passes(filters[j], id)
}

/// Whether `f` is offered to subscription `s`: it is open, and passes its
/// filters when filters apply.
pub open spec fn eligible(s: SubscriptionView, f: FrameView, use_filters: bool) -> bool {
    !s.queue.closed && (!use_filters || filters_pass(s.filters, f.id))
}

/// How many of `flags` are set.
pub open spec fn count_set(flags: Seq<bool>) -> nat
    decreases flags.len(),
{
    if flags.len() == 0 {
        0
    } else {
        count_set(flags.drop_last()) + if flags.last() {
            1nat
        } else {
            0nat
        }
    }
}

/// How many positions are offered but not accepted.
pub open spec fn count_refused(offered: Seq<bool>, accepted: Seq<bool>) -> nat
    decreases offered.len(),
{
    if offered.len() == 0 || accepted.len() == 0 {
        0
    } else {
        count_refused(offered.drop_last(), accepted.drop_last()) + if offered.last()
            && !accepted.last() {
            1nat
        } else {
            0nat
        }
    }
}

/// Whether identifiers increase along the registry (so no two
/// subscriptions share one), all below the next one to hand out.
pub open spec fn registry_wf(next_id: u64, subs: Seq<SubscriptionView>) -> bool {
    &&& forall|i: int, j: int| 0 <= i < j < subs.len() ==> subs[i].id < subs[j].id
    &&& forall|i: int| 0 <= i < subs.len() ==> subs[i].id < next_id
}

/// Whether a registry holds a subscription with identifier `id`, at `i`.
pub open spec fn at_index(subs: Seq<SubscriptionView>, id: u64, i: int) -> bool {
    0 <= i < subs.len() && subs[i].id == id
}

/// The subscriptions a bus delivers to.
pub struct Subscribers {
    next_id: u64,
    subs: Vec<Subscription>,
}

impl View for Subscribers {
    /// The next identifier to hand out, and the subscriptions in order.
    type V = (u64, Seq<SubscriptionView>);

    closed spec fn view(&self) -> (u64, Seq<SubscriptionView>) {
        (self.next_id, self.subs@.map_values(|s: Subscription| s@))
    }
}

/// The identifier offset a frame carries past every filter: whether frame
/// `f` passes one of `filters`.
pub fn matches_any(filters: &Vec<Filter>, f: &Frame) -> (r: bool)
    ensures
        r == filters_pass(filters@, f.id),
{
    if filters.len() == 0 {
        return true;
    }
    let mut j: usize = 0;
    while j < filters.len()
        invariant
            j <= filters@.len(),
            forall|k: int| 0 <= k < j ==> !filter_passes(filters@[k], f.id),
        decreases filters.len() - j,
    {
        if filters[j].matches(f) {
            return true;
        }
        j = j + 1;
    }
    false
}

impl Subscribers {
    /// Whether the registry is well formed.
    pub open spec fn wf(&self) -> bool {
        registry_wf(self@.0, self@.1)
    }

    /// An empty registry.
    pub fn new() -> (r: Subscribers)
        ensures
            r@.0 == 0,
            r@.1 == Seq::<SubscriptionView>::empty(),
            r.wf(),
    {
        let r = Subscribers { next_id: 0, subs: Vec::new() };
        proof {
            assert(r@.1 =~= Seq::<SubscriptionView>::empty());
        }
        r
    }

    /// The number of subscriptions held.
    pub fn len(&self) -> (r: usize)
        ensures
            r == self@.1.len(),
    {
        self.subs.len()
    }

    /// Add a subscription with the given filters and a queue made from
    /// `opts` (depth `opts.chan_depth(64)`), returning its identifier.
    /// Fails only when identifiers are exhausted.
    pub fn add(&mut self, filters: Vec<Filter>, opts: SubscriberOptions) -> (r: Result<u64, Error>)
        requires
            old(self).wf(),
        ensures
            final(self).wf(),
            old(self)@.0 == u64::MAX ==> r is Err && final(self)@ == old(self)@,
            old(self)@.0 < u64::MAX ==> r == Ok::<u64, Error>(old(self)@.0) && final(self)@.0
                == old(self)@.0 + 1 && final(self)@.1.len() == old(self)@.1.len() + 1
                && final(self)@.1.drop_last() == old(self)@.1 && final(self)@.1.last().id
                == old(self)@.0 && final(self)@.1.last().filters == filters@
                && final(self)@.1.last().queue == (SubQueueView {
                frames: Seq::empty(),
                capacity: opts.chan_depth_spec(64),
                policy: opts.back_pressure,
                rate_limit: opts.rate_limit_per_sec,
                window_count: 0,
                closed: false,
            }),
    {
        if self.next_id == u64::MAX {
            return Err(Error::Other("subscriber identifiers exhausted".to_owned()));
        }
        let id = self.next_id;
        let depth = opts.chan_depth(64);
        let queue = SubQueue::new(depth, opts.back_pressure, opts.rate_limit_per_sec);
        let ghost before = self@.1;
        self.subs.push(Subscription { id, filters, queue });
        self.next_id = id + 1;
        proof {
            assert(self@.1.drop_last() =~= before);
            assert(self@.1.last().queue.frames =~= Seq::<FrameView>::empty());
            assert forall|i: int| 0 <= i < self@.1.len() - 1 implies self@.1[i] == before[i] by {}
            let n = self@.1;
            assert(n.last().id == id);
            assert forall|i: int, j: int| 0 <= i < j < n.len() implies n[i].id < n[j].id by {
                if j == n.len() - 1 {
                    assert(n[i] == before[i]);
                    assert(before[i].id < id);
                } else {
                    assert(n[i] == before[i]);
                    assert(n[j] == before[j]);
                }
            }
            assert forall|i: int| 0 <= i < n.len() implies n[i].id < self@.0 by {
                if i < n.len() - 1 {
                    assert(n[i] == before[i]);
                }
            }
        }
        Ok(id)
    }
}

/// Whether a subscription stays in the registry when it is cleaned: it is
/// open, or still has frames to be received.
pub open spec fn retained(s: SubscriptionView) -> bool {
    !(s.queue.closed && s.queue.frames.len() == 0)
}

/// The subscriptions that stay when the registry is cleaned, in order.
pub open spec fn retained_subs(s: Seq<SubscriptionView>) -> Seq<SubscriptionView>
    decreases s.len(),
{
    if s.len() == 0 {
        s
    } else {
        let r = retained_subs(s.drop_last());
        if retained(s.last()) {
            r.push(s.last())
        } else {
            r
        }
    }
}

/// A subscription marked closed.
pub open spec fn closed_sub(s: SubscriptionView) -> SubscriptionView {
    SubscriptionView { queue: SubQueueView { closed: true, ..s.queue }, ..s }
}

proof fn lemma_retained_subs(next_id: u64, s: Seq<SubscriptionView>)
    requires
        registry_wf(next_id, s),
    ensures
        registry_wf(next_id, retained_subs(s)),
        forall|i: int|
            0 <= i < retained_subs(s).len() ==> exists|k: int|
                0 <= k < s.len() && #[trigger] retained_subs(s)[i] == s[k],
    decreases s.len(),
{
    if s.len() > 0 {
        let t = s.drop_last();
        assert(registry_wf(next_id, t));
        lemma_retained_subs(next_id, t);
        let r = retained_subs(t);
        if retained(s.last()) {
            let n = r.push(s.last());
            assert forall|i: int| 0 <= i < n.len() implies exists|k: int|
                0 <= k < s.len() && #[trigger] n[i] == s[k] by {
                if i < r.len() {
                    let k = choose|k: int| 0 <= k < t.len() && r[i] == t[k];
                    assert(n[i] == s[k]);
                } else {
                    assert(n[i] == s[s.len() - 1]);
                }
            }
            assert forall|i: int, j: int| 0 <= i < j < n.len() implies n[i].id < n[j].id by {
                if j == n.len() - 1 {
                    let k = choose|k: int| 0 <= k < t.len() && r[i] == t[k];
                    assert(s[k] == t[k]);
                } else {
                    assert(n[i] == r[i] && n[j] == r[j]);
                }
            }
            assert forall|i: int| 0 <= i < n.len() implies n[i].id < next_id by {
                if i < r.len() {
                    assert(n[i] == r[i]);
                }
            }
        } else {
            assert forall|i: int| 0 <= i < r.len() implies exists|k: int|
                0 <= k < s.len() && #[trigger] r[i] == s[k] by {
                let k = choose|k: int| 0 <= k < t.len() && r[i] == t[k];
                assert(r[i] == s[k]);
            }
        }
    }
}

/// Whether delivering `f` took registry `before` to `after`, accepted by
/// `delivered` subscriptions and dropped by `dropped`: every offered
/// subscription took one of the steps the clock allows, the others are
/// unchanged.
pub open spec fn delivered_to(
    before: Seq<SubscriptionView>,
    after: Seq<SubscriptionView>,
    f: FrameView,
    use_filters: bool,
    delivered: u64,
    dropped: u64,
) -> bool {
    exists|acc: Seq<bool>|
        {
            &&& acc.len() == before.len()
            &&& after.len() == before.len()
            &&& delivered == count_set(acc)
            &&& dropped == count_refused(
                Seq::new(before.len(), |i: int| eligible(before[i], f, use_filters)),
                acc,
            )
            &&& forall|i: int|
                0 <= i < acc.len() ==> {
                    let o = before[i];
                    let n = #[trigger] after[i];
                    &&& n.id == o.id
                    &&& n.filters == o.filters
                    &&& if eligible(o, f, use_filters) {
                        push_step(o.queue, f, acc[i], n.queue)
                    } else {
                        !acc[i] && n.queue == o.queue
                    }
                }
        }
}

impl Subscribers {
    /// Position of the subscription with identifier `id`.
    fn index_of(&self, id: u64) -> (r: Option<usize>)
        requires
            self.wf(),
        ensures
            match r {
                Some(i) => at_index(self@.1, id, i as int),
                None => forall|i: int| !at_index(self@.1, id, i),
            },
    {
        let mut i: usize = 0;
        while i < self.subs.len()
            invariant
                i <= self.subs@.len(),
                self@.1.len() == self.subs@.len(),
                forall|k: int| 0 <= k < i ==> self@.1[k].id != id,
            decreases self.subs.len() - i,
        {
            if self.subs[i].id == id {
                return Some(i);
            }
            i = i + 1;
        }
        None
    }

    /// Take the oldest frame queued for subscription `id`; `None` when it
    /// has none or does not exist.
    pub fn pop(&mut self, id: u64) -> (r: Option<Frame>)
        requires
            old(self).wf(),
        ensures
            final(self).wf(),
            final(self)@.0 == old(self)@.0,
            final(self)@.1.len() == old(self)@.1.len(),
            forall|i: int|
                0 <= i < old(self)@.1.len() && !at_index(old(self)@.1, id, i) ==> final(self)@.1[i]
                    == old(self)@.1[i],
            forall|i: int|
                at_index(old(self)@.1, id, i) ==> {
                    let q = old(self)@.1[i].queue;
                    &&& q.frames.len() == 0 ==> r is None && final(self)@.1[i] == old(self)@.1[i]
                    &&& q.frames.len() > 0 ==> (r matches Some(f) && f@ == q.frames[0])
                        && final(self)@.1[i] == (SubscriptionView {
                        queue: SubQueueView { frames: q.frames.drop_first(), ..q },
                        ..old(self)@.1[i]
                    })
                },
            (forall|i: int| !at_index(old(self)@.1, id, i)) ==> r is None && final(self)@ == old(
                self,
            )@,
    {
        match self.index_of(id) {
            None => None,
            Some(i) => {
                let ghost before = self@.1;
                let mut sub = self.subs.remove(i);
                let r = sub.queue.pop();
                self.subs.insert(i, sub);
                proof {
                    let after = self@.1;
                    assert(after =~= before.update(i as int, after[i as int]));
                    assert forall|k: int| at_index(before, id, k) implies k == i by {
                        if k < i {
                            assert(before[k].id < before[i as int].id);
                        } else if k > i {
                            assert(before[i as int].id < before[k].id);
                        }
                    }
                }
                r
            },
        }
    }

    /// Whether subscription `id` is closed (or no longer held).
    pub fn is_closed(&self, id: u64) -> (r: bool)
        requires
            self.wf(),
        ensures
            r == forall|i: int| at_index(self@.1, id, i) ==> self@.1[i].queue.closed,
    {
        match self.index_of(id) {
            None => true,
            Some(i) => {
                proof {
                    assert forall|k: int| at_index(self@.1, id, k) implies k == i by {
                        if k < i {
                            assert(self@.1[k].id < self@.1[i as int].id);
                        } else if k > i {
                            assert(self@.1[i as int].id < self@.1[k].id);
                        }
                    }
                }
                self.subs[i].queue.is_closed()
            },
        }
    }

    /// Close subscription `id`: it receives nothing more, and keeps what it
    /// has queued.
    pub fn close_one(&mut self, id: u64)
        requires
            old(self).wf(),
        ensures
            final(self).wf(),
            final(self)@.0 == old(self)@.0,
            final(self)@.1.len() == old(self)@.1.len(),
            forall|i: int|
                0 <= i < old(self)@.1.len() ==> final(self)@.1[i] == if at_index(
                    old(self)@.1,
                    id,
                    i,
                ) {
                    closed_sub(old(self)@.1[i])
                } else {
                    old(self)@.1[i]
                },
    {
        match self.index_of(id) {
            None => {},
            Some(i) => {
                let ghost before = self@.1;
                let mut sub = self.subs.remove(i);
                sub.queue.close();
                self.subs.insert(i, sub);
                proof {
                    let after = self@.1;
                    assert(after =~= before.update(i as int, closed_sub(before[i as int])));
                    assert forall|k: int| at_index(before, id, k) implies k == i by {
                        if k < i {
                            assert(before[k].id < before[i as int].id);
                        } else if k > i {
                            assert(before[i as int].id < before[k].id);
                        }
                    }
                }
            },
        }
    }

    /// Drop the subscriptions that are closed and have nothing left to be
    /// received.
    pub fn gc(&mut self)
        requires
            old(self).wf(),
        ensures
            final(self).wf(),
            final(self)@.0 == old(self)@.0,
            final(self)@.1 == retained_subs(old(self)@.1),
    {
        let ghost orig = self@.1;
        assert(orig.len() == self.subs@.len());
        let mut rest: Vec<Subscription> = Vec::new();
        std::mem::swap(&mut rest, &mut self.subs);
        let total: usize = rest.len();
        proof {
            assert(rest@.map_values(|s: Subscription| s@) =~= orig.skip(0));
            assert(self@.1 =~= retained_subs(orig.take(0)));
        }
        let mut k: usize = 0;
        while rest.len() > 0
            invariant
                k <= orig.len(),
                rest@.map_values(|s: Subscription| s@) == orig.skip(k as int),
                rest@.len() == orig.len() - k,
                orig.len() <= usize::MAX,
                self@.1 == retained_subs(orig.take(k as int)),
                self@.0 == old(self)@.0,
                orig == old(self)@.1,
            decreases rest.len(),
        {
            let ghost rv = rest@;
            let s = rest.remove(0);
            proof {
                assert(rv.map_values(|s: Subscription| s@)[0] == orig.skip(k as int)[0]);
                assert(rest@ =~= rv.subrange(1, rv.len() as int));
                let rm = rest@.map_values(|s: Subscription| s@);
                let rvm = rv.map_values(|s: Subscription| s@);
                let sk = orig.skip(k as int);
                assert forall|j: int| 0 <= j < rest@.len() implies #[trigger] rm[j] == orig.skip(
                    k + 1,
                )[j] by {
                    assert(rest@[j] == rv[j + 1]);
                    assert(rvm[j + 1] == sk[j + 1]);
                }
                assert(rest@.map_values(|s: Subscription| s@) =~= orig.skip(k + 1));
                assert(s@ == orig[k as int]);
                assert(orig.take(k + 1).drop_last() =~= orig.take(k as int));
                assert(orig.take(k + 1).last() == orig[k as int]);
            }
            let keep = !(s.queue.is_closed() && s.queue.is_empty());
            let ghost before = self@.1;
            if keep {
                self.subs.push(s);
                proof {
                    assert(self@.1 =~= before.push(orig[k as int]));
                }
            }
            k = k + 1;
        }
        proof {
            assert(orig.take(k as int) =~= orig);
            lemma_retained_subs(self@.0, orig);
        }
    }

    /// Close every subscription, then drop those with nothing left to be
    /// received.
    pub fn close_all(&mut self)
        requires
            old(self).wf(),
        ensures
            final(self).wf(),
            final(self)@.0 == old(self)@.0,
            final(self)@.1 == retained_subs(old(self)@.1.map_values(|s: SubscriptionView| closed_sub(s))),
    {
        let ghost orig = self@.1;
        let mut i: usize = 0;
        while i < self.subs.len()
            invariant
                i <= self.subs@.len(),
                self@.0 == old(self)@.0,
                self@.1.len() == orig.len(),
                orig == old(self)@.1,
                registry_wf(self@.0, orig),
                forall|k: int| 0 <= k < i ==> self@.1[k] == closed_sub(orig[k]),
                forall|k: int| i <= k < orig.len() ==> self@.1[k] == orig[k],
            decreases self.subs.len() - i,
        {
            let ghost before = self@.1;
            let mut sub = self.subs.remove(i);
            sub.queue.close();
            self.subs.insert(i, sub);
            proof {
                assert(self@.1 =~= before.update(i as int, closed_sub(before[i as int])));
            }
            i = i + 1;
        }
        proof {
            assert(self@.1 =~= orig.map_values(|s: SubscriptionView| closed_sub(s)));
        }
        self.gc();
    }

    /// Offer `frame` to every open subscription whose filters it passes
    /// (every open one when `use_filters` is false). Returns how many
    /// accepted it and how many dropped it.
    pub fn deliver(&mut self, frame: &Frame, use_filters: bool) -> (r: (u64, u64))
        requires
            old(self).wf(),
        ensures
            final(self).wf(),
            final(self)@.0 == old(self)@.0,
            final(self)@.1.len() == old(self)@.1.len(),
            delivered_to(old(self)@.1, final(self)@.1, frame@, use_filters, r.0, r.1),
    {
        let ghost orig = self@.1;
        let ghost offered = Seq::new(orig.len(), |i: int| eligible(orig[i], frame@, use_filters));
        let ghost mut acc: Seq<bool> = Seq::empty();
        let mut delivered: u64 = 0;
        let mut dropped: u64 = 0;
        let mut i: usize = 0;
        while i < self.subs.len()
            invariant
                i <= self.subs@.len(),
                self@.0 == old(self)@.0,
                self@.1.len() == orig.len(),
                orig == old(self)@.1,
                registry_wf(self@.0, orig),
                offered == Seq::new(orig.len(), |i: int| eligible(orig[i], frame@, use_filters)),
                acc.len() == i,
                delivered == count_set(acc),
                dropped == count_refused(offered.take(i as int), acc),
                delivered + dropped <= i,
                forall|k: int|
                    0 <= k < i ==> {
                        let o = orig[k];
                        let n = #[trigger] self@.1[k];
                        &&& n.id == o.id
                        &&& n.filters == o.filters
                        &&& if eligible(o, frame@, use_filters) {
                            push_step(o.queue, frame@, acc[k], n.queue)
                        } else {
                            !acc[k] && n.queue == o.queue
                        }
                    },
                forall|k: int| i <= k < orig.len() ==> self@.1[k] == orig[k],
            decreases self.subs.len() - i,
        {
            let ghost before = self@.1;
            let mut sub = self.subs.remove(i);
            let offer = !sub.queue.is_closed() && (!use_filters || matches_any(&sub.filters, frame));
            let mut took = false;
            if offer {
                took = sub.queue.push(frame.clone());
                if took {
                    delivered = delivered + 1;
                } else {
                    dropped = dropped + 1;
                }
            }
            let ghost sv = sub@;
            self.subs.insert(i, sub);
            proof {
                assert(self@.1 =~= before.update(i as int, sv));
                assert(orig[i as int] == before[i as int]);
                let acc2 = acc.push(took);
                assert(acc2.drop_last() =~= acc);
                assert(offered.take(i + 1).drop_last() =~= offered.take(i as int));
                assert(offered.take(i + 1).last() == offered[i as int]);
                acc = acc2;
            }
            i = i + 1;
        }
        proof {
            assert(offered.take(i as int) =~= offered);
            assert(registry_wf(self@.0, self@.1)) by {
                assert forall|a: int, b: int| 0 <= a < b < self@.1.len() implies self@.1[a].id
                    < self@.1[b].id by {
                    assert(self@.1[a].id == orig[a].id);
                    assert(self@.1[b].id == orig[b].id);
                }
                assert forall|a: int| 0 <= a < self@.1.len() implies self@.1[a].id < self@.0 by {
                    assert(self@.1[a].id == orig[a].id);
                }
            }
        }
        (delivered, dropped)
    }
}

/// How many of the frames `fs`, offered one after another to `q` within
/// one rate window, are accepted.
pub open spec fn accepted_in_window(q: SubQueueView, fs: Seq<FrameView>) -> nat
    decreases fs.len(),
{
    if fs.len() == 0 {
        0
    } else {
        let (ok, next) = push_outcome(q, fs[0], false);
        (if ok {
            1nat
        } else {
            0nat
        }) + accepted_in_window(next, fs.drop_first())
    }
}

/// Within one rate window a limited queue accepts at most as many frames
/// as the window has room for, whatever the frames and the policy.
pub proof fn lemma_rate_window_bound(q: SubQueueView, fs: Seq<FrameView>)
    requires
        q.rate_limit > 0,
        q.window_count <= q.rate_limit,
    ensures
        accepted_in_window(q, fs) <= q.rate_limit - q.window_count,
    decreases fs.len(),
{
    if fs.len() > 0 {
        let (ok, next) = push_outcome(q, fs[0], false);
        lemma_rate_window_bound(next, fs.drop_first());
    }
}

/// A frame the limiter refuses is not accepted and leaves the queue as it
/// was; with no limit set, the limiter never refuses and keeps no count.
pub proof fn lemma_rate_refusal_keeps_queue(q: SubQueueView, f: FrameView, window_elapsed: bool)
    ensures
        !rate_admits(q, window_elapsed) ==> push_outcome(q, f, window_elapsed) == (false, q),
        q.rate_limit == 0 ==> rate_admits(q, window_elapsed) && push_outcome(
            q,
            f,
            window_elapsed,
        ).1.window_count == q.window_count,
{
}

/// When a new one-second window begins, a rate-limited queue treats the
/// offered frame as the first of the window: it fares exactly as if no
/// frame had been admitted yet, only the back-pressure policy can refuse
/// it, and the window then counts one frame.
pub proof fn lemma_new_window_restarts_count(q: SubQueueView, f: FrameView)
    requires
        q.rate_limit > 0,
    ensures
        push_outcome(q, f, true) == push_outcome(SubQueueView { window_count: 0, ..q }, f, false),
        push_outcome(q, f, true).0 == (enqueue(q.frames, q.capacity, q.policy, f) is Some),
        push_outcome(q, f, true).1.window_count == 1,
{
}

/// Within a window that still has room, the limiter admits the frame:
/// only the back-pressure policy can refuse it, and the window counts one
/// frame more; a full window refuses it and leaves the queue as it was.
pub proof fn lemma_window_room_decides(q: SubQueueView, f: FrameView)
    requires
        q.rate_limit > 0,
    ensures
        q.window_count < q.rate_limit ==> push_outcome(q, f, false).0 == (enqueue(
            q.frames,
            q.capacity,
            q.policy,
            f,
        ) is Some) && push_outcome(q, f, false).1.window_count == q.window_count + 1,
        q.window_count >= q.rate_limit ==> push_outcome(q, f, false) == (false, q),
{
}

/// How many subscriptions are open.
pub open spec fn open_count(subs: Seq<SubscriptionView>) -> nat {
    count_set(Seq::new(subs.len(), |i: int| !subs[i].queue.closed))
}

proof fn lemma_count_set_mono(a: Seq<bool>, b: Seq<bool>)
    requires
        a.len() == b.len(),
        forall|i: int| 0 <= i < a.len() && #[trigger] a[i] ==> b[i],
    ensures
        count_set(a) <= count_set(b),
    decreases a.len(),
{
    if a.len() > 0 {
        lemma_count_set_mono(a.drop_last(), b.drop_last());
    }
}

proof fn lemma_counted_within_offered(offered: Seq<bool>, acc: Seq<bool>)
    requires
        offered.len() == acc.len(),
        forall|i: int| 0 <= i < acc.len() && #[trigger] acc[i] ==> offered[i],
    ensures
        count_set(acc) + count_refused(offered, acc) <= count_set(offered),
    decreases acc.len(),
{
    if acc.len() > 0 {
        lemma_counted_within_offered(offered.drop_last(), acc.drop_last());
    }
}

/// Delivery never touches a closed subscription: its queue stays as it
/// was, and only open subscriptions are counted, as delivered or dropped.
pub proof fn lemma_closed_subscriptions_untouched(
    before: Seq<SubscriptionView>,
    after: Seq<SubscriptionView>,
    f: FrameView,
    use_filters: bool,
    delivered: u64,
    dropped: u64,
)
    requires
        delivered_to(before, after, f, use_filters, delivered, dropped),
    ensures
        after.len() == before.len(),
        forall|i: int|
            0 <= i < before.len() && #[trigger] before[i].queue.closed ==> after[i] == before[i],
        delivered + dropped <= open_count(before),
{
    let acc = choose|acc: Seq<bool>|
        {
            &&& acc.len() == before.len()
            &&& after.len() == before.len()
            &&& delivered == count_set(acc)
            &&& dropped == count_refused(
                Seq::new(before.len(), |i: int| eligible(before[i], f, use_filters)),
                acc,
            )
            &&& forall|i: int|
                0 <= i < acc.len() ==> {
                    let o = before[i];
                    let n = #[trigger] after[i];
                    &&& n.id == o.id
                    &&& n.filters == o.filters
                    &&& if eligible(o, f, use_filters) {
                        push_step(o.queue, f, acc[i], n.queue)
                    } else {
                        !acc[i] && n.queue == o.queue
                    }
                }
        };
    let offered = Seq::new(before.len(), |i: int| eligible(before[i], f, use_filters));
    let open = Seq::new(before.len(), |i: int| !before[i].queue.closed);
    assert forall|i: int| 0 <= i < before.len() && #[trigger] before[i].queue.closed implies after[i]
        == before[i] by {
        assert(after[i] == after[i]);
        assert(!eligible(before[i], f, use_filters));
    }
    assert forall|i: int| 0 <= i < acc.len() && #[trigger] acc[i] implies offered[i] by {
        assert(after[i] == after[i]);
        assert(offered[i] == eligible(before[i], f, use_filters));
    }
    lemma_counted_within_offered(offered, acc);
    assert forall|i: int| 0 <= i < offered.len() && #[trigger] offered[i] implies open[i] by {}
    lemma_count_set_mono(offered, open);
}

/// The frames of `fs` that pass `filters`, in order.
pub open spec fn passing_frames(filters: Seq<Filter>, fs: Seq<FrameView>) -> Seq<FrameView> {
    fs.filter(|f: FrameView| filters_pass(filters, f.id))
}

proof fn lemma_delivery_at(
    before: Seq<SubscriptionView>,
    after: Seq<SubscriptionView>,
    f: FrameView,
    use_filters: bool,
    delivered: u64,
    dropped: u64,
    i: int,
)
    requires
        delivered_to(before, after, f, use_filters, delivered, dropped),
        0 <= i < before.len(),
    ensures
        after.len() == before.len(),
        after[i].id == before[i].id,
        after[i].filters == before[i].filters,
        forall|k: int| 0 <= k < before.len() ==> #[trigger] after[k].id == before[k].id,
        eligible(before[i], f, use_filters) ==> exists|a: bool|
            push_step(before[i].queue, f, a, after[i].queue),
        !eligible(before[i], f, use_filters) ==> after[i].queue == before[i].queue,
{
    let acc = choose|acc: Seq<bool>|
        {
            &&& acc.len() == before.len()
            &&& after.len() == before.len()
            &&& delivered == count_set(acc)
            &&& dropped == count_refused(
                Seq::new(before.len(), |i: int| eligible(before[i], f, use_filters)),
                acc,
            )
            &&& forall|i: int|
                0 <= i < acc.len() ==> {
                    let o = before[i];
                    let n = #[trigger] after[i];
                    &&& n.id == o.id
                    &&& n.filters == o.filters
                    &&& if eligible(o, f, use_filters) {
                        push_step(o.queue, f, acc[i], n.queue)
                    } else {
                        !acc[i] && n.queue == o.queue
                    }
                }
        };
    assert(after[i] == after[i]);
    if eligible(before[i], f, use_filters) {
        assert(push_step(before[i].queue, f, acc[i], after[i].queue));
    }
}

/// Position of the last subscription with identifier `id`, or -1.
pub open spec fn index_of_id(subs: Seq<SubscriptionView>, id: u64) -> int
    decreases subs.len(),
{
    if subs.len() == 0 {
        -1
    } else if subs.last().id == id {
        subs.len() - 1
    } else {
        index_of_id(subs.drop_last(), id)
    }
}

proof fn lemma_index_of_id_range(subs: Seq<SubscriptionView>, id: u64)
    ensures
        -1 <= index_of_id(subs, id) < subs.len(),
        index_of_id(subs, id) >= 0 ==> subs[index_of_id(subs, id)].id == id,
    decreases subs.len(),
{
    if subs.len() > 0 {
        lemma_index_of_id_range(subs.drop_last(), id);
    }
}

proof fn lemma_index_of_id_same_ids(a: Seq<SubscriptionView>, b: Seq<SubscriptionView>, id: u64)
    requires
        a.len() == b.len(),
        forall|i: int| 0 <= i < a.len() ==> #[trigger] a[i].id == b[i].id,
    ensures
        index_of_id(a, id) == index_of_id(b, id),
    decreases a.len(),
{
    if a.len() > 0 {
        assert(a.last().id == b.last().id);
        lemma_index_of_id_same_ids(a.drop_last(), b.drop_last(), id);
    }
}

proof fn lemma_index_of_id_retained(subs: Seq<SubscriptionView>, id: u64)
    requires
        index_of_id(subs, id) >= 0,
        retained(subs[index_of_id(subs, id)]),
    ensures
        index_of_id(retained_subs(subs), id) >= 0,
        retained_subs(subs)[index_of_id(retained_subs(subs), id)] == subs[index_of_id(subs, id)],
    decreases subs.len(),
{
    let rest = subs.drop_last();
    if subs.last().id != id {
        lemma_index_of_id_range(rest, id);
        assert(index_of_id(subs, id) == index_of_id(rest, id));
        assert(subs[index_of_id(subs, id)] == rest[index_of_id(rest, id)]);
        lemma_index_of_id_retained(rest, id);
        lemma_index_of_id_range(retained_subs(rest), id);
        if retained(subs.last()) {
            let r = retained_subs(rest);
            assert(r.push(subs.last()).drop_last() =~= r);
        }
    }
}

/// Whether `states` is a run of successful exchanges of the frames `fs`:
/// each one cleans the registry and then delivers its frame with the
/// subscriptions' filters, with the counts `counts`.
pub open spec fn delivery_run(
    states: Seq<Seq<SubscriptionView>>,
    fs: Seq<FrameView>,
    counts: Seq<(u64, u64)>,
) -> bool {
    &&& states.len() == fs.len() + 1
    &&& counts.len() == fs.len()
    &&& forall|t: int|
        0 <= t < fs.len() ==> delivered_to(
            retained_subs(#[trigger] states[t]),
            states[t + 1],
            fs[t],
            true,
            counts[t].0,
            counts[t].1,
        )
}

/// Whether a subscription's queue can take `n` more frames without its
/// policy or its rate limit refusing one.
pub open spec fn has_room_for(q: SubQueueView, n: nat) -> bool {
    &&& !q.closed
    &&& (q.rate_limit == 0 || q.window_count + n <= q.rate_limit)
    &&& (q.policy == BackPressurePolicy::Block || q.frames.len() + n <= q.capacity)
}

proof fn lemma_delivery_run_step(
    states: Seq<Seq<SubscriptionView>>,
    fs: Seq<FrameView>,
    counts: Seq<(u64, u64)>,
    id: u64,
)
    requires
        delivery_run(states, fs, counts),
        index_of_id(states[0], id) >= 0,
        has_room_for(states[0][index_of_id(states[0], id)].queue, fs.len()),
    ensures
        ({
            let s0 = states[0][index_of_id(states[0], id)];
            let last = states[fs.len() as int];
            let sk = last[index_of_id(last, id)];
            &&& index_of_id(last, id) >= 0
            &&& sk.filters == s0.filters
            &&& sk.queue.frames == s0.queue.frames + passing_frames(s0.filters, fs)
            &&& !sk.queue.closed
            &&& sk.queue.capacity == s0.queue.capacity
            &&& sk.queue.policy == s0.queue.policy
            &&& sk.queue.rate_limit == s0.queue.rate_limit
            &&& sk.queue.window_count <= s0.queue.window_count + fs.len()
        }),
    decreases fs.len(),
{
    reveal(Seq::filter);
    lemma_index_of_id_range(states[0], id);
    let s0 = states[0][index_of_id(states[0], id)];
    let p = |f: FrameView| filters_pass(s0.filters, f.id);
    if fs.len() == 0 {
        assert(fs.filter(p) =~= Seq::<FrameView>::empty());
        assert(s0.queue.frames + Seq::<FrameView>::empty() =~= s0.queue.frames);
    } else {
        let k = fs.len() as int;
        let ps = states.drop_last();
        let pf = fs.drop_last();
        let pc = counts.drop_last();
        assert forall|t: int| 0 <= t < pf.len() implies delivered_to(
            retained_subs(#[trigger] ps[t]),
            ps[t + 1],
            pf[t],
            true,
            pc[t].0,
            pc[t].1,
        ) by {
            assert(delivered_to(
                retained_subs(states[t]),
                states[t + 1],
                fs[t],
                true,
                counts[t].0,
                counts[t].1,
            ));
        }
        lemma_delivery_run_step(ps, pf, pc, id);
        assert(ps[k - 1] == states[k - 1]);
        let prev = states[k - 1];
        let cleaned = retained_subs(prev);
        let next = states[k];
        lemma_index_of_id_range(prev, id);
        lemma_index_of_id_retained(prev, id);
        lemma_index_of_id_range(cleaned, id);
        let j = index_of_id(cleaned, id);
        assert(delivered_to(cleaned, next, fs[k - 1], true, counts[k - 1].0, counts[k - 1].1));
        lemma_delivery_at(cleaned, next, fs[k - 1], true, counts[k - 1].0, counts[k - 1].1, j);
        lemma_index_of_id_same_ids(cleaned, next, id);
        let o = cleaned[j];
        let n = next[j];
        let f = fs[k - 1];
        assert(fs.last() == f);
        assert(fs.filter(p) == if p(f) {
            pf.filter(p).push(f)
        } else {
            pf.filter(p)
        });
        pf.lemma_filter_len(p);
        if filters_pass(s0.filters, f.id) {
            let a = choose|a: bool| push_step(o.queue, f, a, n.queue);
            assert(n.queue.frames == o.queue.frames.push(f));
            assert(s0.queue.frames + pf.filter(p).push(f) =~= (s0.queue.frames + pf.filter(
                p,
            )).push(f));
        }
    }
}

/// Filtered delivery keeps order: over a run of successful exchanges, a
/// subscription whose queue has room for every frame ends up holding,
/// after what it held, exactly the exchanged frames that pass its
/// filters, in the order they were exchanged.
pub proof fn lemma_filtered_delivery_in_order(
    states: Seq<Seq<SubscriptionView>>,
    fs: Seq<FrameView>,
    counts: Seq<(u64, u64)>,
    id: u64,
)
    requires
        delivery_run(states, fs, counts),
        index_of_id(states[0], id) >= 0,
        has_room_for(states[0][index_of_id(states[0], id)].queue, fs.len()),
    ensures
        index_of_id(states.last(), id) >= 0,
        states.last()[index_of_id(states.last(), id)].queue.frames == states[0][index_of_id(
            states[0],
            id,
        )].queue.frames + passing_frames(states[0][index_of_id(states[0], id)].filters, fs),
{
    lemma_delivery_run_step(states, fs, counts, id);
}

} // verus!
