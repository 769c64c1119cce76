//! LIN master node: the schedule table it drives and the order in which it
//! visits the slots. The exchange itself is the bus's; the node checks the
//! schedule, keeps its own copy, and steps through it cyclically.

use vstd::prelude::*;

use crate::error::Error;
use crate::frame::{ScheduleEntry, LIN_MAX_ID};
use crate::virtual_bus::{check_schedule_ids, first_bad_entry, schedule_id_reason};

verus! {

/// A LIN master node over bus `B`, with the schedule table it executes.
pub struct MasterNode<B> {
    bus: std::sync::Arc<B>,
    schedule: Vec<ScheduleEntry>,
}

impl<B> MasterNode<B> {
    /// The installed schedule table.
    pub closed spec fn schedule_view(&self) -> Seq<ScheduleEntry> {
        self.schedule@
    }

    /// The bus the node was created with.
    pub closed spec fn bus_view(&self) -> std::sync::Arc<B> {
        self.bus
    }

    /// Create a master node backed by `bus`, with an empty schedule.
    pub fn new(bus: std::sync::Arc<B>) -> (r: Self)
        ensures
            r.schedule_view() == Seq::<ScheduleEntry>::empty(),
            r.bus_view() == bus,
    {
        MasterNode { bus, schedule: Vec::new() }
    }

    /// The bus the node drives.
    pub fn bus(&self) -> (r: &std::sync::Arc<B>)
        ensures
            *r == self.bus_view(),
    {
        &self.bus
    }

    /// Checks a schedule table before it is installed: it must not be
    /// empty, and every ID must be at most 0x3F.
    pub fn check_schedule(entries: &Vec<ScheduleEntry>) -> (r: Result<(), Error>)
        ensures
            entries@.len() == 0 ==> (r matches Err(Error::Other(m)) && m@
                == "schedule must not be empty"@),
            entries@.len() > 0 && (exists|i: int|
                0 <= i < entries@.len() && entries@[i].id > LIN_MAX_ID) ==> (r matches Err(
                Error::InvalidFrame { reason },
            ) && reason@ == schedule_id_reason(entries@[first_bad_entry(entries@)].id)),
            entries@.len() > 0 && (forall|i: int|
                0 <= i < entries@.len() ==> entries@[i].id <= LIN_MAX_ID) ==> r is Ok,
    {
        if entries.len() == 0 {
            return Err(Error::Other("schedule must not be empty".to_owned()));
        }
        check_schedule_ids(entries)
    }

    /// Keep a schedule the bus has accepted as the node's own.
    pub fn install_schedule(&mut self, entries: Vec<ScheduleEntry>)
        ensures
            final(self).schedule_view() == entries@,
            final(self).bus_view() == old(self).bus_view(),
    {
        self.schedule = entries;
    }

    /// The installed schedule table.
    pub fn schedule(&self) -> (r: &Vec<ScheduleEntry>)
        ensures
            r@ == self.schedule_view(),
    {
        &self.schedule
    }

    /// Checks that there is a schedule to run.
    pub fn check_runnable(&self) -> (r: Result<(), Error>)
        ensures
            self.schedule_view().len() == 0 ==> (r matches Err(Error::Other(m)) && m@
                == "master node: schedule is empty"@),
            self.schedule_view().len() > 0 ==> r is Ok,
    {
        if self.schedule.len() == 0 {
            return Err(Error::Other("master node: schedule is empty".to_owned()));
        }
        Ok(())
    }

    /// The entry of slot `i`.
    pub fn slot(&self, i: usize) -> (r: ScheduleEntry)
        requires
            i < self.schedule_view().len(),
        ensures
            r == self.schedule_view()[i as int],
    {
        self.schedule[i]
    }

    /// The slot that follows slot `i`: the next one, wrapping to the first.
    pub fn next_slot(&self, i: usize) -> (r: usize)
        requires
            i < self.schedule_view().len(),
        ensures
            r == (i + 1) % (self.schedule_view().len() as int),
            r < self.schedule_view().len(),
    {
        let n = self.schedule.len();
        if i + 1 == n {
            proof {
                vstd::arithmetic::div_mod::lemma_mod_self_0(n as int);
            }
            0
        } else {
            proof {
                vstd::arithmetic::div_mod::lemma_small_mod((i + 1) as nat, n as nat);
            }
            i + 1
        }
    }
}

/// The slot visited at step `k` when stepping through `n` slots from slot
/// 0 with `next_slot`.
pub open spec fn slot_at_step(n: int, k: nat) -> int
    decreases k,
{
    if k == 0 {
        0
    } else {
        (slot_at_step(n, (k - 1) as nat) + 1) % n
    }
}

/// Stepping through a schedule of `n` slots visits slot `k % n` at step
/// `k`: every slot in order, over and over.
pub proof fn lemma_schedule_cycles(n: int, k: nat)
    requires
        n > 0,
    ensures
        slot_at_step(n, k) == (k as int) % n,
    decreases k,
{
    if k > 0 {
        lemma_schedule_cycles(n, (k - 1) as nat);
        let p = (k - 1) as int;
        vstd::arithmetic::div_mod::lemma_add_mod_noop_right(1, p, n);
        assert(slot_at_step(n, k) == (slot_at_step(n, (k - 1) as nat) + 1) % n);
        assert(slot_at_step(n, (k - 1) as nat) == p % n);
        assert((p % n + 1) % n == (1 + p % n) % n);
        assert((1 + p) % n == (k as int) % n);
    } else {
        vstd::arithmetic::div_mod::lemma_small_mod(0, n as nat);
    }
}

} // verus!
