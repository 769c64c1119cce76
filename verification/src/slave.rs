//! LIN slave node: which frame IDs currently have a registered response.

use vstd::prelude::*;

use crate::error::Error;
use crate::frame::LIN_MAX_ID;
use crate::text::{hex2, push_hex2};

verus! {

/// The frame IDs with a registered response.
pub struct SlaveRegistry {
    registered: Vec<bool>,
}

/// The reason a slave node gives for an ID above 0x3F.
pub open spec fn slave_id_reason(id: u8) -> Seq<char> {
    "frame ID 0x"@ + hex2(id) + " exceeds LIN_MAX_ID 0x"@ + hex2(LIN_MAX_ID)
}

impl View for SlaveRegistry {
    type V = Set<u8>;

    closed spec fn view(&self) -> Set<u8> {
        Set::new(|id: u8| (id as int) < self.registered@.len() && self.registered@[id as int])
    }
}

impl SlaveRegistry {
    /// Whether the table has a flag for each valid ID.
    pub closed spec fn wf(&self) -> bool {
        self.registered@.len() == 64
    }

    /// No ID registered.
    pub fn new() -> (r: SlaveRegistry)
        ensures
            r.wf(),
            r@ == Set::<u8>::empty(),
    {
        let mut registered: Vec<bool> = Vec::new();
        let mut i: usize = 0;
        while i < 64
            invariant
                i <= 64,
                registered@.len() == i,
                forall|k: int| 0 <= k < i ==> !registered@[k],
            decreases 64 - i,
        {
            registered.push(false);
            i = i + 1;
        }
        let r = SlaveRegistry { registered };
        proof {
            assert(r@ =~= Set::<u8>::empty());
        }
        r
    }

    /// Checks that `id` may carry a response: at most 0x3F.
    pub fn check_id(id: u8) -> (r: Result<(), Error>)
        ensures
            id <= LIN_MAX_ID ==> r is Ok,
            id > LIN_MAX_ID ==> (r matches Err(Error::InvalidFrame { reason }) && reason@
                == slave_id_reason(id)),
    {
        if id > LIN_MAX_ID {
            let mut m = "frame ID 0x".to_owned();
            push_hex2(&mut m, id);
            m.append(" exceeds LIN_MAX_ID 0x");
            push_hex2(&mut m, LIN_MAX_ID);
            return Err(Error::invalid_frame(m));
        }
        Ok(())
    }

    /// Record that `id` now has (`present`) or no longer has a response.
    pub fn record(&mut self, id: u8, present: bool)
        requires
            old(self).wf(),
            id <= LIN_MAX_ID,
        ensures
            final(self).wf(),
            present ==> final(self)@ == old(self)@.insert(id),
            !present ==> final(self)@ == old(self)@.remove(id),
    {
        self.registered.set(id as usize, present);
        proof {
            if present {
                assert(final(self)@ =~= old(self)@.insert(id));
            } else {
                assert(final(self)@ =~= old(self)@.remove(id));
            }
        }
    }

    /// The registered IDs in increasing order.
    pub fn registered_ids(&self) -> (r: Vec<u8>)
        requires
            self.wf(),
        ensures
            forall|i: int, j: int| 0 <= i < j < r@.len() ==> r@[i] < r@[j],
            forall|id: u8| self@.contains(id) <==> r@.contains(id),
    {
        let mut out: Vec<u8> = Vec::new();
        let mut i: usize = 0;
        while i < 64
            invariant
                i <= 64,
                self.wf(),
                forall|a: int, b: int| 0 <= a < b < out@.len() ==> out@[a] < out@[b],
                forall|a: int| 0 <= a < out@.len() ==> out@[a] < i,
                forall|id: u8| (id as int) < i ==> (self@.contains(id) <==> out@.contains(id)),
            decreases 64 - i,
        {
            let ghost before = out@;
            if self.registered[i] {
                out.push(i as u8);
            }
            proof {
                assert forall|id: u8| (id as int) < i + 1 implies (self@.contains(id)
                    <==> out@.contains(id)) by {
                    if (id as int) < i {
                        if before.contains(id) {
                            let k = choose|k: int| 0 <= k < before.len() && before[k] == id;
                            assert(out@[k] == id);
                        }
                        if out@.contains(id) {
                            let k = choose|k: int| 0 <= k < out@.len() && out@[k] == id;
                            if k < before.len() {
                                assert(before[k] == id);
                            }
                        }
                    } else {
                        if self.registered@[i as int] {
                            assert(out@[out@.len() - 1] == id);
                        } else {
                            if out@.contains(id) {
                                let k = choose|k: int| 0 <= k < out@.len() && out@[k] == id;
                                assert(before[k] == id);
                            }
                        }
                    }
                }
            }
            i = i + 1;
        }
        proof {
            assert forall|id: u8| self@.contains(id) <==> out@.contains(id) by {
                if (id as int) >= 64 {
                    if out@.contains(id) {
                        let k = choose|k: int| 0 <= k < out@.len() && out@[k] == id;
                    }
                }
            }
        }
        out
    }
}

} // verus!
