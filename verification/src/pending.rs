//! The table of pending requests: the ids for which the client still expects a
//! response. A response goes out only for an id in the table, and takes the id
//! out of it.

use crate::fx_set::{set_contains, set_insert, set_remove};
use rustc_hash::FxHashSet;
use vstd::prelude::*;

verus! {

/// The ids of the requests that were accepted and not answered yet.
pub struct PendingRequests {
    ids: FxHashSet<u64>,
}

impl View for PendingRequests {
    type V = Set<u64>;

    closed spec fn view(&self) -> Set<u64> {
        self.ids@
    }
}

impl PendingRequests {
    /// The empty table.
    pub fn new() -> (pending: PendingRequests)
        ensures
            pending@ == Set::<u64>::empty(),
    {
        PendingRequests { ids: FxHashSet::default() }
    }

    /// Whether a response is still expected for the id.
    pub fn contains(&self, id: u64) -> (res: bool)
        ensures
            res == self@.contains(id),
    {
        broadcast use vstd::std_specs::hash::group_hash_axioms;

        set_contains(&self.ids, &id)
    }

    /// Enters the id of a request that was accepted. The id must be new.
    pub fn insert(&mut self, id: u64)
        requires
            !old(self)@.contains(id),
        ensures
            final(self)@ == old(self)@.insert(id),
    {
        broadcast use vstd::std_specs::hash::group_hash_axioms;

        set_insert(&mut self.ids, id);
    }

    /// Takes the id out, and tells whether it was in the table: only then may a
    /// response for it go out.
    pub fn remove(&mut self, id: u64) -> (present: bool)
        ensures
            final(self)@ == old(self)@.remove(id),
            present == old(self)@.contains(id),
    {
        broadcast use vstd::std_specs::hash::group_hash_axioms;

        set_remove(&mut self.ids, &id)
    }
}

/// What can happen to the table.
pub enum PendingOp {
    /// A request with this id was accepted.
    Accept(u64),
    /// The client canceled the request with this id.
    Cancel(u64),
    /// A task handed in the response for the request with this id.
    Respond(u64),
}

/// The table, and the ids for which a response went out, oldest first.
pub struct PendingTrace {
    pub pending: Set<u64>,
    pub sent: Seq<u64>,
}

/// What one event does: an accepted id enters the table; a cancellation or a
/// task's response for an id in the table takes the id out and sends one
/// response; for an id not in the table neither does anything.
pub open spec fn pending_step(t: PendingTrace, op: PendingOp) -> PendingTrace {
    match op {
        PendingOp::Accept(id) => PendingTrace { pending: t.pending.insert(id), sent: t.sent },
        PendingOp::Cancel(id) | PendingOp::Respond(id) => if t.pending.contains(id) {
            PendingTrace { pending: t.pending.remove(id), sent: t.sent.push(id) }
        } else {
            t
        },
    }
}

/// The table and the responses sent after a run of events, from the empty table.
pub open spec fn pending_run(ops: Seq<PendingOp>) -> PendingTrace
    decreases ops.len(),
{
    if ops.len() == 0 {
        PendingTrace { pending: Set::empty(), sent: Seq::empty() }
    } else {
        pending_step(pending_run(ops.drop_last()), ops.last())
    }
}

/// How often a request with this id was accepted.
pub open spec fn times_accepted(ops: Seq<PendingOp>, id: u64) -> nat
    decreases ops.len(),
{
    if ops.len() == 0 {
        0
    } else {
        times_accepted(ops.drop_last(), id) + if ops.last() == PendingOp::Accept(id) {
            1nat
        } else {
            0nat
        }
    }
}

/// How many responses went out for this id.
pub open spec fn times_sent(sent: Seq<u64>, id: u64) -> nat
    decreases sent.len(),
{
    if sent.len() == 0 {
        0
    } else {
        times_sent(sent.drop_last(), id) + if sent.last() == id {
            1nat
        } else {
            0nat
        }
    }
}

/// Where request ids are unique, no id ever gets two responses, and an accepted
/// id is either still in the table or has got its one response: none is lost,
/// none answered twice. An id that was never accepted gets no response.
pub proof fn lemma_at_most_one_response(ops: Seq<PendingOp>, id: u64)
    requires
        times_accepted(ops, id) <= 1,
    ensures
        times_sent(pending_run(ops).sent, id) <= 1,
        times_accepted(ops, id) == 0 ==> times_sent(pending_run(ops).sent, id) == 0
            && !pending_run(ops).pending.contains(id),
        times_accepted(ops, id) == 1 ==> (pending_run(ops).pending.contains(id) <==> times_sent(
            pending_run(ops).sent,
            id,
        ) == 0),
    decreases ops.len(),
{
    if ops.len() > 0 {
        lemma_at_most_one_response(ops.drop_last(), id);
        let before = pending_run(ops.drop_last());
        let after = pending_run(ops);
        match ops.last() {
            PendingOp::Accept(other) => {},
            PendingOp::Cancel(other) | PendingOp::Respond(other) => {
                if before.pending.contains(other) {
                    assert(after.sent.drop_last() =~= before.sent);
                }
            },
        }
    }
}

} // verus!
