//! The relay's decision core: which root update may go to which spoke,
//! and when.  The surrounding process polls the hub, builds proofs and
//! performs the actual submissions; every decision — queueing, ordering,
//! retry, escalation — is taken here, as a pure state transition.

use vstd::prelude::*;
use crate::hashing::{Digest, digest_eq};
use crate::pallet::Event;
use crate::arith::{p2, lemma_p2_increases};

verus! {

/// Retries before a transient failure is escalated to a fault.
pub const MAX_ATTEMPTS: u32 = 8;

/// First retry delay, in milliseconds.
pub const BACKOFF_BASE_MS: u64 = 250;

/// How a submission to a spoke ended.
#[derive(Clone, Copy, PartialEq, Eq, Debug)]
pub enum Outcome {
    /// The spoke acknowledged the update.
    Ack,
    /// A timeout-class failure: worth retrying with backoff.
    Transient,
    /// The spoke rejected the update or it was malformed: never retried,
    /// surfaced as a fault instead of being skipped.
    Permanent,
}

/// One root update waiting to go to one spoke, in production order.
#[derive(Clone, Copy, PartialEq, Eq, Debug)]
pub struct RelayItem {
    /// The root the hub produced.
    pub root: Digest,
    /// Whether its transition proof has been built.
    pub ready: bool,
}

/// Delivery state towards one spoke.  `pending` keeps hub production
/// order; only its head is ever dispatched.
pub struct SpokeQueue {
    pub pending: Vec<RelayItem>,
    /// An update is with the transport and its outcome is unknown; no
    /// second dispatch may race it.
    pub in_flight: bool,
    /// Transient failures of the head update so far.
    pub attempts: u32,
    /// A permanent failure or exhausted retries: the head stays visible
    /// and nothing more is sent until an operator intervenes.
    pub faulted: bool,
    /// Updates this spoke has acknowledged.
    pub acked: u64,
}

/// The relay: a cursor over observed hub events and one queue per spoke.
pub struct Relay {
    pub spokes: Vec<SpokeQueue>,
    /// How many hub events have been observed (and so survive a restart).
    pub cursor: u64,
}

/// The root an event commits, if it commits one.
pub open spec fn event_root(ev: Event) -> Option<Digest> {
    match ev {
        Event::IdentityIssued { did: _, index: _, root } => Option::Some(root),
        _ => Option::None,
    }
}

/// The only update that may be sent to `spoke` now: the head of its
/// queue, and only if its proof is ready, nothing is in flight, and the
/// spoke is not faulted.
pub open spec fn next_submission(r: Relay, spoke: int) -> Option<Digest> {
    let q = r.spokes@[spoke];
    if q.pending@.len() > 0 && !q.in_flight && !q.faulted && q.pending@[0].ready {
        Option::Some(q.pending@[0].root)
    } else {
        Option::None
    }
}

/// Per-spoke ordering: whatever order proofs become ready in, an update
/// queued behind another can never be the one dispatched — only the
/// head, in hub production order, is ever offered; and while the head's
/// proof is missing, nothing is.
pub proof fn lemma_no_overtaking(r: Relay, spoke: int, j: int)
    requires
        0 <= spoke < r.spokes@.len(),
        0 < j < r.spokes@[spoke].pending@.len(),
    ensures
        next_submission(r, spoke) matches Some(rt) ==> rt == r.spokes@[spoke].pending@[0].root,
        !r.spokes@[spoke].pending@[0].ready ==> next_submission(r, spoke) is None,
{
}

impl Relay {
    /// A fresh relay for `n_spokes` destinations: nothing observed,
    /// nothing queued.
    pub fn new(n_spokes: usize) -> (r: Relay)
        ensures
            r.spokes@.len() == n_spokes,
            r.cursor == 0,
            forall|k: int| 0 <= k < n_spokes ==> {
                &&& (#[trigger] r.spokes@[k]).pending@.len() == 0
                &&& !r.spokes@[k].in_flight
                &&& r.spokes@[k].attempts == 0
                &&& !r.spokes@[k].faulted
                &&& r.spokes@[k].acked == 0
            },
    {
        let mut spokes: Vec<SpokeQueue> = Vec::new();
        let mut i: usize = 0;
        while i < n_spokes
            invariant
                i <= n_spokes,
                spokes@.len() == i,
                forall|k: int| 0 <= k < i ==> {
                    &&& (#[trigger] spokes@[k]).pending@.len() == 0
                    &&& !spokes@[k].in_flight
                    &&& spokes@[k].attempts == 0
                    &&& !spokes@[k].faulted
                    &&& spokes@[k].acked == 0
                },
            decreases n_spokes - i,
        {
            spokes.push(SpokeQueue { pending: Vec::new(), in_flight: false, attempts: 0, faulted: false, acked: 0 });
            i += 1;
        }
        Relay { spokes, cursor: 0 }
    }

    /// Observes the next hub event: a root-committing event is queued,
    /// unproven, at the tail of every spoke's queue; any other event
    /// only moves the cursor.
    pub fn observe(&mut self, ev: &Event)
        requires
            old(self).cursor < u64::MAX,
        ensures
            final(self).cursor == old(self).cursor + 1,
            final(self).spokes@.len() == old(self).spokes@.len(),
            event_root(*ev) matches Some(rt) ==> forall|k: int| 0 <= k < old(self).spokes@.len() ==> {
                &&& (#[trigger] final(self).spokes@[k]).pending@ == old(self).spokes@[k].pending@.push(
                    RelayItem { root: rt, ready: false })
                &&& final(self).spokes@[k].in_flight == old(self).spokes@[k].in_flight
                &&& final(self).spokes@[k].attempts == old(self).spokes@[k].attempts
                &&& final(self).spokes@[k].faulted == old(self).spokes@[k].faulted
                &&& final(self).spokes@[k].acked == old(self).spokes@[k].acked
            },
            event_root(*ev) is None ==> final(self).spokes == old(self).spokes,
    {
        match ev {
            Event::IdentityIssued { did: _, index: _, root } => {
                let rt = *root;
                let item = RelayItem { root: rt, ready: false };
                let n = self.spokes.len();
                let mut k: usize = 0;
                while k < n
                    invariant
                        k <= n,
                        n == old(self).spokes@.len(),
                        self.spokes@.len() == n,
                        self.cursor == old(self).cursor,
                        item == (RelayItem { root: rt, ready: false }),
                        event_root(*ev) == Option::Some(rt),
                        forall|j: int| 0 <= j < k ==> {
                            &&& (#[trigger] self.spokes@[j]).pending@ == old(self).spokes@[j].pending@.push(
                                RelayItem { root: rt, ready: false })
                            &&& self.spokes@[j].in_flight == old(self).spokes@[j].in_flight
                            &&& self.spokes@[j].attempts == old(self).spokes@[j].attempts
                            &&& self.spokes@[j].faulted == old(self).spokes@[j].faulted
                            &&& self.spokes@[j].acked == old(self).spokes@[j].acked
                        },
                        forall|j: int| k <= j < n ==> #[trigger] self.spokes@[j] == old(self).spokes@[j],
                    decreases n - k,
                {
                    self.spokes[k].pending.push(item);
                    k += 1;
                }
            },
            _ => {},
        }
        self.cursor = self.cursor + 1;
    }

    /// Marks every queued update for `root` at one spoke as proven.
    pub fn proof_ready(&mut self, spoke: usize, root: &Digest)
        requires
            spoke < old(self).spokes@.len(),
        ensures
            final(self).cursor == old(self).cursor,
            final(self).spokes@.len() == old(self).spokes@.len(),
            forall|k: int| 0 <= k < old(self).spokes@.len() && k != spoke ==> #[trigger] final(self).spokes@[k]
                == old(self).spokes@[k],
            final(self).spokes@[spoke as int].in_flight == old(self).spokes@[spoke as int].in_flight,
            final(self).spokes@[spoke as int].attempts == old(self).spokes@[spoke as int].attempts,
            final(self).spokes@[spoke as int].faulted == old(self).spokes@[spoke as int].faulted,
            final(self).spokes@[spoke as int].acked == old(self).spokes@[spoke as int].acked,
            final(self).spokes@[spoke as int].pending@.len() == old(self).spokes@[spoke as int].pending@.len(),
            forall|j: int| 0 <= j < old(self).spokes@[spoke as int].pending@.len() ==> {
                &&& (#[trigger] final(self).spokes@[spoke as int].pending@[j]).root
                    == old(self).spokes@[spoke as int].pending@[j].root
                &&& final(self).spokes@[spoke as int].pending@[j].ready
                    == (old(self).spokes@[spoke as int].pending@[j].ready
                        || old(self).spokes@[spoke as int].pending@[j].root@ == root@)
            },
    {
        let n = self.spokes[spoke].pending.len();
        let mut j: usize = 0;
        while j < n
            invariant
                j <= n,
                spoke < old(self).spokes@.len(),
                self.spokes@.len() == old(self).spokes@.len(),
                self.cursor == old(self).cursor,
                n == old(self).spokes@[spoke as int].pending@.len(),
                self.spokes@[spoke as int].pending@.len() == n,
                self.spokes@[spoke as int].in_flight == old(self).spokes@[spoke as int].in_flight,
                self.spokes@[spoke as int].attempts == old(self).spokes@[spoke as int].attempts,
                self.spokes@[spoke as int].faulted == old(self).spokes@[spoke as int].faulted,
                self.spokes@[spoke as int].acked == old(self).spokes@[spoke as int].acked,
                forall|k: int| 0 <= k < old(self).spokes@.len() && k != spoke ==> #[trigger] self.spokes@[k]
                    == old(self).spokes@[k],
                forall|i: int| 0 <= i < j ==> {
                    &&& (#[trigger] self.spokes@[spoke as int].pending@[i]).root
                        == old(self).spokes@[spoke as int].pending@[i].root
                    &&& self.spokes@[spoke as int].pending@[i].ready
                        == (old(self).spokes@[spoke as int].pending@[i].ready
                            || old(self).spokes@[spoke as int].pending@[i].root@ == root@)
                },
                forall|i: int| j <= i < n ==> #[trigger] self.spokes@[spoke as int].pending@[i]
                    == old(self).spokes@[spoke as int].pending@[i],
            decreases n - j,
        {
            let it = self.spokes[spoke].pending[j];
            if digest_eq(&it.root, root) {
                self.spokes[spoke].pending[j] = RelayItem { root: it.root, ready: true };
            } else {
                self.spokes[spoke].pending[j] = RelayItem { root: it.root, ready: it.ready };
            }
            j += 1;
        }
    }

    /// What may be sent to `spoke` now, if anything: exactly the head of
    /// its queue under the dispatch conditions.
    pub fn next_action(&self, spoke: usize) -> (r: Option<Digest>)
        requires
            spoke < self.spokes@.len(),
        ensures
            r == next_submission(*self, spoke as int),
    {
        let q_len = self.spokes[spoke].pending.len();
        if q_len > 0 && !self.spokes[spoke].in_flight && !self.spokes[spoke].faulted
            && self.spokes[spoke].pending[0].ready {
            Some(self.spokes[spoke].pending[0].root)
        } else {
            None
        }
    }

    /// Records that the offered head update was handed to the transport:
    /// from now until its outcome arrives nothing else is dispatched to
    /// this spoke.
    pub fn dispatched(&mut self, spoke: usize)
        requires
            spoke < old(self).spokes@.len(),
            next_submission(*old(self), spoke as int) is Some,
        ensures
            final(self).cursor == old(self).cursor,
            final(self).spokes@.len() == old(self).spokes@.len(),
            forall|k: int| 0 <= k < old(self).spokes@.len() && k != spoke ==> #[trigger] final(self).spokes@[k]
                == old(self).spokes@[k],
            final(self).spokes@[spoke as int].in_flight,
            final(self).spokes@[spoke as int].pending == old(self).spokes@[spoke as int].pending,
            final(self).spokes@[spoke as int].attempts == old(self).spokes@[spoke as int].attempts,
            final(self).spokes@[spoke as int].faulted == old(self).spokes@[spoke as int].faulted,
            final(self).spokes@[spoke as int].acked == old(self).spokes@[spoke as int].acked,
    {
        self.spokes[spoke].in_flight = true;
    }

    /// Feeds back the transport's outcome for the in-flight head update.
    /// An acknowledgement retires the head; a transient failure backs
    /// off and, after `MAX_ATTEMPTS`, escalates to a fault; a permanent
    /// failure faults at once.  A faulted head is never skipped.
    pub fn submission_result(&mut self, spoke: usize, outcome: Outcome)
        requires
            spoke < old(self).spokes@.len(),
            old(self).spokes@[spoke as int].in_flight,
            old(self).spokes@[spoke as int].pending@.len() > 0,
            old(self).spokes@[spoke as int].acked < u64::MAX,
        ensures
            final(self).cursor == old(self).cursor,
            final(self).spokes@.len() == old(self).spokes@.len(),
            forall|k: int| 0 <= k < old(self).spokes@.len() && k != spoke ==> #[trigger] final(self).spokes@[k]
                == old(self).spokes@[k],
            !final(self).spokes@[spoke as int].in_flight,
            outcome == Outcome::Ack ==> {
                &&& final(self).spokes@[spoke as int].pending@ == old(self).spokes@[spoke as int].pending@.drop_first()
                &&& final(self).spokes@[spoke as int].attempts == 0
                &&& final(self).spokes@[spoke as int].faulted == old(self).spokes@[spoke as int].faulted
                &&& final(self).spokes@[spoke as int].acked == old(self).spokes@[spoke as int].acked + 1
            },
            outcome == Outcome::Transient ==> {
                &&& final(self).spokes@[spoke as int].pending == old(self).spokes@[spoke as int].pending
                &&& final(self).spokes@[spoke as int].acked == old(self).spokes@[spoke as int].acked
                &&& (old(self).spokes@[spoke as int].attempts + 1 < MAX_ATTEMPTS ==> {
                    &&& final(self).spokes@[spoke as int].attempts == old(self).spokes@[spoke as int].attempts + 1
                    &&& final(self).spokes@[spoke as int].faulted == old(self).spokes@[spoke as int].faulted
                })
                &&& (old(self).spokes@[spoke as int].attempts + 1 >= MAX_ATTEMPTS ==> final(self).spokes@[spoke as int].faulted)
            },
            outcome == Outcome::Permanent ==> {
                &&& final(self).spokes@[spoke as int].pending == old(self).spokes@[spoke as int].pending
                &&& final(self).spokes@[spoke as int].acked == old(self).spokes@[spoke as int].acked
                &&& final(self).spokes@[spoke as int].faulted
            },
    {
        self.spokes[spoke].in_flight = false;
        match outcome {
            Outcome::Ack => {
                let ghost pre = self.spokes@[spoke as int].pending@;
                self.spokes[spoke].pending.remove(0);
                self.spokes[spoke].attempts = 0;
                let acked = self.spokes[spoke].acked;
                self.spokes[spoke].acked = acked + 1;
                proof {
                    assert(pre.remove(0) =~= pre.drop_first());
                }
            },
            Outcome::Transient => {
                let a = self.spokes[spoke].attempts;
                if a >= MAX_ATTEMPTS - 1 {
                    self.spokes[spoke].faulted = true;
                } else {
                    self.spokes[spoke].attempts = a + 1;
                }
            },
            Outcome::Permanent => {
                self.spokes[spoke].faulted = true;
            },
        }
    }

    /// The bounded exponential backoff before the next retry: the base
    /// delay doubled per attempt, capped at six doublings.
    pub fn backoff_delay(&self, spoke: usize) -> (d: u64)
        requires
            spoke < self.spokes@.len(),
        ensures
            d as nat == BACKOFF_BASE_MS * p2(
                if self.spokes@[spoke as int].attempts > 6 { 6nat } else { self.spokes@[spoke as int].attempts as nat }),
    {
        let a = self.spokes[spoke].attempts;
        let e: u32 = if a > 6 { 6 } else { a };
        let mut d: u64 = BACKOFF_BASE_MS;
        let mut i: u32 = 0;
        proof {
            assert(p2(0nat) == 1);
        }
        while i < e
            invariant
                i <= e <= 6,
                d as nat == BACKOFF_BASE_MS * p2(i as nat),
                d <= 16000,
            decreases e - i,
        {
            proof {
                assert(p2(6nat) == 64) by {
                    reveal_with_fuel(p2, 8);
                };
                if i as nat + 1 < 6 {
                    lemma_p2_increases((i + 1) as nat, 6nat);
                }
                assert(p2((i + 1) as nat) <= 64);
            }
            d = d * 2;
            i += 1;
        }
        d
    }
}

} // verus!
