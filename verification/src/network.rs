//! Message queues and the relay orchestrator.
//!
//! Two queue kinds serve the ordered chain pairs: downward queues carry
//! messages the coordinator sends to a satellite, sibling queues carry
//! messages a satellite sends to any peer. Each queue is strict FIFO: no
//! reordering, no priority. The orchestrator drains every queue in a fixed
//! round-robin pass; messages enqueued during a pass become visible only to
//! later passes; it repeats passes until one delivers nothing (the fixpoint).

use vstd::prelude::*;

use crate::chain::ChainInstance;
use crate::chain::op_depth;
use crate::chain::spec_emission;
use crate::chain::Effects;
use crate::chain::Operation;
use crate::convert::CurrencyIdConvert;
use crate::location::Location;
use crate::AccountId;
use crate::Balance;
use crate::CurrencyId;

verus! {

/// Which chain relationship a queue serves.
#[derive(Clone, Copy, PartialEq, Eq, Structural, Debug)]
pub enum QueueKind {
    /// Coordinator down to a satellite.
    Downward,
    /// Satellite to a peer (a sibling satellite or the coordinator).
    Sibling,
}

/// One cross-chain message, alive between enqueue and settlement.
#[derive(Clone, Copy, PartialEq, Eq, Structural, Debug)]
pub struct Message {
    /// Chain that enqueued the message.
    pub origin: u32,
    /// Chain that will execute it.
    pub dest: u32,
    /// Position in the queue's monotonically increasing numbering.
    pub seq: u64,
    /// What the destination chain will execute.
    pub op: Operation,
    /// Kind of the queue that carries the message.
    pub kind: QueueKind,
}

/// Strict FIFO queue for one ordered chain pair.
pub struct Queue {
    origin: u32,
    dest: u32,
    kind: QueueKind,
    next_seq: u64,
    pending: Vec<Message>,
}

impl Queue {
    /// Chain that enqueues onto this queue.
    pub closed spec fn spec_origin(self) -> u32 {
        self.origin
    }

    /// Chain this queue delivers to.
    pub closed spec fn spec_dest(self) -> u32 {
        self.dest
    }

    /// Relationship this queue serves.
    pub closed spec fn spec_kind(self) -> QueueKind {
        self.kind
    }

    /// Sequence number the next enqueued message will carry.
    pub closed spec fn spec_next_seq(self) -> u64 {
        self.next_seq
    }

    /// Messages waiting for delivery, oldest first.
    pub closed spec fn spec_pending(self) -> Seq<Message> {
        self.pending@
    }

    /// Every pending message belongs to this queue and the sequence numbers
    /// increase strictly from front to back, all below the next one.
    pub open spec fn wf(self) -> bool {
        &&& (forall|i: int|
            0 <= i < self.spec_pending().len() ==> ((#[trigger] self.spec_pending()[i]).origin
                == self.spec_origin() && self.spec_pending()[i].dest == self.spec_dest()
                && self.spec_pending()[i].kind == self.spec_kind() && self.spec_pending()[i].seq
                < self.spec_next_seq()))
        &&& (forall|i: int, j: int|
            0 <= i < j < self.spec_pending().len() ==> (#[trigger] self.spec_pending()[i]).seq < (
            #[trigger] self.spec_pending()[j]).seq)
    }

    /// A fresh, empty queue numbering from zero.
    pub fn new(origin: u32, dest: u32, kind: QueueKind) -> (r: Queue)
        ensures
            r.wf(),
            r.spec_origin() == origin,
            r.spec_dest() == dest,
            r.spec_kind() == kind,
            r.spec_next_seq() == 0,
            r.spec_pending() =~= Seq::<Message>::empty(),
    {
        Queue { origin, dest, kind, next_seq: 0, pending: Vec::new() }
    }

    /// Sequence number the next enqueued message will carry.
    pub fn next_seq(&self) -> (r: u64)
        ensures
            r == self.spec_next_seq(),
    {
        self.next_seq
    }

    /// Chain that enqueues onto this queue.
    pub fn origin(&self) -> (r: u32)
        ensures
            r == self.spec_origin(),
    {
        self.origin
    }

    /// Chain this queue delivers to.
    pub fn dest(&self) -> (r: u32)
        ensures
            r == self.spec_dest(),
    {
        self.dest
    }

    /// Number of messages waiting.
    pub fn len(&self) -> (r: usize)
        ensures
            r == self.spec_pending().len(),
    {
        self.pending.len()
    }

    /// Appends a message at the back: enqueue order is delivery order.
    pub fn enqueue(&mut self, op: Operation) -> (m: Message)
        requires
            old(self).wf(),
            old(self).spec_next_seq() < u64::MAX,
        ensures
            final(self).wf(),
            m == (Message {
                origin: old(self).spec_origin(),
                dest: old(self).spec_dest(),
                seq: old(self).spec_next_seq(),
                op,
                kind: old(self).spec_kind(),
            }),
            final(self).spec_pending() == old(self).spec_pending().push(m),
            final(self).spec_next_seq() == old(self).spec_next_seq() + 1,
            final(self).spec_origin() == old(self).spec_origin(),
            final(self).spec_dest() == old(self).spec_dest(),
            final(self).spec_kind() == old(self).spec_kind(),
    {
        let m = Message {
            origin: self.origin,
            dest: self.dest,
            seq: self.next_seq,
            op,
            kind: self.kind,
        };
        self.pending.push(m);
        self.next_seq = self.next_seq + 1;
        proof {
            let before = old(self).spec_pending();
            let after = self.spec_pending();
            assert(after == before.push(m));
            assert forall|i: int| 0 <= i < after.len() implies ((#[trigger] after[i]).origin
                == self.spec_origin() && after[i].dest == self.spec_dest() && after[i].kind
                == self.spec_kind() && after[i].seq < self.spec_next_seq()) by {
                if i < before.len() {
                    assert(after[i] == before[i]);
                    assert(before[i].origin == old(self).spec_origin());
                    assert(before[i].seq < old(self).spec_next_seq());
                } else {
                    assert(after[i] == m);
                }
            }
            assert forall|i: int, j: int| 0 <= i < j < after.len() implies (#[trigger] after[i]).seq < (
            #[trigger] after[j]).seq by {
                assert(after[i] == before[i]);
                if j < before.len() {
                    assert(after[j] == before[j]);
                    assert(before[i].seq < before[j].seq);
                } else {
                    assert(after[j] == m);
                    assert(before[i].seq < old(self).spec_next_seq());
                }
            }
        }
        m
    }

    /// Moves every pending message out, oldest first, leaving the queue
    /// empty but otherwise unchanged.
    pub fn take_pending(&mut self) -> (batch: Vec<Message>)
        ensures
            batch@ == old(self).spec_pending(),
            final(self).spec_pending() =~= Seq::<Message>::empty(),
            final(self).spec_origin() == old(self).spec_origin(),
            final(self).spec_dest() == old(self).spec_dest(),
            final(self).spec_kind() == old(self).spec_kind(),
            final(self).spec_next_seq() == old(self).spec_next_seq(),
            final(self).wf(),
    {
        let mut batch: Vec<Message> = Vec::new();
        core::mem::swap(&mut batch, &mut self.pending);
        batch
    }
}

/// Queue FIFO: of two messages pending on the same queue, the one enqueued
/// earlier stands closer to the front and carries the smaller sequence
/// number; delivery consumes the front first, so they are never reordered.
pub proof fn lemma_queue_fifo(q: Queue, i: int, j: int)
    requires
        q.wf(),
        0 <= i < j < q.spec_pending().len(),
    ensures
        q.spec_pending()[i].seq < q.spec_pending()[j].seq,
{
}

/// First queue for the ordered pair `(origin, dest)`, scanning from the
/// front.
pub open spec fn find_queue(qs: Seq<Queue>, origin: u32, dest: u32) -> Option<Queue>
    decreases qs.len(),
{
    if qs.len() == 0 {
        None
    } else if qs[0].spec_origin() == origin && qs[0].spec_dest() == dest {
        Some(qs[0])
    } else {
        find_queue(qs.drop_first(), origin, dest)
    }
}

/// Queue keys are pairwise distinct.
pub open spec fn queue_keys_distinct(qs: Seq<Queue>) -> bool {
    forall|p: int, q: int|
        0 <= p < q < qs.len() ==> !(qs[p].spec_origin() == qs[q].spec_origin()
            && qs[p].spec_dest() == qs[q].spec_dest())
}

/// `find_queue` misses exactly when no queue carries the key.
pub proof fn lemma_find_queue_none(qs: Seq<Queue>, origin: u32, dest: u32)
    ensures
        find_queue(qs, origin, dest) is None <==> (forall|i: int|
            0 <= i < qs.len() ==> !(qs[i].spec_origin() == origin && qs[i].spec_dest() == dest)),
    decreases qs.len(),
{
    if qs.len() > 0 {
        lemma_find_queue_none(qs.drop_first(), origin, dest);
        if find_queue(qs, origin, dest) is None {
            assert forall|i: int| 0 <= i < qs.len() implies !(qs[i].spec_origin() == origin
                && qs[i].spec_dest() == dest) by {
                if i > 0 {
                    assert(qs.drop_first()[i - 1] == qs[i]);
                    assert(!(qs.drop_first()[i - 1].spec_origin() == origin && qs.drop_first()[i
                        - 1].spec_dest() == dest));
                }
            }
        } else if forall|i: int|
            0 <= i < qs.len() ==> !(qs[i].spec_origin() == origin && qs[i].spec_dest() == dest) {
            assert(!(qs[0].spec_origin() == origin && qs[0].spec_dest() == dest));
            assert forall|j: int| 0 <= j < qs.drop_first().len() implies !(
            qs.drop_first()[j].spec_origin() == origin && qs.drop_first()[j].spec_dest()
                == dest) by {
                assert(qs.drop_first()[j] == qs[j + 1]);
                assert(!(qs[j + 1].spec_origin() == origin && qs[j + 1].spec_dest() == dest));
            }
        }
    }
}

/// Replacing the queue at one index by a queue with the same key changes
/// `find_queue` for that key alone.
pub proof fn lemma_find_queue_update(qs: Seq<Queue>, i: int, q: Queue, origin: u32, dest: u32)
    requires
        0 <= i < qs.len(),
        q.spec_origin() == qs[i].spec_origin(),
        q.spec_dest() == qs[i].spec_dest(),
        queue_keys_distinct(qs),
    ensures
        find_queue(qs.update(i, q), origin, dest) == (if qs[i].spec_origin() == origin
            && qs[i].spec_dest() == dest {
            Some(q)
        } else {
            find_queue(qs, origin, dest)
        }),
    decreases qs.len(),
{
    if i == 0 {
        assert(qs.update(0, q)[0] == q);
        assert(qs.update(0, q).drop_first() =~= qs.drop_first());
    } else {
        assert(qs.update(i, q)[0] == qs[0]);
        assert(qs.update(i, q).drop_first() =~= qs.drop_first().update(i - 1, q));
        assert(forall|p: int| 0 <= p < qs.drop_first().len() ==> qs.drop_first()[p] == qs[p + 1]);
        lemma_find_queue_update(qs.drop_first(), i - 1, q, origin, dest);
        if qs[0].spec_origin() == origin && qs[0].spec_dest() == dest {
            assert(!(qs[i].spec_origin() == origin && qs[i].spec_dest() == dest));
        }
    }
}

/// Appending a queue with a fresh key changes `find_queue` for that key
/// alone.
pub proof fn lemma_find_queue_push(qs: Seq<Queue>, q: Queue, origin: u32, dest: u32)
    ensures
        find_queue(qs.push(q), origin, dest) == (if find_queue(qs, origin, dest) is Some {
            find_queue(qs, origin, dest)
        } else if q.spec_origin() == origin && q.spec_dest() == dest {
            Some(q)
        } else {
            None
        }),
    decreases qs.len(),
{
    if qs.len() == 0 {
        assert(qs.push(q)[0] == q);
        assert(qs.push(q).drop_first() =~= Seq::<Queue>::empty());
        if !(q.spec_origin() == origin && q.spec_dest() == dest) {
            assert(find_queue(qs.push(q), origin, dest) == find_queue(
                qs.push(q).drop_first(),
                origin,
                dest,
            ));
        }
    } else {
        assert(qs.push(q)[0] == qs[0]);
        assert(qs.push(q).drop_first() =~= qs.drop_first().push(q));
        lemma_find_queue_push(qs.drop_first(), q, origin, dest);
    }
}

/// Total number of pending messages over a sequence of queues.
pub open spec fn sum_pending(qs: Seq<Queue>) -> int
    decreases qs.len(),
{
    if qs.len() == 0 {
        0
    } else {
        qs[0].spec_pending().len() + sum_pending(qs.drop_first())
    }
}

/// The total is never negative.
pub proof fn lemma_sum_pending_nonneg(qs: Seq<Queue>)
    ensures
        sum_pending(qs) >= 0,
    decreases qs.len(),
{
    if qs.len() > 0 {
        lemma_sum_pending_nonneg(qs.drop_first());
    }
}

/// Replacing one queue changes the total by the difference of its pending
/// lengths.
pub proof fn lemma_sum_pending_update(qs: Seq<Queue>, i: int, q: Queue)
    requires
        0 <= i < qs.len(),
    ensures
        sum_pending(qs.update(i, q)) == sum_pending(qs) - qs[i].spec_pending().len()
            + q.spec_pending().len(),
    decreases qs.len(),
{
    if i == 0 {
        assert(qs.update(0, q)[0] == q);
        assert(qs.update(0, q).drop_first() =~= qs.drop_first());
    } else {
        assert(qs.update(i, q)[0] == qs[0]);
        assert(qs.update(i, q).drop_first() =~= qs.drop_first().update(i - 1, q));
        lemma_sum_pending_update(qs.drop_first(), i - 1, q);
    }
}

/// The total is zero exactly when every queue is empty.
pub proof fn lemma_sum_pending_zero(qs: Seq<Queue>)
    ensures
        (sum_pending(qs) == 0) <==> (forall|i: int|
            0 <= i < qs.len() ==> qs[i].spec_pending().len() == 0),
    decreases qs.len(),
{
    if qs.len() > 0 {
        lemma_sum_pending_zero(qs.drop_first());
        lemma_sum_pending_nonneg(qs.drop_first());
        if sum_pending(qs) == 0 {
            assert forall|i: int| 0 <= i < qs.len() implies qs[i].spec_pending().len() == 0 by {
                if i > 0 {
                    assert(qs.drop_first()[i - 1] == qs[i]);
                    assert(qs.drop_first()[i - 1].spec_pending().len() == 0);
                }
            }
        } else if forall|i: int| 0 <= i < qs.len() ==> qs[i].spec_pending().len() == 0 {
            assert(qs[0].spec_pending().len() == 0);
            assert forall|j: int| 0 <= j < qs.drop_first().len() implies
                qs.drop_first()[j].spec_pending().len() == 0 by {
                assert(qs.drop_first()[j] == qs[j + 1]);
                assert(qs[j + 1].spec_pending().len() == 0);
            }
        }
    }
}

/// Every message pending anywhere, in queue order and front first: the batch
/// one full round-robin pass delivers.
pub open spec fn spec_batch(qs: Seq<Queue>) -> Seq<Message>
    decreases qs.len(),
{
    if qs.len() == 0 {
        Seq::empty()
    } else {
        qs[0].spec_pending() + spec_batch(qs.drop_first())
    }
}

/// First chain with the given id, scanning from the front.
pub open spec fn find_chain(cs: Seq<ChainInstance>, id: u32) -> Option<ChainInstance>
    decreases cs.len(),
{
    if cs.len() == 0 {
        None
    } else if cs[0].spec_id() == id {
        Some(cs[0])
    } else {
        find_chain(cs.drop_first(), id)
    }
}

/// `find_chain` misses exactly when no chain carries the id.
pub proof fn lemma_find_chain_none(cs: Seq<ChainInstance>, id: u32)
    ensures
        find_chain(cs, id) is None <==> (forall|i: int|
            0 <= i < cs.len() ==> cs[i].spec_id() != id),
    decreases cs.len(),
{
    if cs.len() > 0 {
        lemma_find_chain_none(cs.drop_first(), id);
        if find_chain(cs, id) is None {
            assert forall|i: int| 0 <= i < cs.len() implies cs[i].spec_id() != id by {
                if i > 0 {
                    assert(cs.drop_first()[i - 1] == cs[i]);
                    assert(cs.drop_first()[i - 1].spec_id() != id);
                }
            }
        } else if forall|i: int| 0 <= i < cs.len() ==> cs[i].spec_id() != id {
            assert(cs[0].spec_id() != id);
            assert forall|j: int| 0 <= j < cs.drop_first().len() implies
                cs.drop_first()[j].spec_id() != id by {
                assert(cs.drop_first()[j] == cs[j + 1]);
                assert(cs[j + 1].spec_id() != id);
            }
        }
    }
}

/// Replacing the chain at one index by a chain with the same id changes
/// `find_chain` for that id alone.
pub proof fn lemma_find_chain_update(cs: Seq<ChainInstance>, i: int, c: ChainInstance, id: u32)
    requires
        0 <= i < cs.len(),
        c.spec_id() == cs[i].spec_id(),
        forall|p: int, q: int| 0 <= p < q < cs.len() ==> cs[p].spec_id() != cs[q].spec_id(),
    ensures
        find_chain(cs.update(i, c), id) == (if cs[i].spec_id() == id {
            Some(c)
        } else {
            find_chain(cs, id)
        }),
    decreases cs.len(),
{
    if i == 0 {
        assert(cs.update(0, c)[0] == c);
        assert(cs.update(0, c).drop_first() =~= cs.drop_first());
    } else {
        assert(cs.update(i, c)[0] == cs[0]);
        assert(cs.update(i, c).drop_first() =~= cs.drop_first().update(i - 1, c));
        assert(forall|p: int| 0 <= p < cs.drop_first().len() ==> cs.drop_first()[p] == cs[p + 1]);
        lemma_find_chain_update(cs.drop_first(), i - 1, c, id);
        if cs[0].spec_id() == id {
            assert(cs[i].spec_id() != id);
        }
    }
}

/// Extending a delivery chain by one more delivery at its end.
pub proof fn lemma_deliveries_snoc(
    pre: Network,
    msgs: Seq<Message>,
    mid: Network,
    m: Message,
    post: Network,
)
    requires
        Network::spec_deliveries(pre, msgs, mid),
        Network::spec_delivery(mid, m, post),
    ensures
        Network::spec_deliveries(pre, msgs.push(m), post),
    decreases msgs.len(),
{
    if msgs.len() == 0 {
        assert(mid == pre);
        assert(msgs.push(m)[0] == m);
        assert(msgs.push(m).drop_first() =~= Seq::<Message>::empty());
        assert(Network::spec_delivery(pre, msgs.push(m)[0], post));
        assert(Network::spec_deliveries(post, msgs.push(m).drop_first(), post));
    } else {
        let step = choose|x: Network|
            #[trigger] Network::spec_delivery(pre, msgs[0], x) && Network::spec_deliveries(
                x,
                msgs.drop_first(),
                mid,
            );
        lemma_deliveries_snoc(step, msgs.drop_first(), mid, m, post);
        assert(msgs.push(m)[0] == msgs[0]);
        assert(msgs.push(m).drop_first() =~= msgs.drop_first().push(m));
        assert(Network::spec_delivery(pre, msgs.push(m)[0], step) && Network::spec_deliveries(
            step,
            msgs.push(m).drop_first(),
            post,
        ));
    }
}

/// A network whose pending messages can trigger nothing further has nothing
/// pending at all: every operation's depth is at least zero.
pub proof fn lemma_settled_when_no_depth(net: Network)
    requires
        net.spec_all_depth_below(0),
    ensures
        net.spec_total_pending() == 0,
{
    assert forall|i: int| 0 <= i < net.spec_queues().len() implies
        net.spec_queues()[i].spec_pending().len() == 0 by {
        if net.spec_queues()[i].spec_pending().len() > 0 {
            assert(op_depth(net.spec_queues()[i].spec_pending()[0].op) < 0);
            assert(op_depth(net.spec_queues()[i].spec_pending()[0].op) >= 0);
        }
    }
    lemma_sum_pending_zero(net.spec_queues());
}

/// Why the network refused an action.
#[derive(Clone, Copy, PartialEq, Eq, Structural, Debug)]
pub enum NetworkError {
    /// The named chain is not part of the network.
    UnknownChain,
    /// A chain with this id is already part of the network.
    DuplicateChain,
    /// The origin chain cannot express the asset cross-chain.
    UnresolvedAsset,
    /// The debited account holds less than the requested amount.
    InsufficientBalance,
    /// The queue for this chain pair has exhausted its sequence numbers.
    SequenceExhausted,
}

/// The simulated network: the coordinator instance, the satellite instances
/// and the set of all pending queues.
pub struct Network {
    coordinator: ChainInstance,
    satellites: Vec<ChainInstance>,
    queues: Vec<Queue>,
}

impl Network {
    /// The coordinator chain instance.
    pub closed spec fn spec_coordinator(self) -> ChainInstance {
        self.coordinator
    }

    /// The satellite chain instances, in registration order.
    pub closed spec fn spec_satellites(self) -> Seq<ChainInstance> {
        self.satellites@
    }

    /// All queues, in creation order (the fixed round-robin order).
    pub closed spec fn spec_queues(self) -> Seq<Queue> {
        self.queues@
    }

    /// Whether a chain with this id is part of the network.
    pub open spec fn spec_has_chain(self, id: u32) -> bool {
        self.spec_coordinator().spec_id() == id || find_chain(self.spec_satellites(), id) is Some
    }

    /// The chain instance with this id, if any.
    pub open spec fn spec_chain(self, id: u32) -> Option<ChainInstance> {
        if self.spec_coordinator().spec_id() == id {
            Some(self.spec_coordinator())
        } else {
            find_chain(self.spec_satellites(), id)
        }
    }

    /// Balance of `who` in `asset` on the chain with id `chain`; zero when
    /// the chain is unknown.
    pub open spec fn spec_balance_on(self, chain: u32, who: AccountId, asset: CurrencyId) -> Balance {
        match self.spec_chain(chain) {
            Some(c) => c.spec_sandbox().spec_balance_of(who, asset),
            None => 0,
        }
    }

    /// Messages pending on the queue for `(origin, dest)`, oldest first;
    /// empty when no such queue exists yet.
    pub open spec fn spec_pending(self, origin: u32, dest: u32) -> Seq<Message> {
        match find_queue(self.spec_queues(), origin, dest) {
            Some(q) => q.spec_pending(),
            None => Seq::empty(),
        }
    }

    /// Sequence number the next message on `(origin, dest)` will carry.
    pub open spec fn spec_next_seq(self, origin: u32, dest: u32) -> u64 {
        match find_queue(self.spec_queues(), origin, dest) {
            Some(q) => q.spec_next_seq(),
            None => 0,
        }
    }

    /// Kind of the queue an `origin`-sent message travels on.
    pub open spec fn spec_kind_for(self, origin: u32) -> QueueKind {
        if origin == self.spec_coordinator().spec_id() {
            QueueKind::Downward
        } else {
            QueueKind::Sibling
        }
    }

    /// Total number of messages pending anywhere in the network.
    pub open spec fn spec_total_pending(self) -> int {
        sum_pending(self.spec_queues())
    }

    /// Every pending message anywhere can still trigger a message chain of
    /// depth strictly below `bound`.
    pub open spec fn spec_all_depth_below(self, bound: int) -> bool {
        forall|qi: int, k: int|
            0 <= qi < self.spec_queues().len() && 0 <= k
                < self.spec_queues()[qi].spec_pending().len() ==> op_depth(
                (#[trigger] self.spec_queues()[qi].spec_pending()[k]).op,
            ) < bound
    }

    /// No queue moved: every pair's pending messages and numbering are as
    /// they were.
    pub open spec fn spec_queues_unchanged(pre: Network, post: Network) -> bool {
        forall|o: u32, d: u32|
            #![trigger post.spec_pending(o, d)]
            #![trigger post.spec_next_seq(o, d)]
            post.spec_pending(o, d) == pre.spec_pending(o, d) && post.spec_next_seq(o, d)
                == pre.spec_next_seq(o, d)
    }

    /// Exactly one message was enqueued, on the queue for `(origin, dest)`,
    /// with the next sequence number and the kind the origin commands; every
    /// other queue is as it was.
    pub open spec fn spec_queue_push(
        pre: Network,
        post: Network,
        origin: u32,
        dest: u32,
        op: Operation,
    ) -> bool {
        &&& post.spec_pending(origin, dest) == pre.spec_pending(origin, dest).push(
            Message {
                origin,
                dest,
                seq: pre.spec_next_seq(origin, dest),
                op,
                kind: pre.spec_kind_for(origin),
            },
        )
        &&& post.spec_next_seq(origin, dest) == pre.spec_next_seq(origin, dest) + 1
        &&& (forall|o2: u32, d2: u32|
            #![trigger post.spec_pending(o2, d2)]
            #![trigger post.spec_next_seq(o2, d2)]
            !(o2 == origin && d2 == dest) ==> post.spec_pending(o2, d2) == pre.spec_pending(
                o2,
                d2,
            ) && post.spec_next_seq(o2, d2) == pre.spec_next_seq(o2, d2))
    }

    /// How delivering one message takes the network from `pre` to `post`.
    /// A message to a chain outside the network is dropped without a trace.
    /// Otherwise the destination chain executes it with exactly the effects
    /// of one execution step, every other chain stands still, and the one
    /// message the execution may emit is enqueued -- unless its destination
    /// is unknown or the queue's numbering is exhausted, in which case the
    /// message chain ends there.
    pub open spec fn spec_delivery(pre: Network, msg: Message, post: Network) -> bool {
        match pre.spec_chain(msg.dest) {
            None => post == pre,
            Some(c0) => {
                &&& post.spec_coordinator().spec_id() == pre.spec_coordinator().spec_id()
                &&& post.spec_chain(msg.dest) is Some
                &&& ChainInstance::spec_step(c0, msg.op, post.spec_chain(msg.dest)->Some_0)
                &&& (forall|c: u32|
                    c != msg.dest ==> #[trigger] post.spec_chain(c) == pre.spec_chain(c))
                &&& match spec_emission(msg.dest, msg.op) {
                    None => Self::spec_queues_unchanged(pre, post),
                    Some(p) => {
                        if pre.spec_has_chain(p.0) && pre.spec_next_seq(msg.dest, p.0)
                            < u64::MAX {
                            Self::spec_queue_push(pre, post, msg.dest, p.0, p.1)
                        } else {
                            Self::spec_queues_unchanged(pre, post)
                        }
                    },
                }
            },
        }
    }

    /// A chain of single deliveries, front first: the empty chain changes
    /// nothing, and each further message is delivered on the state the
    /// previous ones left behind.
    pub open spec fn spec_deliveries(pre: Network, msgs: Seq<Message>, post: Network) -> bool
        decreases msgs.len(),
    {
        if msgs.len() == 0 {
            post == pre
        } else {
            exists|mid: Network|
                #[trigger] Self::spec_delivery(pre, msgs[0], mid) && Self::spec_deliveries(
                    mid,
                    msgs.drop_first(),
                    post,
                )
        }
    }

    /// The draining phase of a pass: every chain stands still, every queue
    /// keeps its key, kind and numbering, and every pending message is taken
    /// out.
    pub open spec fn spec_drained(pre: Network, post: Network) -> bool {
        &&& post.spec_coordinator() == pre.spec_coordinator()
        &&& post.spec_satellites() == pre.spec_satellites()
        &&& post.spec_queues().len() == pre.spec_queues().len()
        &&& (forall|k: int|
            0 <= k < post.spec_queues().len() ==> ((#[trigger] post.spec_queues()[k]).spec_origin()
                == pre.spec_queues()[k].spec_origin() && post.spec_queues()[k].spec_dest()
                == pre.spec_queues()[k].spec_dest() && post.spec_queues()[k].spec_kind()
                == pre.spec_queues()[k].spec_kind() && post.spec_queues()[k].spec_next_seq()
                == pre.spec_queues()[k].spec_next_seq() && post.spec_queues()[k].spec_pending().len()
                == 0))
    }

    /// One full round-robin pass: the queues are drained, then the batch that
    /// was pending -- in queue order, front first -- is delivered message by
    /// message.
    pub open spec fn spec_pass(pre: Network, post: Network) -> bool {
        exists|mid: Network|
            #[trigger] Self::spec_drained(pre, mid) && Self::spec_deliveries(
                mid,
                spec_batch(pre.spec_queues()),
                post,
            )
    }

    /// `n` full passes in sequence.
    pub open spec fn spec_passes(pre: Network, n: int, post: Network) -> bool
        decreases n,
    {
        if n <= 0 {
            post == pre
        } else {
            exists|mid: Network|
                Self::spec_passes(pre, n - 1, mid) && #[trigger] Self::spec_pass(mid, post)
        }
    }

    /// Chain ids are pairwise distinct, every sandbox and queue keeps its
    /// invariant, queue keys are pairwise distinct and each queue's kind
    /// matches its origin's relationship to the coordinator.
    pub open spec fn wf(self) -> bool {
        &&& self.spec_coordinator().wf()
        &&& (forall|i: int|
            0 <= i < self.spec_satellites().len() ==> (#[trigger] self.spec_satellites()[i]).wf())
        &&& (forall|i: int|
            0 <= i < self.spec_satellites().len() ==> (#[trigger] self.spec_satellites()[i]).spec_id()
                != self.spec_coordinator().spec_id())
        &&& (forall|i: int, j: int|
            0 <= i < j < self.spec_satellites().len() ==> self.spec_satellites()[i].spec_id()
                != self.spec_satellites()[j].spec_id())
        &&& (forall|i: int|
            0 <= i < self.spec_queues().len() ==> (#[trigger] self.spec_queues()[i]).wf())
        &&& queue_keys_distinct(self.spec_queues())
        &&& (forall|i: int|
            0 <= i < self.spec_queues().len() ==> (#[trigger] self.spec_queues()[i]).spec_kind()
                == self.spec_kind_for(self.spec_queues()[i].spec_origin()))
    }

    /// A network holding only its coordinator, with no queues yet.
    pub fn new(coordinator: ChainInstance) -> (r: Network)
        requires
            coordinator.wf(),
        ensures
            r.wf(),
            r.spec_coordinator() == coordinator,
            r.spec_satellites() =~= Seq::<ChainInstance>::empty(),
            r.spec_queues() =~= Seq::<Queue>::empty(),
    {
        Network { coordinator, satellites: Vec::new(), queues: Vec::new() }
    }

    /// Index of the satellite with this id, if any.
    fn position_of_chain(&self, id: u32) -> (r: Option<usize>)
        ensures
            match r {
                Some(i) => i < self.spec_satellites().len() && self.spec_satellites()[
                    i as int
                ].spec_id() == id && find_chain(self.spec_satellites(), id) == Some(
                    self.spec_satellites()[i as int],
                ),
                None => find_chain(self.spec_satellites(), id) is None,
            },
    {
        let s = Ghost(self.satellites@);
        let n = self.satellites.len();
        let mut i: usize = 0;
        proof {
            assert(s@.skip(0) =~= s@);
        }
        while i < n
            invariant
                n == s@.len(),
                s@ == self.satellites@,
                0 <= i <= n,
                find_chain(s@, id) == find_chain(s@.skip(i as int), id),
            decreases n - i,
        {
            if self.satellites[i].id() == id {
                proof {
                    assert(s@.skip(i as int)[0] == s@[i as int]);
                }
                return Some(i);
            }
            proof {
                assert(s@.skip(i as int)[0] == s@[i as int]);
                assert(s@.skip(i as int).drop_first() =~= s@.skip(i as int + 1));
            }
            i += 1;
        }
        proof {
            assert(s@.skip(n as int) =~= Seq::<ChainInstance>::empty());
        }
        None
    }

    /// Index of the queue for `(origin, dest)`, if one exists.
    fn position_of_queue(&self, origin: u32, dest: u32) -> (r: Option<usize>)
        ensures
            match r {
                Some(i) => i < self.spec_queues().len() && self.spec_queues()[
                    i as int
                ].spec_origin() == origin && self.spec_queues()[i as int].spec_dest() == dest
                    && find_queue(self.spec_queues(), origin, dest) == Some(
                    self.spec_queues()[i as int],
                ),
                None => find_queue(self.spec_queues(), origin, dest) is None,
            },
    {
        let s = Ghost(self.queues@);
        let n = self.queues.len();
        let mut i: usize = 0;
        proof {
            assert(s@.skip(0) =~= s@);
        }
        while i < n
            invariant
                n == s@.len(),
                s@ == self.queues@,
                0 <= i <= n,
                find_queue(s@, origin, dest) == find_queue(s@.skip(i as int), origin, dest),
            decreases n - i,
        {
            if self.queues[i].origin() == origin && self.queues[i].dest() == dest {
                proof {
                    assert(s@.skip(i as int)[0] == s@[i as int]);
                }
                return Some(i);
            }
            proof {
                assert(s@.skip(i as int)[0] == s@[i as int]);
                assert(s@.skip(i as int).drop_first() =~= s@.skip(i as int + 1));
            }
            i += 1;
        }
        proof {
            assert(s@.skip(n as int) =~= Seq::<Queue>::empty());
        }
        None
    }

    /// Whether a chain with this id is part of the network.
    pub fn chain_exists(&self, id: u32) -> (r: bool)
        ensures
            r == self.spec_has_chain(id),
    {
        if self.coordinator.id() == id {
            return true;
        }
        self.position_of_chain(id).is_some()
    }

    /// Read access to the chain with this id.
    pub fn chain(&self, id: u32) -> (r: Option<&ChainInstance>)
        ensures
            match r {
                Some(c) => self.spec_chain(id) == Some(*c),
                None => self.spec_chain(id) is None,
            },
    {
        if self.coordinator.id() == id {
            return Some(&self.coordinator);
        }
        match self.position_of_chain(id) {
            Some(i) => Some(&self.satellites[i]),
            None => None,
        }
    }

    /// Balance of `who` in `asset` on the chain with id `chain`.
    pub fn balance_on(&self, chain: u32, who: AccountId, asset: CurrencyId) -> (r: Balance)
        ensures
            r == self.spec_balance_on(chain, who, asset),
    {
        match self.chain(chain) {
            Some(c) => c.sandbox().balance_of(who, asset),
            None => 0,
        }
    }

    /// Adds a satellite chain to the network; its id must be fresh.
    pub fn add_satellite(&mut self, chain: ChainInstance) -> (r: Result<(), NetworkError>)
        requires
            old(self).wf(),
            chain.wf(),
        ensures
            final(self).wf(),
            final(self).spec_coordinator() == old(self).spec_coordinator(),
            final(self).spec_queues() == old(self).spec_queues(),
            match r {
                Ok(_) => !old(self).spec_has_chain(chain.spec_id()) && final(self).spec_satellites()
                    == old(self).spec_satellites().push(chain),
                Err(NetworkError::DuplicateChain) => old(self).spec_has_chain(chain.spec_id())
                    && final(self).spec_satellites() == old(self).spec_satellites(),
                Err(_) => false,
            },
    {
        if self.chain_exists(chain.id()) {
            return Err(NetworkError::DuplicateChain);
        }
        proof {
            lemma_find_chain_none(self.satellites@, chain.spec_id());
        }
        self.satellites.push(chain);
        Ok(())
    }

    /// Enqueues a message from `origin` to `dest`, creating the pair's queue
    /// on first use. Every other queue, and every chain, is untouched.
    pub fn send(&mut self, origin: u32, dest: u32, op: Operation) -> (r: Result<u64, NetworkError>)
        requires
            old(self).wf(),
        ensures
            final(self).wf(),
            final(self).spec_coordinator() == old(self).spec_coordinator(),
            final(self).spec_satellites() == old(self).spec_satellites(),
            match r {
                Ok(seq) => old(self).spec_has_chain(origin) && old(self).spec_has_chain(dest)
                    && old(self).spec_next_seq(origin, dest) < u64::MAX && seq == old(self).spec_next_seq(origin, dest) && final(self).spec_pending(origin, dest) == old(self).spec_pending(origin, dest).push(
                    Message {
                        origin,
                        dest,
                        seq,
                        op,
                        kind: old(self).spec_kind_for(origin),
                    },
                ) && final(self).spec_next_seq(origin, dest) == seq + 1 && (forall|o: u32, d: u32|
                    !(o == origin && d == dest) ==> final(self).spec_pending(o, d) == old(self).spec_pending(o, d) && final(self).spec_next_seq(o, d) == old(self).spec_next_seq(o, d)),
                Err(NetworkError::UnknownChain) => (!old(self).spec_has_chain(origin) || !old(self).spec_has_chain(dest)) && *final(self) == *old(self),
                Err(NetworkError::SequenceExhausted) => old(self).spec_has_chain(origin) && old(self).spec_has_chain(dest) && old(self).spec_next_seq(origin, dest) == u64::MAX
                    && *final(self) == *old(self),
                Err(_) => false,
            },
            forall|b: int|
                old(self).spec_all_depth_below(b) && op_depth(op) < b ==> final(self).spec_all_depth_below(b),
    {
        if !self.chain_exists(origin) || !self.chain_exists(dest) {
            return Err(NetworkError::UnknownChain);
        }
        let kind = if self.coordinator.id() == origin {
            QueueKind::Downward
        } else {
            QueueKind::Sibling
        };
        match self.position_of_queue(origin, dest) {
            Some(i) => {
                if self.queues[i].next_seq() == u64::MAX {
                    return Err(NetworkError::SequenceExhausted);
                }
                let ghost qs0 = self.queues@;
                let mut q = self.queues.remove(i);
                let m = q.enqueue(op);
                self.queues.insert(i, q);
                proof {
                    assert(self.queues@ =~= qs0.update(i as int, self.queues@[i as int]));
                    lemma_find_queue_update(
                        qs0,
                        i as int,
                        self.queues@[i as int],
                        origin,
                        dest,
                    );
                    assert forall|o: u32, d: u32| !(o == origin && d == dest) implies
                        find_queue(self.queues@, o, d) == find_queue(qs0, o, d) by {
                        lemma_find_queue_update(qs0, i as int, self.queues@[i as int], o, d);
                    }
                    assert forall|b: int|
                        old(self).spec_all_depth_below(b) && op_depth(op) < b implies
                        self.spec_all_depth_below(b) by {
                        assert forall|qi: int, k: int|
                            0 <= qi < self.spec_queues().len() && 0 <= k
                                < self.spec_queues()[qi].spec_pending().len() implies op_depth(
                            (#[trigger] self.spec_queues()[qi].spec_pending()[k]).op,
                        ) < b by {
                            if qi == i {
                                if k < qs0[qi].spec_pending().len() {
                                    assert(self.spec_queues()[qi].spec_pending()[k]
                                        == qs0[qi].spec_pending()[k]);
                                    assert(op_depth(
                                        old(self).spec_queues()[qi].spec_pending()[k].op,
                                    ) < b);
                                } else {
                                    assert(self.spec_queues()[qi].spec_pending()[k] == m);
                                }
                            } else {
                                assert(self.spec_queues()[qi] == qs0[qi]);
                                assert(op_depth(
                                    old(self).spec_queues()[qi].spec_pending()[k].op,
                                ) < b);
                            }
                        }
                    }
                }
                Ok(m.seq)
            },
            None => {
                proof {
                    lemma_find_queue_none(self.queues@, origin, dest);
                }
                let ghost qs0 = self.queues@;
                let mut q = Queue::new(origin, dest, kind);
                let m = q.enqueue(op);
                self.queues.push(q);
                proof {
                    lemma_find_queue_push(qs0, self.queues@[qs0.len() as int], origin, dest);
                    assert forall|o: u32, d: u32| !(o == origin && d == dest) implies
                        find_queue(self.queues@, o, d) == find_queue(qs0, o, d) by {
                        lemma_find_queue_push(qs0, self.queues@[qs0.len() as int], o, d);
                    }
                    assert forall|b: int|
                        old(self).spec_all_depth_below(b) && op_depth(op) < b implies
                        self.spec_all_depth_below(b) by {
                        assert forall|qi: int, k: int|
                            0 <= qi < self.spec_queues().len() && 0 <= k
                                < self.spec_queues()[qi].spec_pending().len() implies op_depth(
                            (#[trigger] self.spec_queues()[qi].spec_pending()[k]).op,
                        ) < b by {
                            if qi < qs0.len() {
                                assert(self.spec_queues()[qi] == qs0[qi]);
                                assert(op_depth(
                                    old(self).spec_queues()[qi].spec_pending()[k].op,
                                ) < b);
                            } else {
                                assert(self.spec_queues()[qi].spec_pending()[k] == m);
                            }
                        }
                    }
                }
                Ok(m.seq)
            },
        }
    }

    /// A cross-chain transfer, initiated on `origin`: the asset is resolved
    /// to its network-wide location through the origin chain's converter, the
    /// payer is debited there, and a deposit message for the beneficiary is
    /// enqueued towards `dest`. Checks precede every effect, so an error
    /// leaves the network exactly as it was.
    pub fn transfer(
        &mut self,
        origin: u32,
        from: AccountId,
        asset: CurrencyId,
        dest: u32,
        to: AccountId,
        amount: Balance,
    ) -> (r: Result<(), NetworkError>)
        requires
            old(self).wf(),
        ensures
            final(self).wf(),
            match r {
                Ok(_) => {
                    let c0 = old(self).spec_chain(origin)->Some_0;
                    let c1 = final(self).spec_chain(origin)->Some_0;
                    let reg = c0.spec_sandbox().spec_registry();
                    let loc = CurrencyIdConvert::spec_convert_id(reg, asset)->Some_0;
                    &&& old(self).spec_has_chain(origin)
                    &&& old(self).spec_has_chain(dest)
                    &&& CurrencyIdConvert::spec_convert_id(reg, asset) is Some
                    &&& old(self).spec_next_seq(origin, dest) < u64::MAX
                    &&& c0.spec_sandbox().spec_balance_of(from, asset) >= amount
                    &&& final(self).spec_chain(origin) is Some
                    &&& c1.spec_id() == c0.spec_id()
                    &&& c1.spec_sandbox().spec_registry() == c0.spec_sandbox().spec_registry()
                    &&& c1.spec_sandbox().spec_block() == c0.spec_sandbox().spec_block()
                    &&& c1.spec_sandbox().spec_faults() == c0.spec_sandbox().spec_faults()
                    &&& c1.spec_sandbox().spec_balance_of(from, asset) == c0.spec_sandbox()
                        .spec_balance_of(from, asset) - amount
                    &&& (forall|a: AccountId, cu: CurrencyId|
                        !(a == from && cu == asset) ==> c1.spec_sandbox().spec_balance_of(a, cu)
                            == c0.spec_sandbox().spec_balance_of(a, cu))
                    &&& (forall|c: u32|
                        c != origin ==> final(self).spec_chain(c) == old(self).spec_chain(c))
                    &&& final(self).spec_pending(origin, dest) == old(self).spec_pending(
                        origin,
                        dest,
                    ).push(
                        Message {
                            origin,
                            dest,
                            seq: old(self).spec_next_seq(origin, dest),
                            op: (Operation::Deposit { asset: loc, to, amount }),
                            kind: old(self).spec_kind_for(origin),
                        },
                    )
                    &&& final(self).spec_next_seq(origin, dest) == old(self).spec_next_seq(
                        origin,
                        dest,
                    ) + 1
                    &&& (forall|o: u32, d: u32|
                        !(o == origin && d == dest) ==> final(self).spec_pending(o, d) == old(self).spec_pending(o, d))
                },
                Err(NetworkError::UnknownChain) => (!old(self).spec_has_chain(origin) || !old(self).spec_has_chain(dest)) && *final(self) == *old(self),
                Err(NetworkError::UnresolvedAsset) => old(self).spec_has_chain(origin) && old(self).spec_has_chain(dest) && CurrencyIdConvert::spec_convert_id(
                    old(self).spec_chain(origin)->Some_0.spec_sandbox().spec_registry(),
                    asset,
                ) is None && *final(self) == *old(self),
                Err(NetworkError::SequenceExhausted) => old(self).spec_has_chain(origin) && old(self).spec_has_chain(dest) && CurrencyIdConvert::spec_convert_id(
                    old(self).spec_chain(origin)->Some_0.spec_sandbox().spec_registry(),
                    asset,
                ) is Some && old(self).spec_next_seq(origin, dest) == u64::MAX && *final(self)
                    == *old(self),
                Err(NetworkError::InsufficientBalance) => old(self).spec_has_chain(origin) && old(self).spec_has_chain(dest) && CurrencyIdConvert::spec_convert_id(
                    old(self).spec_chain(origin)->Some_0.spec_sandbox().spec_registry(),
                    asset,
                ) is Some && old(self).spec_next_seq(origin, dest) < u64::MAX && old(self).spec_chain(origin)->Some_0.spec_sandbox().spec_balance_of(from, asset) < amount
                    && *final(self) == *old(self),
                Err(NetworkError::DuplicateChain) => false,
            },
    {
        if !self.chain_exists(origin) || !self.chain_exists(dest) {
            return Err(NetworkError::UnknownChain);
        }
        let loc_opt: Option<Location> = if self.coordinator.id() == origin {
            CurrencyIdConvert::convert_id(self.coordinator.sandbox().registry(), asset)
        } else {
            match self.position_of_chain(origin) {
                Some(i) => CurrencyIdConvert::convert_id(
                    self.satellites[i].sandbox().registry(),
                    asset,
                ),
                None => {
                    proof {
                        assert(false);
                    }
                    None
                },
            }
        };
        let loc = match loc_opt {
            Some(l) => l,
            None => {
                return Err(NetworkError::UnresolvedAsset);
            },
        };
        match self.position_of_queue(origin, dest) {
            Some(qi) => {
                if self.queues[qi].next_seq() == u64::MAX {
                    return Err(NetworkError::SequenceExhausted);
                }
            },
            None => {},
        }
        if self.balance_on(origin, from, asset) < amount {
            return Err(NetworkError::InsufficientBalance);
        }
        if self.coordinator.id() == origin {
            let res = self.coordinator.debit(from, asset, amount);
            proof {
                assert(res is Ok);
            }
        } else {
            match self.position_of_chain(origin) {
                Some(i) => {
                    let ghost cs0 = self.satellites@;
                    let mut c = self.satellites.remove(i);
                    let res = c.debit(from, asset, amount);
                    self.satellites.insert(i, c);
                    proof {
                        assert(res is Ok);
                        assert(self.satellites@ =~= cs0.update(i as int, self.satellites@[i as int]));
                        assert forall|p: int| 0 <= p < self.satellites@.len() implies (
                        #[trigger] self.satellites@[p]).wf() && self.satellites@[p].spec_id()
                            == cs0[p].spec_id() by {
                            if p != i {
                                assert(self.satellites@[p] == cs0[p]);
                            }
                        }
                        assert forall|id: u32| id != origin implies find_chain(self.satellites@, id)
                            == find_chain(cs0, id) by {
                            lemma_find_chain_update(cs0, i as int, self.satellites@[i as int], id);
                        }
                        lemma_find_chain_update(cs0, i as int, self.satellites@[i as int], origin);
                    }
                },
                None => {
                    proof {
                        assert(false);
                    }
                },
            }
        }
        let sres = self.send(origin, dest, Operation::Deposit { asset: loc, to, amount });
        proof {
            assert(sres is Ok);
        }
        Ok(())
    }

    /// Delivers one message: the destination chain executes it inside its own
    /// sandbox and any resulting outbound messages are enqueued for later
    /// passes. A message to a chain outside the network is dropped; an
    /// execution fault was already recorded against the destination by the
    /// execution itself, and the message is dropped too.
    fn deliver_one(&mut self, msg: Message)
        requires
            old(self).wf(),
        ensures
            final(self).wf(),
            Network::spec_delivery(*old(self), msg, *final(self)),
            forall|b: int|
                old(self).spec_all_depth_below(b) && op_depth(msg.op) < b + 1 ==> final(self).spec_all_depth_below(b),
    {
        let eff: Option<Effects>;
        if self.coordinator.id() == msg.dest {
            let res = self.coordinator.execute(msg.op);
            proof {
                assert(old(self).spec_chain(msg.dest) == Some(old(self).spec_coordinator()));
                assert(self.spec_chain(msg.dest) == Some(self.spec_coordinator()));
                assert(ChainInstance::spec_step(
                    old(self).spec_coordinator(),
                    msg.op,
                    self.spec_coordinator(),
                ));
                assert forall|cc: u32| cc != msg.dest implies #[trigger] self.spec_chain(cc)
                    == old(self).spec_chain(cc) by {
                    assert(self.spec_satellites() == old(self).spec_satellites());
                }
            }
            match res {
                Ok(e) => {
                    eff = Some(e);
                },
                Err(_) => {
                    eff = None;
                },
            }
        } else {
            match self.position_of_chain(msg.dest) {
                Some(i) => {
                    let ghost cs0 = self.satellites@;
                    let mut c = self.satellites.remove(i);
                    let res = c.execute(msg.op);
                    self.satellites.insert(i, c);
                    proof {
                        assert(self.satellites@ =~= cs0.update(i as int, self.satellites@[i as int]));
                        assert forall|p: int| 0 <= p < self.satellites@.len() implies (
                        #[trigger] self.satellites@[p]).wf() && self.satellites@[p].spec_id()
                            == cs0[p].spec_id() by {
                            if p != i {
                                assert(self.satellites@[p] == cs0[p]);
                            }
                        }
                        assert(old(self).spec_chain(msg.dest) == Some(cs0[i as int]));
                        lemma_find_chain_update(cs0, i as int, self.satellites@[i as int], msg.dest);
                        assert(self.spec_chain(msg.dest) == Some(self.satellites@[i as int]));
                        assert(ChainInstance::spec_step(
                            cs0[i as int],
                            msg.op,
                            self.satellites@[i as int],
                        ));
                        assert forall|cc: u32| cc != msg.dest implies #[trigger] self.spec_chain(cc)
                            == old(self).spec_chain(cc) by {
                            lemma_find_chain_update(cs0, i as int, self.satellites@[i as int], cc);
                        }
                    }
                    match res {
                        Ok(e) => {
                            eff = Some(e);
                        },
                        Err(_) => {
                            eff = None;
                        },
                    }
                },
                None => {
                    eff = None;
                },
            }
        }
        proof {
            assert(self.spec_queues() == old(self).spec_queues());
        }
        match eff {
            Some(effects) => {
                proof {
                    assert(effects.outbound@ == (match spec_emission(msg.dest, msg.op) {
                        Some(p) => seq![p],
                        None => Seq::<(u32, Operation)>::empty(),
                    }));
                }
                if effects.outbound.len() > 0 {
                    let (d2, op2) = effects.outbound[0];
                    proof {
                        assert(spec_emission(msg.dest, msg.op) == Some((d2, op2)));
                        assert(op_depth(op2) + 1 <= op_depth(msg.op)) by {
                            match msg.op {
                                Operation::Deposit { .. } => {
                                    assert(effects.outbound@.len() == 0);
                                },
                                Operation::Hop { next: _, ttl } => {
                                    if ttl == 0 {
                                        assert(effects.outbound@.len() == 0);
                                    } else {
                                        assert(op_depth(op2) == ttl - 1);
                                    }
                                },
                            }
                        }
                    }
                    let ghost mid = *self;
                    let sres = self.send(msg.dest, d2, op2);
                    proof {
                        assert(mid.spec_queues() == old(self).spec_queues());
                        assert(mid.spec_coordinator().spec_id() == old(self).spec_coordinator().spec_id());
                        assert(mid.spec_has_chain(msg.dest));
                        assert(mid.spec_has_chain(d2) == old(self).spec_has_chain(d2)) by {
                            if d2 != msg.dest {
                                assert(mid.spec_chain(d2) == old(self).spec_chain(d2));
                            }
                        }
                        assert(forall|o: u32, d: u32|
                            #![trigger mid.spec_pending(o, d)]
                            #![trigger mid.spec_next_seq(o, d)]
                            mid.spec_pending(o, d) == old(self).spec_pending(o, d)
                                && mid.spec_next_seq(o, d) == old(self).spec_next_seq(o, d));
                        assert(mid.spec_kind_for(msg.dest) == old(self).spec_kind_for(msg.dest));
                        match sres {
                            Ok(_) => {
                                assert(old(self).spec_has_chain(d2));
                                assert(old(self).spec_next_seq(msg.dest, d2) < u64::MAX);
                                assert(Network::spec_queue_push(*old(self), *self, msg.dest, d2, op2));
                            },
                            Err(e) => {
                                assert(e == NetworkError::UnknownChain || e == NetworkError::SequenceExhausted);
                                if e == NetworkError::UnknownChain {
                                    assert(!old(self).spec_has_chain(d2));
                                } else {
                                    assert(old(self).spec_next_seq(msg.dest, d2) == u64::MAX);
                                }
                                assert(Network::spec_queues_unchanged(*old(self), *self));
                            },
                        }
                        assert(self.spec_coordinator() == mid.spec_coordinator());
                        assert(self.spec_satellites() == mid.spec_satellites());
                        assert(self.spec_chain(msg.dest) == mid.spec_chain(msg.dest));
                        assert forall|cc: u32| cc != msg.dest implies #[trigger] self.spec_chain(cc)
                            == old(self).spec_chain(cc) by {
                            assert(self.spec_chain(cc) == mid.spec_chain(cc));
                        }
                        assert forall|b: int|
                            old(self).spec_all_depth_below(b) && op_depth(msg.op) < b + 1 implies
                            self.spec_all_depth_below(b) by {
                            assert(mid.spec_all_depth_below(b));
                            assert(op_depth(op2) < b);
                        }
                    }
                } else {
                    proof {
                        assert(spec_emission(msg.dest, msg.op) is None);
                        assert(Network::spec_queues_unchanged(*old(self), *self));
                    }
                }
            },
            None => {
                proof {
                    if old(self).spec_chain(msg.dest) is Some {
                        assert(spec_emission(msg.dest, msg.op) is None);
                        assert(Network::spec_queues_unchanged(*old(self), *self));
                    }
                }
            },
        }
    }

    /// One full round-robin pass: every message pending at the start of the
    /// pass is delivered, in queue order and front first; messages enqueued
    /// by those deliveries stay pending for a later pass. Returns how many
    /// messages the pass delivered; a pass that delivers nothing changes
    /// nothing and leaves nothing pending.
    pub fn relay_pass(&mut self) -> (delivered: usize)
        requires
            old(self).wf(),
        ensures
            final(self).wf(),
            delivered == old(self).spec_total_pending(),
            delivered == 0 ==> final(self).spec_total_pending() == 0 && final(self).spec_coordinator() == old(self).spec_coordinator() && final(self).spec_satellites()
                == old(self).spec_satellites(),
            forall|b: int|
                old(self).spec_all_depth_below(b) ==> final(self).spec_all_depth_below(b - 1),
            Network::spec_pass(*old(self), *final(self)),
    {
        let ghost qs0 = self.queues@;
        let n = self.queues.len();
        let mut batch: Vec<Message> = Vec::new();
        let mut qi: usize = 0;
        proof {
            assert(self.queues@.skip(0) =~= qs0);
            assert(batch@ + spec_batch(qs0) =~= spec_batch(qs0));
        }
        while qi < n
            invariant
                old(self).wf(),
                self.wf(),
                qs0 == old(self).spec_queues(),
                n == self.queues@.len(),
                n == qs0.len(),
                0 <= qi <= n,
                forall|k: int| qi <= k < n ==> self.queues@[k] == qs0[k],
                forall|k: int| 0 <= k < qi ==> self.queues@[k].spec_pending().len() == 0,
                forall|k: int|
                    0 <= k < qi ==> ((#[trigger] self.queues@[k]).spec_origin()
                        == qs0[k].spec_origin() && self.queues@[k].spec_dest()
                        == qs0[k].spec_dest() && self.queues@[k].spec_kind()
                        == qs0[k].spec_kind() && self.queues@[k].spec_next_seq()
                        == qs0[k].spec_next_seq()),
                batch@ + spec_batch(self.queues@.skip(qi as int)) == spec_batch(qs0),
                forall|b: int, idx: int|
                    #![trigger old(self).spec_all_depth_below(b), batch@[idx]]
                    old(self).spec_all_depth_below(b) && 0 <= idx < batch@.len() ==> op_depth(
                        batch@[idx].op,
                    ) < b,
                batch@.len() + sum_pending(self.queues@.skip(qi as int)) == sum_pending(qs0),
                sum_pending(self.queues@) == sum_pending(self.queues@.skip(qi as int)),
                self.coordinator == old(self).coordinator,
                self.satellites@ == old(self).satellites@,
            decreases n - qi,
        {
            let ghost qs_pre = self.queues@;
            let mut q = self.queues.remove(qi);
            let mut taken = q.take_pending();
            self.queues.insert(qi, q);
            let ghost taken0 = taken@;
            let ghost batch_pre = batch@;
            batch.append(&mut taken);
            proof {
                let qs_now = self.queues@;
                assert(qs_now =~= qs_pre.update(qi as int, qs_now[qi as int]));
                lemma_sum_pending_update(qs_pre, qi as int, qs_now[qi as int]);
                assert(qs_pre.skip(qi as int)[0] == qs_pre[qi as int]);
                assert(qs_pre.skip(qi as int).drop_first() =~= qs_pre.skip(qi as int + 1));
                assert(qs_now.skip(qi as int + 1) =~= qs_pre.skip(qi as int + 1));
                assert forall|p: int| 0 <= p < qs_now.len() implies (#[trigger] qs_now[p]).wf()
                    && qs_now[p].spec_origin() == qs_pre[p].spec_origin() && qs_now[p].spec_dest()
                    == qs_pre[p].spec_dest() && qs_now[p].spec_kind() == qs_pre[p].spec_kind()
                    && qs_now[p].spec_next_seq() == qs_pre[p].spec_next_seq() by {
                    if p != qi {
                        assert(qs_now[p] == qs_pre[p]);
                    }
                }
                assert forall|k: int| 0 <= k < qi + 1 implies ((#[trigger] qs_now[k]).spec_origin()
                    == qs0[k].spec_origin() && qs_now[k].spec_dest() == qs0[k].spec_dest()
                    && qs_now[k].spec_kind() == qs0[k].spec_kind() && qs_now[k].spec_next_seq()
                    == qs0[k].spec_next_seq()) by {
                    if k < qi {
                        assert(qs_now[k] == qs_pre[k]);
                        assert(qs_pre[k].spec_origin() == qs0[k].spec_origin()
                            && qs_pre[k].spec_dest() == qs0[k].spec_dest() && qs_pre[k].spec_kind()
                            == qs0[k].spec_kind() && qs_pre[k].spec_next_seq()
                            == qs0[k].spec_next_seq());
                    } else {
                        assert(qs_pre[k] == qs0[k]);
                    }
                }
                assert(qs0.skip(qi as int)[0] == qs0[qi as int]);
                assert(qs0.skip(qi as int).drop_first() =~= qs0.skip(qi as int + 1));
                assert(qs_pre.skip(qi as int) =~= qs0.skip(qi as int));
                assert(spec_batch(qs0.skip(qi as int)) == qs0[qi as int].spec_pending()
                    + spec_batch(qs0.skip(qi as int + 1)));
                assert(taken0 == qs0[qi as int].spec_pending());
                assert(batch@ =~= batch_pre + taken0);
                assert((batch_pre + taken0) + spec_batch(qs0.skip(qi as int + 1)) =~= batch_pre + (
                taken0 + spec_batch(qs0.skip(qi as int + 1))));
                assert(batch_pre + spec_batch(qs0.skip(qi as int)) == spec_batch(qs0));
                assert(batch@ + spec_batch(qs_now.skip(qi as int + 1)) =~= spec_batch(qs0));
                assert forall|p: int, q: int| 0 <= p < q < qs_now.len() implies !(
                qs_now[p].spec_origin() == qs_now[q].spec_origin() && qs_now[p].spec_dest()
                    == qs_now[q].spec_dest()) by {
                    assert(qs_now[p].spec_origin() == qs_pre[p].spec_origin() && qs_now[
                        p
                    ].spec_dest() == qs_pre[p].spec_dest());
                    assert(qs_now[q].spec_origin() == qs_pre[q].spec_origin() && qs_now[
                        q
                    ].spec_dest() == qs_pre[q].spec_dest());
                    assert(!(qs_pre[p].spec_origin() == qs_pre[q].spec_origin()
                        && qs_pre[p].spec_dest() == qs_pre[q].spec_dest()));
                }
                assert forall|p: int| 0 <= p < qs_now.len() implies (#[trigger] qs_now[
                    p
                ]).spec_kind() == self.spec_kind_for(qs_now[p].spec_origin()) by {
                    assert(qs_pre[p].spec_kind() == self.spec_kind_for(qs_pre[p].spec_origin()));
                }
                assert forall|k: int| qi + 1 <= k < n implies qs_now[k] == qs0[k] by {
                    assert(qs_now[k] == qs_pre[k]);
                }
                assert forall|k: int| 0 <= k < qi + 1 implies qs_now[k].spec_pending().len()
                    == 0 by {
                    if k < qi {
                        assert(qs_now[k] == qs_pre[k]);
                        assert(qs_pre[k].spec_pending().len() == 0);
                    }
                }
                assert forall|b: int, idx: int|
                    #![trigger old(self).spec_all_depth_below(b), batch@[idx]]
                    old(self).spec_all_depth_below(b) && 0 <= idx < batch@.len() implies op_depth(
                    batch@[idx].op,
                ) < b by {
                    if idx < batch_pre.len() {
                        assert(batch@[idx] == batch_pre[idx]);
                        assert(op_depth(batch_pre[idx].op) < b);
                    } else {
                        assert(batch@[idx] == taken0[idx - batch_pre.len()]);
                        assert(taken0 == qs_pre[qi as int].spec_pending());
                        assert(qs_pre[qi as int] == qs0[qi as int]);
                        assert(op_depth(
                            old(self).spec_queues()[qi as int].spec_pending()[idx
                                - batch_pre.len()].op,
                        ) < b);
                    }
                }
                assert(self.spec_coordinator() == old(self).spec_coordinator());
                assert(old(self).spec_coordinator().wf());
                assert forall|p: int| 0 <= p < self.spec_satellites().len() implies ((
                #[trigger] self.spec_satellites()[p]).wf() && self.spec_satellites()[p].spec_id()
                    != self.spec_coordinator().spec_id()) by {
                    assert(self.spec_satellites()[p] == old(self).spec_satellites()[p]);
                    assert((old(self).spec_satellites()[p]).wf());
                    assert(old(self).spec_satellites()[p].spec_id() != old(self).spec_coordinator().spec_id());
                }
                assert forall|p: int, q: int|
                    0 <= p < q < self.spec_satellites().len() implies self.spec_satellites()[
                    p].spec_id() != self.spec_satellites()[q].spec_id() by {
                    assert(self.spec_satellites()[p] == old(self).spec_satellites()[p]);
                    assert(self.spec_satellites()[q] == old(self).spec_satellites()[q]);
                    assert(old(self).spec_satellites()[p].spec_id() != old(self).spec_satellites()[q].spec_id());
                }
            }
            qi += 1;
        }
        proof {
            assert(self.queues@.skip(n as int) =~= Seq::<Queue>::empty());
            assert forall|b: int| self.spec_all_depth_below(b) by {
                assert forall|qi2: int, k: int|
                    0 <= qi2 < self.spec_queues().len() && 0 <= k
                        < self.spec_queues()[qi2].spec_pending().len() implies op_depth(
                    (#[trigger] self.spec_queues()[qi2].spec_pending()[k]).op,
                ) < b by {
                    assert(self.queues@[qi2].spec_pending().len() == 0);
                }
            }
        }
        let ghost mid = *self;
        proof {
            assert(spec_batch(self.queues@.skip(n as int)) =~= Seq::<Message>::empty());
            assert(batch@ + spec_batch(self.queues@.skip(n as int)) =~= batch@);
            assert(batch@ =~= spec_batch(qs0));
            assert(Network::spec_drained(*old(self), mid));
            assert(batch@.take(0) =~= Seq::<Message>::empty());
            assert(Network::spec_deliveries(mid, batch@.take(0), *self));
        }
        let total = batch.len();
        let mut bi: usize = 0;
        while bi < total
            invariant
                old(self).wf(),
                self.wf(),
                total == batch@.len(),
                0 <= bi <= total,
                Network::spec_drained(*old(self), mid),
                Network::spec_deliveries(mid, batch@.take(bi as int), *self),
                total == 0 ==> self.spec_total_pending() == 0 && self.coordinator == old(self).coordinator && self.satellites@ == old(self).satellites@,
                forall|b: int, k2: int|
                    #![trigger old(self).spec_all_depth_below(b), batch@[k2]]
                    old(self).spec_all_depth_below(b) && 0 <= k2 < total ==> op_depth(
                        batch@[k2].op,
                    ) < b,
                forall|b: int|
                    old(self).spec_all_depth_below(b) ==> self.spec_all_depth_below(b - 1),
            decreases total - bi,
        {
            let msg = batch[bi];
            let ghost pre = *self;
            self.deliver_one(msg);
            proof {
                assert forall|b: int| old(self).spec_all_depth_below(b) implies
                    self.spec_all_depth_below(b - 1) by {
                    assert(pre.spec_all_depth_below(b - 1));
                    assert(op_depth(batch@[bi as int].op) < b);
                    assert(op_depth(msg.op) < (b - 1) + 1);
                }
                lemma_deliveries_snoc(mid, batch@.take(bi as int), pre, msg, *self);
                assert(batch@.take(bi as int).push(batch@[bi as int]) =~= batch@.take(
                    bi as int + 1,
                ));
                assert(Network::spec_deliveries(mid, batch@.take(bi as int + 1), *self));
            }
            bi += 1;
        }
        proof {
            assert(batch@.take(total as int) =~= batch@);
            assert(Network::spec_deliveries(mid, spec_batch(old(self).spec_queues()), *self));
        }
        total
    }

    /// Whether any message is pending anywhere in the network.
    pub fn has_pending(&self) -> (r: bool)
        ensures
            r == (self.spec_total_pending() != 0),
    {
        let n = self.queues.len();
        let mut i: usize = 0;
        proof {
            assert(self.queues@.skip(0) =~= self.queues@);
        }
        while i < n
            invariant
                n == self.queues@.len(),
                0 <= i <= n,
                sum_pending(self.queues@) == sum_pending(self.queues@.skip(i as int)),
            decreases n - i,
        {
            proof {
                assert(self.queues@.skip(i as int)[0] == self.queues@[i as int]);
                assert(self.queues@.skip(i as int).drop_first() =~= self.queues@.skip(i as int + 1));
            }
            if self.queues[i].len() > 0 {
                proof {
                    lemma_sum_pending_nonneg(self.queues@.skip(i as int + 1));
                }
                return true;
            }
            i += 1;
        }
        proof {
            assert(self.queues@.skip(n as int) =~= Seq::<Queue>::empty());
        }
        false
    }

    /// Pumps relay passes until one delivers nothing: the fixpoint, at which
    /// no queue has pending work. The final state is exactly the given number
    /// of full passes applied to the initial one. Success is owed whenever
    /// the fuel exceeds a bound on the pending message chains; with too
    /// little fuel the orchestrator gives up, returns `None` and leaves
    /// whatever is still pending in place.
    pub fn settle(&mut self, max_passes: u64) -> (r: Option<u64>)
        requires
            old(self).wf(),
        ensures
            final(self).wf(),
            match r {
                Some(passes) => passes <= max_passes && final(self).spec_total_pending() == 0
                    && Network::spec_passes(*old(self), passes as int, *final(self)),
                None => Network::spec_passes(*old(self), max_passes as int, *final(self)),
            },
            forall|b: int|
                0 <= b < max_passes && old(self).spec_all_depth_below(b) ==> r is Some,
    {
        let mut used: u64 = 0;
        proof {
            assert(Network::spec_passes(*old(self), 0, *self));
        }
        while used < max_passes
            invariant
                self.wf(),
                0 <= used <= max_passes,
                Network::spec_passes(*old(self), used as int, *self),
                forall|b: int|
                    0 <= b && old(self).spec_all_depth_below(b) ==> self.spec_all_depth_below(
                        b - used as int,
                    ),
                forall|b: int| 0 <= b && old(self).spec_all_depth_below(b) ==> b >= used,
            decreases max_passes - used,
        {
            let ghost pre = *self;
            let d = self.relay_pass();
            used = used + 1;
            proof {
                assert(Network::spec_passes(*old(self), used as int - 1, pre));
                assert(Network::spec_pass(pre, *self));
                assert(exists|mid: Network|
                    Network::spec_passes(*old(self), used as int - 1, mid)
                        && #[trigger] Network::spec_pass(mid, *self));
                assert(Network::spec_passes(*old(self), used as int, *self));
                assert forall|b: int|
                    0 <= b && old(self).spec_all_depth_below(b) implies self.spec_all_depth_below(
                    b - used as int,
                ) by {
                    assert(pre.spec_all_depth_below(b - used as int + 1));
                }
            }
            if d == 0 {
                return Some(used);
            }
            proof {
                assert forall|b: int| 0 <= b && old(self).spec_all_depth_below(b) implies b
                    >= used by {
                    if b == used as int - 1 {
                        assert(pre.spec_all_depth_below(0));
                        lemma_settled_when_no_depth(pre);
                    }
                }
            }
        }
        None
    }

    /// Fixpoint termination, bounded by message-chain depth: every execution
    /// triggers at most one further message, with a strictly smaller depth,
    /// so a network whose pending messages can each still trigger a chain of
    /// at most `depth` further messages settles fully within `depth + 1`
    /// passes (the last pass delivers nothing and confirms the fixpoint).
    pub fn settle_within(&mut self, depth: u64) -> (passes: u64)
        requires
            old(self).wf(),
            depth < u64::MAX,
            old(self).spec_all_depth_below(depth as int + 1),
        ensures
            final(self).wf(),
            final(self).spec_total_pending() == 0,
            passes <= depth + 1,
            Network::spec_passes(*old(self), passes as int, *final(self)),
    {
        let mut used: u64 = 0;
        proof {
            assert(Network::spec_passes(*old(self), 0, *self));
        }
        while used <= depth
            invariant
                depth < u64::MAX,
                self.wf(),
                0 <= used <= depth + 1,
                self.spec_all_depth_below(depth as int + 1 - used as int),
                Network::spec_passes(*old(self), used as int, *self),
            decreases depth + 1 - used,
        {
            let ghost pre = *self;
            let d = self.relay_pass();
            used = used + 1;
            proof {
                assert(Network::spec_passes(*old(self), used as int - 1, pre));
                assert(Network::spec_pass(pre, *self));
                assert(exists|mid: Network|
                    Network::spec_passes(*old(self), used as int - 1, mid)
                        && #[trigger] Network::spec_pass(mid, *self));
                assert(Network::spec_passes(*old(self), used as int, *self));
            }
            if d == 0 {
                return used;
            }
            proof {
                assert(pre.spec_all_depth_below(depth as int + 2 - used as int));
                assert(self.spec_all_depth_below(depth as int + 1 - used as int));
            }
        }
        proof {
            lemma_settled_when_no_depth(*self);
        }
        used
    }
}

} // verus!
