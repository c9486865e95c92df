//! Bookkeeping of the background thumbnail worker.
//!
//! The frontend sends request and cancel messages; the worker keeps a LIFO stack of
//! requested ids (the most recent request on top), the set of cancelled ids, and the set
//! of ids queued or being processed, so that an id is not queued twice
//! (`law_no_id_queued_twice`). Generating
//! thumbnails and emitting events is done by the caller around this state.

use vstd::prelude::*;
use std::collections::HashSet;

verus! {

broadcast use vstd::std_specs::hash::group_hash_axioms;

/// At most this many cancelled ids are kept before the cancelled set is pruned.
pub const CANCELLED_PRUNE_THRESHOLD: usize = 500;

/// Window of the processing rate, in milliseconds.
pub const RATE_WINDOW_MS: u64 = 5000;

/// Completion timestamps older than this are dropped, in milliseconds.
pub const TIMESTAMP_KEEP_MS: u64 = 10000;

/// Messages the frontend sends to the thumbnail worker.
#[derive(Debug)]
pub enum ThumbnailMsg {
    Request(Vec<i64>),
    Cancel(Vec<i64>),
}

/// Sent when the thumbnail of one asset is done.
#[derive(Debug, Clone, Copy)]
pub struct ThumbnailReady {
    pub asset_id: i64,
    pub success: bool,
}

/// The counts behind the periodic statistics.
#[derive(Debug, Clone, Copy)]
pub struct WorkerCounts {
    /// Ids waiting on the stack.
    pub queued: usize,
    /// Ids being generated.
    pub processing: usize,
    /// Thumbnails done.
    pub loaded: u64,
    /// Thumbnails that failed.
    pub failed: u64,
    /// Thumbnails done within the last `RATE_WINDOW_MS`.
    pub recent: usize,
}

/// The worker's state.
pub struct WorkerState {
    /// LIFO stack: the most recently requested id is on top (last).
    pub pending: Vec<i64>,
    /// Ids the frontend no longer wants.
    pub cancelled: HashSet<i64>,
    /// Ids queued or being processed, so they are not queued twice.
    pub in_flight: HashSet<i64>,
    pub loaded: u64,
    pub failed: u64,
    pub processing: usize,
    /// Completion times in milliseconds since the epoch.
    pub recent_timestamps: Vec<u64>,
}

/// Pending stack, cancelled set and in-flight set after requesting `ids` in order: each
/// id is uncancelled, and pushed unless it was already in flight.
pub open spec fn after_requests(p: Seq<i64>, c: Set<i64>, f: Set<i64>, ids: Seq<i64>) -> (Seq<i64>, Set<i64>, Set<i64>)
    decreases ids.len(),
{
    if ids.len() == 0 {
        (p, c, f)
    } else {
        let (p1, c1, f1) = after_requests(p, c, f, ids.drop_last());
        let id = ids.last();
        if f1.contains(id) {
            (p1, c1.remove(id), f1)
        } else {
            (p1.push(id), c1.remove(id), f1.insert(id))
        }
    }
}

/// One popping round: state before popping, the batch so far, and how many to take.
pub open spec fn after_pops(p: Seq<i64>, c: Set<i64>, f: Set<i64>, batch: Seq<i64>, n: nat) -> (Seq<i64>, Set<i64>, Set<i64>, Seq<i64>)
    decreases p.len(),
{
    if batch.len() >= n || p.len() == 0 {
        (p, c, f, batch)
    } else {
        let id = p.last();
        if c.contains(id) {
            after_pops(p.drop_last(), c.remove(id), f.remove(id), batch, n)
        } else {
            after_pops(p.drop_last(), c, f, batch.push(id), n)
        }
    }
}

/// The in-flight set after cancelling `ids` with `p` on the stack: a cancelled id leaves
/// it unless it is still on the stack, where it stays until it is popped and dropped.
pub open spec fn after_cancels(p: Seq<i64>, f: Set<i64>, ids: Seq<i64>) -> Set<i64> {
    f.difference(ids.to_set().difference(p.to_set()))
}

/// The in-flight set once `id` is done: it leaves unless it was requested again and is
/// back on the stack.
pub open spec fn after_done(p: Seq<i64>, f: Set<i64>, id: i64) -> Set<i64> {
    if p.contains(id) {
        f
    } else {
        f.remove(id)
    }
}

/// The cancelled set after a popping round left `c` cancelled and `f` in flight: pruned
/// to the ids still in flight once it grows past `CANCELLED_PRUNE_THRESHOLD`.
pub open spec fn pruned(c: Set<i64>, f: Set<i64>) -> Set<i64> {
    if c.len() > CANCELLED_PRUNE_THRESHOLD {
        c.intersect(f)
    } else {
        c
    }
}

/// The stack holds no id twice, and every id on it is in flight.
pub open spec fn queue_ok(p: Seq<i64>, f: Set<i64>) -> bool {
    &&& p.no_duplicates()
    &&& forall|i: int| 0 <= i < p.len() ==> f.contains(#[trigger] p[i])
}

/// One change to the worker's queue: a request, a cancel, a batch popped, or an id done
/// (its thumbnail made or failed).
pub enum QueueOp {
    Request(Seq<i64>),
    Cancel(Seq<i64>),
    Pop(nat),
    Done(i64),
}

/// Stack, cancelled set and in-flight set after `op`.
pub open spec fn queue_step(q: (Seq<i64>, Set<i64>, Set<i64>), op: QueueOp) -> (Seq<i64>, Set<i64>, Set<i64>) {
    match op {
        QueueOp::Request(ids) => after_requests(q.0, q.1, q.2, ids),
        QueueOp::Cancel(ids) => (q.0, q.1.union(ids.to_set()), after_cancels(q.0, q.2, ids)),
        QueueOp::Pop(n) => {
            let (p2, c2, f2, b2) = after_pops(q.0, q.1, q.2, Seq::empty(), n);
            (p2, pruned(c2, f2), f2)
        },
        QueueOp::Done(id) => (q.0, q.1, after_done(q.0, q.2, id)),
    }
}

/// Stack, cancelled set and in-flight set of a new worker after `ops`, in order.
pub open spec fn queue_run(ops: Seq<QueueOp>) -> (Seq<i64>, Set<i64>, Set<i64>)
    decreases ops.len(),
{
    if ops.len() == 0 {
        (Seq::empty(), Set::empty(), Set::empty())
    } else {
        queue_step(queue_run(ops.drop_last()), ops.last())
    }
}

proof fn lemma_requests_keep_queue(p: Seq<i64>, c: Set<i64>, f: Set<i64>, ids: Seq<i64>)
    requires
        queue_ok(p, f),
    ensures
        queue_ok(after_requests(p, c, f, ids).0, after_requests(p, c, f, ids).2),
        forall|i: int| 0 <= i < ids.len() ==> after_requests(p, c, f, ids).2.contains(#[trigger] ids[i])
            && !after_requests(p, c, f, ids).1.contains(ids[i]),
    decreases ids.len(),
{
    if ids.len() > 0 {
        let init = ids.drop_last();
        lemma_requests_keep_queue(p, c, f, init);
        let (p1, c1, f1) = after_requests(p, c, f, init);
        let id = ids.last();
        if !f1.contains(id) {
            assert(!p1.contains(id));
            let p2 = p1.push(id);
            assert forall|a: int, b: int| 0 <= a < p2.len() && 0 <= b < p2.len() && a != b implies p2[a] != p2[b] by {
                if a < p1.len() && b < p1.len() {
                    assert(p2[a] == p1[a] && p2[b] == p1[b]);
                } else if a < p1.len() {
                    assert(p1.contains(p2[a]));
                } else {
                    assert(p1.contains(p2[b]));
                }
            }
        }
        assert forall|i: int| 0 <= i < ids.len() implies after_requests(p, c, f, ids).2.contains(#[trigger] ids[i])
            && !after_requests(p, c, f, ids).1.contains(ids[i]) by {
            if i < ids.len() - 1 {
                assert(init[i] == ids[i]);
            }
        }
    }
}

proof fn lemma_pops_keep_queue(p: Seq<i64>, c: Set<i64>, f: Set<i64>, batch: Seq<i64>, n: nat)
    requires
        queue_ok(p, f),
    ensures
        queue_ok(after_pops(p, c, f, batch, n).0, after_pops(p, c, f, batch, n).2),
    decreases p.len(),
{
    if batch.len() < n && p.len() > 0 {
        let id = p.last();
        let d = p.drop_last();
        assert forall|a: int, b: int| 0 <= a < d.len() && 0 <= b < d.len() && a != b implies d[a] != d[b] by {
            assert(d[a] == p[a] && d[b] == p[b]);
        }
        if c.contains(id) {
            assert forall|i: int| 0 <= i < d.len() implies f.remove(id).contains(#[trigger] d[i]) by {
                assert(d[i] == p[i]);
                assert(p[i] != p[p.len() - 1]);
            }
            lemma_pops_keep_queue(d, c.remove(id), f.remove(id), batch, n);
        } else {
            assert forall|i: int| 0 <= i < d.len() implies f.contains(#[trigger] d[i]) by {
                assert(d[i] == p[i]);
            }
            lemma_pops_keep_queue(d, c, f, batch.push(id), n);
        }
    }
}

/// Every change to the queue keeps it free of duplicates, with every queued id in flight.
pub proof fn lemma_step_keeps_queue(q: (Seq<i64>, Set<i64>, Set<i64>), op: QueueOp)
    requires
        queue_ok(q.0, q.2),
    ensures
        queue_ok(queue_step(q, op).0, queue_step(q, op).2),
{
    match op {
        QueueOp::Request(ids) => lemma_requests_keep_queue(q.0, q.1, q.2, ids),
        QueueOp::Cancel(ids) => {
            assert forall|i: int| 0 <= i < q.0.len() implies after_cancels(q.0, q.2, ids).contains(#[trigger] q.0[i]) by {
                assert(q.0.to_set().contains(q.0[i]));
            }
        },
        QueueOp::Pop(n) => lemma_pops_keep_queue(q.0, q.1, q.2, Seq::empty(), n),
        QueueOp::Done(id) => {
            assert forall|i: int| 0 <= i < q.0.len() implies after_done(q.0, q.2, id).contains(#[trigger] q.0[i]) by {
                if !q.0.contains(id) {
                    assert(q.0[i] != id);
                }
            }
        },
    }
}

/// No id is queued twice: from a new worker, through any requests, cancels, popped
/// batches and finished thumbnails, the stack holds each id at most once and every id
/// on it is in the in-flight set.
pub proof fn law_no_id_queued_twice(ops: Seq<QueueOp>)
    ensures
        queue_ok(queue_run(ops).0, queue_run(ops).2),
    decreases ops.len(),
{
    if ops.len() > 0 {
        law_no_id_queued_twice(ops.drop_last());
        lemma_step_keeps_queue(queue_run(ops.drop_last()), ops.last());
    }
}

/// A request leaves each requested id in flight and no longer cancelled.
pub proof fn law_requested_ids_in_flight(q: (Seq<i64>, Set<i64>, Set<i64>), ids: Seq<i64>, i: int)
    requires
        queue_ok(q.0, q.2),
        0 <= i < ids.len(),
    ensures
        queue_step(q, QueueOp::Request(ids)).2.contains(ids[i]),
        !queue_step(q, QueueOp::Request(ids)).1.contains(ids[i]),
{
    lemma_requests_keep_queue(q.0, q.1, q.2, ids);
}

/// Timestamps later than `cutoff`.
pub open spec fn later_than(ts: Seq<u64>, cutoff: u64) -> Seq<u64> {
    ts.filter(|t: u64| t > cutoff)
}

/// `now - window`, or 0 when `now` is smaller.
pub open spec fn cutoff(now: u64, window: u64) -> u64 {
    if now >= window {
        (now - window) as u64
    } else {
        0
    }
}

/// Popping takes from the top of the stack only: what stays is a bottom part of the
/// stack, and the ids popped into the batch (at most `n` when the batch started with at
/// most `n`) were on the stack and are not cancelled afterwards; the cancelled and
/// in-flight sets only lose ids.
pub proof fn law_pops_take_from_the_top(p: Seq<i64>, c: Set<i64>, f: Set<i64>, batch: Seq<i64>, n: nat)
    ensures
        ({
            let (p2, c2, f2, b2) = after_pops(p, c, f, batch, n);
            &&& p2.len() <= p.len()
            &&& p2 == p.subrange(0, p2.len() as int)
            &&& b2.subrange(0, batch.len() as int) == batch
            &&& batch.len() <= b2.len()
            &&& (batch.len() <= n ==> b2.len() <= n)
            &&& c2.subset_of(c)
            &&& f2.subset_of(f)
            &&& forall|i: int| batch.len() <= i < b2.len() ==> !c2.contains(#[trigger] b2[i]) && p.contains(b2[i])
        }),
    decreases p.len(),
{
    if batch.len() >= n || p.len() == 0 {
        assert(p.subrange(0, p.len() as int) =~= p);
        assert(batch.subrange(0, batch.len() as int) =~= batch);
    } else {
        let id = p.last();
        if c.contains(id) {
            law_pops_take_from_the_top(p.drop_last(), c.remove(id), f.remove(id), batch, n);
            let (p2, c2, f2, b2) = after_pops(p.drop_last(), c.remove(id), f.remove(id), batch, n);
            assert(p2 =~= p.subrange(0, p2.len() as int));
            assert forall|i: int| batch.len() <= i < b2.len() implies !c2.contains(#[trigger] b2[i]) && p.contains(b2[i]) by {
                assert(p.drop_last().contains(b2[i]));
                let j = choose|j: int| 0 <= j < p.drop_last().len() && p.drop_last()[j] == b2[i];
                assert(p[j] == b2[i]);
            }
        } else {
            law_pops_take_from_the_top(p.drop_last(), c, f, batch.push(id), n);
            let (p2, c2, f2, b2) = after_pops(p.drop_last(), c, f, batch.push(id), n);
            assert(p2 =~= p.subrange(0, p2.len() as int));
            assert(b2.subrange(0, batch.len() as int) =~= b2.subrange(0, batch.len() as int + 1).subrange(0, batch.len() as int));
            assert forall|i: int| batch.len() <= i < b2.len() implies !c2.contains(#[trigger] b2[i]) && p.contains(b2[i]) by {
                if i == batch.len() {
                    assert(b2[i] == b2.subrange(0, batch.len() as int + 1)[i]);
                    assert(b2[i] == id);
                    assert(p[p.len() - 1] == id);
                } else {
                    assert(p.drop_last().contains(b2[i]));
                    let j = choose|j: int| 0 <= j < p.drop_last().len() && p.drop_last()[j] == b2[i];
                    assert(p[j] == b2[i]);
                }
            }
        }
    }
}

impl WorkerState {
    pub fn new() -> (r: Self)
        ensures
            r.pending@ == Seq::<i64>::empty(),
            r.cancelled@ == Set::<i64>::empty(),
            r.in_flight@ == Set::<i64>::empty(),
            r.loaded == 0,
            r.failed == 0,
            r.processing == 0,
            r.recent_timestamps@ == Seq::<u64>::empty(),
            (r.pending@, r.cancelled@, r.in_flight@) == queue_run(Seq::<QueueOp>::empty()),
    {
        WorkerState {
            pending: Vec::new(),
            cancelled: HashSet::new(),
            in_flight: HashSet::new(),
            loaded: 0,
            failed: 0,
            processing: 0,
            recent_timestamps: Vec::new(),
        }
    }

    /// Requests thumbnails for `ids`, in order: each id is uncancelled, and pushed on the
    /// stack unless it is already queued or being processed.
    pub fn add_requests(&mut self, ids: Vec<i64>)
        ensures
            (final(self).pending@, final(self).cancelled@, final(self).in_flight@) == after_requests(
                old(self).pending@,
                old(self).cancelled@,
                old(self).in_flight@,
                ids@,
            ),
            (final(self).pending@, final(self).cancelled@, final(self).in_flight@) == queue_step(
                (old(self).pending@, old(self).cancelled@, old(self).in_flight@),
                QueueOp::Request(ids@),
            ),
            final(self).loaded == old(self).loaded,
            final(self).failed == old(self).failed,
            final(self).processing == old(self).processing,
            final(self).recent_timestamps@ == old(self).recent_timestamps@,
    {
        let ghost p0 = self.pending@;
        let ghost c0 = self.cancelled@;
        let ghost f0 = self.in_flight@;
        let mut i: usize = 0;
        while i < ids.len()
            invariant
                i <= ids@.len(),
                (self.pending@, self.cancelled@, self.in_flight@) == after_requests(p0, c0, f0, ids@.subrange(0, i as int)),
                self.loaded == old(self).loaded,
                self.failed == old(self).failed,
                self.processing == old(self).processing,
                self.recent_timestamps@ == old(self).recent_timestamps@,
            decreases ids@.len() - i,
        {
            let id = ids[i];
            proof {
                assert(ids@.subrange(0, i + 1).drop_last() =~= ids@.subrange(0, i as int));
            }
            self.cancelled.remove(&id);
            if self.in_flight.insert(id) {
                self.pending.push(id);
            }
            i = i + 1;
        }
        proof {
            assert(ids@.subrange(0, i as int) =~= ids@);
        }
    }

    /// Cancels `ids`: they become cancelled. One still on the stack stays there, and in
    /// flight, until it is popped and dropped; any other leaves the in-flight set.
    pub fn add_cancels(&mut self, ids: Vec<i64>)
        ensures
            final(self).cancelled@ == old(self).cancelled@.union(ids@.to_set()),
            final(self).in_flight@ == after_cancels(old(self).pending@, old(self).in_flight@, ids@),
            final(self).pending@ == old(self).pending@,
            (final(self).pending@, final(self).cancelled@, final(self).in_flight@) == queue_step(
                (old(self).pending@, old(self).cancelled@, old(self).in_flight@),
                QueueOp::Cancel(ids@),
            ),
            final(self).loaded == old(self).loaded,
            final(self).failed == old(self).failed,
            final(self).processing == old(self).processing,
            final(self).recent_timestamps@ == old(self).recent_timestamps@,
    {
        let ghost ps = self.pending@.to_set();
        let mut i: usize = 0;
        while i < ids.len()
            invariant
                i <= ids@.len(),
                ps == self.pending@.to_set(),
                self.cancelled@ == old(self).cancelled@.union(ids@.subrange(0, i as int).to_set()),
                self.in_flight@ == old(self).in_flight@.difference(ids@.subrange(0, i as int).to_set().difference(ps)),
                self.pending@ == old(self).pending@,
                self.loaded == old(self).loaded,
                self.failed == old(self).failed,
                self.processing == old(self).processing,
                self.recent_timestamps@ == old(self).recent_timestamps@,
            decreases ids@.len() - i,
        {
            let id = ids[i];
            proof {
                assert(ids@.subrange(0, i + 1) =~= ids@.subrange(0, i as int).push(id));
                assert(ids@.subrange(0, i as int).push(id).to_set() =~= ids@.subrange(0, i as int).to_set().insert(id)) by {
                    broadcast use vstd::seq_lib::group_seq_properties;
                }
            }
            self.cancelled.insert(id);
            let queued = stack_holds(&self.pending, id);
            if !queued {
                self.in_flight.remove(&id);
            }
            proof {
                broadcast use vstd::seq_lib::group_seq_properties;
                assert(queued == ps.contains(id));
                assert(self.cancelled@ =~= old(self).cancelled@.union(ids@.subrange(0, i + 1).to_set()));
                assert(self.in_flight@ =~= old(self).in_flight@.difference(ids@.subrange(0, i + 1).to_set().difference(ps)));
            }
            i = i + 1;
        }
        proof {
            assert(ids@.subrange(0, i as int) =~= ids@);
        }
    }
}

/// Whether `id` is on the stack `p`.
fn stack_holds(p: &Vec<i64>, id: i64) -> (r: bool)
    ensures
        r == p@.contains(id),
{
    let mut i: usize = 0;
    while i < p.len()
        invariant
            i <= p@.len(),
            forall|j: int| 0 <= j < i ==> p@[j] != id,
        decreases p@.len() - i,
    {
        if p[i] == id {
            return true;
        }
        i = i + 1;
    }
    false
}

impl WorkerState {
    /// Keeps only the cancelled ids that are still in flight.
    fn prune_cancelled(&mut self)
        ensures
            final(self).cancelled@ == old(self).cancelled@.intersect(old(self).in_flight@),
            final(self).pending@ == old(self).pending@,
            final(self).in_flight@ == old(self).in_flight@,
            final(self).loaded == old(self).loaded,
            final(self).failed == old(self).failed,
            final(self).processing == old(self).processing,
            final(self).recent_timestamps@ == old(self).recent_timestamps@,
    {
        let mut kept: HashSet<i64> = HashSet::new();
        let ghost all = self.cancelled@;
        for id in it: self.cancelled.iter()
            invariant
                all == self.cancelled@,
                it.seq().unref().to_set() == all,
                it.seq().take(it.seq().len() as int) == it.seq(),
                kept@ == it.seq().take(it.index() as int).unref().to_set().intersect(self.in_flight@),
        {
            proof {
                broadcast use vstd::seq_lib::group_seq_properties;
                assert(it.seq().take(it.index() as int + 1).unref() =~= it.seq().take(it.index() as int).unref().push(*id));
            }
            if self.in_flight.contains(id) {
                kept.insert(*id);
            }
            proof {
                broadcast use vstd::seq_lib::group_seq_properties;
                assert(kept@ =~= it.seq().take(it.index() as int + 1).unref().to_set().intersect(self.in_flight@));
            }
        }
        self.cancelled = kept;
    }
}

impl WorkerState {
    /// Pops up to `n` ids that are not cancelled from the top of the stack; cancelled
    /// ids met on the way are dropped (uncancelled and taken out of the in-flight set).
    /// Afterwards, when more than `CANCELLED_PRUNE_THRESHOLD` ids are cancelled, only
    /// those still in flight stay cancelled.
    pub fn pop_batch(&mut self, n: usize) -> (batch: Vec<i64>)
        ensures
            ({
                let (p2, c2, f2, b2) = after_pops(
                    old(self).pending@,
                    old(self).cancelled@,
                    old(self).in_flight@,
                    Seq::<i64>::empty(),
                    n as nat,
                );
                &&& batch@ == b2
                &&& final(self).pending@ == p2
                &&& final(self).in_flight@ == f2
                &&& final(self).cancelled@ == pruned(c2, f2)
            }),
            (final(self).pending@, final(self).cancelled@, final(self).in_flight@) == queue_step(
                (old(self).pending@, old(self).cancelled@, old(self).in_flight@),
                QueueOp::Pop(n as nat),
            ),
            final(self).loaded == old(self).loaded,
            final(self).failed == old(self).failed,
            final(self).processing == old(self).processing,
            final(self).recent_timestamps@ == old(self).recent_timestamps@,
    {
        let ghost target = after_pops(
            self.pending@,
            self.cancelled@,
            self.in_flight@,
            Seq::<i64>::empty(),
            n as nat,
        );
        let mut batch: Vec<i64> = Vec::new();
        while batch.len() < n && self.pending.len() > 0
            invariant
                after_pops(self.pending@, self.cancelled@, self.in_flight@, batch@, n as nat) == target,
                self.loaded == old(self).loaded,
                self.failed == old(self).failed,
                self.processing == old(self).processing,
                self.recent_timestamps@ == old(self).recent_timestamps@,
            decreases self.pending@.len(),
        {
            let ghost p = self.pending@;
            let ghost c0 = self.cancelled@;
            let ghost f0 = self.in_flight@;
            let ghost b0 = batch@;
            let id = self.pending.pop().unwrap();
            proof {
                assert(self.pending@ == p.drop_last());
                assert(id == p.last());
            }
            if self.cancelled.remove(&id) {
                self.in_flight.remove(&id);
                proof {
                    assert(c0.contains(id));
                    assert(self.cancelled@ == c0.remove(id));
                    assert(self.in_flight@ == f0.remove(id));
                    assert(batch@ == b0);
                }
            } else {
                batch.push(id);
                proof {
                    assert(!c0.contains(id));
                    assert(self.cancelled@ == c0);
                    assert(batch@ == b0.push(id));
                }
            }
            proof {
                assert(b0.len() < n);
                assert(p.len() > 0);
                assert(after_pops(p, c0, f0, b0, n as nat) == after_pops(
                    self.pending@,
                    self.cancelled@,
                    self.in_flight@,
                    batch@,
                    n as nat,
                ));
            }
        }
        if self.cancelled.len() > CANCELLED_PRUNE_THRESHOLD {
            self.prune_cancelled();
        }
        batch
    }

    /// Whether the frontend cancelled `id`.
    pub fn is_cancelled(&self, id: i64) -> (r: bool)
        ensures
            r == self.cancelled@.contains(id),
    {
        self.cancelled.contains(&id)
    }

    /// The thumbnail of `id` is done at time `now` (milliseconds); `id` leaves the
    /// in-flight set unless it was requested again meanwhile and is back on the stack.
    pub fn record_success(&mut self, id: i64, now: u64)
        requires
            old(self).loaded < u64::MAX,
        ensures
            final(self).in_flight@ == after_done(old(self).pending@, old(self).in_flight@, id),
            (final(self).pending@, final(self).cancelled@, final(self).in_flight@) == queue_step(
                (old(self).pending@, old(self).cancelled@, old(self).in_flight@),
                QueueOp::Done(id),
            ),
            final(self).loaded == old(self).loaded + 1,
            final(self).recent_timestamps@ == old(self).recent_timestamps@.push(now),
            final(self).pending@ == old(self).pending@,
            final(self).cancelled@ == old(self).cancelled@,
            final(self).failed == old(self).failed,
            final(self).processing == old(self).processing,
    {
        if !stack_holds(&self.pending, id) {
            self.in_flight.remove(&id);
        }
        self.loaded = self.loaded + 1;
        self.recent_timestamps.push(now);
    }

    /// The thumbnail of `id` failed; `id` leaves the in-flight set as in `record_success`.
    pub fn record_failure(&mut self, id: i64)
        requires
            old(self).failed < u64::MAX,
        ensures
            final(self).in_flight@ == after_done(old(self).pending@, old(self).in_flight@, id),
            (final(self).pending@, final(self).cancelled@, final(self).in_flight@) == queue_step(
                (old(self).pending@, old(self).cancelled@, old(self).in_flight@),
                QueueOp::Done(id),
            ),
            final(self).failed == old(self).failed + 1,
            final(self).recent_timestamps@ == old(self).recent_timestamps@,
            final(self).pending@ == old(self).pending@,
            final(self).cancelled@ == old(self).cancelled@,
            final(self).loaded == old(self).loaded,
            final(self).processing == old(self).processing,
    {
        if !stack_holds(&self.pending, id) {
            self.in_flight.remove(&id);
        }
        self.failed = self.failed + 1;
    }

    /// The counts for the statistics at time `now`: `recent` counts the completions
    /// later than `now - RATE_WINDOW_MS`.
    pub fn stats(&self, now: u64) -> (r: WorkerCounts)
        ensures
            r.queued == self.pending@.len(),
            r.processing == self.processing,
            r.loaded == self.loaded,
            r.failed == self.failed,
            r.recent == later_than(self.recent_timestamps@, cutoff(now, RATE_WINDOW_MS)).len(),
    {
        let cut = if now >= RATE_WINDOW_MS { now - RATE_WINDOW_MS } else { 0 };
        let kept = keep_later(&self.recent_timestamps, cut);
        WorkerCounts {
            queued: self.pending.len(),
            processing: self.processing,
            loaded: self.loaded,
            failed: self.failed,
            recent: kept.len(),
        }
    }

    /// Drops completion times not later than `now - TIMESTAMP_KEEP_MS`.
    pub fn trim_timestamps(&mut self, now: u64)
        ensures
            final(self).recent_timestamps@ == later_than(old(self).recent_timestamps@, cutoff(now, TIMESTAMP_KEEP_MS)),
            final(self).pending@ == old(self).pending@,
            final(self).cancelled@ == old(self).cancelled@,
            final(self).in_flight@ == old(self).in_flight@,
            final(self).loaded == old(self).loaded,
            final(self).failed == old(self).failed,
            final(self).processing == old(self).processing,
    {
        let cut = if now >= TIMESTAMP_KEEP_MS { now - TIMESTAMP_KEEP_MS } else { 0 };
        self.recent_timestamps = keep_later(&self.recent_timestamps, cut);
    }
}

/// The timestamps of `ts` later than `cut`, in order.
fn keep_later(ts: &Vec<u64>, cut: u64) -> (r: Vec<u64>)
    ensures
        r@ == later_than(ts@, cut),
{
    let mut out: Vec<u64> = Vec::new();
    let mut i: usize = 0;
    while i < ts.len()
        invariant
            i <= ts@.len(),
            out@ == later_than(ts@.subrange(0, i as int), cut),
        decreases ts@.len() - i,
    {
        proof {
            reveal_with_fuel(Seq::<u64>::filter, 1);
            assert(ts@.subrange(0, i + 1).drop_last() =~= ts@.subrange(0, i as int));
        }
        if ts[i] > cut {
            out.push(ts[i]);
        }
        i = i + 1;
    }
    proof {
        assert(ts@.subrange(0, i as int) =~= ts@);
    }
    out
}

/// Applies one message from the frontend.
pub fn apply_msg(state: &mut WorkerState, msg: ThumbnailMsg)
    ensures
        match msg {
            ThumbnailMsg::Request(ids) => (final(state).pending@, final(state).cancelled@, final(state).in_flight@)
                == after_requests(old(state).pending@, old(state).cancelled@, old(state).in_flight@, ids@),
            ThumbnailMsg::Cancel(ids) => final(state).cancelled@ == old(state).cancelled@.union(ids@.to_set())
                && final(state).in_flight@ == after_cancels(old(state).pending@, old(state).in_flight@, ids@)
                && final(state).pending@ == old(state).pending@,
        },
        final(state).loaded == old(state).loaded,
        final(state).failed == old(state).failed,
        final(state).processing == old(state).processing,
        final(state).recent_timestamps@ == old(state).recent_timestamps@,
{
    match msg {
        ThumbnailMsg::Request(ids) => state.add_requests(ids),
        ThumbnailMsg::Cancel(ids) => state.add_cancels(ids),
    }
}

} // verus!
