//! The ingest gateway: the per-library mailbox between a sync session
//! and the CRDT apply layer, and the try-lock that admits at most one
//! inbound session to it at a time.

use crate::message::{ops_view, CrdtOperation, CrdtOperationView};
use vstd::prelude::*;

verus! {

/// Cap on the operations requested in one batch.
pub const OPS_PER_REQUEST: u32 = 1000;

/// What the ingest pipeline asks of the session serving it.
#[derive(Clone, PartialEq, Eq, Debug)]
pub enum IngestRequest {
    /// More operations are needed beyond these clock values.
    Messages { timestamps: Vec<(u128, u64)> },
    /// Nothing is missing any more; the session may end.
    FinishedIngesting,
    /// A request unrelated to this transport; the session ignores it.
    Ingested,
}

/// Mathematical image of an `IngestRequest`.
pub ghost enum IngestRequestView {
    Messages { timestamps: Seq<(u128, u64)> },
    FinishedIngesting,
    Ingested,
}

impl View for IngestRequest {
    type V = IngestRequestView;

    open spec fn view(&self) -> IngestRequestView {
        match self {
            IngestRequest::Messages { timestamps } => IngestRequestView::Messages {
                timestamps: timestamps@,
            },
            IngestRequest::FinishedIngesting => IngestRequestView::FinishedIngesting,
            IngestRequest::Ingested => IngestRequestView::Ingested,
        }
    }
}

/// One delivery into the ingest pipeline: where the operations came
/// from, the operations, and whether the peer may hold more.
#[derive(Clone, PartialEq, Eq, Debug)]
pub struct MessagesEvent {
    pub instance_id: u128,
    pub messages: Vec<CrdtOperation>,
    pub has_more: bool,
}

/// Mathematical image of a `MessagesEvent`.
pub ghost struct MessagesEventView {
    pub instance_id: u128,
    pub messages: Seq<CrdtOperationView>,
    pub has_more: bool,
}

impl View for MessagesEvent {
    type V = MessagesEventView;

    open spec fn view(&self) -> MessagesEventView {
        MessagesEventView {
            instance_id: self.instance_id,
            messages: ops_view(self.messages@),
            has_more: self.has_more,
        }
    }
}

/// What a session reports into the ingest pipeline.
#[derive(Clone, PartialEq, Eq, Debug)]
pub enum IngestEvent {
    /// A sync session has started.
    Notification,
    /// A batch of operations has arrived.
    Messages(MessagesEvent),
}

/// Mathematical image of an `IngestEvent`.
pub ghost enum IngestEventView {
    Notification,
    Messages(MessagesEventView),
}

impl View for IngestEvent {
    type V = IngestEventView;

    open spec fn view(&self) -> IngestEventView {
        match self {
            IngestEvent::Notification => IngestEventView::Notification,
            IngestEvent::Messages(m) => IngestEventView::Messages(m@),
        }
    }
}

/// Wrap a received batch for delivery into ingest.  `has_more` is set
/// exactly when the batch is full: a full batch means the peer may hold
/// more, a short one that the suffix is exhausted.
pub fn make_messages_event(instance_id: u128, ops: Vec<CrdtOperation>) -> (r: MessagesEvent)
    ensures
        r@.instance_id == instance_id,
        r@.messages == ops_view(ops@),
        r@.has_more == (ops@.len() == OPS_PER_REQUEST),
{
    let has_more = ops.len() == OPS_PER_REQUEST as usize;
    MessagesEvent { instance_id, messages: ops, has_more }
}

/// The exclusive hold on a library's ingest request receiver.  At most
/// one inbound session serves a library at a time; a second attempt is
/// turned away, never queued.
pub struct IngestLock {
    pub held: bool,
}

/// What one non-blocking acquisition attempt does: it succeeds exactly
/// when the lock is free, and the lock is held afterwards either way.
pub open spec fn spec_try_acquire(l: IngestLock) -> (IngestLock, bool) {
    if l.held {
        (l, false)
    } else {
        (IngestLock { held: true }, true)
    }
}

impl IngestLock {
    /// A fresh lock, held by nobody.
    pub fn new() -> (r: IngestLock)
        ensures
            !r.held,
    {
        IngestLock { held: false }
    }

    /// Try to take the lock without waiting.
    pub fn try_acquire(&mut self) -> (r: bool)
        ensures
            (*final(self), r) == spec_try_acquire(*old(self)),
            r == !old(self).held,
            final(self).held,
    {
        let was = self.held;
        self.held = true;
        !was
    }

    /// Give the lock back.
    pub fn release(&mut self)
        ensures
            !final(self).held,
    {
        self.held = false;
    }
}

/// Mutual exclusion: on a free lock, the first of two acquisition
/// attempts succeeds and the second fails.
pub proof fn lemma_try_lock_exclusive(l: IngestLock)
    requires
        !l.held,
    ensures
        ({
            let (l1, first) = spec_try_acquire(l);
            let (l2, second) = spec_try_acquire(l1);
            first && !second && l2.held
        }),
{
}

/// Copy a clock list.
#[verifier::loop_isolation(false)]
pub fn copy_clocks(clocks: &Vec<(u128, u64)>) -> (r: Vec<(u128, u64)>)
    ensures
        r@ == clocks@,
{
    let mut out: Vec<(u128, u64)> = Vec::new();
    let mut i: usize = 0;
    while i < clocks.len()
        invariant
            0 <= i <= clocks@.len(),
            out@ == clocks@.take(i as int),
        decreases clocks@.len() - i,
    {
        out.push(clocks[i]);
        proof {
            assert(out@ =~= clocks@.take(i + 1));
        }
        i = i + 1;
    }
    proof {
        assert(clocks@.take(clocks@.len() as int) =~= clocks@);
    }
    out
}

/// Copy a list of operations.
#[verifier::loop_isolation(false)]
pub fn copy_ops(ops: &Vec<CrdtOperation>) -> (r: Vec<CrdtOperation>)
    ensures
        ops_view(r@) == ops_view(ops@),
{
    let mut out: Vec<CrdtOperation> = Vec::new();
    let mut i: usize = 0;
    while i < ops.len()
        invariant
            0 <= i <= ops@.len(),
            ops_view(out@) == ops_view(ops@.take(i as int)),
        decreases ops@.len() - i,
    {
        let d = ops[i].duplicate();
        proof {
            assert(d@ == ops@[i as int]@);
            assert(ops_view(out@.push(d)) =~= ops_view(out@) + seq![d@]);
            assert(ops_view(ops@.take(i + 1)) =~= ops_view(ops@.take(i as int)) + seq![
                ops@[i as int]@,
            ]);
        }
        out.push(d);
        i = i + 1;
    }
    proof {
        assert(ops@.take(ops@.len() as int) =~= ops@);
    }
    out
}

} // verus!
