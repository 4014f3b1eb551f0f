//! The responder: the side that accepts a sync session and drives it on
//! behalf of the local ingest pipeline.
//!
//! A session first tries to take the library's ingest lock; a losing
//! contender is turned away with a lone `Done` and delivers nothing.
//! The winner notifies ingest once, then alternates strictly: for each
//! `Messages` request from ingest it sends one `GetOperations` to the
//! peer, waits for the one matching batch, and hands it to ingest; a
//! `FinishedIngesting`, or the request channel closing, ends the session
//! with `Done`.  A dropped connection ends it without a further event.
//! The lock is given back on every exit path.

use crate::ingest::{
    copy_clocks, copy_ops, make_messages_event, spec_try_acquire, IngestEvent, IngestEventView,
    IngestLock, IngestRequest, IngestRequestView, MessagesEventView, OPS_PER_REQUEST,
};
use crate::message::{
    ops_view, CrdtOperation, CrdtOperationView, GetOpsArgs, GetOpsArgsView, MainRequest,
    MainRequestView,
};
use vstd::prelude::*;

verus! {

/// What came back from the peer while a batch was awaited.
#[derive(Clone, PartialEq, Eq, Debug)]
pub enum PeerReply {
    /// The matching `Operations` frame.
    Operations(Vec<CrdtOperation>),
    /// The connection closed first.
    Disconnected,
}

/// Mathematical image of a `PeerReply`.
pub ghost enum PeerReplyView {
    Operations(Seq<CrdtOperationView>),
    Disconnected,
}

impl View for PeerReply {
    type V = PeerReplyView;

    open spec fn view(&self) -> PeerReplyView {
        match self {
            PeerReply::Operations(ops) => PeerReplyView::Operations(ops_view(ops@)),
            PeerReply::Disconnected => PeerReplyView::Disconnected,
        }
    }
}

/// Everything one responder session did: the frames it wrote to the
/// peer, the events it delivered into ingest, and whether it ended by
/// sending `Done`.
#[derive(Clone, PartialEq, Eq, Debug)]
pub struct SessionTranscript {
    pub sent: Vec<MainRequest>,
    pub events: Vec<IngestEvent>,
    pub completed: bool,
}

/// Mathematical image of a `SessionTranscript`.
pub ghost struct TranscriptView {
    pub sent: Seq<MainRequestView>,
    pub events: Seq<IngestEventView>,
    pub completed: bool,
}

impl View for SessionTranscript {
    type V = TranscriptView;

    open spec fn view(&self) -> TranscriptView {
        TranscriptView {
            sent: sent_view(self.sent@),
            events: events_view(self.events@),
            completed: self.completed,
        }
    }
}

/// The view of a sequence of requests, element by element.
pub open spec fn reqs_view(s: Seq<IngestRequest>) -> Seq<IngestRequestView> {
    s.map_values(|r: IngestRequest| r@)
}

/// The view of a sequence of replies, element by element.
pub open spec fn replies_view(s: Seq<PeerReply>) -> Seq<PeerReplyView> {
    s.map_values(|r: PeerReply| r@)
}

/// The view of a sequence of events, element by element.
pub open spec fn events_view(s: Seq<IngestEvent>) -> Seq<IngestEventView> {
    s.map_values(|e: IngestEvent| e@)
}

/// The view of a sequence of outbound requests, element by element.
pub open spec fn sent_view(s: Seq<MainRequest>) -> Seq<MainRequestView> {
    s.map_values(|m: MainRequest| m@)
}

/// The request sent to the peer for one `Messages{timestamps}` ingest
/// request: those clocks, capped at `OPS_PER_REQUEST`.
pub open spec fn spec_get_request(timestamps: Seq<(u128, u64)>) -> MainRequestView {
    MainRequestView::GetOperations(GetOpsArgsView { clocks: timestamps, count: OPS_PER_REQUEST })
}

/// The event delivered into ingest for one received batch.
pub open spec fn spec_batch_event(instance_id: u128, ops: Seq<CrdtOperationView>) -> IngestEventView {
    IngestEventView::Messages(
        MessagesEventView {
            instance_id,
            messages: ops,
            has_more: ops.len() == OPS_PER_REQUEST,
        },
    )
}

/// The loop of an accepted session, as a function of what ingest asks
/// and what the peer answers.  Requests are consumed from the front;
/// each `Messages` request consumes one reply.
pub open spec fn spec_responder_loop(
    reqs: Seq<IngestRequestView>,
    replies: Seq<PeerReplyView>,
    instance_id: u128,
) -> TranscriptView
    decreases reqs.len(),
{
    if reqs.len() == 0 {
        // The request channel closed: end the session cleanly.
        TranscriptView { sent: seq![MainRequestView::Done], events: Seq::empty(), completed: true }
    } else {
        match reqs[0] {
            IngestRequestView::FinishedIngesting => TranscriptView {
                sent: seq![MainRequestView::Done],
                events: Seq::empty(),
                completed: true,
            },
            IngestRequestView::Ingested => spec_responder_loop(reqs.skip(1), replies, instance_id),
            IngestRequestView::Messages { timestamps } => {
                if replies.len() == 0 || replies[0] is Disconnected {
                    // The connection dropped while the batch was
                    // awaited: no event reaches ingest, no `Done` is
                    // sent.
                    TranscriptView {
                        sent: seq![spec_get_request(timestamps)],
                        events: Seq::empty(),
                        completed: false,
                    }
                } else {
                    let ops = replies[0]->Operations_0;
                    let rec = spec_responder_loop(reqs.skip(1), replies.skip(1), instance_id);
                    TranscriptView {
                        sent: seq![spec_get_request(timestamps)] + rec.sent,
                        events: seq![spec_batch_event(instance_id, ops)] + rec.events,
                        completed: rec.completed,
                    }
                }
            },
        }
    }
}

/// A whole inbound session.  With the lock already held by another
/// session it is turned away: a lone `Done`, no events.  Otherwise
/// ingest hears one notification, then the loop above.
pub open spec fn spec_responder_session(
    lock_held: bool,
    reqs: Seq<IngestRequestView>,
    replies: Seq<PeerReplyView>,
    instance_id: u128,
) -> TranscriptView {
    if lock_held {
        TranscriptView { sent: seq![MainRequestView::Done], events: Seq::empty(), completed: true }
    } else {
        let t = spec_responder_loop(reqs, replies, instance_id);
        TranscriptView {
            sent: t.sent,
            events: seq![IngestEventView::Notification] + t.events,
            completed: t.completed,
        }
    }
}

/// Serve one inbound sync session.  `reqs` is what the ingest pipeline
/// asks, in order; `replies` is what the peer answers, in order.  The
/// transcript is exactly `spec_responder_session`, and the lock is free
/// again afterwards unless another session already held it.
#[verifier::loop_isolation(false)]
pub fn run(
    lock: &mut IngestLock,
    instance_id: u128,
    reqs: &Vec<IngestRequest>,
    replies: &Vec<PeerReply>,
) -> (t: SessionTranscript)
    ensures
        t@.sent == spec_responder_session(
            old(lock).held,
            reqs_view(reqs@),
            replies_view(replies@),
            instance_id,
        ).sent,
        t@.events == spec_responder_session(
            old(lock).held,
            reqs_view(reqs@),
            replies_view(replies@),
            instance_id,
        ).events,
        t@.completed == spec_responder_session(
            old(lock).held,
            reqs_view(reqs@),
            replies_view(replies@),
            instance_id,
        ).completed,
        final(lock).held == old(lock).held,
{
    let ghost rv = reqs_view(reqs@);
    let ghost pv = replies_view(replies@);
    let ghost target = spec_responder_session(old(lock).held, rv, pv, instance_id);
    let acquired = lock.try_acquire();
    if !acquired {
        let mut sent: Vec<MainRequest> = Vec::new();
        sent.push(MainRequest::Done);
        proof {
            assert(sent_view(sent@) =~= seq![MainRequestView::Done]);
            assert(events_view(Seq::<IngestEvent>::empty()) =~= Seq::<IngestEventView>::empty());
        }
        return SessionTranscript { sent, events: Vec::new(), completed: true };
    }
    let mut sent: Vec<MainRequest> = Vec::new();
    let mut events: Vec<IngestEvent> = Vec::new();
    events.push(IngestEvent::Notification);
    let mut i: usize = 0;
    let mut j: usize = 0;
    proof {
        assert(rv.skip(0) =~= rv);
        assert(pv.skip(0) =~= pv);
        assert(sent_view(sent@) =~= Seq::<MainRequestView>::empty());
        assert(events_view(events@) =~= seq![IngestEventView::Notification]);
    }
    loop
        invariant
            !old(lock).held,
            lock.held,
            0 <= i <= reqs@.len(),
            0 <= j <= replies@.len(),
            ({
                let rec = spec_responder_loop(rv.skip(i as int), pv.skip(j as int), instance_id);
                target.sent == sent_view(sent@) + rec.sent && target.events == events_view(
                    events@,
                ) + rec.events && target.completed == rec.completed
            }),
        decreases reqs@.len() - i,
    {
        let ghost rec = spec_responder_loop(rv.skip(i as int), pv.skip(j as int), instance_id);
        if i == reqs.len() {
            proof {
                assert(rv.skip(i as int).len() == 0);
                assert(sent_view(sent@.push(MainRequest::Done)) =~= sent_view(sent@) + seq![
                    MainRequestView::Done,
                ]);
            }
            sent.push(MainRequest::Done);
            lock.release();
            return SessionTranscript { sent, events, completed: true };
        }
        proof {
            assert(rv.skip(i as int)[0] == rv[i as int]);
            assert(rv[i as int] == reqs@[i as int]@);
            assert(rv.skip(i as int).skip(1) =~= rv.skip(i + 1));
        }
        match &reqs[i] {
            IngestRequest::FinishedIngesting => {
                proof {
                    assert(sent_view(sent@.push(MainRequest::Done)) =~= sent_view(sent@) + seq![
                        MainRequestView::Done,
                    ]);
                }
                sent.push(MainRequest::Done);
                lock.release();
                return SessionTranscript { sent, events, completed: true };
            },
            IngestRequest::Ingested => {
                i = i + 1;
            },
            IngestRequest::Messages { timestamps } => {
                let args = GetOpsArgs { clocks: copy_clocks(timestamps), count: OPS_PER_REQUEST };
                let get = MainRequest::GetOperations(args);
                proof {
                    assert(get@ == spec_get_request(timestamps@));
                    assert(sent_view(sent@.push(get)) =~= sent_view(sent@) + seq![get@]);
                }
                sent.push(get);
                if j == replies.len() {
                    proof {
                        assert(pv.skip(j as int).len() == 0);
                    }
                    lock.release();
                    return SessionTranscript { sent, events, completed: false };
                }
                proof {
                    assert(pv.skip(j as int)[0] == pv[j as int]);
                    assert(pv[j as int] == replies@[j as int]@);
                    assert(pv.skip(j as int).skip(1) =~= pv.skip(j + 1));
                }
                match &replies[j] {
                    PeerReply::Disconnected => {
                        lock.release();
                        return SessionTranscript { sent, events, completed: false };
                    },
                    PeerReply::Operations(ops) => {
                        let ev = IngestEvent::Messages(
                            make_messages_event(instance_id, copy_ops(ops)),
                        );
                        proof {
                            assert(ev@ == spec_batch_event(instance_id, ops_view(ops@)));
                            assert(events_view(events@.push(ev)) =~= events_view(events@) + seq![
                                ev@,
                            ]);
                            let rec2 = spec_responder_loop(
                                rv.skip(i + 1),
                                pv.skip(j + 1),
                                instance_id,
                            );
                            assert((sent_view(sent@) + seq![get@]) + rec2.sent =~= sent_view(
                                sent@,
                            ) + (seq![get@] + rec2.sent));
                            assert((events_view(events@) + seq![ev@]) + rec2.events
                                =~= events_view(events@) + (seq![ev@] + rec2.events));
                        }
                        events.push(ev);
                        i = i + 1;
                        j = j + 1;
                    },
                }
            },
        }
    }
}

/// How many `GetOperations` requests a sent sequence holds.
pub open spec fn count_get_operations(sent: Seq<MainRequestView>) -> int
    decreases sent.len(),
{
    if sent.len() == 0 {
        0
    } else {
        (if sent[0] is GetOperations {
            1int
        } else {
            0int
        }) + count_get_operations(sent.skip(1))
    }
}

/// How many batch deliveries an event sequence holds.
pub open spec fn count_batch_events(events: Seq<IngestEventView>) -> int
    decreases events.len(),
{
    if events.len() == 0 {
        0
    } else {
        (if events[0] is Messages {
            1int
        } else {
            0int
        }) + count_batch_events(events.skip(1))
    }
}

/// Counting a one-element sequence.
proof fn lemma_count_singletons(m: MainRequestView, e: IngestEventView)
    ensures
        count_get_operations(seq![m]) == if m is GetOperations {
            1int
        } else {
            0int
        },
        count_batch_events(seq![e]) == if e is Messages {
            1int
        } else {
            0int
        },
{
    assert(seq![m].skip(1) =~= Seq::<MainRequestView>::empty());
    assert(count_get_operations(Seq::<MainRequestView>::empty()) == 0);
    assert(seq![e].skip(1) =~= Seq::<IngestEventView>::empty());
    assert(count_batch_events(Seq::<IngestEventView>::empty()) == 0);
}

/// Counting `GetOperations` distributes over concatenation.
proof fn lemma_count_get_operations_add(a: Seq<MainRequestView>, b: Seq<MainRequestView>)
    ensures
        count_get_operations(a + b) == count_get_operations(a) + count_get_operations(b),
    decreases a.len(),
{
    if a.len() == 0 {
        assert(a + b =~= b);
    } else {
        assert((a + b).skip(1) =~= a.skip(1) + b);
        lemma_count_get_operations_add(a.skip(1), b);
    }
}

proof fn lemma_count_batch_events_add(a: Seq<IngestEventView>, b: Seq<IngestEventView>)
    ensures
        count_batch_events(a + b) == count_batch_events(a) + count_batch_events(b),
    decreases a.len(),
{
    if a.len() == 0 {
        assert(a + b =~= b);
    } else {
        assert((a + b).skip(1) =~= a.skip(1) + b);
        lemma_count_batch_events_add(a.skip(1), b);
    }
}

/// Strict alternation: the session never has two batches in flight.  A
/// completed session delivered exactly one batch per `GetOperations` it
/// sent; one cut short by a disconnect has exactly the one unanswered
/// request outstanding.
pub proof fn lemma_strict_alternation(
    reqs: Seq<IngestRequestView>,
    replies: Seq<PeerReplyView>,
    instance_id: u128,
)
    ensures
        ({
            let t = spec_responder_loop(reqs, replies, instance_id);
            count_get_operations(t.sent) == count_batch_events(t.events) + if t.completed {
                0int
            } else {
                1int
            }
        }),
    decreases reqs.len(),
{
    let t = spec_responder_loop(reqs, replies, instance_id);
    lemma_count_singletons(MainRequestView::Done, IngestEventView::Notification);
    if reqs.len() == 0 {
        assert(count_get_operations(seq![MainRequestView::Done]) == 0);
        assert(count_batch_events(Seq::<IngestEventView>::empty()) == 0);
    } else {
        match reqs[0] {
            IngestRequestView::FinishedIngesting => {
                assert(count_get_operations(seq![MainRequestView::Done]) == 0);
                assert(count_batch_events(Seq::<IngestEventView>::empty()) == 0);
            },
            IngestRequestView::Ingested => {
                lemma_strict_alternation(reqs.skip(1), replies, instance_id);
            },
            IngestRequestView::Messages { timestamps } => {
                let get = spec_get_request(timestamps);
                if replies.len() == 0 || replies[0] is Disconnected {
                    lemma_count_singletons(get, IngestEventView::Notification);
                    assert(count_get_operations(seq![get]) == 1);
                    assert(count_batch_events(Seq::<IngestEventView>::empty()) == 0);
                } else {
                    let ops = replies[0]->Operations_0;
                    let rec = spec_responder_loop(reqs.skip(1), replies.skip(1), instance_id);
                    lemma_strict_alternation(reqs.skip(1), replies.skip(1), instance_id);
                    lemma_count_singletons(get, spec_batch_event(instance_id, ops));
                    lemma_count_get_operations_add(seq![get], rec.sent);
                    lemma_count_batch_events_add(
                        seq![spec_batch_event(instance_id, ops)],
                        rec.events,
                    );
                    assert(count_get_operations(seq![get]) == 1);
                    assert(count_batch_events(seq![spec_batch_event(instance_id, ops)]) == 1);
                }
            },
        }
    }
}

/// Mutual exclusion: with two concurrent inbound sessions for one
/// library, only one passes the lock; the other answers with a lone
/// `Done` and delivers nothing into ingest, not even a notification.
pub proof fn lemma_mutual_exclusion(
    l: IngestLock,
    reqs: Seq<IngestRequestView>,
    replies: Seq<PeerReplyView>,
    instance_id: u128,
)
    requires
        !l.held,
    ensures
        ({
            let (l1, first) = spec_try_acquire(l);
            let (l2, second) = spec_try_acquire(l1);
            &&& first
            &&& !second
            &&& spec_responder_session(l1.held, reqs, replies, instance_id).sent == seq![
                MainRequestView::Done,
            ]
            &&& spec_responder_session(l1.held, reqs, replies, instance_id).events.len() == 0
        }),
{
}

/// A connection that drops while a batch is awaited ends the session
/// with nothing delivered for that batch: ingest hears only the opening
/// notification, and no `Done` goes out on the dead stream.
pub proof fn lemma_disconnect_quiet(
    timestamps: Seq<(u128, u64)>,
    instance_id: u128,
)
    ensures
        ({
            let t = spec_responder_session(
                false,
                seq![IngestRequestView::Messages { timestamps }],
                seq![PeerReplyView::Disconnected],
                instance_id,
            );
            &&& t.events == seq![IngestEventView::Notification]
            &&& t.sent == seq![spec_get_request(timestamps)]
            &&& !t.completed
        }),
{
    let reqs = seq![IngestRequestView::Messages { timestamps }];
    let replies = seq![PeerReplyView::Disconnected];
    let t = spec_responder_loop(reqs, replies, instance_id);
    assert(t.events =~= Seq::<IngestEventView>::empty());
    assert(seq![IngestEventView::Notification] + t.events =~= seq![
        IngestEventView::Notification,
    ]);
}

} // verus!
