//! Session tests: the responder's lock discipline and transcripts, and
//! the originator's answers.

use sync_core::ingest::{IngestEvent, IngestLock, IngestRequest, OPS_PER_REQUEST};
use sync_core::message::{CrdtOperation, GetOpsArgs, MainRequest};
use sync_core::originator::{self, connected_peers, PeerStatus};
use sync_core::responder::{self, PeerReply};

fn op(instance: u128, timestamp: u64) -> CrdtOperation {
    CrdtOperation { instance, timestamp, data: vec![] }
}

fn messages_req(clocks: Vec<(u128, u64)>) -> IngestRequest {
    IngestRequest::Messages { timestamps: clocks }
}

#[test]
fn accepted_session_alternates_and_finishes() {
    let mut lock = IngestLock::new();
    let reqs = vec![messages_req(vec![(1, 0)]), IngestRequest::FinishedIngesting];
    let replies = vec![PeerReply::Operations(vec![op(1, 1), op(1, 2)])];
    let t = responder::run(&mut lock, 1, &reqs, &replies);

    assert_eq!(
        t.sent,
        vec![
            MainRequest::GetOperations(GetOpsArgs { clocks: vec![(1, 0)], count: OPS_PER_REQUEST }),
            MainRequest::Done,
        ]
    );
    assert_eq!(t.events.len(), 2);
    assert_eq!(t.events[0], IngestEvent::Notification);
    match &t.events[1] {
        IngestEvent::Messages(ev) => {
            assert_eq!(ev.instance_id, 1);
            assert_eq!(ev.messages, vec![op(1, 1), op(1, 2)]);
            assert!(!ev.has_more);
        },
        other => panic!("expected a batch event, got {:?}", other),
    }
    assert!(t.completed);
    assert!(!lock.held);
}

#[test]
fn second_session_is_rejected_with_done_and_no_events() {
    // The first session is mid-loop: it holds the lock.
    let mut lock = IngestLock::new();
    assert!(lock.try_acquire());

    let reqs = vec![messages_req(vec![(1, 0)])];
    let replies = vec![PeerReply::Operations(vec![op(1, 1)])];
    let t = responder::run(&mut lock, 1, &reqs, &replies);

    assert_eq!(t.sent, vec![MainRequest::Done]);
    assert!(t.events.is_empty());
    assert!(t.completed);
    // The first session still holds the lock.
    assert!(lock.held);
}

#[test]
fn disconnect_mid_batch_sends_nothing_to_ingest_and_releases_lock() {
    let mut lock = IngestLock::new();
    let reqs = vec![messages_req(vec![(1, 5)])];
    let replies = vec![PeerReply::Disconnected];
    let t = responder::run(&mut lock, 1, &reqs, &replies);

    assert_eq!(t.events, vec![IngestEvent::Notification]);
    assert_eq!(
        t.sent,
        vec![MainRequest::GetOperations(GetOpsArgs {
            clocks: vec![(1, 5)],
            count: OPS_PER_REQUEST
        })]
    );
    assert!(!t.completed);
    // The lock is free again: a later session proceeds normally.
    assert!(!lock.held);
    let t2 = responder::run(&mut lock, 1, &vec![IngestRequest::FinishedIngesting], &vec![]);
    assert_eq!(t2.events, vec![IngestEvent::Notification]);
    assert!(t2.completed);
    assert!(!lock.held);
}

#[test]
fn closed_request_channel_ends_with_done() {
    let mut lock = IngestLock::new();
    let t = responder::run(&mut lock, 1, &vec![], &vec![]);
    assert_eq!(t.sent, vec![MainRequest::Done]);
    assert_eq!(t.events, vec![IngestEvent::Notification]);
    assert!(t.completed);
    assert!(!lock.held);
}

#[test]
fn unrelated_requests_are_ignored() {
    let mut lock = IngestLock::new();
    let reqs = vec![IngestRequest::Ingested, IngestRequest::FinishedIngesting];
    let t = responder::run(&mut lock, 1, &reqs, &vec![]);
    assert_eq!(t.sent, vec![MainRequest::Done]);
    assert_eq!(t.events, vec![IngestEvent::Notification]);
    assert!(t.completed);
}

#[test]
fn full_batch_is_marked_has_more() {
    let mut lock = IngestLock::new();
    let full: Vec<CrdtOperation> = (0..OPS_PER_REQUEST as u64).map(|i| op(1, i + 1)).collect();
    let reqs = vec![messages_req(vec![(1, 0)]), IngestRequest::FinishedIngesting];
    let replies = vec![PeerReply::Operations(full)];
    let t = responder::run(&mut lock, 1, &reqs, &replies);
    match &t.events[1] {
        IngestEvent::Messages(ev) => assert!(ev.has_more),
        other => panic!("expected a batch event, got {:?}", other),
    }
}

#[test]
fn short_batch_is_marked_no_more() {
    let mut lock = IngestLock::new();
    let almost: Vec<CrdtOperation> =
        (0..OPS_PER_REQUEST as u64 - 1).map(|i| op(1, i + 1)).collect();
    let reqs = vec![messages_req(vec![(1, 0)]), IngestRequest::FinishedIngesting];
    let replies = vec![PeerReply::Operations(almost)];
    let t = responder::run(&mut lock, 1, &reqs, &replies);
    match &t.events[1] {
        IngestEvent::Messages(ev) => assert!(!ev.has_more),
        other => panic!("expected a batch event, got {:?}", other),
    }
}

#[test]
fn originator_with_nothing_asked_sends_nothing() {
    // The peer had nothing pending: its first and only frame is Done.
    let store = vec![op(1, 1)];
    let batches = originator::run(&store, &vec![MainRequest::Done]);
    assert!(batches.is_empty());
}

#[test]
fn originator_answers_each_request_in_order() {
    let store = vec![op(1, 1), op(1, 2), op(1, 3)];
    let incoming = vec![
        MainRequest::GetOperations(GetOpsArgs { clocks: vec![(1, 0)], count: 2 }),
        MainRequest::GetOperations(GetOpsArgs { clocks: vec![(1, 2)], count: 2 }),
        MainRequest::Done,
    ];
    let batches = originator::run(&store, &incoming);
    assert_eq!(batches.len(), 2);
    assert_eq!(batches[0].0, vec![op(1, 1), op(1, 2)]);
    assert_eq!(batches[1].0, vec![op(1, 3)]);
}

#[test]
fn only_connected_instances_get_sessions() {
    let instances = vec![
        PeerStatus::Disconnected,
        PeerStatus::Connected(11),
        PeerStatus::Connected(22),
        PeerStatus::Disconnected,
    ];
    assert_eq!(connected_peers(&instances), vec![11, 22]);
    assert_eq!(connected_peers(&vec![]), Vec::<u128>::new());
}

#[test]
fn originator_stops_at_done() {
    let store = vec![op(1, 1)];
    let incoming = vec![
        MainRequest::Done,
        MainRequest::GetOperations(GetOpsArgs { clocks: vec![], count: 5 }),
    ];
    let batches = originator::run(&store, &incoming);
    assert!(batches.is_empty());
}
