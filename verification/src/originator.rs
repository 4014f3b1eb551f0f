//! The originator: the side that announces new operations and then
//! answers the peer's pull requests until the peer is done.
//!
//! After the handshake the originator writes one `Header::Sync` frame
//! and one `SyncMessage::NewOperations` frame; from then on it only
//! reacts: each incoming `GetOperations` is answered with the batch the
//! local store owes it, and the first `Done` (or the stream closing)
//! ends the session.  Sessions to distinct peers share nothing.

use crate::message::{ops_view, CrdtOperation, CrdtOperationView, MainRequest, MainRequestView, Operations};
use crate::responder::spec_responder_session;
use crate::ingest::IngestRequestView;
use crate::source::{get_ops, spec_get_ops};
use vstd::prelude::*;

verus! {

/// Connectivity of one replica of the library: unreachable, or
/// reachable at a peer address.
#[derive(Clone, Copy, PartialEq, Eq, Structural, Debug)]
pub enum PeerStatus {
    Disconnected,
    Connected(u128),
}

/// The peers a sync round reaches out to: the address of every
/// instance currently connected, in order.  Sessions to distinct peers
/// run independently of one another.
pub open spec fn spec_connected_peers(s: Seq<PeerStatus>) -> Seq<u128>
    decreases s.len(),
{
    if s.len() == 0 {
        Seq::empty()
    } else {
        (match s[0] {
            PeerStatus::Connected(p) => seq![p],
            PeerStatus::Disconnected => Seq::empty(),
        }) + spec_connected_peers(s.skip(1))
    }
}

/// Splitting an instance list splits its connected peers.
proof fn lemma_connected_peers_add(a: Seq<PeerStatus>, b: Seq<PeerStatus>)
    ensures
        spec_connected_peers(a + b) == spec_connected_peers(a) + spec_connected_peers(b),
    decreases a.len(),
{
    if a.len() == 0 {
        assert(a + b =~= b);
        assert(spec_connected_peers(a) + spec_connected_peers(b) =~= spec_connected_peers(b));
    } else {
        assert((a + b).skip(1) =~= a.skip(1) + b);
        lemma_connected_peers_add(a.skip(1), b);
        assert(spec_connected_peers(a + b) =~= spec_connected_peers(a) + spec_connected_peers(
            b,
        ));
    }
}

/// Pick the peers to open sessions to: one per connected instance.
#[verifier::loop_isolation(false)]
pub fn connected_peers(instances: &Vec<PeerStatus>) -> (r: Vec<u128>)
    ensures
        r@ == spec_connected_peers(instances@),
{
    let mut out: Vec<u128> = Vec::new();
    let mut i: usize = 0;
    proof {
        assert(instances@.take(0) =~= Seq::<PeerStatus>::empty());
        assert(out@ =~= Seq::<u128>::empty());
    }
    while i < instances.len()
        invariant
            0 <= i <= instances@.len(),
            out@ == spec_connected_peers(instances@.take(i as int)),
        decreases instances@.len() - i,
    {
        proof {
            lemma_connected_peers_add(instances@.take(i as int), seq![instances@[i as int]]);
            assert(instances@.take(i as int) + seq![instances@[i as int]] =~= instances@.take(
                i + 1,
            ));
            assert(seq![instances@[i as int]].skip(1) =~= Seq::<PeerStatus>::empty());
            assert(spec_connected_peers(Seq::<PeerStatus>::empty()) == Seq::<u128>::empty());
        }
        match instances[i] {
            PeerStatus::Connected(p) => {
                proof {
                    assert(out@.push(p) =~= spec_connected_peers(instances@.take(i + 1)));
                }
                out.push(p);
            },
            PeerStatus::Disconnected => {
                proof {
                    assert(out@ =~= spec_connected_peers(instances@.take(i + 1)));
                }
            },
        }
        i = i + 1;
    }
    proof {
        assert(instances@.take(instances@.len() as int) =~= instances@);
    }
    out
}

/// The view of a sequence of incoming requests, element by element.
pub open spec fn requests_view(s: Seq<MainRequest>) -> Seq<MainRequestView> {
    s.map_values(|m: MainRequest| m@)
}

/// The view of a sequence of outgoing batches, element by element.
pub open spec fn batches_view(s: Seq<Operations>) -> Seq<Seq<CrdtOperationView>> {
    s.map_values(|o: Operations| o@)
}

/// The batches an originator session sends, as a function of the store
/// and of what the responder asks: one batch per `GetOperations`, in
/// order, until the first `Done` or the end of the stream.
pub open spec fn spec_originator_session(
    store: Seq<CrdtOperationView>,
    incoming: Seq<MainRequestView>,
) -> Seq<Seq<CrdtOperationView>>
    decreases incoming.len(),
{
    if incoming.len() == 0 {
        Seq::empty()
    } else {
        match incoming[0] {
            MainRequestView::Done => Seq::empty(),
            MainRequestView::GetOperations(a) => seq![spec_get_ops(store, a.clocks, a.count)]
                + spec_originator_session(store, incoming.skip(1)),
        }
    }
}

/// Drive one originator session against the local store.  `incoming` is
/// what the peer sends, in order; the result is the `Operations` batch
/// for each `GetOperations` answered, in order.
#[verifier::loop_isolation(false)]
pub fn run(store: &Vec<CrdtOperation>, incoming: &Vec<MainRequest>) -> (batches: Vec<Operations>)
    ensures
        batches_view(batches@) == spec_originator_session(
            ops_view(store@),
            requests_view(incoming@),
        ),
{
    let ghost sv = ops_view(store@);
    let ghost iv = requests_view(incoming@);
    let mut batches: Vec<Operations> = Vec::new();
    let mut i: usize = 0;
    proof {
        assert(iv.skip(0) =~= iv);
        assert(batches_view(batches@) =~= Seq::<Seq<CrdtOperationView>>::empty());
    }
    while i < incoming.len()
        invariant
            0 <= i <= incoming@.len(),
            spec_originator_session(sv, iv) == batches_view(batches@)
                + spec_originator_session(sv, iv.skip(i as int)),
        decreases incoming@.len() - i,
    {
        proof {
            assert(iv.skip(i as int)[0] == iv[i as int]);
            assert(iv[i as int] == incoming@[i as int]@);
            assert(iv.skip(i as int).skip(1) =~= iv.skip(i + 1));
        }
        match &incoming[i] {
            MainRequest::Done => {
                proof {
                    assert(batches_view(batches@) + Seq::<Seq<CrdtOperationView>>::empty()
                        =~= batches_view(batches@));
                }
                return batches;
            },
            MainRequest::GetOperations(args) => {
                let batch = Operations(get_ops(store, args));
                proof {
                    assert(batch@ == spec_get_ops(sv, args.clocks@, args.count));
                    assert(batches_view(batches@.push(batch)) =~= batches_view(batches@) + seq![
                        batch@,
                    ]);
                    let rec2 = spec_originator_session(sv, iv.skip(i + 1));
                    assert((batches_view(batches@) + seq![batch@]) + rec2 =~= batches_view(
                        batches@,
                    ) + (seq![batch@] + rec2));
                }
                batches.push(batch);
                i = i + 1;
            },
        }
    }
    proof {
        assert(iv.skip(i as int).len() == 0);
        assert(batches_view(batches@) + Seq::<Seq<CrdtOperationView>>::empty() =~= batches_view(
            batches@,
        ));
    }
    batches
}

/// With nothing pending, one session settles at once: ingest asks
/// nothing beyond `FinishedIngesting`, the responder sends a lone
/// `Done` and only the opening notification, and the originator
/// answering that `Done` sends not a single `Operations` frame.
pub proof fn lemma_idempotent_when_nothing_pending(
    store: Seq<CrdtOperationView>,
    instance_id: u128,
)
    ensures
        spec_responder_session(
            false,
            seq![IngestRequestView::FinishedIngesting],
            Seq::empty(),
            instance_id,
        ).sent == seq![MainRequestView::Done],
        spec_responder_session(
            false,
            seq![IngestRequestView::FinishedIngesting],
            Seq::empty(),
            instance_id,
        ).events == seq![crate::ingest::IngestEventView::Notification],
        spec_responder_session(
            false,
            seq![IngestRequestView::FinishedIngesting],
            Seq::empty(),
            instance_id,
        ).completed,
        spec_originator_session(store, seq![MainRequestView::Done]).len() == 0,
{
    let t = crate::responder::spec_responder_loop(
        seq![IngestRequestView::FinishedIngesting],
        Seq::empty(),
        instance_id,
    );
    assert(seq![crate::ingest::IngestEventView::Notification] + t.events =~= seq![
        crate::ingest::IngestEventView::Notification,
    ]);
}

} // verus!
