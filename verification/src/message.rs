//! The two message grammars exchanged over a sync tunnel, and the small
//! header and notification values around them.
//!
//! The originator sends `Operations` batches; the responder sends
//! `MainRequest` values (`GetOperations` or `Done`).  Every value travels
//! as one frame (see `codec`): a four-byte little-endian length prefix
//! followed by the payload described by the spec functions below.

use crate::codec::{spec_frame, spec_unframe, encode_frame, unframe, DecodeError, MAX_FRAME_PAYLOAD};
use vstd::bytes::*;
use vstd::prelude::*;
use vstd::slice::*;

verus! {

/// Variant tag of `MainRequest::GetOperations` and of
/// `Header::Sync`, and the only tag of `SyncMessage`.
pub const TAG_FIRST: u8 = 0;

/// Variant tag of `MainRequest::Done`.
pub const TAG_SECOND: u8 = 1;

/// The most clock entries a `GetOperations` request can carry and still
/// fit its payload in one frame: 13 bytes of tag, entry count and batch
/// cap, then 24 bytes per entry.
pub const MAX_CLOCK_ENTRIES: u64 = 178_956_970;

/// One change operation: the replica it originated on, its logical clock
/// value there, and the serialized change itself, opaque to this layer.
#[derive(Clone, PartialEq, Eq, Debug)]
pub struct CrdtOperation {
    pub instance: u128,
    pub timestamp: u64,
    pub data: Vec<u8>,
}

/// Mathematical image of a `CrdtOperation`.
pub ghost struct CrdtOperationView {
    pub instance: u128,
    pub timestamp: u64,
    pub data: Seq<u8>,
}

impl View for CrdtOperation {
    type V = CrdtOperationView;

    open spec fn view(&self) -> CrdtOperationView {
        CrdtOperationView { instance: self.instance, timestamp: self.timestamp, data: self.data@ }
    }
}

/// The view of a sequence of operations, element by element.
pub open spec fn ops_view(s: Seq<CrdtOperation>) -> Seq<CrdtOperationView> {
    s.map_values(|o: CrdtOperation| o@)
}

/// A request for the next batch of operations: for each known replica the
/// last clock value already ingested, and a cap on the batch size.
#[derive(Clone, PartialEq, Eq, Debug)]
pub struct GetOpsArgs {
    pub clocks: Vec<(u128, u64)>,
    pub count: u32,
}

/// Mathematical image of `GetOpsArgs`.
pub ghost struct GetOpsArgsView {
    pub clocks: Seq<(u128, u64)>,
    pub count: u32,
}

impl View for GetOpsArgs {
    type V = GetOpsArgsView;

    open spec fn view(&self) -> GetOpsArgsView {
        GetOpsArgsView { clocks: self.clocks@, count: self.count }
    }
}

/// What the responder sends to the originator: either a request for the
/// next batch of operations, or the signal that the session is over.
#[derive(Clone, PartialEq, Eq, Debug)]
pub enum MainRequest {
    GetOperations(GetOpsArgs),
    Done,
}

/// Mathematical image of `MainRequest`.
pub ghost enum MainRequestView {
    GetOperations(GetOpsArgsView),
    Done,
}

impl View for MainRequest {
    type V = MainRequestView;

    open spec fn view(&self) -> MainRequestView {
        match self {
            MainRequest::GetOperations(a) => MainRequestView::GetOperations(a@),
            MainRequest::Done => MainRequestView::Done,
        }
    }
}

impl MainRequestView {
    /// A request fits one frame exactly when its clock list is short
    /// enough for the payload length to fit the frame's length prefix.
    pub open spec fn wf(self) -> bool {
        match self {
            MainRequestView::GetOperations(a) => a.clocks.len() <= MAX_CLOCK_ENTRIES,
            MainRequestView::Done => true,
        }
    }
}

/// Payload bytes of one clock entry: replica id then clock value, both
/// little endian.
pub open spec fn spec_encode_clock(c: (u128, u64)) -> Seq<u8> {
    spec_u128_to_le_bytes(c.0) + spec_u64_to_le_bytes(c.1)
}

/// Payload bytes of a clock list, entry after entry.
pub open spec fn spec_encode_clocks(cs: Seq<(u128, u64)>) -> Seq<u8>
    decreases cs.len(),
{
    if cs.len() == 0 {
        Seq::empty()
    } else {
        spec_encode_clock(cs[0]) + spec_encode_clocks(cs.skip(1))
    }
}

/// Payload bytes of a `MainRequest`, before framing: a variant tag, then
/// for `GetOperations` the entry count, the entries and the batch cap.
pub open spec fn spec_request_payload(m: MainRequestView) -> Seq<u8> {
    match m {
        MainRequestView::GetOperations(a) => seq![TAG_FIRST]
            + spec_u64_to_le_bytes(a.clocks.len() as u64) + spec_encode_clocks(a.clocks)
            + spec_u32_to_le_bytes(a.count),
        MainRequestView::Done => seq![TAG_SECOND],
    }
}

/// Wire bytes of a `MainRequest`: its payload in one frame.
pub open spec fn spec_encode_request(m: MainRequestView) -> Seq<u8> {
    spec_frame(spec_request_payload(m))
}

/// Read `n` clock entries from the front of `b`; what follows them is
/// returned unread.
pub open spec fn spec_decode_clocks(b: Seq<u8>, n: nat) -> Result<
    (Seq<(u128, u64)>, Seq<u8>),
    DecodeError,
>
    decreases n,
{
    if n == 0 {
        Ok((Seq::empty(), b))
    } else if b.len() < 24 {
        Err(DecodeError::Truncated)
    } else {
        let c = (
            spec_u128_from_le_bytes(b.subrange(0, 16)),
            spec_u64_from_le_bytes(b.subrange(16, 24)),
        );
        match spec_decode_clocks(b.skip(24), (n - 1) as nat) {
            Ok((cs, rest)) => Ok((seq![c] + cs, rest)),
            Err(e) => Err(e),
        }
    }
}

/// Decode a `MainRequest` payload.  Every failure is pinned: too few
/// bytes are `Truncated`, an unknown tag is `InvalidTag`, and bytes after
/// a complete value are `TrailingBytes`.
pub open spec fn spec_decode_request_payload(b: Seq<u8>) -> Result<MainRequestView, DecodeError> {
    if b.len() < 1 {
        Err(DecodeError::Truncated)
    } else if b[0] == TAG_SECOND {
        if b.len() == 1 {
            Ok(MainRequestView::Done)
        } else {
            Err(DecodeError::TrailingBytes)
        }
    } else if b[0] == TAG_FIRST {
        if b.len() < 9 {
            Err(DecodeError::Truncated)
        } else {
            let n = spec_u64_from_le_bytes(b.subrange(1, 9));
            match spec_decode_clocks(b.skip(9), n as nat) {
                Ok((cs, rest)) => if rest.len() < 4 {
                    Err(DecodeError::Truncated)
                } else if rest.len() > 4 {
                    Err(DecodeError::TrailingBytes)
                } else {
                    Ok(
                        MainRequestView::GetOperations(
                            GetOpsArgsView { clocks: cs, count: spec_u32_from_le_bytes(rest) },
                        ),
                    )
                },
                Err(e) => Err(e),
            }
        }
    } else {
        Err(DecodeError::InvalidTag)
    }
}

/// Decode a framed `MainRequest`.
pub open spec fn spec_decode_request(b: Seq<u8>) -> Result<MainRequestView, DecodeError> {
    match spec_unframe(b) {
        Ok(p) => spec_decode_request_payload(p),
        Err(e) => Err(e),
    }
}

/// A clock list encodes to 24 bytes per entry.
pub proof fn lemma_encode_clocks_len(cs: Seq<(u128, u64)>)
    ensures
        spec_encode_clocks(cs).len() == 24 * cs.len(),
    decreases cs.len(),
{
    lemma_auto_spec_u128_to_from_le_bytes();
    lemma_auto_spec_u64_to_from_le_bytes();
    if cs.len() > 0 {
        lemma_encode_clocks_len(cs.skip(1));
    }
}

/// Encoding a concatenation of clock lists concatenates their encodings.
pub proof fn lemma_encode_clocks_add(a: Seq<(u128, u64)>, b: Seq<(u128, u64)>)
    ensures
        spec_encode_clocks(a + b) == spec_encode_clocks(a) + spec_encode_clocks(b),
    decreases a.len(),
{
    if a.len() == 0 {
        assert(a + b =~= b);
        assert(spec_encode_clocks(a) + spec_encode_clocks(b) =~= spec_encode_clocks(b));
    } else {
        assert((a + b).skip(1) =~= a.skip(1) + b);
        lemma_encode_clocks_add(a.skip(1), b);
        assert(spec_encode_clocks(a + b) =~= spec_encode_clocks(a) + spec_encode_clocks(b));
    }
}

/// Reading back as many clock entries as were written recovers them and
/// leaves the rest of the bytes untouched.
pub proof fn lemma_decode_clocks_of_encode(cs: Seq<(u128, u64)>, rest: Seq<u8>)
    ensures
        spec_decode_clocks(spec_encode_clocks(cs) + rest, cs.len()) == Ok::<
            (Seq<(u128, u64)>, Seq<u8>),
            DecodeError,
        >((cs, rest)),
    decreases cs.len(),
{
    lemma_auto_spec_u128_to_from_le_bytes();
    lemma_auto_spec_u64_to_from_le_bytes();
    if cs.len() == 0 {
        assert(spec_encode_clocks(cs) + rest =~= rest);
        assert(cs =~= Seq::<(u128, u64)>::empty());
    } else {
        let b = spec_encode_clocks(cs) + rest;
        lemma_encode_clocks_len(cs);
        lemma_encode_clocks_len(cs.skip(1));
        assert(spec_encode_clocks(cs) == spec_encode_clock(cs[0]) + spec_encode_clocks(
            cs.skip(1),
        ));
        assert(b.len() >= 24);
        assert(b.subrange(0, 16) =~= spec_u128_to_le_bytes(cs[0].0));
        assert(b.subrange(16, 24) =~= spec_u64_to_le_bytes(cs[0].1));
        assert(b.skip(24) =~= spec_encode_clocks(cs.skip(1)) + rest);
        lemma_decode_clocks_of_encode(cs.skip(1), rest);
        assert(spec_decode_clocks(b.skip(24), (cs.len() - 1) as nat) == Ok::<
            (Seq<(u128, u64)>, Seq<u8>),
            DecodeError,
        >((cs.skip(1), rest)));
        assert(seq![cs[0]] + cs.skip(1) =~= cs);
        assert(spec_decode_clocks(b, cs.len()) == Ok::<
            (Seq<(u128, u64)>, Seq<u8>),
            DecodeError,
        >((seq![cs[0]] + cs.skip(1), rest)));
    }
}

/// A well-formed request's payload fits one frame.
pub proof fn lemma_request_payload_len(m: MainRequestView)
    ensures
        m matches MainRequestView::GetOperations(a) ==> spec_request_payload(m).len() == 13 + 24
            * a.clocks.len(),
        m is Done ==> spec_request_payload(m).len() == 1,
        m.wf() ==> spec_request_payload(m).len() <= MAX_FRAME_PAYLOAD,
{
    lemma_auto_spec_u64_to_from_le_bytes();
    lemma_auto_spec_u32_to_from_le_bytes();
    match m {
        MainRequestView::GetOperations(a) => {
            lemma_encode_clocks_len(a.clocks);
        },
        MainRequestView::Done => {},
    }
}

/// Decoding inverts encoding for every well-formed request.
pub proof fn lemma_request_round_trip(m: MainRequestView)
    requires
        m.wf(),
    ensures
        spec_decode_request(spec_encode_request(m)) == Ok::<MainRequestView, DecodeError>(m),
{
    lemma_auto_spec_u64_to_from_le_bytes();
    lemma_auto_spec_u32_to_from_le_bytes();
    lemma_request_payload_len(m);
    crate::codec::lemma_frame_round_trip(spec_request_payload(m));
    let p = spec_request_payload(m);
    match m {
        MainRequestView::Done => {
            assert(p.len() == 1 && p[0] == TAG_SECOND);
        },
        MainRequestView::GetOperations(a) => {
            assert(p[0] == TAG_FIRST);
            assert(p.subrange(1, 9) =~= spec_u64_to_le_bytes(a.clocks.len() as u64));
            assert(p.skip(9) =~= spec_encode_clocks(a.clocks) + spec_u32_to_le_bytes(a.count));
            lemma_decode_clocks_of_encode(a.clocks, spec_u32_to_le_bytes(a.count));
            assert(spec_decode_clocks(p.skip(9), a.clocks.len()) == Ok::<
                (Seq<(u128, u64)>, Seq<u8>),
                DecodeError,
            >((a.clocks, spec_u32_to_le_bytes(a.count))));
        },
    }
}

impl MainRequest {
    /// Whether this request fits one frame; `to_bytes` asks for exactly
    /// this.
    pub fn fits_frame(&self) -> (r: bool)
        ensures
            r == self@.wf(),
    {
        match self {
            MainRequest::GetOperations(a) => a.clocks.len() as u64 <= MAX_CLOCK_ENTRIES,
            MainRequest::Done => true,
        }
    }

    /// Encode this request as one frame.
    pub fn to_bytes(&self) -> (r: Vec<u8>)
        requires
            self@.wf(),
        ensures
            r@ == spec_encode_request(self@),
    {
        let mut payload: Vec<u8> = Vec::new();
        match self {
            MainRequest::Done => {
                payload.push(TAG_SECOND);
                assert(payload@ =~= spec_request_payload(self@));
            },
            MainRequest::GetOperations(args) => {
                payload.push(TAG_FIRST);
                let mut lenb = u64_to_le_bytes(args.clocks.len() as u64);
                payload.append(&mut lenb);
                let n = args.clocks.len();
                let mut i: usize = 0;
                while i < n
                    invariant
                        n == args.clocks@.len(),
                        0 <= i <= n,
                        payload@ == seq![TAG_FIRST] + spec_u64_to_le_bytes(n as u64)
                            + spec_encode_clocks(args.clocks@.take(i as int)),
                    decreases n - i,
                {
                    let c = args.clocks[i];
                    let mut ib = u128_to_le_bytes(c.0);
                    payload.append(&mut ib);
                    let mut tb = u64_to_le_bytes(c.1);
                    payload.append(&mut tb);
                    proof {
                        lemma_encode_clocks_add(args.clocks@.take(i as int), seq![c]);
                        assert(args.clocks@.take(i as int) + seq![c] =~= args.clocks@.take(
                            i + 1,
                        ));
                        assert(seq![c].skip(1) =~= Seq::<(u128, u64)>::empty());
                        assert(spec_encode_clocks(Seq::<(u128, u64)>::empty())
                            == Seq::<u8>::empty());
                        assert(spec_encode_clocks(seq![c]) =~= spec_encode_clock(c));
                        assert(payload@ =~= seq![TAG_FIRST] + spec_u64_to_le_bytes(n as u64)
                            + spec_encode_clocks(args.clocks@.take(i + 1)));
                    }
                    i = i + 1;
                }
                let mut cb = u32_to_le_bytes(args.count);
                payload.append(&mut cb);
                proof {
                    assert(args.clocks@.take(n as int) =~= args.clocks@);
                    assert(payload@ =~= spec_request_payload(self@));
                }
            },
        }
        proof {
            lemma_request_payload_len(self@);
        }
        encode_frame(payload)
    }

    /// Decode one frame as a `MainRequest`.  Succeeds exactly on the
    /// frames that `to_bytes` produces; every other input gets the
    /// decode error that `spec_decode_request` names for it.
    #[verifier::loop_isolation(false)]
    pub fn from_bytes(b: &[u8]) -> (r: Result<MainRequest, DecodeError>)
        ensures
            match r {
                Ok(m) => spec_decode_request(b@) == Ok::<MainRequestView, DecodeError>(m@)
                    && m@.wf(),
                Err(e) => spec_decode_request(b@) == Err::<MainRequestView, DecodeError>(e),
            },
    {
        let payload = match unframe(b) {
            Ok(p) => p,
            Err(e) => {
                return Err(e);
            },
        };
        let plen = payload.len();
        if plen == 0 {
            return Err(DecodeError::Truncated);
        }
        let tag = payload[0];
        if tag == TAG_SECOND {
            if plen == 1 {
                Ok(MainRequest::Done)
            } else {
                Err(DecodeError::TrailingBytes)
            }
        } else if tag == TAG_FIRST {
            if plen < 9 {
                return Err(DecodeError::Truncated);
            }
            let n = u64_from_le_bytes(slice_subrange(payload.as_slice(), 1, 9));
            let mut clocks: Vec<(u128, u64)> = Vec::new();
            let mut pos: usize = 9;
            let mut i: u64 = 0;
            proof {
                assert(payload@.skip(9) =~= payload@.skip(pos as int));
            }
            while i < n
                invariant
                    payload@.len() == plen,
                    9 <= pos <= plen,
                    i <= n,
                    clocks@.len() == i,
                    pos == 9 + 24 * (i as int),
                    plen >= 9,
                    n == spec_u64_from_le_bytes(payload@.subrange(1, 9)),
                    match spec_decode_clocks(payload@.skip(pos as int), (n - i) as nat) {
                        Ok((cs, rest)) => spec_decode_clocks(payload@.skip(9), n as nat) == Ok::<
                            (Seq<(u128, u64)>, Seq<u8>),
                            DecodeError,
                        >((clocks@ + cs, rest)),
                        Err(e) => spec_decode_clocks(payload@.skip(9), n as nat) == Err::<
                            (Seq<(u128, u64)>, Seq<u8>),
                            DecodeError,
                        >(e),
                    },
                decreases n - i,
            {
                if plen - pos < 24 {
                    proof {
                        assert(payload@.skip(pos as int).len() < 24);
                        assert(spec_decode_clocks(payload@.skip(pos as int), (n - i) as nat)
                            == Err::<(Seq<(u128, u64)>, Seq<u8>), DecodeError>(
                            DecodeError::Truncated,
                        ));
                        assert(spec_decode_clocks(payload@.skip(9), n as nat) == Err::<
                            (Seq<(u128, u64)>, Seq<u8>),
                            DecodeError,
                        >(DecodeError::Truncated));
                        assert(payload@.len() >= 9);
                        assert(payload@[0] == TAG_FIRST);
                        assert(TAG_FIRST != TAG_SECOND);
                        assert(spec_decode_request_payload(payload@) == Err::<
                            MainRequestView,
                            DecodeError,
                        >(DecodeError::Truncated));
                    }
                    return Err(DecodeError::Truncated);
                }
                let inst = u128_from_le_bytes(slice_subrange(payload.as_slice(), pos, pos + 16));
                let ts = u64_from_le_bytes(
                    slice_subrange(payload.as_slice(), pos + 16, pos + 24),
                );
                proof {
                    assert(payload@.subrange(pos as int, pos + 16) =~= payload@.skip(
                        pos as int,
                    ).subrange(0, 16));
                    assert(payload@.subrange(pos + 16, pos + 24) =~= payload@.skip(
                        pos as int,
                    ).subrange(16, 24));
                    assert(payload@.skip(pos as int).skip(24) =~= payload@.skip(pos + 24));
                    let tail = spec_decode_clocks(payload@.skip(pos + 24), (n - i - 1) as nat);
                    if tail is Ok {
                        let (cs, rest) = tail->Ok_0;
                        assert(clocks@ + (seq![(inst, ts)] + cs) =~= clocks@.push((inst, ts))
                            + cs);
                    }
                }
                clocks.push((inst, ts));
                pos = pos + 24;
                i = i + 1;
            }
            if plen - pos < 4 {
                assert(payload@.skip(pos as int).len() < 4);
                return Err(DecodeError::Truncated);
            }
            if plen - pos > 4 {
                assert(payload@.skip(pos as int).len() > 4);
                return Err(DecodeError::TrailingBytes);
            }
            let count = u32_from_le_bytes(slice_subrange(payload.as_slice(), pos, pos + 4));
            proof {
                assert(payload@.subrange(pos as int, pos + 4) =~= payload@.skip(pos as int));
                assert(clocks@ + Seq::<(u128, u64)>::empty() =~= clocks@);
            }
            Ok(MainRequest::GetOperations(GetOpsArgs { clocks, count }))
        } else {
            Err(DecodeError::InvalidTag)
        }
    }
}

/// A batch of operations sent by the originator in answer to one
/// `GetOperations` request.
#[derive(Clone, PartialEq, Eq, Debug)]
pub struct Operations(pub Vec<CrdtOperation>);

impl View for Operations {
    type V = Seq<CrdtOperationView>;

    open spec fn view(&self) -> Seq<CrdtOperationView> {
        ops_view(self.0@)
    }
}

/// Every operation's payload length must fit the eight-byte length field
/// written for it.
pub open spec fn ops_wf(s: Seq<CrdtOperationView>) -> bool {
    forall|i: int| 0 <= i < s.len() ==> (#[trigger] s[i]).data.len() <= u64::MAX
}

/// Payload bytes of one operation: replica id, clock value, payload
/// length, payload.
pub open spec fn spec_encode_op(op: CrdtOperationView) -> Seq<u8> {
    spec_u128_to_le_bytes(op.instance) + spec_u64_to_le_bytes(op.timestamp)
        + spec_u64_to_le_bytes(op.data.len() as u64) + op.data
}

/// Payload bytes of a list of operations, one after the other.
pub open spec fn spec_encode_ops(s: Seq<CrdtOperationView>) -> Seq<u8>
    decreases s.len(),
{
    if s.len() == 0 {
        Seq::empty()
    } else {
        spec_encode_op(s[0]) + spec_encode_ops(s.skip(1))
    }
}

/// Payload bytes of an `Operations` batch: the count, then the
/// operations.
pub open spec fn spec_operations_payload(s: Seq<CrdtOperationView>) -> Seq<u8> {
    spec_u64_to_le_bytes(s.len() as u64) + spec_encode_ops(s)
}

/// Wire bytes of an `Operations` batch: its payload in one frame.
pub open spec fn spec_encode_operations(s: Seq<CrdtOperationView>) -> Seq<u8> {
    spec_frame(spec_operations_payload(s))
}

/// Length in bytes of an encoded operation list: 32 bytes of fixed
/// fields per operation, plus its payload.
pub open spec fn spec_ops_body_len(s: Seq<CrdtOperationView>) -> int
    decreases s.len(),
{
    if s.len() == 0 {
        0
    } else {
        32 + s[0].data.len() + spec_ops_body_len(s.skip(1))
    }
}

/// The encoded operation list is exactly `spec_ops_body_len` bytes long,
/// and never shorter than any of its parts.
pub proof fn lemma_encode_ops_len(s: Seq<CrdtOperationView>)
    ensures
        spec_encode_ops(s).len() == spec_ops_body_len(s),
        spec_ops_body_len(s) >= 0,
    decreases s.len(),
{
    lemma_auto_spec_u128_to_from_le_bytes();
    lemma_auto_spec_u64_to_from_le_bytes();
    if s.len() > 0 {
        lemma_encode_ops_len(s.skip(1));
    }
}

/// Encoding a concatenation of operation lists concatenates their
/// encodings, and their lengths add up.
pub proof fn lemma_encode_ops_add(a: Seq<CrdtOperationView>, b: Seq<CrdtOperationView>)
    ensures
        spec_encode_ops(a + b) == spec_encode_ops(a) + spec_encode_ops(b),
        spec_ops_body_len(a + b) == spec_ops_body_len(a) + spec_ops_body_len(b),
    decreases a.len(),
{
    lemma_encode_ops_len(a);
    lemma_encode_ops_len(b);
    lemma_encode_ops_len(a + b);
    if a.len() == 0 {
        assert(a + b =~= b);
        assert(spec_encode_ops(a) + spec_encode_ops(b) =~= spec_encode_ops(b));
    } else {
        assert((a + b).skip(1) =~= a.skip(1) + b);
        lemma_encode_ops_add(a.skip(1), b);
        assert(spec_encode_ops(a + b) =~= spec_encode_ops(a) + spec_encode_ops(b));
    }
}

/// Read `n` operations from the front of `b`; what follows them is
/// returned unread.
pub open spec fn spec_decode_ops(b: Seq<u8>, n: nat) -> Result<
    (Seq<CrdtOperationView>, Seq<u8>),
    DecodeError,
>
    decreases n,
{
    if n == 0 {
        Ok((Seq::empty(), b))
    } else if b.len() < 32 {
        Err(DecodeError::Truncated)
    } else {
        let dlen = spec_u64_from_le_bytes(b.subrange(24, 32)) as int;
        if b.len() - 32 < dlen {
            Err(DecodeError::Truncated)
        } else {
            let op = CrdtOperationView {
                instance: spec_u128_from_le_bytes(b.subrange(0, 16)),
                timestamp: spec_u64_from_le_bytes(b.subrange(16, 24)),
                data: b.subrange(32, 32 + dlen),
            };
            match spec_decode_ops(b.skip(32 + dlen), (n - 1) as nat) {
                Ok((os, rest)) => Ok((seq![op] + os, rest)),
                Err(e) => Err(e),
            }
        }
    }
}

/// Decode an `Operations` payload: the count, then exactly that many
/// operations and nothing after them.
pub open spec fn spec_decode_operations_payload(b: Seq<u8>) -> Result<
    Seq<CrdtOperationView>,
    DecodeError,
> {
    if b.len() < 8 {
        Err(DecodeError::Truncated)
    } else {
        let n = spec_u64_from_le_bytes(b.subrange(0, 8));
        match spec_decode_ops(b.skip(8), n as nat) {
            Ok((os, rest)) => if rest.len() > 0 {
                Err(DecodeError::TrailingBytes)
            } else {
                Ok(os)
            },
            Err(e) => Err(e),
        }
    }
}

/// Decode a framed `Operations` batch.
pub open spec fn spec_decode_operations(b: Seq<u8>) -> Result<
    Seq<CrdtOperationView>,
    DecodeError,
> {
    match spec_unframe(b) {
        Ok(p) => spec_decode_operations_payload(p),
        Err(e) => Err(e),
    }
}

/// Reading back as many operations as were written recovers them and
/// leaves the rest of the bytes untouched.
pub proof fn lemma_decode_ops_of_encode(s: Seq<CrdtOperationView>, rest: Seq<u8>)
    requires
        ops_wf(s),
    ensures
        spec_decode_ops(spec_encode_ops(s) + rest, s.len()) == Ok::<
            (Seq<CrdtOperationView>, Seq<u8>),
            DecodeError,
        >((s, rest)),
    decreases s.len(),
{
    lemma_auto_spec_u128_to_from_le_bytes();
    lemma_auto_spec_u64_to_from_le_bytes();
    if s.len() == 0 {
        assert(spec_encode_ops(s) + rest =~= rest);
        assert(s =~= Seq::<CrdtOperationView>::empty());
    } else {
        let op = s[0];
        let dlen = op.data.len() as int;
        assert(op.data.len() <= u64::MAX);
        let b = spec_encode_ops(s) + rest;
        lemma_encode_ops_len(s);
        lemma_encode_ops_len(s.skip(1));
        assert(spec_encode_ops(s) == spec_encode_op(s[0]) + spec_encode_ops(s.skip(1)));
        assert(b.len() >= 32 + dlen);
        assert(b.subrange(0, 16) =~= spec_u128_to_le_bytes(op.instance));
        assert(b.subrange(16, 24) =~= spec_u64_to_le_bytes(op.timestamp));
        assert(b.subrange(24, 32) =~= spec_u64_to_le_bytes(op.data.len() as u64));
        assert(b.subrange(32, 32 + dlen) =~= op.data);
        assert(b.skip(32 + dlen) =~= spec_encode_ops(s.skip(1)) + rest);
        assert(ops_wf(s.skip(1)));
        lemma_decode_ops_of_encode(s.skip(1), rest);
        assert(spec_decode_ops(b.skip(32 + dlen), (s.len() - 1) as nat) == Ok::<
            (Seq<CrdtOperationView>, Seq<u8>),
            DecodeError,
        >((s.skip(1), rest)));
        assert(seq![s[0]] + s.skip(1) =~= s);
        assert(spec_decode_ops(b, s.len()) == Ok::<
            (Seq<CrdtOperationView>, Seq<u8>),
            DecodeError,
        >((seq![s[0]] + s.skip(1), rest)));
    }
}

/// Decoding inverts encoding for every batch whose payload fits a frame.
pub proof fn lemma_operations_round_trip(s: Seq<CrdtOperationView>)
    requires
        ops_wf(s),
        s.len() <= u64::MAX,
        spec_operations_payload(s).len() <= MAX_FRAME_PAYLOAD,
    ensures
        spec_decode_operations(spec_encode_operations(s)) == Ok::<
            Seq<CrdtOperationView>,
            DecodeError,
        >(s),
{
    lemma_auto_spec_u64_to_from_le_bytes();
    crate::codec::lemma_frame_round_trip(spec_operations_payload(s));
    let p = spec_operations_payload(s);
    assert(p.subrange(0, 8) =~= spec_u64_to_le_bytes(s.len() as u64));
    assert(p.skip(8) =~= spec_encode_ops(s) + Seq::<u8>::empty());
    lemma_decode_ops_of_encode(s, Seq::<u8>::empty());
    assert(spec_decode_ops(p.skip(8), s.len()) == Ok::<
        (Seq<CrdtOperationView>, Seq<u8>),
        DecodeError,
    >((s, Seq::<u8>::empty())));
}

impl Operations {
    /// Whether this batch's payload fits one frame; `to_bytes` asks for
    /// exactly this.
    #[verifier::loop_isolation(false)]
    pub fn fits_frame(&self) -> (r: bool)
        ensures
            r == (spec_operations_payload(self@).len() <= MAX_FRAME_PAYLOAD),
    {
        proof {
            lemma_auto_spec_u64_to_from_le_bytes();
            lemma_encode_ops_len(self@);
        }
        let n = self.0.len();
        let mut total: u64 = 8;
        let mut i: usize = 0;
        while i < n
            invariant
                0 <= i <= n,
                total as int == 8 + spec_ops_body_len(self@.take(i as int)),
                total <= MAX_FRAME_PAYLOAD,
            decreases n - i,
        {
            let dl = self.0[i].data.len();
            proof {
                lemma_encode_ops_add(self@.take(i as int), seq![self.0@[i as int]@]);
                assert(self@.take(i as int) + seq![self.0@[i as int]@] =~= self@.take(i + 1));
                assert(seq![self.0@[i as int]@].skip(1) =~= Seq::<CrdtOperationView>::empty());
                assert(spec_ops_body_len(Seq::<CrdtOperationView>::empty()) == 0);
                assert(spec_ops_body_len(seq![self.0@[i as int]@]) == 32 + dl);
                lemma_encode_ops_add(self@.take(i + 1), self@.skip(i + 1));
                assert(self@.take(i + 1) + self@.skip(i + 1) =~= self@);
                lemma_encode_ops_len(self@.skip(i + 1));
            }
            let budget = MAX_FRAME_PAYLOAD - total;
            if budget < 32 || (dl as u64) > budget - 32 {
                return false;
            }
            total = total + 32 + (dl as u64);
            i = i + 1;
        }
        proof {
            assert(self@.take(n as int) =~= self@);
        }
        true
    }

    /// Encode this batch as one frame.
    #[verifier::loop_isolation(false)]
    pub fn to_bytes(&self) -> (r: Vec<u8>)
        requires
            spec_operations_payload(self@).len() <= MAX_FRAME_PAYLOAD,
        ensures
            r@ == spec_encode_operations(self@),
    {
        let n = self.0.len();
        let mut payload = u64_to_le_bytes(n as u64);
        let mut i: usize = 0;
        while i < n
            invariant
                0 <= i <= n,
                payload@ == spec_u64_to_le_bytes(n as u64) + spec_encode_ops(
                    self@.take(i as int),
                ),
            decreases n - i,
        {
            let op = &self.0[i];
            let mut ib = u128_to_le_bytes(op.instance);
            payload.append(&mut ib);
            let mut tb = u64_to_le_bytes(op.timestamp);
            payload.append(&mut tb);
            let mut lb = u64_to_le_bytes(op.data.len() as u64);
            payload.append(&mut lb);
            let mut db = slice_to_vec(op.data.as_slice());
            payload.append(&mut db);
            proof {
                lemma_encode_ops_add(self@.take(i as int), seq![self.0@[i as int]@]);
                assert(self@.take(i as int) + seq![self.0@[i as int]@] =~= self@.take(i + 1));
                assert(seq![self.0@[i as int]@].skip(1) =~= Seq::<CrdtOperationView>::empty());
                assert(spec_encode_ops(Seq::<CrdtOperationView>::empty()) == Seq::<u8>::empty());
                assert(spec_encode_ops(seq![self.0@[i as int]@]) =~= spec_encode_op(
                    self.0@[i as int]@,
                ));
                assert(payload@ =~= spec_u64_to_le_bytes(n as u64) + spec_encode_ops(
                    self@.take(i + 1),
                ));
            }
            i = i + 1;
        }
        proof {
            assert(self@.take(n as int) =~= self@);
            assert(payload@ =~= spec_operations_payload(self@));
        }
        encode_frame(payload)
    }

    /// Decode one frame as an `Operations` batch.  Succeeds exactly on
    /// the frames that `to_bytes` produces; every other input gets the
    /// decode error that `spec_decode_operations` names for it.
    #[verifier::loop_isolation(false)]
    pub fn from_bytes(b: &[u8]) -> (r: Result<Operations, DecodeError>)
        ensures
            match r {
                Ok(v) => spec_decode_operations(b@) == Ok::<Seq<CrdtOperationView>, DecodeError>(
                    v@,
                ),
                Err(e) => spec_decode_operations(b@) == Err::<
                    Seq<CrdtOperationView>,
                    DecodeError,
                >(e),
            },
    {
        let payload = match unframe(b) {
            Ok(p) => p,
            Err(e) => {
                return Err(e);
            },
        };
        let plen = payload.len();
        if plen < 8 {
            return Err(DecodeError::Truncated);
        }
        let n = u64_from_le_bytes(slice_subrange(payload.as_slice(), 0, 8));
        let mut ops: Vec<CrdtOperation> = Vec::new();
        let mut pos: usize = 8;
        let mut i: u64 = 0;
        proof {
            assert(payload@.skip(8) =~= payload@.skip(pos as int));
            assert(ops_view(ops@) =~= Seq::<CrdtOperationView>::empty());
        }
        while i < n
            invariant
                8 <= pos <= plen,
                i <= n,
                match spec_decode_ops(payload@.skip(pos as int), (n - i) as nat) {
                    Ok((os, rest)) => spec_decode_ops(payload@.skip(8), n as nat) == Ok::<
                        (Seq<CrdtOperationView>, Seq<u8>),
                        DecodeError,
                    >((ops_view(ops@) + os, rest)),
                    Err(e) => spec_decode_ops(payload@.skip(8), n as nat) == Err::<
                        (Seq<CrdtOperationView>, Seq<u8>),
                        DecodeError,
                    >(e),
                },
            decreases n - i,
        {
            if plen - pos < 32 {
                proof {
                    assert(payload@.skip(pos as int).len() < 32);
                }
                return Err(DecodeError::Truncated);
            }
            let inst = u128_from_le_bytes(slice_subrange(payload.as_slice(), pos, pos + 16));
            let ts = u64_from_le_bytes(slice_subrange(payload.as_slice(), pos + 16, pos + 24));
            let dlen64 = u64_from_le_bytes(slice_subrange(payload.as_slice(), pos + 24, pos + 32));
            proof {
                assert(payload@.subrange(pos as int, pos + 16) =~= payload@.skip(
                    pos as int,
                ).subrange(0, 16));
                assert(payload@.subrange(pos + 16, pos + 24) =~= payload@.skip(
                    pos as int,
                ).subrange(16, 24));
                assert(payload@.subrange(pos + 24, pos + 32) =~= payload@.skip(
                    pos as int,
                ).subrange(24, 32));
            }
            let rem = plen - (pos + 32);
            if (rem as u64) < dlen64 {
                proof {
                    assert(payload@.skip(pos as int).len() - 32 < dlen64 as int);
                }
                return Err(DecodeError::Truncated);
            }
            let dlen = dlen64 as usize;
            let data = slice_to_vec(slice_subrange(payload.as_slice(), pos + 32, pos + 32 + dlen));
            let op = CrdtOperation { instance: inst, timestamp: ts, data };
            proof {
                assert(payload@.subrange(pos + 32, pos + 32 + dlen) =~= payload@.skip(
                    pos as int,
                ).subrange(32, 32 + dlen64 as int));
                assert(payload@.skip(pos as int).skip(32 + dlen64 as int) =~= payload@.skip(
                    pos + 32 + dlen,
                ));
                let tail = spec_decode_ops(payload@.skip(pos + 32 + dlen), (n - i - 1) as nat);
                if tail is Ok {
                    let (os, rest) = tail->Ok_0;
                    assert(ops_view(ops@.push(op)) =~= ops_view(ops@) + seq![op@]);
                    assert(ops_view(ops@) + (seq![op@] + os) =~= ops_view(ops@.push(op)) + os);
                }
            }
            ops.push(op);
            pos = pos + 32 + dlen;
            i = i + 1;
        }
        if plen - pos > 0 {
            proof {
                assert(payload@.skip(pos as int).len() > 0);
            }
            return Err(DecodeError::TrailingBytes);
        }
        proof {
            assert(payload@.skip(pos as int).len() == 0);
            assert(ops_view(ops@) + Seq::<CrdtOperationView>::empty() =~= ops_view(ops@));
        }
        Ok(Operations(ops))
    }
}

/// The first frame on every new connection: the session kind and the
/// library the session is about.
#[derive(Clone, Copy, PartialEq, Eq, Structural, Debug)]
pub enum Header {
    Sync(u128),
}

/// Wire bytes of a `Header`: a tag and the library id, in one frame.
pub open spec fn spec_encode_header(h: Header) -> Seq<u8> {
    match h {
        Header::Sync(id) => spec_frame(seq![TAG_FIRST] + spec_u128_to_le_bytes(id)),
    }
}

/// Decode a framed `Header`.
pub open spec fn spec_decode_header(b: Seq<u8>) -> Result<Header, DecodeError> {
    match spec_unframe(b) {
        Ok(p) => if p.len() < 1 {
            Err(DecodeError::Truncated)
        } else if p[0] != TAG_FIRST {
            Err(DecodeError::InvalidTag)
        } else if p.len() < 17 {
            Err(DecodeError::Truncated)
        } else if p.len() > 17 {
            Err(DecodeError::TrailingBytes)
        } else {
            Ok(Header::Sync(spec_u128_from_le_bytes(p.subrange(1, 17))))
        },
        Err(e) => Err(e),
    }
}

/// Decoding inverts encoding for every header.
pub proof fn lemma_header_round_trip(h: Header)
    ensures
        spec_decode_header(spec_encode_header(h)) == Ok::<Header, DecodeError>(h),
{
    lemma_auto_spec_u128_to_from_le_bytes();
    match h {
        Header::Sync(id) => {
            let p = seq![TAG_FIRST] + spec_u128_to_le_bytes(id);
            crate::codec::lemma_frame_round_trip(p);
            assert(p.subrange(1, 17) =~= spec_u128_to_le_bytes(id));
        },
    }
}

impl Header {
    /// Encode this header as one frame.
    pub fn to_bytes(&self) -> (r: Vec<u8>)
        ensures
            r@ == spec_encode_header(*self),
    {
        match self {
            Header::Sync(id) => {
                let mut payload: Vec<u8> = Vec::new();
                payload.push(TAG_FIRST);
                let mut ib = u128_to_le_bytes(*id);
                payload.append(&mut ib);
                proof {
                    assert(payload@ =~= seq![TAG_FIRST] + spec_u128_to_le_bytes(*id));
                    lemma_auto_spec_u128_to_from_le_bytes();
                }
                encode_frame(payload)
            },
        }
    }

    /// Decode one frame as a `Header`.
    pub fn from_bytes(b: &[u8]) -> (r: Result<Header, DecodeError>)
        ensures
            match r {
                Ok(h) => spec_decode_header(b@) == Ok::<Header, DecodeError>(h),
                Err(e) => spec_decode_header(b@) == Err::<Header, DecodeError>(e),
            },
    {
        let payload = match unframe(b) {
            Ok(p) => p,
            Err(e) => {
                return Err(e);
            },
        };
        if payload.len() < 1 {
            return Err(DecodeError::Truncated);
        }
        if payload[0] != TAG_FIRST {
            return Err(DecodeError::InvalidTag);
        }
        if payload.len() < 17 {
            return Err(DecodeError::Truncated);
        }
        if payload.len() > 17 {
            return Err(DecodeError::TrailingBytes);
        }
        let id = u128_from_le_bytes(slice_subrange(payload.as_slice(), 1, 17));
        Ok(Header::Sync(id))
    }
}

/// The notification the originator sends right after the handshake: new
/// operations exist for the library named in the header.
#[derive(Clone, Copy, PartialEq, Eq, Structural, Debug)]
pub enum SyncMessage {
    NewOperations,
}

/// Wire bytes of a `SyncMessage`: a single tag byte in one frame.
pub open spec fn spec_encode_sync_message(m: SyncMessage) -> Seq<u8> {
    spec_frame(seq![TAG_FIRST])
}

/// Decode a framed `SyncMessage`.
pub open spec fn spec_decode_sync_message(b: Seq<u8>) -> Result<SyncMessage, DecodeError> {
    match spec_unframe(b) {
        Ok(p) => if p.len() < 1 {
            Err(DecodeError::Truncated)
        } else if p[0] != TAG_FIRST {
            Err(DecodeError::InvalidTag)
        } else if p.len() > 1 {
            Err(DecodeError::TrailingBytes)
        } else {
            Ok(SyncMessage::NewOperations)
        },
        Err(e) => Err(e),
    }
}

/// Decoding inverts encoding for every sync message.
pub proof fn lemma_sync_message_round_trip(m: SyncMessage)
    ensures
        spec_decode_sync_message(spec_encode_sync_message(m)) == Ok::<SyncMessage, DecodeError>(m),
{
    crate::codec::lemma_frame_round_trip(seq![TAG_FIRST]);
}

impl SyncMessage {
    /// Encode this message as one frame.
    pub fn to_bytes(&self) -> (r: Vec<u8>)
        ensures
            r@ == spec_encode_sync_message(*self),
    {
        let mut payload: Vec<u8> = Vec::new();
        payload.push(TAG_FIRST);
        proof {
            assert(payload@ =~= seq![TAG_FIRST]);
        }
        encode_frame(payload)
    }

    /// Decode one frame as a `SyncMessage`.
    pub fn from_bytes(b: &[u8]) -> (r: Result<SyncMessage, DecodeError>)
        ensures
            match r {
                Ok(m) => spec_decode_sync_message(b@) == Ok::<SyncMessage, DecodeError>(m),
                Err(e) => spec_decode_sync_message(b@) == Err::<SyncMessage, DecodeError>(e),
            },
    {
        let payload = match unframe(b) {
            Ok(p) => p,
            Err(e) => {
                return Err(e);
            },
        };
        if payload.len() < 1 {
            return Err(DecodeError::Truncated);
        }
        if payload[0] != TAG_FIRST {
            return Err(DecodeError::InvalidTag);
        }
        if payload.len() > 1 {
            return Err(DecodeError::TrailingBytes);
        }
        Ok(SyncMessage::NewOperations)
    }
}

} // verus!
