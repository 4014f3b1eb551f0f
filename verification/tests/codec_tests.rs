//! Wire-format tests: framing, both message grammars, and the header
//! and notification frames.

use sync_core::codec::DecodeError;
use sync_core::message::{
    CrdtOperation, GetOpsArgs, Header, MainRequest, Operations, SyncMessage,
};

fn op(instance: u128, timestamp: u64, data: Vec<u8>) -> CrdtOperation {
    CrdtOperation { instance, timestamp, data }
}

#[test]
fn done_frame_bytes_are_exact() {
    let bytes = MainRequest::Done.to_bytes();
    assert_eq!(bytes, vec![1, 0, 0, 0, 1]);
}

#[test]
fn done_round_trip() {
    let bytes = MainRequest::Done.to_bytes();
    let back = MainRequest::from_bytes(&bytes).unwrap();
    assert_eq!(back, MainRequest::Done);
}

#[test]
fn get_operations_round_trip() {
    let req = MainRequest::GetOperations(GetOpsArgs {
        clocks: vec![(7, 42), (u128::MAX, u64::MAX), (0, 0)],
        count: 1000,
    });
    assert!(req.fits_frame());
    let bytes = req.to_bytes();
    let back = MainRequest::from_bytes(&bytes).unwrap();
    assert_eq!(back, req);
}

#[test]
fn get_operations_empty_clocks_round_trip() {
    let req = MainRequest::GetOperations(GetOpsArgs { clocks: vec![], count: 2 });
    let bytes = req.to_bytes();
    // tag, count of entries (8 bytes), batch cap (4 bytes): 13 bytes framed.
    assert_eq!(bytes.len(), 4 + 13);
    assert_eq!(MainRequest::from_bytes(&bytes).unwrap(), req);
}

#[test]
fn operations_round_trip() {
    let ops = Operations(vec![
        op(1, 1, vec![]),
        op(1, 2, vec![0xde, 0xad, 0xbe, 0xef]),
        op(2, 3, vec![0; 100]),
    ]);
    assert!(ops.fits_frame());
    let bytes = ops.to_bytes();
    let back = Operations::from_bytes(&bytes).unwrap();
    assert_eq!(back, ops);
}

#[test]
fn empty_operations_round_trip() {
    let ops = Operations(vec![]);
    let bytes = ops.to_bytes();
    assert_eq!(bytes, vec![8, 0, 0, 0, 0, 0, 0, 0, 0, 0, 0, 0]);
    assert_eq!(Operations::from_bytes(&bytes).unwrap(), Operations(vec![]));
}

#[test]
fn truncated_frame_is_rejected() {
    let bytes = MainRequest::GetOperations(GetOpsArgs { clocks: vec![(3, 9)], count: 5 })
        .to_bytes();
    for cut in 0..bytes.len() {
        let err = MainRequest::from_bytes(&bytes[..cut]).unwrap_err();
        assert_eq!(err, DecodeError::Truncated);
    }
}

#[test]
fn unknown_tag_is_rejected() {
    // A frame whose one payload byte is no known variant tag.
    let bytes = vec![1, 0, 0, 0, 9];
    assert_eq!(MainRequest::from_bytes(&bytes).unwrap_err(), DecodeError::InvalidTag);
}

#[test]
fn bytes_after_done_are_rejected() {
    // A two-byte payload whose first byte says `Done`.
    let bytes = vec![2, 0, 0, 0, 1, 0];
    assert_eq!(MainRequest::from_bytes(&bytes).unwrap_err(), DecodeError::TrailingBytes);
}

#[test]
fn frame_longer_than_prefix_is_rejected() {
    let mut bytes = MainRequest::Done.to_bytes();
    bytes.push(0);
    assert_eq!(MainRequest::from_bytes(&bytes).unwrap_err(), DecodeError::TrailingBytes);
}

#[test]
fn frame_shorter_than_prefix_is_rejected() {
    let bytes = vec![5, 0, 0, 0, 1];
    assert_eq!(MainRequest::from_bytes(&bytes).unwrap_err(), DecodeError::Truncated);
}

#[test]
fn operations_with_lying_length_are_rejected() {
    let ops = Operations(vec![op(1, 1, vec![1, 2, 3])]);
    let mut bytes = ops.to_bytes();
    // Claim two operations where only one follows.
    bytes[4] = 2;
    assert_eq!(Operations::from_bytes(&bytes).unwrap_err(), DecodeError::Truncated);
}

#[test]
fn header_round_trip() {
    let h = Header::Sync(0x00010203_04050607_08090a0b_0c0d0e0f);
    let bytes = h.to_bytes();
    assert_eq!(bytes.len(), 4 + 17);
    assert_eq!(Header::from_bytes(&bytes).unwrap(), h);
}

#[test]
fn sync_message_round_trip() {
    let bytes = SyncMessage::NewOperations.to_bytes();
    assert_eq!(bytes, vec![1, 0, 0, 0, 0]);
    assert_eq!(SyncMessage::from_bytes(&bytes).unwrap(), SyncMessage::NewOperations);
}

#[test]
fn empty_input_is_truncated() {
    assert_eq!(MainRequest::from_bytes(&[]).unwrap_err(), DecodeError::Truncated);
    assert_eq!(Operations::from_bytes(&[]).unwrap_err(), DecodeError::Truncated);
    assert_eq!(Header::from_bytes(&[]).unwrap_err(), DecodeError::Truncated);
}
