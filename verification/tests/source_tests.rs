//! Operation-source tests: clock lookup, filtering, batching, and the
//! advancing-clock pull scenario.

use sync_core::message::{CrdtOperation, GetOpsArgs};
use sync_core::source::{clock_for, get_ops};

fn op(instance: u128, timestamp: u64) -> CrdtOperation {
    CrdtOperation { instance, timestamp, data: vec![] }
}

fn timestamps(ops: &[CrdtOperation]) -> Vec<u64> {
    ops.iter().map(|o| o.timestamp).collect()
}

#[test]
fn clock_for_finds_first_entry() {
    let clocks = vec![(1, 10), (2, 20), (1, 99)];
    assert_eq!(clock_for(&clocks, 1), 10);
    assert_eq!(clock_for(&clocks, 2), 20);
    assert_eq!(clock_for(&clocks, 3), 0);
}

#[test]
fn get_ops_returns_suffix_beyond_clock() {
    let store = vec![op(1, 1), op(1, 2), op(1, 3), op(1, 4), op(1, 5)];
    let batch = get_ops(&store, &GetOpsArgs { clocks: vec![(1, 3)], count: 100 });
    assert_eq!(timestamps(&batch), vec![4, 5]);
}

#[test]
fn get_ops_filters_per_instance() {
    let store = vec![op(1, 1), op(2, 2), op(1, 3), op(2, 4)];
    let batch = get_ops(&store, &GetOpsArgs { clocks: vec![(1, 1), (2, 2)], count: 100 });
    assert_eq!(timestamps(&batch), vec![3, 4]);
    // An instance with no clock entry starts from zero: everything of
    // it is missing.
    let batch = get_ops(&store, &GetOpsArgs { clocks: vec![(1, 3)], count: 100 });
    assert_eq!(timestamps(&batch), vec![2, 4]);
}

#[test]
fn get_ops_caps_the_batch() {
    let store = vec![op(1, 1), op(1, 2), op(1, 3)];
    let batch = get_ops(&store, &GetOpsArgs { clocks: vec![], count: 2 });
    assert_eq!(timestamps(&batch), vec![1, 2]);
    let batch = get_ops(&store, &GetOpsArgs { clocks: vec![], count: 0 });
    assert!(batch.is_empty());
}

#[test]
fn advancing_requests_walk_the_store() {
    // Peer A holds operations with clocks 1 through 5 for instance X;
    // the requester pulls with a cap of two, advancing its clock to the
    // last received value each time.  The batches are [1,2], [3,4],
    // [5], full exactly while more remains.
    let x: u128 = 7;
    let store = vec![op(x, 1), op(x, 2), op(x, 3), op(x, 4), op(x, 5)];
    let count = 2;

    let b1 = get_ops(&store, &GetOpsArgs { clocks: vec![(x, 0)], count });
    assert_eq!(timestamps(&b1), vec![1, 2]);
    assert!(b1.len() == count as usize); // a full batch: there may be more

    let b2 = get_ops(&store, &GetOpsArgs { clocks: vec![(x, 2)], count });
    assert_eq!(timestamps(&b2), vec![3, 4]);
    assert!(b2.len() == count as usize);

    let b3 = get_ops(&store, &GetOpsArgs { clocks: vec![(x, 4)], count });
    assert_eq!(timestamps(&b3), vec![5]);
    assert!(b3.len() < count as usize); // a short batch: nothing is left

    let all: Vec<u64> = [b1, b2, b3].concat().iter().map(|o| o.timestamp).collect();
    assert_eq!(all, vec![1, 2, 3, 4, 5]);
}

#[test]
fn exact_multiple_of_cap_needs_one_empty_batch() {
    let x: u128 = 1;
    let store = vec![op(x, 1), op(x, 2)];
    let b1 = get_ops(&store, &GetOpsArgs { clocks: vec![(x, 0)], count: 2 });
    assert_eq!(timestamps(&b1), vec![1, 2]);
    // The batch came back full, so the requester asks once more and
    // gets the final, empty batch.
    let b2 = get_ops(&store, &GetOpsArgs { clocks: vec![(x, 2)], count: 2 });
    assert!(b2.is_empty());
}

#[test]
fn duplicate_copies_all_fields() {
    let o = CrdtOperation { instance: 9, timestamp: 3, data: vec![1, 2] };
    let d = o.duplicate();
    assert_eq!(d, o);
}
