//! The operation source: what the originator hands out when asked.
//!
//! A store is the sequence of operations a replica holds, in clock order.
//! A `GetOperations` request carries, per replica, the last clock value
//! the requester has ingested; the source answers with the operations
//! whose clock lies beyond that, in order, capped at the requested batch
//! size.  The lemmas at the end show that repeated batches, with the
//! clocks advanced by what each batch delivered, walk the store without
//! gap or repetition until nothing is missing.

use crate::message::{ops_view, CrdtOperation, CrdtOperationView, GetOpsArgs};
use vstd::prelude::*;

verus! {

/// The clock value recorded for `instance`: the first entry that names
/// it, or zero when none does.
pub open spec fn clock_of(clocks: Seq<(u128, u64)>, instance: u128) -> u64
    decreases clocks.len(),
{
    if clocks.len() == 0 {
        0
    } else if clocks[0].0 == instance {
        clocks[0].1
    } else {
        clock_of(clocks.skip(1), instance)
    }
}

/// An operation is wanted when its clock lies beyond what the requester
/// has recorded for its replica.
pub open spec fn wanted(clocks: Seq<(u128, u64)>, op: CrdtOperationView) -> bool {
    op.timestamp > clock_of(clocks, op.instance)
}

/// The wanted operations of a store, in store order.
pub open spec fn missing_ops(store: Seq<CrdtOperationView>, clocks: Seq<(u128, u64)>) -> Seq<
    CrdtOperationView,
>
    decreases store.len(),
{
    if store.len() == 0 {
        Seq::empty()
    } else {
        let rest = missing_ops(store.skip(1), clocks);
        if wanted(clocks, store[0]) {
            seq![store[0]] + rest
        } else {
            rest
        }
    }
}

/// What one `GetOperations` call returns: the missing operations, capped
/// at `count`.
pub open spec fn spec_get_ops(
    store: Seq<CrdtOperationView>,
    clocks: Seq<(u128, u64)>,
    count: u32,
) -> Seq<CrdtOperationView> {
    let m = missing_ops(store, clocks);
    if m.len() <= count {
        m
    } else {
        m.take(count as int)
    }
}

/// A store in clock order: later operations carry strictly larger
/// clock values.
pub open spec fn strictly_ordered(s: Seq<CrdtOperationView>) -> bool {
    forall|i: int, j: int| 0 <= i < j < s.len() ==> s[i].timestamp < s[j].timestamp
}

impl CrdtOperation {
    /// A copy of this operation, field by field.
    pub fn duplicate(&self) -> (r: CrdtOperation)
        ensures
            r@ == self@,
    {
        CrdtOperation {
            instance: self.instance,
            timestamp: self.timestamp,
            data: vstd::slice::slice_to_vec(self.data.as_slice()),
        }
    }
}

/// The clock value recorded for `instance` in a clock list.
#[verifier::loop_isolation(false)]
pub fn clock_for(clocks: &Vec<(u128, u64)>, instance: u128) -> (r: u64)
    ensures
        r == clock_of(clocks@, instance),
{
    let n = clocks.len();
    let mut i: usize = 0;
    proof {
        assert(clocks@.skip(0) =~= clocks@);
    }
    while i < n
        invariant
            0 <= i <= n,
            clock_of(clocks@, instance) == clock_of(clocks@.skip(i as int), instance),
        decreases n - i,
    {
        let c = clocks[i];
        proof {
            assert(clocks@.skip(i as int)[0] == clocks@[i as int]);
            assert(clocks@.skip(i as int).skip(1) =~= clocks@.skip(i + 1));
        }
        if c.0 == instance {
            return c.1;
        }
        i = i + 1;
    }
    proof {
        assert(clocks@.skip(n as int).len() == 0);
    }
    0
}

/// Splitting a store splits its missing operations.
pub proof fn lemma_missing_add(
    a: Seq<CrdtOperationView>,
    b: Seq<CrdtOperationView>,
    clocks: Seq<(u128, u64)>,
)
    ensures
        missing_ops(a + b, clocks) == missing_ops(a, clocks) + missing_ops(b, clocks),
    decreases a.len(),
{
    if a.len() == 0 {
        assert(a + b =~= b);
        assert(missing_ops(a, clocks) + missing_ops(b, clocks) =~= missing_ops(b, clocks));
    } else {
        assert((a + b).skip(1) =~= a.skip(1) + b);
        lemma_missing_add(a.skip(1), b, clocks);
        assert(missing_ops(a + b, clocks) =~= missing_ops(a, clocks) + missing_ops(b, clocks));
    }
}

/// Every missing operation is wanted.
pub proof fn lemma_missing_wanted(store: Seq<CrdtOperationView>, clocks: Seq<(u128, u64)>)
    ensures
        forall|i: int|
            0 <= i < missing_ops(store, clocks).len() ==> wanted(
                clocks,
                #[trigger] missing_ops(store, clocks)[i],
            ),
    decreases store.len(),
{
    if store.len() > 0 {
        lemma_missing_wanted(store.skip(1), clocks);
        let m = missing_ops(store, clocks);
        let mrest = missing_ops(store.skip(1), clocks);
        assert forall|i: int| 0 <= i < m.len() implies wanted(clocks, #[trigger] m[i]) by {
            if wanted(clocks, store[0]) {
                if i > 0 {
                    assert(m[i] == mrest[i - 1]);
                }
            } else {
                assert(m[i] == mrest[i]);
            }
        }
    }
}

/// Every wanted operation of the store appears among the missing ones.
pub proof fn lemma_missing_contains(
    store: Seq<CrdtOperationView>,
    clocks: Seq<(u128, u64)>,
    i: int,
)
    requires
        0 <= i < store.len(),
        wanted(clocks, store[i]),
    ensures
        missing_ops(store, clocks).contains(store[i]),
    decreases store.len(),
{
    if i == 0 {
        assert(missing_ops(store, clocks)[0] == store[0]);
    } else {
        lemma_missing_contains(store.skip(1), clocks, i - 1);
        let m = missing_ops(store.skip(1), clocks);
        let j = choose|j: int| 0 <= j < m.len() && m[j] == store.skip(1)[i - 1];
        if wanted(clocks, store[0]) {
            assert(missing_ops(store, clocks)[j + 1] == store[i]);
        } else {
            assert(missing_ops(store, clocks)[j] == store[i]);
        }
    }
}

/// The missing operations of an ordered store are themselves ordered.
pub proof fn lemma_missing_ordered(store: Seq<CrdtOperationView>, clocks: Seq<(u128, u64)>)
    requires
        strictly_ordered(store),
    ensures
        strictly_ordered(missing_ops(store, clocks)),
        forall|i: int|
            0 <= i < missing_ops(store, clocks).len() ==> exists|j: int|
                0 <= j < store.len() && store[j] == #[trigger] missing_ops(store, clocks)[i],
    decreases store.len(),
{
    if store.len() > 0 {
        assert(strictly_ordered(store.skip(1)));
        lemma_missing_ordered(store.skip(1), clocks);
        let m = missing_ops(store, clocks);
        let mrest = missing_ops(store.skip(1), clocks);
        assert forall|i: int| 0 <= i < m.len() implies exists|j: int|
            0 <= j < store.len() && store[j] == #[trigger] m[i] by {
            if wanted(clocks, store[0]) {
                if i == 0 {
                    assert(store[0] == m[0]);
                } else {
                    let j = choose|j: int|
                        0 <= j < store.skip(1).len() && store.skip(1)[j] == mrest[i - 1];
                    assert(store[j + 1] == m[i]);
                }
            } else {
                let j = choose|j: int|
                    0 <= j < store.skip(1).len() && store.skip(1)[j] == mrest[i - 1 + 1];
                assert(store[j + 1] == m[i]);
            }
        }
        assert forall|i: int, j: int| 0 <= i < j < m.len() implies m[i].timestamp
            < m[j].timestamp by {
            if wanted(clocks, store[0]) {
                if i == 0 {
                    let jj = choose|jj: int|
                        0 <= jj < store.skip(1).len() && store.skip(1)[jj] == mrest[j - 1];
                    assert(store[jj + 1] == m[j]);
                    assert(store[0].timestamp < store[jj + 1].timestamp);
                }
            }
        }
    }
}

/// Record `ts` as the clock value for `instance`, replacing the first
/// entry that names it or appending one.
pub open spec fn set_clock(clocks: Seq<(u128, u64)>, instance: u128, ts: u64) -> Seq<(u128, u64)>
    decreases clocks.len(),
{
    if clocks.len() == 0 {
        seq![(instance, ts)]
    } else if clocks[0].0 == instance {
        seq![(instance, ts)] + clocks.skip(1)
    } else {
        seq![clocks[0]] + set_clock(clocks.skip(1), instance, ts)
    }
}

/// `set_clock` changes exactly the entry it names.
pub proof fn lemma_set_clock(clocks: Seq<(u128, u64)>, instance: u128, ts: u64)
    ensures
        forall|j: u128|
            #[trigger] clock_of(set_clock(clocks, instance, ts), j) == if j == instance {
                ts
            } else {
                clock_of(clocks, j)
            },
    decreases clocks.len(),
{
    let s = set_clock(clocks, instance, ts);
    if clocks.len() == 0 {
        assert forall|j: u128| true implies #[trigger] clock_of(s, j) == if j == instance {
            ts
        } else {
            clock_of(clocks, j)
        } by {
            assert(s[0] == (instance, ts));
            assert(s.skip(1) =~= Seq::<(u128, u64)>::empty());
            assert(clock_of(Seq::<(u128, u64)>::empty(), j) == 0);
        }
    } else if clocks[0].0 == instance {
        assert forall|j: u128| true implies #[trigger] clock_of(s, j) == if j == instance {
            ts
        } else {
            clock_of(clocks, j)
        } by {
            assert(s == seq![(instance, ts)] + clocks.skip(1));
            assert(s[0] == (instance, ts));
            assert(s.skip(1) =~= clocks.skip(1));
            if j == instance {
                assert(clock_of(s, j) == ts);
            } else {
                assert(clock_of(s, j) == clock_of(clocks.skip(1), j));
                assert(clock_of(clocks, j) == clock_of(clocks.skip(1), j));
            }
        }
    } else {
        lemma_set_clock(clocks.skip(1), instance, ts);
        assert forall|j: u128| true implies #[trigger] clock_of(s, j) == if j == instance {
            ts
        } else {
            clock_of(clocks, j)
        } by {
            assert(s[0] == clocks[0]);
            assert(s.skip(1) =~= set_clock(clocks.skip(1), instance, ts));
            assert(clock_of(s.skip(1), j) == clock_of(
                set_clock(clocks.skip(1), instance, ts),
                j,
            ));
        }
    }
}

/// The clocks after a batch has been ingested: each delivered operation
/// records its clock value for its replica, in delivery order.
pub open spec fn advance(clocks: Seq<(u128, u64)>, batch: Seq<CrdtOperationView>) -> Seq<
    (u128, u64),
>
    decreases batch.len(),
{
    if batch.len() == 0 {
        clocks
    } else {
        set_clock(advance(clocks, batch.drop_last()), batch.last().instance, batch.last().timestamp)
    }
}

/// The clock value the last operation of `instance` in a batch carries.
pub open spec fn last_clock(batch: Seq<CrdtOperationView>, instance: u128) -> Option<u64>
    decreases batch.len(),
{
    if batch.len() == 0 {
        None
    } else if batch.last().instance == instance {
        Some(batch.last().timestamp)
    } else {
        last_clock(batch.drop_last(), instance)
    }
}

/// After a batch, each replica's clock is the last value the batch
/// delivered for it, or what it was before when the batch had none.
pub proof fn lemma_advance_clock(clocks: Seq<(u128, u64)>, batch: Seq<CrdtOperationView>)
    ensures
        forall|j: u128|
            #[trigger] clock_of(advance(clocks, batch), j) == match last_clock(batch, j) {
                Some(t) => t,
                None => clock_of(clocks, j),
            },
    decreases batch.len(),
{
    if batch.len() > 0 {
        lemma_advance_clock(clocks, batch.drop_last());
        lemma_set_clock(
            advance(clocks, batch.drop_last()),
            batch.last().instance,
            batch.last().timestamp,
        );
    }
}

/// A batch entry for an instance means `last_clock` reports a value at
/// least as large, when the batch is ordered.
pub proof fn lemma_last_clock_ge(batch: Seq<CrdtOperationView>, idx: int)
    requires
        strictly_ordered(batch),
        0 <= idx < batch.len(),
    ensures
        last_clock(batch, batch[idx].instance) matches Some(t) && t >= batch[idx].timestamp,
        last_clock(batch, batch[idx].instance) matches Some(t) && t <= batch.last().timestamp,
    decreases batch.len(),
{
    if batch.last().instance == batch[idx].instance {
    } else {
        assert(idx < batch.len() - 1);
        assert(strictly_ordered(batch.drop_last()));
        assert(batch.drop_last()[idx] == batch[idx]);
        lemma_last_clock_ge(batch.drop_last(), idx);
    }
}

/// When `last_clock` reports a value, some batch entry carries it.
pub proof fn lemma_last_clock_member(batch: Seq<CrdtOperationView>, j: u128)
    requires
        last_clock(batch, j) is Some,
    ensures
        exists|i: int|
            0 <= i < batch.len() && (#[trigger] batch[i]).instance == j && batch[i].timestamp
                == last_clock(batch, j)->Some_0,
    decreases batch.len(),
{
    if batch.last().instance == j {
        assert(batch[batch.len() - 1].instance == j);
    } else {
        lemma_last_clock_member(batch.drop_last(), j);
        let i = choose|i: int|
            0 <= i < batch.drop_last().len() && (#[trigger] batch.drop_last()[i]).instance == j
                && batch.drop_last()[i].timestamp == last_clock(batch.drop_last(), j)->Some_0;
        assert(batch[i].instance == j && batch[i].timestamp == last_clock(batch, j)->Some_0);
    }
}

/// Restricting attention to the operations already missing loses
/// nothing, when the new clocks only ever drop operations the old ones
/// already dropped.
pub proof fn lemma_missing_restrict(
    store: Seq<CrdtOperationView>,
    c1: Seq<(u128, u64)>,
    c2: Seq<(u128, u64)>,
)
    requires
        forall|op: CrdtOperationView| wanted(c2, op) ==> #[trigger] wanted(c1, op),
    ensures
        missing_ops(store, c2) == missing_ops(missing_ops(store, c1), c2),
    decreases store.len(),
{
    if store.len() > 0 {
        lemma_missing_restrict(store.skip(1), c1, c2);
        if wanted(c1, store[0]) {
            lemma_missing_add(seq![store[0]], missing_ops(store.skip(1), c1), c2);
            assert(seq![store[0]] + missing_ops(store.skip(1), c1) =~= missing_ops(store, c1));
            assert(seq![store[0]].skip(1) =~= Seq::<CrdtOperationView>::empty());
            assert(missing_ops(Seq::<CrdtOperationView>::empty(), c2) =~= Seq::<
                CrdtOperationView,
            >::empty());
            if wanted(c2, store[0]) {
                assert(missing_ops(seq![store[0]], c2) =~= seq![store[0]]);
                assert(missing_ops(store, c2) =~= seq![store[0]] + missing_ops(
                    store.skip(1),
                    c2,
                ));
            } else {
                assert(missing_ops(seq![store[0]], c2) =~= Seq::<CrdtOperationView>::empty());
                assert(missing_ops(missing_ops(store, c1), c2) =~= missing_ops(
                    missing_ops(store.skip(1), c1),
                    c2,
                ));
            }
        } else {
            assert(!wanted(c2, store[0]));
        }
    }
}

/// When the wanted operations of a sequence are exactly those from index
/// `k` on, the missing operations are exactly the tail from `k`.
pub proof fn lemma_missing_threshold(
    s: Seq<CrdtOperationView>,
    clocks: Seq<(u128, u64)>,
    k: int,
)
    requires
        0 <= k <= s.len(),
        forall|i: int| 0 <= i < s.len() ==> (wanted(clocks, #[trigger] s[i]) <==> i >= k),
    ensures
        missing_ops(s, clocks) == s.skip(k),
    decreases s.len(),
{
    if s.len() == 0 {
        assert(s.skip(k) =~= Seq::<CrdtOperationView>::empty());
    } else if k == 0 {
        assert(wanted(clocks, s[0]));
        assert(forall|i: int|
            0 <= i < s.skip(1).len() ==> (wanted(clocks, #[trigger] s.skip(1)[i]) <==> i >= 0));
        lemma_missing_threshold(s.skip(1), clocks, 0);
        assert(s.skip(1).skip(0) =~= s.skip(1));
        assert(seq![s[0]] + s.skip(1) =~= s);
        assert(s.skip(0) =~= s);
    } else {
        assert(!wanted(clocks, s[0]));
        assert(forall|i: int|
            0 <= i < s.skip(1).len() ==> (wanted(clocks, #[trigger] s.skip(1)[i]) <==> i >= k
                - 1));
        lemma_missing_threshold(s.skip(1), clocks, k - 1);
        assert(s.skip(1).skip(k - 1) =~= s.skip(k));
    }
}

/// The step at the heart of the pull loop: one batch takes exactly the
/// next `count` missing operations, and advancing the clocks by that
/// batch leaves exactly the missing operations after it.  A short batch
/// leaves nothing.
pub proof fn lemma_batch_step(
    store: Seq<CrdtOperationView>,
    clocks: Seq<(u128, u64)>,
    count: u32,
)
    requires
        strictly_ordered(store),
        count > 0,
    ensures
        ({
            let m = missing_ops(store, clocks);
            let k = if m.len() <= count {
                m.len() as int
            } else {
                count as int
            };
            missing_ops(store, advance(clocks, m.take(k))) == m.skip(k)
        }),
{
    let m = missing_ops(store, clocks);
    let k = if m.len() <= count {
        m.len() as int
    } else {
        count as int
    };
    let batch = m.take(k);
    let c2 = advance(clocks, batch);
    lemma_missing_ordered(store, clocks);
    lemma_missing_wanted(store, clocks);
    lemma_advance_clock(clocks, batch);
    assert(strictly_ordered(batch));
    if k == 0 {
        assert(batch =~= Seq::<CrdtOperationView>::empty());
        assert(advance(clocks, batch) == clocks);
        assert(m.skip(0) =~= m);
    } else {
        let top = batch.last().timestamp;
        // Each batch entry is wanted under the old clocks, so every
        // clock value the batch records is beyond the old one.
        assert forall|op: CrdtOperationView| wanted(c2, op) implies #[trigger] wanted(
            clocks,
            op,
        ) by {
            match last_clock(batch, op.instance) {
                Some(t) => {
                    lemma_last_clock_member(batch, op.instance);
                    let i = choose|i: int|
                        0 <= i < batch.len() && (#[trigger] batch[i]).instance == op.instance
                            && batch[i].timestamp == t;
                    assert(wanted(clocks, m[i]));
                    assert(t > clock_of(clocks, op.instance));
                },
                None => {},
            }
        }
        lemma_missing_restrict(store, clocks, c2);
        // Under the new clocks, the wanted part of `m` is exactly its
        // tail after the batch.
        assert forall|i: int| 0 <= i < m.len() implies (wanted(c2, #[trigger] m[i]) <==> i
            >= k) by {
            if i < k {
                lemma_last_clock_ge(batch, i);
                assert(clock_of(c2, m[i].instance) == last_clock(batch, m[i].instance)->Some_0);
                assert(clock_of(c2, m[i].instance) >= m[i].timestamp);
            } else {
                assert(m[i].timestamp > m[k - 1].timestamp);
                match last_clock(batch, m[i].instance) {
                    Some(t) => {
                        lemma_last_clock_member(batch, m[i].instance);
                        let inst = m[i].instance;
                        let idx = choose|idx: int|
                            0 <= idx < batch.len() && (#[trigger] batch[idx]).instance == inst
                                && batch[idx].timestamp == t;
                        assert(batch[idx] == m[idx]);
                        if idx < k - 1 {
                            assert(batch[idx].timestamp < batch[k - 1].timestamp);
                        }
                        assert(t <= top);
                        assert(top == m[k - 1].timestamp);
                        assert(m[i].timestamp > t);
                    },
                    None => {
                        assert(wanted(clocks, m[i]));
                    },
                }
            }
        }
        lemma_missing_threshold(m, c2, k);
    }
}

/// The whole pull loop, as a function of the store: ask, ingest, advance
/// the clocks, and repeat while the batches come back full.
pub open spec fn spec_pull_all(
    store: Seq<CrdtOperationView>,
    clocks: Seq<(u128, u64)>,
    count: u32,
    fuel: nat,
) -> Seq<CrdtOperationView>
    decreases fuel,
{
    if fuel == 0 {
        Seq::empty()
    } else {
        let batch = spec_get_ops(store, clocks, count);
        if batch.len() < count {
            batch
        } else {
            batch + spec_pull_all(store, advance(clocks, batch), count, (fuel - 1) as nat)
        }
    }
}

/// Pulling batch after batch, each capped at `count` and each advancing
/// the clocks by what it delivered, concatenates to exactly the missing
/// operations, in store order.  The batches come back full until the
/// last, which is short or empty.
pub proof fn lemma_pull_all_exhausts(
    store: Seq<CrdtOperationView>,
    clocks: Seq<(u128, u64)>,
    count: u32,
    fuel: nat,
)
    requires
        strictly_ordered(store),
        count > 0,
        missing_ops(store, clocks).len() <= fuel * count,
    ensures
        spec_pull_all(store, clocks, count, fuel) == missing_ops(store, clocks),
    decreases fuel,
{
    let m = missing_ops(store, clocks);
    if fuel == 0 {
        assert(fuel * count == 0) by (nonlinear_arith)
            requires
                fuel == 0,
        ;
        assert(m.len() == 0);
        assert(m =~= Seq::<CrdtOperationView>::empty());
    } else {
        let batch = spec_get_ops(store, clocks, count);
        if m.len() <= count {
            assert(batch == m);
            if batch.len() < count {
            } else {
                // An exactly full batch is followed by one empty batch.
                lemma_batch_step(store, clocks, count);
                assert(batch =~= m.take(m.len() as int));
                let c2 = advance(clocks, batch);
                assert(missing_ops(store, c2) == m.skip(m.len() as int));
                assert(m.skip(m.len() as int) =~= Seq::<CrdtOperationView>::empty());
                assert((fuel - 1) * count >= 0) by (nonlinear_arith)
                    requires
                        fuel >= 1,
                        count > 0,
                ;
                lemma_pull_all_exhausts(store, c2, count, (fuel - 1) as nat);
                assert(spec_pull_all(store, c2, count, (fuel - 1) as nat) =~= Seq::<
                    CrdtOperationView,
                >::empty());
                assert(batch + Seq::<CrdtOperationView>::empty() =~= m);
            }
        } else {
            assert(batch == m.take(count as int));
            assert(batch.len() == count);
            lemma_batch_step(store, clocks, count);
            let c2 = advance(clocks, batch);
            assert(missing_ops(store, c2) == m.skip(count as int));
            assert((fuel - 1) * count == fuel * count - count) by (nonlinear_arith);
            lemma_pull_all_exhausts(store, c2, count, (fuel - 1) as nat);
            assert(batch + m.skip(count as int) =~= m);
        }
    }
}

/// The pull loop again, batch by batch instead of concatenated.
pub open spec fn spec_pull_batches(
    store: Seq<CrdtOperationView>,
    clocks: Seq<(u128, u64)>,
    count: u32,
    fuel: nat,
) -> Seq<Seq<CrdtOperationView>>
    decreases fuel,
{
    if fuel == 0 {
        Seq::empty()
    } else {
        let batch = spec_get_ops(store, clocks, count);
        if batch.len() < count {
            seq![batch]
        } else {
            seq![batch] + spec_pull_batches(store, advance(clocks, batch), count, (fuel - 1) as nat)
        }
    }
}

/// The shape of the pull: every batch but the last is exactly full —
/// so its `has_more` flag, full means more, is true — and the last is
/// short or empty, so its flag is false; together the batches are the
/// concatenated pull.
pub proof fn lemma_pull_batches_shape(
    store: Seq<CrdtOperationView>,
    clocks: Seq<(u128, u64)>,
    count: u32,
    fuel: nat,
)
    requires
        strictly_ordered(store),
        count > 0,
        fuel > 0,
        missing_ops(store, clocks).len() < fuel * count,
    ensures
        ({
            let bs = spec_pull_batches(store, clocks, count, fuel);
            &&& bs.len() >= 1
            &&& forall|i: int| 0 <= i < bs.len() - 1 ==> (#[trigger] bs[i]).len() == count
            &&& bs.last().len() < count
            &&& bs.flatten() == spec_pull_all(store, clocks, count, fuel)
        }),
    decreases fuel,
{
    let m = missing_ops(store, clocks);
    let batch = spec_get_ops(store, clocks, count);
    let bs = spec_pull_batches(store, clocks, count, fuel);
    if batch.len() < count {
        assert(bs == seq![batch]);
        assert(bs.drop_first() =~= Seq::<Seq<CrdtOperationView>>::empty());
        assert(Seq::<Seq<CrdtOperationView>>::empty().flatten() == Seq::<
            CrdtOperationView,
        >::empty());
        assert(bs.first() == batch);
        assert(bs.flatten() =~= batch);
    } else {
        assert(batch.len() == count);
        assert(m.len() >= count);
        assert(fuel > 1) by (nonlinear_arith)
            requires
                m.len() < fuel * count,
                m.len() >= count,
                count > 0,
                fuel > 0,
        ;
        lemma_batch_step(store, clocks, count);
        let c2 = advance(clocks, batch);
        assert(batch =~= m.take(if m.len() <= count {
            m.len() as int
        } else {
            count as int
        }));
        assert(missing_ops(store, c2).len() == m.len() - count);
        assert((fuel - 1) * count == fuel * count - count) by (nonlinear_arith);
        lemma_pull_batches_shape(store, c2, count, (fuel - 1) as nat);
        let rec = spec_pull_batches(store, c2, count, (fuel - 1) as nat);
        assert(bs == seq![batch] + rec);
        assert(bs.last() == rec.last());
        assert forall|i: int| 0 <= i < bs.len() - 1 implies (#[trigger] bs[i]).len() == count by {
            if i > 0 {
                assert(bs[i] == rec[i - 1]);
            }
        }
        assert(bs.drop_first() =~= rec);
        assert(bs.first() == batch);
        assert(bs.flatten() == batch + rec.flatten());
    }
}

/// Answer one `GetOperations` request from the store: the missing
/// operations in store order, capped at the requested count.
#[verifier::loop_isolation(false)]
pub fn get_ops(store: &Vec<CrdtOperation>, args: &GetOpsArgs) -> (r: Vec<CrdtOperation>)
    ensures
        ops_view(r@) == spec_get_ops(ops_view(store@), args.clocks@, args.count),
{
    let sv: Ghost<Seq<CrdtOperationView>> = Ghost(ops_view(store@));
    let cap = args.count as usize;
    let mut out: Vec<CrdtOperation> = Vec::new();
    let mut i: usize = 0;
    proof {
        assert(sv@.take(0) =~= Seq::<CrdtOperationView>::empty());
        assert(ops_view(out@) =~= Seq::<CrdtOperationView>::empty());
    }
    while i < store.len() && out.len() < cap
        invariant
            0 <= i <= store@.len(),
            out@.len() <= cap,
            ops_view(out@) == missing_ops(sv@.take(i as int), args.clocks@),
        decreases store@.len() - i,
    {
        let op = &store[i];
        let c = clock_for(&args.clocks, op.instance);
        proof {
            lemma_missing_add(sv@.take(i as int), seq![sv@[i as int]], args.clocks@);
            assert(sv@.take(i as int) + seq![sv@[i as int]] =~= sv@.take(i + 1));
            assert(seq![sv@[i as int]].skip(1) =~= Seq::<CrdtOperationView>::empty());
            assert(missing_ops(Seq::<CrdtOperationView>::empty(), args.clocks@) =~= Seq::<
                CrdtOperationView,
            >::empty());
            assert(sv@[i as int] == op@);
        }
        if op.timestamp > c {
            out.push(op.duplicate());
            proof {
                assert(missing_ops(seq![sv@[i as int]], args.clocks@) =~= seq![sv@[i as int]]);
                assert(ops_view(out@) =~= missing_ops(sv@.take(i + 1), args.clocks@));
            }
        } else {
            proof {
                assert(missing_ops(seq![sv@[i as int]], args.clocks@) =~= Seq::<
                    CrdtOperationView,
                >::empty());
                assert(ops_view(out@) =~= missing_ops(sv@.take(i + 1), args.clocks@));
            }
        }
        i = i + 1;
    }
    proof {
        let m = missing_ops(sv@, args.clocks@);
        lemma_missing_add(sv@.take(i as int), sv@.skip(i as int), args.clocks@);
        assert(sv@.take(i as int) + sv@.skip(i as int) =~= sv@);
        if i == store@.len() {
            assert(sv@.take(i as int) =~= sv@);
            assert(m.len() <= cap);
        } else {
            assert(out@.len() == cap);
            assert(m.take(cap as int) =~= missing_ops(sv@.take(i as int), args.clocks@));
        }
    }
    out
}

} // verus!
