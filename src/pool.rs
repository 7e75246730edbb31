use vstd::prelude::*;

use crate::transaction::Transaction;

verus! {

broadcast use vstd::seq_lib::group_to_multiset_ensures;

/// Fees never increase along the sequence.
pub open spec fn fee_ordered(s: Seq<Transaction>) -> bool {
    forall|i: int, j: int| 0 <= i < j < s.len() ==> (#[trigger] s[i])@.gas >= (#[trigger] s[j])@.gas
}

/// `tx` placed after every entry whose fee is at least its own and before
/// the rest: ties keep their order of admission.
pub open spec fn insert_by_fee(s: Seq<Transaction>, tx: Transaction) -> Seq<Transaction>
    decreases s.len(),
{
    if s.len() == 0 {
        seq![tx]
    } else if s[0]@.gas < tx@.gas {
        seq![tx] + s
    } else {
        seq![s[0]] + insert_by_fee(s.drop_first(), tx)
    }
}

/// The pool's entries after admitting `txs`, first to last.
pub open spec fn admit_all(pending: Seq<Transaction>, txs: Seq<Transaction>) -> Seq<Transaction>
    decreases txs.len(),
{
    if txs.len() == 0 {
        pending
    } else {
        admit_all(insert_by_fee(pending, txs[0]), txs.drop_first())
    }
}

/// Where `insert_by_fee` puts `tx`: after the leading entries whose fee is
/// at least its own.
proof fn lemma_insert_position(s: Seq<Transaction>, tx: Transaction) -> (k: int)
    ensures
        0 <= k <= s.len(),
        forall|j: int| 0 <= j < k ==> (#[trigger] s[j])@.gas >= tx@.gas,
        k < s.len() ==> s[k]@.gas < tx@.gas,
        insert_by_fee(s, tx) == s.insert(k, tx),
    decreases s.len(),
{
    if s.len() == 0 {
        assert(insert_by_fee(s, tx) =~= s.insert(0, tx));
        0
    } else if s[0]@.gas < tx@.gas {
        assert(insert_by_fee(s, tx) =~= s.insert(0, tx));
        0
    } else {
        let rest = s.drop_first();
        let k = lemma_insert_position(rest, tx);
        assert forall|j: int| 0 <= j < k + 1 implies (#[trigger] s[j])@.gas >= tx@.gas by {
            if j > 0 {
                assert(s[j] == rest[j - 1]);
            }
        }
        assert(insert_by_fee(s, tx) =~= s.insert(k + 1, tx));
        k + 1
    }
}

/// Inserting at the position `insert_by_fee` picks keeps the fee order.
proof fn lemma_insert_keeps_order(s: Seq<Transaction>, tx: Transaction)
    requires
        fee_ordered(s),
    ensures
        fee_ordered(insert_by_fee(s, tx)),
        insert_by_fee(s, tx).to_multiset() == s.to_multiset().insert(tx),
{
    let k = lemma_insert_position(s, tx);
    let t = s.insert(k, tx);
    assert forall|i: int, j: int| 0 <= i < j < t.len() implies (#[trigger] t[i])@.gas >= (
    #[trigger] t[j])@.gas by {
        if j < k {
            assert(t[i] == s[i] && t[j] == s[j]);
        } else if j == k {
            assert(t[i] == s[i]);
        } else if i < k {
            assert(t[i] == s[i] && t[j] == s[j - 1]);
        } else if i == k {
            assert(t[j] == s[j - 1]);
            assert(s[k]@.gas >= s[j - 1]@.gas);
        } else {
            assert(t[i] == s[i - 1] && t[j] == s[j - 1]);
        }
    }
    vstd::seq_lib::to_multiset_insert(s, k, tx);
}

proof fn lemma_multiset_drop_first(txs: Seq<Transaction>)
    requires
        txs.len() > 0,
    ensures
        txs.to_multiset() == txs.drop_first().to_multiset().insert(txs[0]),
{
    assert(txs.drop_first().insert(0, txs[0]) =~= txs);
    vstd::seq_lib::to_multiset_insert(txs.drop_first(), 0, txs[0]);
}

/// Whatever transactions are admitted, in whatever order, the pool holds
/// exactly them together with what it held, ordered by non-increasing fee;
/// so the batch that a drain hands out is fee-ordered.
pub proof fn lemma_drain_is_fee_ordered(pending: Seq<Transaction>, txs: Seq<Transaction>)
    requires
        fee_ordered(pending),
    ensures
        fee_ordered(admit_all(pending, txs)),
        admit_all(pending, txs).to_multiset() == pending.to_multiset().add(txs.to_multiset()),
    decreases txs.len(),
{
    if txs.len() == 0 {
        assert(pending.to_multiset().add(txs.to_multiset()) =~= pending.to_multiset());
    } else {
        let next = insert_by_fee(pending, txs[0]);
        lemma_insert_keeps_order(pending, txs[0]);
        lemma_drain_is_fee_ordered(next, txs.drop_first());
        lemma_multiset_drop_first(txs);
        assert(next.to_multiset().add(txs.drop_first().to_multiset()) =~= pending.to_multiset().add(
            txs.to_multiset(),
        ));
    }
}

/// The batch a drain hands out from a pool holding `s`.
pub open spec fn drained(s: Seq<Transaction>) -> Seq<Transaction> {
    s
}

/// What a pool holding `s` holds after a drain.
pub open spec fn after_drain(s: Seq<Transaction>) -> Seq<Transaction> {
    Seq::empty()
}

/// What the pool's loop reacts to: a transaction from the intake queue, or
/// the drain timer firing.
pub enum PoolEvent {
    Received(Transaction),
    Tick,
}

/// What a pool holding `s` holds after the events, first to last.
pub open spec fn pool_after(s: Seq<Transaction>, events: Seq<PoolEvent>) -> Seq<Transaction>
    decreases events.len(),
{
    if events.len() == 0 {
        s
    } else {
        let before = pool_after(s, events.drop_last());
        match events.last() {
            PoolEvent::Received(tx) => insert_by_fee(before, tx),
            PoolEvent::Tick => after_drain(before),
        }
    }
}

/// No tick among the events from index `lo` up to, not including, `hi`.
pub open spec fn no_tick_between(events: Seq<PoolEvent>, lo: int, hi: int) -> bool {
    forall|q: int| lo <= q < hi ==> !((#[trigger] events[q]) is Tick)
}

proof fn lemma_insert_contains(s: Seq<Transaction>, tx: Transaction, x: Transaction)
    ensures
        insert_by_fee(s, tx).contains(x) <==> (s.contains(x) || x == tx),
{
    let k = lemma_insert_position(s, tx);
    let t = s.insert(k, tx);
    if s.contains(x) {
        let m = choose|m: int| 0 <= m < s.len() && s[m] == x;
        if m < k {
            assert(t[m] == x);
        } else {
            assert(t[m + 1] == x);
        }
    }
    if x == tx {
        assert(t[k] == x);
    }
    if t.contains(x) {
        let m = choose|m: int| 0 <= m < t.len() && t[m] == x;
        if m < k {
            assert(s[m] == x);
        } else if m > k {
            assert(s[m - 1] == x);
        }
    }
}

/// A pool holds a transaction exactly when it was received after the last
/// drain, or was held at the start and nothing was drained since.
proof fn lemma_pool_contains(s: Seq<Transaction>, events: Seq<PoolEvent>, x: Transaction)
    ensures
        pool_after(s, events).contains(x) <==> ((exists|m: int|
            0 <= m < events.len() && events[m] == PoolEvent::Received(x) && no_tick_between(
                events,
                m + 1,
                events.len() as int,
            )) || (s.contains(x) && no_tick_between(events, 0, events.len() as int))),
    decreases events.len(),
{
    let n = events.len() as int;
    if n > 0 {
        let prev = events.drop_last();
        lemma_pool_contains(s, prev, x);
        let received_late = exists|m: int|
            0 <= m < n && events[m] == PoolEvent::Received(x) && no_tick_between(events, m + 1, n);
        let received_late_prev = exists|m: int|
            0 <= m < n - 1 && prev[m] == PoolEvent::Received(x) && no_tick_between(prev, m + 1, n - 1);
        match events.last() {
            PoolEvent::Tick => {
                assert(!pool_after(s, events).contains(x));
                if received_late {
                    let m = choose|m: int|
                        0 <= m < n && events[m] == PoolEvent::Received(x) && no_tick_between(events, m + 1, n);
                    assert(events[n - 1] is Tick);
                }
                assert(!no_tick_between(events, 0, n)) by {
                    assert(events[n - 1] is Tick);
                }
            },
            PoolEvent::Received(tx) => {
                lemma_insert_contains(pool_after(s, prev), tx, x);
                if received_late_prev {
                    let m = choose|m: int|
                        0 <= m < n - 1 && prev[m] == PoolEvent::Received(x) && no_tick_between(prev, m + 1, n - 1);
                    assert(events[m] == prev[m]);
                    assert forall|q: int| m + 1 <= q < n implies !((#[trigger] events[q]) is Tick) by {
                        if q < n - 1 {
                            assert(events[q] == prev[q]);
                            assert(!(prev[q] is Tick));
                        }
                    }
                }
                if x == tx {
                    assert(events[n - 1] == PoolEvent::Received(x));
                    assert(no_tick_between(events, n, n));
                }
                if received_late {
                    let m = choose|m: int|
                        0 <= m < n && events[m] == PoolEvent::Received(x) && no_tick_between(events, m + 1, n);
                    if m < n - 1 {
                        assert(prev[m] == events[m]);
                        assert forall|q: int| m + 1 <= q < n - 1 implies !((#[trigger] prev[q]) is Tick) by {
                            assert(prev[q] == events[q]);
                        }
                    } else {
                        assert(events[m] == events.last());
                    }
                }
                if no_tick_between(events, 0, n) {
                    assert forall|q: int| 0 <= q < n - 1 implies !((#[trigger] prev[q]) is Tick) by {
                        assert(prev[q] == events[q]);
                    }
                }
                if no_tick_between(prev, 0, n - 1) {
                    assert forall|q: int| 0 <= q < n implies !((#[trigger] events[q]) is Tick) by {
                        if q < n - 1 {
                            assert(events[q] == prev[q]);
                        }
                    }
                }
            },
        }
    }
}

/// A transaction received once, and not pending before, is handed out by
/// exactly one drain: the first tick after it arrived. A drain whose
/// snapshot was taken before it arrived does not hand it out, and no later
/// drain hands it out again.
pub proof fn lemma_late_admission_deferred(s: Seq<Transaction>, events: Seq<PoolEvent>, i: int, j: int)
    requires
        0 <= i < j < events.len(),
        events[i] is Received,
        events[j] is Tick,
        no_tick_between(events, i + 1, j),
        !s.contains(events[i]->Received_0),
        forall|m: int|
            0 <= m < events.len() && m != i ==> #[trigger] events[m] != PoolEvent::Received(
                events[i]->Received_0,
            ),
    ensures
        forall|k: int|
            0 <= k < events.len() && (#[trigger] events[k]) is Tick ==> (drained(
                pool_after(s, events.take(k)),
            ).contains(events[i]->Received_0) <==> k == j),
{
    let tx = events[i]->Received_0;
    assert forall|k: int| 0 <= k < events.len() && (#[trigger] events[k]) is Tick implies (drained(
        pool_after(s, events.take(k)),
    ).contains(tx) <==> k == j) by {
        let pre = events.take(k);
        lemma_pool_contains(s, pre, tx);
        if k == j {
            assert(pre[i] == events[i]);
            assert forall|q: int| i + 1 <= q < k implies !((#[trigger] pre[q]) is Tick) by {
                assert(pre[q] == events[q]);
            }
        } else {
            if exists|m: int|
                0 <= m < pre.len() && pre[m] == PoolEvent::Received(tx) && no_tick_between(pre, m + 1, k) {
                let m = choose|m: int|
                    0 <= m < pre.len() && pre[m] == PoolEvent::Received(tx) && no_tick_between(pre, m + 1, k);
                assert(pre[m] == events[m]);
                assert(m == i);
                assert(k > j);
                assert(pre[j] == events[j]);
            }
        }
    }
}

/// The admitted but not yet mined transactions, highest fee first, and the
/// authority each drained batch is published for.
pub struct Mempool {
    txs: Vec<Transaction>,
    miner: String,
}

impl View for Mempool {
    type V = Seq<Transaction>;

    closed spec fn view(&self) -> Seq<Transaction> {
        self.txs@
    }
}

impl Mempool {
    pub closed spec fn spec_miner(&self) -> Seq<char> {
        self.miner@
    }

    /// The entries are ordered by non-increasing fee.
    pub open spec fn wf(&self) -> bool {
        fee_ordered(self@)
    }

    /// An empty pool whose batches go to the authority `admin_addr`.
    pub fn new(admin_addr: &String) -> (r: Mempool)
        ensures
            r.wf(),
            r@ == Seq::<Transaction>::empty(),
            r.spec_miner() == admin_addr@,
    {
        Mempool { txs: Vec::new(), miner: admin_addr.clone() }
    }

    pub fn miner(&self) -> (r: &String)
        ensures
            r@ == self.spec_miner(),
    {
        &self.miner
    }

    pub fn len(&self) -> (r: usize)
        ensures
            r == self@.len(),
    {
        self.txs.len()
    }

    /// Admits a transaction after every entry whose fee is at least its own.
    pub fn push(&mut self, tx: Transaction)
        requires
            old(self).wf(),
        ensures
            final(self).wf(),
            final(self)@ == insert_by_fee(old(self)@, tx),
            final(self).spec_miner() == old(self).spec_miner(),
    {
        let ghost s = self.txs@;
        let mut k: usize = 0;
        while k < self.txs.len() && self.txs[k].gas() >= tx.gas()
            invariant
                k <= self.txs@.len(),
                self.txs@ == s,
                forall|j: int| 0 <= j < k ==> (#[trigger] s[j])@.gas >= tx@.gas,
            decreases self.txs@.len() - k,
        {
            k = k + 1;
        }
        proof {
            let p = lemma_insert_position(s, tx);
            if p < k {
                assert(s[p]@.gas >= tx@.gas);
            }
            if k < p {
                assert(s[k as int]@.gas >= tx@.gas);
            }
            assert(p == k);
            lemma_insert_keeps_order(s, tx);
        }
        self.txs.insert(k, tx);
    }

    /// Empties the pool into a batch, highest fee first, for its authority.
    pub fn drain(&mut self) -> (r: (String, Vec<Transaction>))
        requires
            old(self).wf(),
        ensures
            final(self).wf(),
            r.0@ == old(self).spec_miner(),
            r.1@ == drained(old(self)@),
            final(self)@ == after_drain(old(self)@),
            final(self).spec_miner() == old(self).spec_miner(),
            fee_ordered(r.1@),
    {
        let mut batch: Vec<Transaction> = Vec::new();
        std::mem::swap(&mut batch, &mut self.txs);
        assert(self@ =~= Seq::<Transaction>::empty());
        (self.miner.clone(), batch)
    }

    /// One step of the pool's loop: a received transaction is admitted;
    /// a timer tick drains the pool into the batch to publish, even when
    /// it is empty.
    pub fn handle(&mut self, event: PoolEvent) -> (r: Option<(String, Vec<Transaction>)>)
        requires
            old(self).wf(),
        ensures
            final(self).wf(),
            final(self).spec_miner() == old(self).spec_miner(),
            match event {
                PoolEvent::Received(tx) => r is None && final(self)@ == insert_by_fee(old(self)@, tx),
                PoolEvent::Tick => r matches Some(p) && p.0@ == old(self).spec_miner() && p.1@
                    == drained(old(self)@) && final(self)@ == after_drain(old(self)@),
            },
    {
        match event {
            PoolEvent::Received(tx) => {
                self.push(tx);
                None
            },
            PoolEvent::Tick => Some(self.drain()),
        }
    }
}

} // verus!
