//! Assembles transactions into batches.
use crate::ident::{Address, PublicKey};
use vstd::prelude::*;

verus! {

/// A broadcast that takes longer is slow, in milliseconds.
pub const SLOW_BROADCAST_MS: u64 = 20;

/// A transaction, as clients send it.
pub type Transaction = Vec<u8>;

/// The transactions that are broadcast together.
pub type Batch = Vec<Transaction>;

/// The bytes of transactions.
pub open spec fn transaction_views(batch: Seq<Transaction>) -> Seq<Seq<u8>> {
    batch.map_values(|t: Transaction| t@)
}

/// The number of bytes of `transactions`.
pub open spec fn total_size(transactions: Seq<Seq<u8>>) -> nat
    decreases transactions.len(),
{
    if transactions.len() == 0 {
        0
    } else {
        total_size(transactions.drop_last()) + transactions.last().len()
    }
}

/// What the batch maker keeps.
#[verifier::ext_equal]
pub struct BatchState {
    /// The transactions of the next batch.
    pub transactions: Seq<Seq<u8>>,
    /// When the first of them came in.
    pub first_ms: Option<u64>,
}

/// The state in which no transaction waits.
pub open spec fn no_transactions() -> BatchState {
    BatchState { transactions: Seq::empty(), first_ms: None }
}

/// The state once `transaction` has come in at the time `now_ms`, before a batch is sealed.
pub open spec fn after_transaction(s: BatchState, transaction: Seq<u8>, now_ms: u64) -> BatchState {
    BatchState {
        transactions: s.transactions.push(transaction),
        first_ms: if s.transactions.len() == 0 && s.first_ms is None {
            Some(now_ms)
        } else {
            s.first_ms
        },
    }
}

/// A batch that is complete.
pub struct SealedBatch {
    pub transactions: Batch,
    /// The number of bytes of its transactions.
    pub size: usize,
    /// When its first transaction came in.
    pub first_tx_submit_ms: Option<u64>,
    /// Where it is to be sent.
    pub addresses: Vec<Address>,
}

impl SealedBatch {
    /// The batch holds what waited in the state `s`, for the workers in `workers`.
    pub open spec fn is_of(&self, s: BatchState, workers: Seq<(PublicKey, Address)>) -> bool {
        &&& transaction_views(self.transactions@) == s.transactions
        &&& self.size == total_size(s.transactions)
        &&& self.first_tx_submit_ms == s.first_ms
        &&& self.addresses@ == workers.map_values(|w: (PublicKey, Address)| w.1)
    }
}

/// Assembles transactions into batches.
pub struct BatchMaker {
    /// The number of bytes from which on a batch is sealed.
    pub batch_size: usize,
    /// The longest time to wait before a batch is sealed, in milliseconds.
    pub max_batch_delay: u64,
    /// The other workers with our number.
    pub workers_addresses: Vec<(PublicKey, Address)>,
    pub current_batch: Batch,
    pub current_batch_size: usize,
    pub first_tx_submit_ms: Option<u64>,
}

impl View for BatchMaker {
    type V = BatchState;

    open spec fn view(&self) -> BatchState {
        BatchState {
            transactions: transaction_views(self.current_batch@),
            first_ms: self.first_tx_submit_ms,
        }
    }
}

impl BatchMaker {
    /// The size that is kept is that of what waits.
    pub open spec fn well_formed(&self) -> bool {
        self.current_batch_size == total_size(self@.transactions)
    }

    /// The two batch makers have the same settings.
    pub open spec fn same_settings(&self, other: Self) -> bool {
        &&& self.batch_size == other.batch_size
        &&& self.max_batch_delay == other.max_batch_delay
        &&& self.workers_addresses == other.workers_addresses
    }

    /// A batch maker to which no transaction has come.
    pub fn new(
        batch_size: usize,
        max_batch_delay: u64,
        workers_addresses: Vec<(PublicKey, Address)>,
    ) -> (m: Self)
        ensures
            m.well_formed(),
            m.batch_size == batch_size,
            m.max_batch_delay == max_batch_delay,
            m.workers_addresses == workers_addresses,
            m@ == no_transactions(),
    {
        let m = BatchMaker {
            batch_size,
            max_batch_delay,
            workers_addresses,
            current_batch: Vec::new(),
            current_batch_size: 0,
            first_tx_submit_ms: None,
        };
        assert(m@.transactions =~= Seq::<Seq<u8>>::empty());
        m
    }

    /// Takes in a transaction at the time `now_ms`. A batch that is large enough is sealed.
    pub fn on_transaction(&mut self, transaction: Transaction, now_ms: u64) -> (sealed: Option<
        SealedBatch,
    >)
        requires
            old(self).well_formed(),
            total_size(old(self)@.transactions) + transaction@.len() <= usize::MAX,
        ensures
            final(self).well_formed(),
            final(self).same_settings(*old(self)),
            ({
                let next = after_transaction(old(self)@, transaction@, now_ms);
                match sealed {
                    Some(batch) => {
                        &&& total_size(next.transactions) >= old(self).batch_size
                        &&& batch.is_of(next, old(self).workers_addresses@)
                        &&& final(self)@ == no_transactions()
                    },
                    None => {
                        &&& total_size(next.transactions) < old(self).batch_size
                        &&& final(self)@ == next
                    },
                }
            }),
    {
        if self.current_batch.len() == 0 && self.first_tx_submit_ms.is_none() {
            self.first_tx_submit_ms = Some(now_ms);
        }
        let ghost next = after_transaction(old(self)@, transaction@, now_ms);
        self.current_batch_size = self.current_batch_size + transaction.len();
        self.current_batch.push(transaction);
        proof {
            assert(self@.transactions =~= next.transactions);
            assert(next.transactions.drop_last() =~= old(self)@.transactions);
        }
        if self.current_batch_size >= self.batch_size {
            Some(self.seal())
        } else {
            None
        }
    }

    /// Takes note that the delay is over. What waits is sealed, however little it is.
    pub fn on_timer(&mut self) -> (sealed: Option<SealedBatch>)
        requires
            old(self).well_formed(),
        ensures
            final(self).well_formed(),
            final(self).same_settings(*old(self)),
            match sealed {
                Some(batch) => {
                    &&& old(self)@.transactions.len() > 0
                    &&& batch.is_of(old(self)@, old(self).workers_addresses@)
                    &&& final(self)@ == no_transactions()
                },
                None => {
                    &&& old(self)@.transactions.len() == 0
                    &&& final(self)@ == old(self)@
                },
            },
    {
        if self.current_batch.len() > 0 {
            Some(self.seal())
        } else {
            None
        }
    }

    /// Seals what waits.
    pub fn seal(&mut self) -> (sealed: SealedBatch)
        requires
            old(self).well_formed(),
        ensures
            final(self).well_formed(),
            final(self).same_settings(*old(self)),
            sealed.is_of(old(self)@, old(self).workers_addresses@),
            final(self)@ == no_transactions(),
    {
        let size: usize = self.current_batch_size;
        self.current_batch_size = 0;
        let mut transactions: Batch = Vec::new();
        std::mem::swap(&mut transactions, &mut self.current_batch);
        let first_tx_submit_ms = self.first_tx_submit_ms;
        self.first_tx_submit_ms = None;
        assert(self@.transactions =~= Seq::<Seq<u8>>::empty());
        let mut addresses: Vec<Address> = Vec::new();
        let mut i: usize = 0;
        while i < self.workers_addresses.len()
            invariant
                i <= self.workers_addresses@.len(),
                addresses@.len() == i,
                forall|j: int|
                    0 <= j < i ==> #[trigger] addresses@[j] == self.workers_addresses@[j].1,
            decreases self.workers_addresses@.len() - i,
        {
            addresses.push(self.workers_addresses[i].1);
            i += 1;
        }
        assert(addresses@ =~= self.workers_addresses@.map_values(|w: (PublicKey, Address)| w.1));
        SealedBatch { transactions, size, first_tx_submit_ms, addresses }
    }

    /// The numbers of the sample transactions in `batch`, in order. Clients mark a sample with a
    /// leading zero, and number it in the eight bytes that follow.
    pub fn sample_ids(batch: &Batch) -> (ids: Vec<u64>)
        requires
            forall|i: int| 0 <= i < batch@.len() ==> (#[trigger] batch@[i])@.len() > 0,
        ensures
            ids@ == sample_ids_of(transaction_views(batch@)),
    {
        let ghost all = transaction_views(batch@);
        let mut ids: Vec<u64> = Vec::new();
        let mut i: usize = 0;
        assert(all.take(0) =~= Seq::<Seq<u8>>::empty());
        while i < batch.len()
            invariant
                i <= batch@.len(),
                all == transaction_views(batch@),
                forall|i: int| 0 <= i < batch@.len() ==> (#[trigger] batch@[i])@.len() > 0,
                ids@ == sample_ids_of(all.take(i as int)),
            decreases batch@.len() - i,
        {
            let transaction = &batch[i];
            proof {
                assert(all.take(i + 1).drop_last() =~= all.take(i as int));
                assert(all.take(i + 1).last() == transaction@);
            }
            if transaction[0] == 0 && transaction.len() > 8 {
                ids.push(Self::sample_id(transaction));
            }
            i += 1;
        }
        assert(all.take(i as int) =~= all);
        ids
    }

    /// The number of a sample transaction.
    fn sample_id(transaction: &Transaction) -> (id: u64)
        requires
            transaction@.len() > 8,
        ensures
            id == big_endian(transaction@.subrange(1, 9)),
    {
        let mut id: u64 = 0;
        let mut i: usize = 1;
        proof {
            reveal_with_fuel(big_endian, 2);
            assert(transaction@.subrange(1, 1) =~= Seq::<u8>::empty());
        }
        while i < 9
            invariant
                1 <= i <= 9,
                transaction@.len() > 8,
                id == big_endian(transaction@.subrange(1, i as int)),
            decreases 9 - i,
        {
            proof {
                let front = transaction@.subrange(1, i as int);
                lemma_big_endian_bound(front);
                assert(transaction@.subrange(1, i + 1).drop_last() =~= front);
                assert(transaction@.subrange(1, i + 1).last() == transaction@[i as int]);
                lemma_power_bound(front.len());
            }
            id = id * 256 + transaction[i] as u64;
            i += 1;
        }
        id
    }
}

/// The number that `bytes` stand for, most significant byte first.
pub open spec fn big_endian(bytes: Seq<u8>) -> nat
    decreases bytes.len(),
{
    if bytes.len() == 0 {
        0
    } else {
        big_endian(bytes.drop_last()) * 256 + bytes.last() as nat
    }
}

/// The power of 256.
spec fn power256(n: nat) -> nat
    decreases n,
{
    if n == 0 {
        1
    } else {
        256 * power256((n - 1) as nat)
    }
}

proof fn lemma_big_endian_bound(bytes: Seq<u8>)
    ensures
        big_endian(bytes) < power256(bytes.len()),
    decreases bytes.len(),
{
    if bytes.len() > 0 {
        lemma_big_endian_bound(bytes.drop_last());
    }
}

proof fn lemma_power_bound(n: nat)
    requires
        n < 8,
    ensures
        power256(n) <= 0x100_0000_0000_0000,
{
    reveal_with_fuel(power256, 9);
}

/// Eight bytes stand for a number of 64 bits.
pub proof fn eight_bytes_fit(bytes: Seq<u8>)
    requires
        bytes.len() == 8,
    ensures
        big_endian(bytes) <= u64::MAX,
{
    lemma_big_endian_bound(bytes);
    reveal_with_fuel(power256, 9);
}

/// The transaction is a sample.
pub open spec fn is_sample(transaction: Seq<u8>) -> bool {
    transaction.len() > 8 && transaction[0] == 0
}

/// The numbers of the samples in `transactions`, in order.
pub open spec fn sample_ids_of(transactions: Seq<Seq<u8>>) -> Seq<u64>
    decreases transactions.len(),
{
    if transactions.len() == 0 {
        Seq::empty()
    } else {
        let front = sample_ids_of(transactions.drop_last());
        let last = transactions.last();
        if is_sample(last) {
            front.push(big_endian(last.subrange(1, 9)) as u64)
        } else {
            front
        }
    }
}

/// What waits never reaches the size from which on a batch is sealed, however many transactions come
/// in.
pub proof fn what_waits_stays_small(s: BatchState, transaction: Seq<u8>, now_ms: u64, limit: nat)
    requires
        total_size(s.transactions) < limit,
    ensures
        total_size(left_in(after_transaction(s, transaction, now_ms), limit)) < limit,
{
}

/// The transactions that are sealed in the state `s`: all of them, if they are large enough.
pub open spec fn sealed_in(s: BatchState, limit: nat) -> Seq<Seq<u8>> {
    if total_size(s.transactions) >= limit {
        s.transactions
    } else {
        Seq::empty()
    }
}

/// The transactions that wait on in the state `s`.
pub open spec fn left_in(s: BatchState, limit: nat) -> Seq<Seq<u8>> {
    if total_size(s.transactions) >= limit {
        Seq::empty()
    } else {
        s.transactions
    }
}

/// No transaction is lost, sent twice or moved: what is sealed and what waits on are what waited and
/// the transaction that came in, in that order.
pub proof fn no_transaction_is_lost(
    s: BatchState,
    transaction: Seq<u8>,
    now_ms: u64,
    limit: nat,
)
    ensures
        ({
            let next = after_transaction(s, transaction, now_ms);
            sealed_in(next, limit) + left_in(next, limit) == s.transactions.push(transaction)
        }),
{
    let next = after_transaction(s, transaction, now_ms);
    assert(sealed_in(next, limit) + left_in(next, limit) =~= s.transactions.push(transaction));
}

/// A batch carries the time of its first transaction: the time at which one came in when none
/// waited, whatever follows it.
pub proof fn a_batch_is_dated_by_its_first_transaction(
    s: BatchState,
    transaction: Seq<u8>,
    now_ms: u64,
)
    ensures
        s == no_transactions() ==> after_transaction(s, transaction, now_ms).first_ms == Some(
            now_ms,
        ),
        s.first_ms is Some ==> after_transaction(s, transaction, now_ms).first_ms == s.first_ms,
{
}

/// The size of transactions is the number of bytes of each of them, added up.
pub proof fn sizes_add_up(a: Seq<Seq<u8>>, b: Seq<Seq<u8>>, t: Seq<u8>)
    ensures
        total_size(Seq::empty()) == 0,
        total_size(seq![t]) == t.len(),
        total_size(a + b) == total_size(a) + total_size(b),
    decreases b.len(),
{
    reveal_with_fuel(total_size, 2);
    assert(seq![t].drop_last() =~= Seq::<Seq<u8>>::empty());
    if b.len() == 0 {
        assert(a + b =~= a);
    } else {
        sizes_add_up(a, b.drop_last(), t);
        assert((a + b).drop_last() =~= a + b.drop_last());
        assert((a + b).last() == b.last());
    }
}

/// A sealed batch holds all transactions that waited, in order and byte by byte, with their size and the
/// time of the first, and goes to every other worker with our number.
pub proof fn a_sealed_batch_holds_what_waited(
    sealed: SealedBatch,
    s: BatchState,
    workers: Seq<(PublicKey, Address)>,
    i: int,
)
    requires
        sealed.is_of(s, workers),
    ensures
        sealed.transactions@.len() == s.transactions.len(),
        0 <= i < s.transactions.len() ==> sealed.transactions@[i]@ == s.transactions[i],
        sealed.size == total_size(s.transactions),
        sealed.first_tx_submit_ms == s.first_ms,
        sealed.addresses@.len() == workers.len(),
        0 <= i < workers.len() ==> sealed.addresses@[i] == workers[i].1,
{
    assert(transaction_views(sealed.transactions@).len() == s.transactions.len());
    if 0 <= i < s.transactions.len() {
        assert(transaction_views(sealed.transactions@)[i] == s.transactions[i]);
    }
}

/// Something that happens to the batch maker.
pub enum BatchEvent {
    /// A transaction comes in at a time.
    Transaction(Seq<u8>, u64),
    /// The delay is over.
    Timer,
}

/// What waits after `events`, where a batch is sealed as soon as it has `limit` bytes and whenever the
/// delay is over.
pub open spec fn waiting_after(s: BatchState, events: Seq<BatchEvent>, limit: nat) -> BatchState
    decreases events.len(),
{
    if events.len() == 0 {
        s
    } else {
        let front = waiting_after(s, events.drop_last(), limit);
        match events.last() {
            BatchEvent::Transaction(t, now_ms) => {
                let next = after_transaction(front, t, now_ms);
                if total_size(next.transactions) >= limit {
                    no_transactions()
                } else {
                    next
                }
            },
            BatchEvent::Timer => if front.transactions.len() > 0 {
                no_transactions()
            } else {
                front
            },
        }
    }
}

/// The transactions of all batches that were sealed in `events`, in order.
pub open spec fn sealed_after(s: BatchState, events: Seq<BatchEvent>, limit: nat) -> Seq<Seq<u8>>
    decreases events.len(),
{
    if events.len() == 0 {
        Seq::empty()
    } else {
        let front = waiting_after(s, events.drop_last(), limit);
        let sealed = sealed_after(s, events.drop_last(), limit);
        match events.last() {
            BatchEvent::Transaction(t, now_ms) => {
                let next = after_transaction(front, t, now_ms);
                if total_size(next.transactions) >= limit {
                    sealed + next.transactions
                } else {
                    sealed
                }
            },
            BatchEvent::Timer => sealed + front.transactions,
        }
    }
}

/// The transactions that came in during `events`, in order.
pub open spec fn received_in(events: Seq<BatchEvent>) -> Seq<Seq<u8>>
    decreases events.len(),
{
    if events.len() == 0 {
        Seq::empty()
    } else {
        match events.last() {
            BatchEvent::Transaction(t, _) => received_in(events.drop_last()).push(t),
            BatchEvent::Timer => received_in(events.drop_last()),
        }
    }
}

/// Over any sequence of events, the transactions of all sealed batches followed by those that wait are
/// the ones that waited at first followed by all that came in, in order. What waits has a time exactly
/// if there is something that waits.
pub proof fn every_transaction_is_sealed_or_waits(
    s: BatchState,
    events: Seq<BatchEvent>,
    limit: nat,
)
    requires
        s.transactions.len() > 0 <==> s.first_ms is Some,
    ensures
        sealed_after(s, events, limit) + waiting_after(s, events, limit).transactions
            == s.transactions + received_in(events),
        waiting_after(s, events, limit).transactions.len() > 0 <==> waiting_after(
            s,
            events,
            limit,
        ).first_ms is Some,
    decreases events.len(),
{
    if events.len() == 0 {
        assert(Seq::<Seq<u8>>::empty() + s.transactions =~= s.transactions + Seq::empty());
    } else {
        let before = events.drop_last();
        every_transaction_is_sealed_or_waits(s, before, limit);
        let front = waiting_after(s, before, limit);
        let sealed = sealed_after(s, before, limit);
        let all = s.transactions + received_in(before);
        match events.last() {
            BatchEvent::Transaction(t, now_ms) => {
                assert(sealed_after(s, events, limit) + waiting_after(s, events, limit).transactions
                    =~= (sealed + front.transactions).push(t));
                assert(all.push(t) =~= s.transactions + received_in(events));
            },
            BatchEvent::Timer => {
                assert(sealed_after(s, events, limit) + waiting_after(s, events, limit).transactions
                    =~= sealed + front.transactions);
            },
        }
    }
}

/// Samples are found transaction by transaction, in order: one counts exactly if it has more than eight
/// bytes and the first is zero. Its number are the eight bytes that follow, the first of them being the
/// most significant.
pub proof fn every_sample_is_found(a: Seq<Seq<u8>>, b: Seq<Seq<u8>>, t: Seq<u8>)
    ensures
        sample_ids_of(Seq::empty()).len() == 0,
        sample_ids_of(a + b) == sample_ids_of(a) + sample_ids_of(b),
        sample_ids_of(seq![t]).len() == (if t.len() > 8 && t[0] == 0 {
            1nat
        } else {
            0
        }),
        t.len() > 8 && t[0] == 0 ==> sample_ids_of(seq![t])[0] == t[1] * 0x100_0000_0000_0000 + t[2]
            * 0x1_0000_0000_0000 + t[3] * 0x100_0000_0000 + t[4] * 0x1_0000_0000 + t[5]
            * 0x100_0000 + t[6] * 0x1_0000 + t[7] * 0x100 + t[8],
    decreases b.len(),
{
    reveal_with_fuel(sample_ids_of, 2);
    assert(seq![t].drop_last() =~= Seq::<Seq<u8>>::empty());
    if t.len() > 8 && t[0] == 0 {
        let bytes = t.subrange(1, 9);
        lemma_eight_bytes(bytes);
        eight_bytes_fit(bytes);
    }
    if b.len() == 0 {
        assert(a + b =~= a);
        assert(sample_ids_of(a) + sample_ids_of(b) =~= sample_ids_of(a));
    } else {
        every_sample_is_found(a, b.drop_last(), t);
        assert((a + b).drop_last() =~= a + b.drop_last());
        assert((a + b).last() == b.last());
        assert(sample_ids_of(a + b) =~= sample_ids_of(a) + sample_ids_of(b));
    }
}

proof fn lemma_eight_bytes(b: Seq<u8>)
    requires
        b.len() == 8,
    ensures
        big_endian(b) == b[0] * 0x100_0000_0000_0000 + b[1] * 0x1_0000_0000_0000 + b[2]
            * 0x100_0000_0000 + b[3] * 0x1_0000_0000 + b[4] * 0x100_0000 + b[5] * 0x1_0000 + b[6]
            * 0x100 + b[7],
{
    let b7 = b.drop_last();
    let b6 = b7.drop_last();
    let b5 = b6.drop_last();
    let b4 = b5.drop_last();
    let b3 = b4.drop_last();
    let b2 = b3.drop_last();
    let b1 = b2.drop_last();
    assert(b1.drop_last() =~= Seq::<u8>::empty());
    reveal_with_fuel(big_endian, 2);
    assert(big_endian(b1) == b[0]);
    assert(big_endian(b2) == big_endian(b1) * 256 + b[1]);
    assert(big_endian(b3) == big_endian(b2) * 256 + b[2]);
    assert(big_endian(b4) == big_endian(b3) * 256 + b[3]);
    assert(big_endian(b5) == big_endian(b4) * 256 + b[4]);
    assert(big_endian(b6) == big_endian(b5) * 256 + b[5]);
    assert(big_endian(b7) == big_endian(b6) * 256 + b[6]);
    assert(big_endian(b) == big_endian(b7) * 256 + b[7]);
}

/// The settings of a batch maker are how large a batch is to be, how long it waits and where batches go:
/// what keeps the settings keeps all of them. Nothing waits at first and once a batch is sealed.
pub proof fn settings_stay_the_same(a: BatchMaker, b: BatchMaker)
    ensures
        a.same_settings(b) <==> a.batch_size == b.batch_size && a.max_batch_delay
            == b.max_batch_delay && a.workers_addresses == b.workers_addresses,
        a.well_formed() <==> a.current_batch_size == total_size(a@.transactions),
        no_transactions().transactions.len() == 0,
        no_transactions().first_ms == None::<u64>,
{
}

} // verus!
