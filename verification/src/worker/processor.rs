//! Names batches by their hash, and reports them to the primary.
use crate::ident::{Digest, WorkerId};
use crate::primary::primary::WorkerPrimaryMessage;
use vstd::prelude::*;

verus! {

use crate::primary::primary::report_of;

/// A store write that takes longer is slow, in milliseconds.
pub const SLOW_STORE_WRITE_MS: u64 = 10;

/// A serialized batch, and when its first transaction was submitted, where that is known.
pub type SerializedBatchMessage = (Vec<u8>, Option<u64>);

/// The SHA-512 hash of `data`.
pub uninterp spec fn sha512_of(data: Seq<u8>) -> Seq<u8>;

/// Calls `digest` of `ed25519_dalek::Sha512`, the SHA-512 hash function. The hash depends on the
/// bytes alone and has 64 bytes.
#[verifier::external_body]
fn sha512(data: &Vec<u8>) -> (hash: Vec<u8>)
    ensures
        hash@ == sha512_of(data@),
        hash@.len() == 64,
{
    <ed25519_dalek::Sha512 as ed25519_dalek::Digest>::digest(data).to_vec()
}

/// The digest that a hash is cut down to: its first bytes.
pub fn digest_of_hash(hash: &Vec<u8>) -> (digest: Digest)
    requires
        hash@.len() >= 32,
    ensures
        digest.0@ == hash@.take(32),
{
    let mut bytes: [u8; 32] = [0; 32];
    let mut i: usize = 0;
    while i < 32
        invariant
            i <= 32,
            hash@.len() >= 32,
            bytes@.len() == 32,
            forall|j: int| 0 <= j < i ==> #[trigger] bytes@[j] == hash@[j],
        decreases 32 - i,
    {
        bytes[i] = hash[i];
        i += 1;
    }
    assert(bytes@ =~= hash@.take(32));
    Digest(bytes)
}

/// A batch that is ready to be stored and reported.
pub struct ProcessedBatch {
    /// The digest under which the batch is to be stored.
    pub digest: Digest,
    /// What the primary is told.
    pub message: WorkerPrimaryMessage,
}

/// What the primary is told of a batch. A submission time that is not known is reported as zero.
pub open spec fn report(
    id: WorkerId,
    own_digest: bool,
    digest: Digest,
    size: u64,
    first_tx_at_ms: Option<u64>,
    tx_count: u64,
) -> WorkerPrimaryMessage {
    if own_digest {
        WorkerPrimaryMessage::OurBatch(
            digest,
            id,
            match first_tx_at_ms {
                Some(ms) => ms,
                None => 0,
            },
            size,
            tx_count,
        )
    } else {
        WorkerPrimaryMessage::OthersBatch(digest, id, size)
    }
}

/// Names and reports batches.
pub struct Processor;

impl Processor {
    /// The digest of a serialized batch: the first 32 bytes of its SHA-512 hash.
    pub fn digest(batch: &Vec<u8>) -> (digest: Digest)
        ensures
            digest.0@ == sha512_of(batch@).take(32),
    {
        let hash = sha512(batch);
        digest_of_hash(&hash)
    }

    /// What the primary is told of a batch with `digest` and `size`.
    pub fn report_batch(
        id: WorkerId,
        own_digest: bool,
        digest: Digest,
        size: u64,
        first_tx_at_ms: Option<u64>,
        tx_count: u64,
    ) -> (message: WorkerPrimaryMessage)
        ensures
            message == report(id, own_digest, digest, size, first_tx_at_ms, tx_count),
    {
        if own_digest {
            let submit_ms: u64 = match first_tx_at_ms {
                Some(ms) => ms,
                None => 0,
            };
            WorkerPrimaryMessage::OurBatch(digest, id, submit_ms, size, tx_count)
        } else {
            WorkerPrimaryMessage::OthersBatch(digest, id, size)
        }
    }

    /// Names a serialized batch, and tells what the primary is told of it. The transactions of
    /// another authority's batch are not counted.
    pub fn process(
        id: WorkerId,
        own_digest: bool,
        batch: &Vec<u8>,
        first_tx_at_ms: Option<u64>,
        tx_count: u64,
    ) -> (processed: ProcessedBatch)
        ensures
            processed.digest.0@ == sha512_of(batch@).take(32),
            processed.message == report(
                id,
                own_digest,
                processed.digest,
                batch@.len() as u64,
                first_tx_at_ms,
                tx_count,
            ),
    {
        let digest = Self::digest(batch);
        let size: u64 = batch.len() as u64;
        let message = Self::report_batch(id, own_digest, digest, size, first_tx_at_ms, tx_count);
        ProcessedBatch { digest, message }
    }
}

/// What a worker reports of a batch is what the primary reads: whose it is, its digest, the worker and
/// its size and, of our own batches, the number of transactions and the time of the first, unless that
/// is not known.
pub proof fn the_primary_reads_what_the_worker_reports(
    id: WorkerId,
    own_digest: bool,
    digest: Digest,
    size: u64,
    first_tx_at_ms: Option<u64>,
    tx_count: u64,
)
    ensures
        ({
            let read = report_of(report(id, own_digest, digest, size, first_tx_at_ms, tx_count));
            &&& read.own == own_digest
            &&& read.digest == digest
            &&& read.worker_id == id
            &&& read.batch_size_bytes == size
            &&& own_digest ==> read.tx_count == Some(tx_count)
            &&& !own_digest ==> read.tx_count == None::<u64> && read.first_tx_submit_ms == None::<u64>
            &&& own_digest && first_tx_at_ms is Some && first_tx_at_ms->0 > 0
                ==> read.first_tx_submit_ms == first_tx_at_ms
            &&& own_digest && (first_tx_at_ms is None || first_tx_at_ms->0 == 0)
                ==> read.first_tx_submit_ms == None::<u64>
        }),
        report(id, own_digest, digest, size, first_tx_at_ms, tx_count) is OurBatch <==> own_digest,
{
}

} // verus!
