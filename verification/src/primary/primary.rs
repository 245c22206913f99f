//! The messages between primaries and workers, and where each of them goes.
use crate::committee::Committee;
use crate::ident::{Address, Digest, Height, PublicKey, WorkerId};
use crate::messages::{Certificate, ConsensusMessage, Header, Proposal};
use crate::primary::helper::HelperRequest;
use vstd::prelude::*;

verus! {

/// The default capacity of each channel of the primary.
pub const CHANNEL_CAPACITY: usize = 1_000;

/// The body of a message that only the core reads.
pub struct Encoded {
    pub bytes: Vec<u8>,
}

/// The messages between primaries.
pub enum PrimaryMessage {
    /// A header, and whether it answers a request.
    Header(Header, bool),
    Vote(Encoded),
    Certificate(Certificate),
    Timeout(Encoded),
    TC(Encoded),
    ConsensusMessage(ConsensusMessage),
    ConsensusRequest(Encoded),
    ConsensusVote(Encoded),
    /// The certificates that are asked for, and by whom.
    CertificatesRequest(Vec<Digest>, PublicKey),
    /// The headers that are asked for, and by whom.
    HeadersRequest(Vec<Digest>, PublicKey),
    /// The proposal whose headers above a height are asked for, and by whom.
    ProposalHeadersRequest(Proposal, Height, PublicKey),
    /// The headers of a proposal, lowest first.
    ProposalHeaders(Vec<Header>),
    /// A header whose ancestors from a height on are asked for, and by whom.
    HeaderRangeRequest(Digest, Height, PublicKey),
    /// Consecutive headers, lowest first.
    HeaderRange(Vec<Header>),
}

/// The messages of the primary to its workers.
pub enum PrimaryWorkerMessage {
    /// The batches that the worker should fetch, and from whose worker.
    Synchronize(Vec<Digest>, PublicKey),
    /// The batches that the worker must fetch for a committed header, from whose worker, and the
    /// height that waits for them.
    SynchronizeCommitted(Vec<Digest>, PublicKey, Height),
    /// The consensus round has advanced.
    Cleanup(Height),
}

/// The messages of the workers to their primary.
pub enum WorkerPrimaryMessage {
    /// The worker sealed a batch: its digest, the worker, when its first transaction was submitted,
    /// its size in bytes and its number of transactions.
    OurBatch(Digest, WorkerId, u64, u64, u64),
    /// The worker received a batch of another authority: its digest, the worker and its size in
    /// bytes.
    OthersBatch(Digest, WorkerId, u64),
}

/// Who handles a message of another primary.
pub enum Route {
    /// The helper answers it.
    Helper(HelperRequest),
    /// The core handles it.
    Core(PrimaryMessage),
}

/// Who handles `message`: the helper if it asks for something, and else the core.
pub open spec fn route_of(message: PrimaryMessage) -> Route {
    match message {
        PrimaryMessage::CertificatesRequest(missing, requestor) => Route::Helper(
            HelperRequest::Certificates(missing, requestor),
        ),
        PrimaryMessage::HeadersRequest(missing, requestor) => Route::Helper(
            HelperRequest::Headers(missing, requestor),
        ),
        PrimaryMessage::ProposalHeadersRequest(proposal, stop_height, requestor) => Route::Helper(
            HelperRequest::ProposalHeaders(proposal, stop_height, requestor),
        ),
        PrimaryMessage::HeaderRangeRequest(start, from_height, requestor) => Route::Helper(
            HelperRequest::HeaderRange(start, from_height, requestor),
        ),
        _ => Route::Core(message),
    }
}

/// What a worker reports of a batch.
#[derive(Clone, Copy, PartialEq, Eq, Debug)]
pub struct BatchReport {
    /// Whether the batch is ours.
    pub own: bool,
    pub digest: Digest,
    pub worker_id: WorkerId,
    pub batch_size_bytes: u64,
    /// The number of transactions, where the worker knows it.
    pub tx_count: Option<u64>,
    /// When the first transaction was submitted, where the worker knows it.
    pub first_tx_submit_ms: Option<u64>,
}

/// What `message` reports. A submission time of zero stands for one that is not known.
pub open spec fn report_of(message: WorkerPrimaryMessage) -> BatchReport {
    match message {
        WorkerPrimaryMessage::OurBatch(digest, worker_id, first_tx_submit_ms, size, tx_count) =>
            BatchReport {
                own: true,
                digest,
                worker_id,
                batch_size_bytes: size,
                tx_count: Some(tx_count),
                first_tx_submit_ms: if first_tx_submit_ms > 0 {
                    Some(first_tx_submit_ms)
                } else {
                    None
                },
            },
        WorkerPrimaryMessage::OthersBatch(digest, worker_id, size) => BatchReport {
            own: false,
            digest,
            worker_id,
            batch_size_bytes: size,
            tx_count: None,
            first_tx_submit_ms: None,
        },
    }
}

/// Where the primary listens.
#[derive(Clone, Copy, PartialEq, Eq, Debug)]
pub struct ListenAddresses {
    /// To the other primaries.
    pub primaries: Address,
    /// To our workers.
    pub workers: Address,
}

/// The primary of an authority.
pub struct Primary;

impl Primary {
    /// Where the primary of `name` listens: at its ports, on all interfaces. One that is not in the
    /// committee does not.
    pub fn listen_addresses(committee: &Committee, name: &PublicKey) -> (addresses: Option<
        ListenAddresses,
    >)
        ensures
            addresses == (match committee.primary_of(*name) {
                Some(a) => Some(
                    ListenAddresses {
                        primaries: Address::V4 { ip: 0, port: a.primary_to_primary.spec_port() },
                        workers: Address::V4 { ip: 0, port: a.worker_to_primary.spec_port() },
                    },
                ),
                None => None,
            }),
    {
        match committee.primary(name) {
            Some(a) => Some(
                ListenAddresses {
                    primaries: a.primary_to_primary.on_all_interfaces(),
                    workers: a.worker_to_primary.on_all_interfaces(),
                },
            ),
            None => None,
        }
    }

    /// Who handles a message of another primary.
    pub fn dispatch(message: PrimaryMessage) -> (route: Route)
        ensures
            route == route_of(message),
    {
        match message {
            PrimaryMessage::CertificatesRequest(missing, requestor) => Route::Helper(
                HelperRequest::Certificates(missing, requestor),
            ),
            PrimaryMessage::HeadersRequest(missing, requestor) => Route::Helper(
                HelperRequest::Headers(missing, requestor),
            ),
            PrimaryMessage::ProposalHeadersRequest(proposal, stop_height, requestor) => {
                Route::Helper(HelperRequest::ProposalHeaders(proposal, stop_height, requestor))
            },
            PrimaryMessage::HeaderRangeRequest(start, from_height, requestor) => Route::Helper(
                HelperRequest::HeaderRange(start, from_height, requestor),
            ),
            request => Route::Core(request),
        }
    }

    /// What a worker reports of a batch.
    pub fn on_worker_message(message: WorkerPrimaryMessage) -> (report: BatchReport)
        ensures
            report == report_of(message),
    {
        match message {
            WorkerPrimaryMessage::OurBatch(
                digest,
                worker_id,
                submit_ms,
                batch_size_bytes,
                tx_count,
            ) => {
                let first_tx_submit_ms: Option<u64> = if submit_ms > 0 {
                    Some(submit_ms)
                } else {
                    None
                };
                BatchReport {
                    own: true,
                    digest,
                    worker_id,
                    batch_size_bytes,
                    tx_count: Some(tx_count),
                    first_tx_submit_ms,
                }
            },
            WorkerPrimaryMessage::OthersBatch(digest, worker_id, batch_size_bytes) => BatchReport {
                own: false,
                digest,
                worker_id,
                batch_size_bytes,
                tx_count: None,
                first_tx_submit_ms: None,
            },
        }
    }
}

/// The core sees no request that the helper answers, and the helper nothing else: what the core
/// handles is the message itself.
pub proof fn requests_never_reach_the_core(message: PrimaryMessage)
    ensures
        match route_of(message) {
            Route::Core(m) => m == message && !(message is CertificatesRequest) && !(
            message is HeadersRequest) && !(message is ProposalHeadersRequest) && !(
            message is HeaderRangeRequest),
            Route::Helper(_) => message is CertificatesRequest || message is HeadersRequest
                || message is ProposalHeadersRequest || message is HeaderRangeRequest,
        },
{
}

/// A request reaches the helper as it was made: what is asked for, how far, and by whom.
pub proof fn requests_reach_the_helper_unchanged(
    digests: Vec<Digest>,
    proposal: Proposal,
    start: Digest,
    height: Height,
    requestor: PublicKey,
)
    ensures
        route_of(PrimaryMessage::CertificatesRequest(digests, requestor)) == Route::Helper(
            HelperRequest::Certificates(digests, requestor),
        ),
        route_of(PrimaryMessage::HeadersRequest(digests, requestor)) == Route::Helper(
            HelperRequest::Headers(digests, requestor),
        ),
        route_of(PrimaryMessage::ProposalHeadersRequest(proposal, height, requestor))
            == Route::Helper(HelperRequest::ProposalHeaders(proposal, height, requestor)),
        route_of(PrimaryMessage::HeaderRangeRequest(start, height, requestor)) == Route::Helper(
            HelperRequest::HeaderRange(start, height, requestor),
        ),
{
}

/// The primary takes every report as it was made. A time of zero is none.
pub proof fn reports_are_taken_as_they_are(message: WorkerPrimaryMessage)
    ensures
        match message {
            WorkerPrimaryMessage::OurBatch(digest, worker_id, submit_ms, size, count) => {
                let r = report_of(message);
                &&& r.own && r.digest == digest && r.worker_id == worker_id
                &&& r.batch_size_bytes == size && r.tx_count == Some(count)
                &&& submit_ms > 0 ==> r.first_tx_submit_ms == Some(submit_ms)
                &&& submit_ms == 0 ==> r.first_tx_submit_ms == None::<u64>
            },
            WorkerPrimaryMessage::OthersBatch(digest, worker_id, size) => {
                let r = report_of(message);
                &&& !r.own && r.digest == digest && r.worker_id == worker_id
                &&& r.batch_size_bytes == size && r.tx_count == None::<u64>
                &&& r.first_tx_submit_ms == None::<u64>
            },
        },
{
}

} // verus!
