//! Answers the requests of other primaries for certificates and headers.
use crate::committee::Committee;
use crate::ident::{Address, Digest, Height, PublicKey};
use crate::messages::{Certificate, Header, Proposal};
use crate::primary::primary::PrimaryMessage;
use vstd::prelude::*;

verus! {

/// The number of requests that are answered at a time.
pub const MAX_CONCURRENT_RESPONSES: usize = 8;

/// How far a walk from a header to its ancestors goes.
#[derive(Clone, Copy, PartialEq, Eq, Structural, Debug)]
pub enum WalkBound {
    /// As long as the headers are above a height.
    Above(Height),
    /// As long as the headers are not below a height, and no further than a number of headers.
    From(Height, usize),
}

impl WalkBound {
    /// A header of height `h` is within the bound.
    pub open spec fn admits(self, h: Height) -> bool {
        match self {
            WalkBound::Above(stop) => h > stop,
            WalkBound::From(from, _) => h >= from,
        }
    }

    /// A walk that has gathered `n` headers may go on.
    pub open spec fn has_room(self, n: nat) -> bool {
        self matches WalkBound::From(_, window) ==> n < window
    }
}

/// How far a walk has come.
#[verifier::ext_equal]
pub struct WalkState {
    /// The header to be read next.
    pub next: Digest,
    /// The headers that were gathered, latest first.
    pub headers: Seq<Header>,
    /// Whether the walk has ended.
    pub done: bool,
}

/// The walk goes on.
pub open spec fn goes_on(bound: WalkBound, s: WalkState) -> bool {
    !s.done && bound.has_room(s.headers.len())
}

/// The walk after `read` was found under the digest that was to be read next.
pub open spec fn after_read(bound: WalkBound, s: WalkState, read: Option<Header>) -> WalkState {
    match read {
        Some(header) if bound.admits(header.height) => WalkState {
            next: header.parent_cert.header_digest,
            headers: s.headers.push(header),
            ..s
        },
        _ => WalkState { done: true, ..s },
    }
}

/// The walk after the header that was to be read next could not be read.
pub open spec fn after_failure(s: WalkState) -> WalkState {
    WalkState { headers: Seq::empty(), done: true, ..s }
}

/// A walk that has not begun.
pub open spec fn walk_from(start: Digest) -> WalkState {
    WalkState { next: start, headers: Seq::empty(), done: false }
}

/// The walk from `start` after at most `n` reads of `store`.
pub open spec fn walked(
    store: Map<Digest, Header>,
    bound: WalkBound,
    start: Digest,
    n: nat,
) -> WalkState
    decreases n,
{
    if n == 0 {
        walk_from(start)
    } else {
        let s = walked(store, bound, start, (n - 1) as nat);
        if goes_on(bound, s) {
            after_read(
                bound,
                s,
                if store.contains_key(s.next) {
                    Some(store[s.next])
                } else {
                    None
                },
            )
        } else {
            s
        }
    }
}

/// A walk from a header to its ancestors. The node reads the store.
pub struct HeaderWalk {
    pub bound: WalkBound,
    pub next: Digest,
    pub headers: Vec<Header>,
    pub done: bool,
}

impl View for HeaderWalk {
    type V = WalkState;

    open spec fn view(&self) -> WalkState {
        WalkState { next: self.next, headers: self.headers@, done: self.done }
    }
}

impl HeaderWalk {
    /// A walk that has not begun.
    pub fn new(start: Digest, bound: WalkBound) -> (w: Self)
        ensures
            w.bound == bound,
            w@ == walk_from(start),
    {
        HeaderWalk { bound, next: start, headers: Vec::new(), done: false }
    }

    /// The header to be read next, unless the walk has ended.
    pub fn next_read(&self) -> (digest: Option<Digest>)
        ensures
            digest == (if goes_on(self.bound, self@) {
                Some(self@.next)
            } else {
                None
            }),
    {
        let has_room = match self.bound {
            WalkBound::Above(_) => true,
            WalkBound::From(_, window) => self.headers.len() < window,
        };
        if !self.done && has_room {
            Some(self.next)
        } else {
            None
        }
    }

    /// Takes note of what the store holds.
    pub fn on_read(&mut self, read: Option<Header>)
        requires
            goes_on(old(self).bound, old(self)@),
        ensures
            final(self).bound == old(self).bound,
            final(self)@ == after_read(old(self).bound, old(self)@, read),
    {
        match read {
            Some(header) => {
                let height: Height = header.height();
                let admitted = match self.bound {
                    WalkBound::Above(stop) => height > stop,
                    WalkBound::From(from, _) => height >= from,
                };
                if admitted {
                    self.next = header.parent_cert.header_digest;
                    self.headers.push(header);
                } else {
                    self.done = true;
                }
            },
            None => {
                self.done = true;
            },
        }
    }

    /// Takes note that the store could not be read, or holds something else than a header: the walk
    /// ends, and nothing of it is handed out.
    pub fn on_failed(&mut self)
        requires
            goes_on(old(self).bound, old(self)@),
        ensures
            final(self).bound == old(self).bound,
            final(self)@ == after_failure(old(self)@),
    {
        self.headers = Vec::new();
        self.done = true;
    }

    /// The message that answers the request with the headers that were gathered, lowest first. No
    /// headers call for no answer.
    pub fn answer(self) -> (message: Option<PrimaryMessage>)
        ensures
            match message {
                Some(PrimaryMessage::ProposalHeaders(headers)) => self@.headers.len() > 0
                    && self.bound is Above && headers@ == self@.headers.reverse(),
                Some(PrimaryMessage::HeaderRange(headers)) => self@.headers.len() > 0
                    && self.bound is From && headers@ == self@.headers.reverse(),
                Some(_) => false,
                None => self@.headers.len() == 0,
            },
    {
        if self.headers.len() == 0 {
            return None;
        }
        let HeaderWalk { bound, next: _, headers, done: _ } = self;
        let headers = reversed(headers);
        match bound {
            WalkBound::Above(_) => Some(PrimaryMessage::ProposalHeaders(headers)),
            WalkBound::From(..) => Some(PrimaryMessage::HeaderRange(headers)),
        }
    }
}

/// `headers` from the last to the first.
fn reversed(mut headers: Vec<Header>) -> (r: Vec<Header>)
    ensures
        r@ == headers@.reverse(),
{
    let ghost all = headers@;
    let mut r: Vec<Header> = Vec::new();
    while headers.len() > 0
        invariant
            headers@.len() + r@.len() == all.len(),
            headers@ == all.take(headers@.len() as int),
            forall|i: int| 0 <= i < r@.len() ==> #[trigger] r@[i] == all[all.len() - 1 - i],
        decreases headers@.len(),
    {
        if let Some(header) = headers.pop() {
            r.push(header);
        }
    }
    assert(r@ =~= all.reverse());
    r
}

/// A request of another primary.
pub enum HelperRequest {
    /// For certificates.
    Certificates(Vec<Digest>, PublicKey),
    /// For headers.
    Headers(Vec<Digest>, PublicKey),
    /// For the headers of a proposal above a height.
    ProposalHeaders(Proposal, Height, PublicKey),
    /// For a header and its ancestors from a height on.
    HeaderRange(Digest, Height, PublicKey),
}

impl HelperRequest {
    /// Who asks.
    pub open spec fn origin(&self) -> PublicKey {
        match *self {
            HelperRequest::Certificates(_, origin) => origin,
            HelperRequest::Headers(_, origin) => origin,
            HelperRequest::ProposalHeaders(_, _, origin) => origin,
            HelperRequest::HeaderRange(_, _, origin) => origin,
        }
    }
}

/// What is to be read for a request, and where the answers go.
pub enum HelperTask {
    /// The certificates, each of which is an answer.
    Certificates(Vec<Digest>, Address),
    /// The headers, each of which is an answer.
    Headers(Vec<Digest>, Address),
    /// The headers on a walk, which make one answer.
    Walk(HeaderWalk, Address),
}

/// Answers the requests of other primaries.
pub struct Helper {
    pub committee: Committee,
    /// The number of headers that one answer holds at most, whatever is asked for, so that one
    /// request cannot bring about a walk back to the genesis.
    pub range_window: usize,
}

impl Helper {
    /// The task `t` is what `request` of `origin` calls for, if the committee knows them.
    pub open spec fn is_task(&self, request: HelperRequest, t: Option<HelperTask>) -> bool {
        match self.committee.primary_of(request.origin()) {
            None => t is None,
            Some(a) => match request {
                HelperRequest::Certificates(digests, _) => t == Some(
                    HelperTask::Certificates(digests, a.primary_to_primary),
                ),
                HelperRequest::Headers(digests, _) => t == Some(
                    HelperTask::Headers(digests, a.primary_to_primary),
                ),
                HelperRequest::ProposalHeaders(proposal, stop_height, _) => {
                    &&& t matches Some(HelperTask::Walk(w, address))
                    &&& address == a.primary_to_primary
                    &&& w.bound == WalkBound::Above(stop_height)
                    &&& w@ == walk_from(proposal.header_digest)
                },
                HelperRequest::HeaderRange(start, from_height, _) => {
                    &&& t matches Some(HelperTask::Walk(w, address))
                    &&& address == a.primary_to_primary
                    &&& w.bound == WalkBound::From(from_height, self.range_window)
                    &&& w@ == walk_from(start)
                },
            },
        }
    }

    /// What is to be read for `request`. One of an authority that is not in the committee is not
    /// answered.
    pub fn accept(&self, request: HelperRequest) -> (task: Option<HelperTask>)
        ensures
            self.is_task(request, task),
    {
        let origin = match &request {
            HelperRequest::Certificates(_, origin) => *origin,
            HelperRequest::Headers(_, origin) => *origin,
            HelperRequest::ProposalHeaders(_, _, origin) => *origin,
            HelperRequest::HeaderRange(_, _, origin) => *origin,
        };
        let address = match self.committee.primary(&origin) {
            Some(addresses) => addresses.primary_to_primary,
            None => {
                return None;
            },
        };
        let task = match request {
            HelperRequest::Certificates(digests, _) => HelperTask::Certificates(digests, address),
            HelperRequest::Headers(digests, _) => HelperTask::Headers(digests, address),
            HelperRequest::ProposalHeaders(proposal, stop_height, _) => HelperTask::Walk(
                HeaderWalk::new(proposal.header_digest, WalkBound::Above(stop_height)),
                address,
            ),
            HelperRequest::HeaderRange(start, from_height, _) => HelperTask::Walk(
                HeaderWalk::new(start, WalkBound::From(from_height, self.range_window)),
                address,
            ),
        };
        Some(task)
    }

    /// The answer to a request for a certificate, if the store holds it.
    pub fn certificate_reply(read: Option<Certificate>) -> (message: Option<PrimaryMessage>)
        ensures
            message == (match read {
                Some(certificate) => Some(PrimaryMessage::Certificate(certificate)),
                None => None,
            }),
    {
        match read {
            Some(certificate) => Some(PrimaryMessage::Certificate(certificate)),
            None => None,
        }
    }

    /// The answer to a request for a header, if the store holds it.
    pub fn header_reply(read: Option<Header>) -> (message: Option<PrimaryMessage>)
        ensures
            message == (match read {
                Some(header) => Some(PrimaryMessage::Header(header, true)),
                None => None,
            }),
    {
        match read {
            Some(header) => Some(PrimaryMessage::Header(header, true)),
            None => None,
        }
    }
}

/// A walk gathers a chain: it starts with the header that was asked for, and each header is followed
/// by its parent. All of them are within the bound, and there are no more than it allows.
pub proof fn a_walk_gathers_a_chain(
    store: Map<Digest, Header>,
    bound: WalkBound,
    start: Digest,
    n: nat,
    i: int,
)
    ensures
        ({
            let s = walked(store, bound, start, n);
            &&& bound matches WalkBound::From(_, window) ==> s.headers.len() <= window
            &&& s.headers.len() <= n
            &&& 0 <= i < s.headers.len() ==> bound.admits(s.headers[i].height)
            &&& s.headers.len() > 0 ==> store.contains_key(start) && s.headers[0] == store[start]
            &&& 0 <= i < s.headers.len() - 1 ==> store.contains_key(
                s.headers[i].parent_cert.header_digest,
            ) && s.headers[i + 1] == store[s.headers[i].parent_cert.header_digest]
            &&& s.next == (if s.headers.len() == 0 {
                start
            } else {
                s.headers.last().parent_cert.header_digest
            })
        }),
    decreases n,
{
    if n > 0 {
        a_walk_gathers_a_chain(store, bound, start, (n - 1) as nat, i);
    }
}

/// Where every header is higher than its parent, a walk from a header of height `h` ends after at
/// most `h + 2` reads.
pub proof fn a_walk_ends(store: Map<Digest, Header>, bound: WalkBound, start: Digest)
    requires
        store.contains_key(start),
        forall|d: Digest|
            store.contains_key(d) && store.contains_key(
                (#[trigger] store[d]).parent_cert.header_digest,
            ) ==> store[store[d].parent_cert.header_digest].height < store[d].height,
    ensures
        !goes_on(bound, walked(store, bound, start, store[start].height as nat + 2)),
{
    lemma_walk_descends(store, bound, start, store[start].height as nat + 2);
}

proof fn lemma_walk_descends(
    store: Map<Digest, Header>,
    bound: WalkBound,
    start: Digest,
    n: nat,
)
    requires
        store.contains_key(start),
        forall|d: Digest|
            store.contains_key(d) && store.contains_key(
                (#[trigger] store[d]).parent_cert.header_digest,
            ) ==> store[store[d].parent_cert.header_digest].height < store[d].height,
    ensures
        ({
            let s = walked(store, bound, start, n);
            goes_on(bound, s) ==> {
                &&& s.headers.len() == n
                &&& n > 0 ==> s.headers.last().height + n <= store[start].height + 1
                &&& store.contains_key(s.next) ==> store[s.next].height + n <= store[start].height
            }
        }),
    decreases n,
{
    if n > 0 {
        lemma_walk_descends(store, bound, start, (n - 1) as nat);
        let before = walked(store, bound, start, (n - 1) as nat);
        let s = walked(store, bound, start, n);
        if goes_on(bound, s) {
            assert(goes_on(bound, before));
            assert(s.headers.last() == store[before.next]);
            assert(store.contains_key(before.next));
        }
    }
}

/// Once a header could not be read, the walk is over and no headers are left to answer with, not even
/// those that were read before.
pub proof fn a_failed_walk_gathers_nothing(bound: WalkBound, s: WalkState)
    ensures
        !goes_on(bound, after_failure(s)),
        after_failure(s).headers.len() == 0,
{
}

/// A header of height `h` lies above the height that was given, or not below it if that one counts.
pub open spec fn is_wanted(bound: WalkBound, h: Height) -> bool {
    match bound {
        WalkBound::Above(stop) => stop < h,
        WalkBound::From(from, _) => from <= h,
    }
}

/// The window of the bound, if it has one, holds `n` headers already.
pub open spec fn is_filled(bound: WalkBound, n: nat) -> bool {
    match bound {
        WalkBound::Above(_) => false,
        WalkBound::From(_, window) => window <= n,
    }
}

/// A walk gathers whatever it can: as long as it goes on, the store holds the header to be read next
/// and the height of that header is wanted, the header is gathered, whatever it carries, and its
/// parent is read next. What was gathered before stays.
pub proof fn a_walk_gathers_every_wanted_header(
    bound: WalkBound,
    s: WalkState,
    read: Option<Header>,
)
    ensures
        goes_on(bound, s) <==> !s.done && !is_filled(bound, s.headers.len()),
        ({
            let next = after_read(bound, s, read);
            match read {
                Some(header) => if is_wanted(bound, header.height) {
                    &&& next.headers == s.headers.push(header)
                    &&& next.next == header.parent_cert.header_digest
                    &&& next.done == s.done
                } else {
                    next.headers == s.headers && next.done
                },
                None => next.headers == s.headers && next.done,
            }
        }),
{
}

/// A walk is complete: where it has ended, the header that would follow is not in the store, or its
/// height is not wanted, or the window is full. The headers that it gathered are the chain from the
/// one that was asked for, each followed by its parent, and all of them are wanted.
pub proof fn a_walk_ends_only_where_it_must(
    store: Map<Digest, Header>,
    bound: WalkBound,
    start: Digest,
    n: nat,
    i: int,
)
    ensures
        ({
            let s = walked(store, bound, start, n);
            let following = if s.headers.len() == 0 {
                start
            } else {
                s.headers[s.headers.len() - 1].parent_cert.header_digest
            };
            &&& !goes_on(bound, s) ==> {
                ||| !store.contains_key(following)
                ||| !is_wanted(bound, store[following].height)
                ||| is_filled(bound, s.headers.len())
            }
            &&& goes_on(bound, s) ==> s.headers.len() == n && s.next == following
            &&& 0 < i < s.headers.len() ==> s.headers[i]
                == store[s.headers[i - 1].parent_cert.header_digest]
            &&& s.headers.len() > 0 ==> s.headers[0] == store[start]
            &&& 0 <= i < s.headers.len() ==> is_wanted(bound, s.headers[i].height)
            &&& 0 < s.headers.len() ==> !is_filled(bound, (s.headers.len() - 1) as nat)
        }),
    decreases n,
{
    if n > 0 {
        a_walk_ends_only_where_it_must(store, bound, start, (n - 1) as nat, i);
        a_walk_gathers_a_chain(store, bound, start, (n - 1) as nat, i);
    }
}

/// Where a chain of headers lies in the store, a walk finds all of it: if `chain` leads from the header
/// that was asked for from parent to parent, all of it is wanted and the window has room for it, the
/// walk gathers `chain` after as many reads as it has headers.
pub proof fn a_walk_finds_the_whole_chain(
    store: Map<Digest, Header>,
    bound: WalkBound,
    start: Digest,
    chain: Seq<Header>,
)
    requires
        chain.len() > 0 ==> store.contains_key(start) && chain[0] == store[start],
        forall|i: int|
            0 <= i < chain.len() - 1 ==> store.contains_key(
                (#[trigger] chain[i]).parent_cert.header_digest,
            ) && chain[i + 1] == store[chain[i].parent_cert.header_digest],
        forall|i: int| 0 <= i < chain.len() ==> is_wanted(bound, (#[trigger] chain[i]).height),
        chain.len() > 0 ==> !is_filled(bound, (chain.len() - 1) as nat),
    ensures
        walked(store, bound, start, chain.len()).headers == chain,
        !walked(store, bound, start, chain.len()).done,
    decreases chain.len(),
{
    if chain.len() == 0 {
        assert(walked(store, bound, start, 0).headers =~= chain);
    } else {
        let front = chain.drop_last();
        assert forall|i: int| 0 <= i < front.len() - 1 implies store.contains_key(
            (#[trigger] front[i]).parent_cert.header_digest,
        ) && front[i + 1] == store[front[i].parent_cert.header_digest] by {
            assert(front[i] == chain[i] && front[i + 1] == chain[i + 1]);
        }
        assert forall|i: int| 0 <= i < front.len() implies is_wanted(
            bound,
            (#[trigger] front[i]).height,
        ) by {
            assert(front[i] == chain[i]);
        }
        a_walk_finds_the_whole_chain(store, bound, start, front);
        a_walk_gathers_a_chain(store, bound, start, front.len(), 0);
        let s = walked(store, bound, start, front.len());
        if front.len() > 0 {
            assert(front[front.len() - 1] == chain[chain.len() - 2]);
            assert(chain[chain.len() - 2 + 1] == store[chain[chain.len()
                - 2].parent_cert.header_digest]);
        }
        assert(goes_on(bound, s));
        assert(store.contains_key(s.next) && store[s.next] == chain.last());
        assert(is_wanted(bound, chain[chain.len() - 1].height));
        assert(front.push(chain.last()) =~= chain);
    }
}

/// Every request of a member is taken up, whatever it asks for, and none of a stranger. The answers go
/// to where the primary of the member listens. Certificates and headers are read as they are listed; a
/// walk starts at what is asked for, with nothing gathered, and goes no further than is asked for nor,
/// for a range, than the window.
pub proof fn members_are_answered(helper: Helper, request: HelperRequest, task: Option<HelperTask>)
    requires
        helper.is_task(request, task),
    ensures
        ({
            let origin = match request {
                HelperRequest::Certificates(_, k) => k,
                HelperRequest::Headers(_, k) => k,
                HelperRequest::ProposalHeaders(_, _, k) => k,
                HelperRequest::HeaderRange(_, _, k) => k,
            };
            let members = helper.committee.authorities@;
            let address = members[origin].primary.primary_to_primary;
            &&& task is Some <==> members.contains_key(origin)
            &&& task is Some ==> match request {
                HelperRequest::Certificates(digests, _) => task == Some(
                    HelperTask::Certificates(digests, address),
                ),
                HelperRequest::Headers(digests, _) => task == Some(
                    HelperTask::Headers(digests, address),
                ),
                HelperRequest::ProposalHeaders(proposal, stop_height, _) => match task {
                    Some(HelperTask::Walk(w, to)) => {
                        &&& to == address
                        &&& w.bound == WalkBound::Above(stop_height)
                        &&& w.next == proposal.header_digest
                        &&& w.headers@.len() == 0
                        &&& !w.done
                    },
                    _ => false,
                },
                HelperRequest::HeaderRange(start, from_height, _) => match task {
                    Some(HelperTask::Walk(w, to)) => {
                        &&& to == address
                        &&& w.bound == WalkBound::From(from_height, helper.range_window)
                        &&& w.next == start
                        &&& w.headers@.len() == 0
                        &&& !w.done
                    },
                    _ => false,
                },
            }
        }),
{
}

} // verus!
