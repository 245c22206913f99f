//! Decides when to propose a header, and what it carries.
use crate::ident::{Digest, Height, PublicKey, WorkerId};
use crate::messages::{Certificate, ConsensusMessage};
use crate::table::Table;
use vstd::prelude::*;

verus! {

/// The number of batches that one header carries at most. Without a bound, what piles up while the
/// proposer waits for a parent would make a header that the others cannot fetch in time. What is
/// left over goes into the next headers.
pub const MAX_HEADER_DIGESTS: usize = 1_000;

/// What the proposer keeps.
#[verifier::ext_equal]
pub struct ProposerState {
    /// The height of the next header.
    pub height: Height,
    /// The certificate of the last header, if the next one can build on it.
    pub parent: Option<Certificate>,
    /// The messages of consensus for the next header.
    pub instances: Map<Digest, ConsensusMessage>,
    /// The number of consensus instances that the next header is for.
    pub active: nat,
    /// The batches that no header carries yet.
    pub digests: Seq<(Digest, WorkerId)>,
    /// Whether a header may be made out of turn, for consensus.
    pub special: bool,
}

/// The batches in `digests`, with their workers. Of two entries for one batch, the later counts.
pub open spec fn payload_of(digests: Seq<(Digest, WorkerId)>) -> Map<Digest, WorkerId>
    decreases digests.len(),
{
    if digests.len() == 0 {
        Map::empty()
    } else {
        payload_of(digests.drop_last()).insert(digests.last().0, digests.last().1)
    }
}

/// The number of waiting batches that the next header takes.
pub open spec fn taken(digests: Seq<(Digest, WorkerId)>) -> int {
    if digests.len() < MAX_HEADER_DIGESTS {
        digests.len() as int
    } else {
        MAX_HEADER_DIGESTS as int
    }
}

/// The size in bytes of the names of the waiting batches.
pub open spec fn payload_bytes(digests: Seq<(Digest, WorkerId)>) -> nat {
    32 * digests.len()
}

/// Whether a header is to be proposed: there is a parent for it, or it may be made out of turn, and
/// the delay is over or enough batches wait.
pub open spec fn is_ready(s: ProposerState, header_size: usize, timer_expired: bool) -> bool {
    &&& timer_expired || payload_bytes(s.digests) >= header_size
    &&& s.parent is Some || s.special
}

/// The state once a header has been proposed.
pub open spec fn after_proposing(s: ProposerState) -> ProposerState {
    ProposerState {
        parent: None,
        instances: Map::empty(),
        active: 0,
        digests: s.digests.skip(taken(s.digests)),
        ..s
    }
}

/// The state once the certificate `parent` of our last header has come in. One that is below the
/// next header's height is stale.
pub open spec fn after_parent(s: ProposerState, parent: Certificate) -> ProposerState {
    if parent.height < s.height {
        s
    } else {
        ProposerState { height: (s.height + 1) as Height, parent: Some(parent), ..s }
    }
}

/// The state once a message of consensus has come in.
pub open spec fn after_instance(
    s: ProposerState,
    info: ConsensusMessage,
    use_special_rule: bool,
) -> ProposerState {
    let opens = !(info is Commit);
    ProposerState {
        special: s.special || (opens && use_special_rule),
        active: if opens {
            s.active + 1
        } else {
            s.active
        },
        instances: s.instances.insert(info.spec_instance().digest, info),
        ..s
    }
}

/// The state once one of our workers has a new batch.
pub open spec fn after_digest(s: ProposerState, digest: Digest, worker_id: WorkerId) -> ProposerState {
    ProposerState { digests: s.digests.push((digest, worker_id)), ..s }
}

/// What a header is to carry. The node signs it. Only a header that is made out of turn can lack a
/// parent.
pub struct HeaderDraft {
    pub author: PublicKey,
    pub height: Height,
    pub payload: Table<Digest, WorkerId>,
    pub parent_cert: Option<Certificate>,
    pub consensus_instances: Table<Digest, ConsensusMessage>,
    pub num_active_instances: usize,
    pub special: bool,
}

impl HeaderDraft {
    /// The draft carries what waits in the state `s`.
    pub open spec fn is_of(&self, name: PublicKey, s: ProposerState) -> bool {
        &&& self.author == name
        &&& self.height == s.height
        &&& self.payload@ == payload_of(s.digests.take(taken(s.digests)))
        &&& self.parent_cert == s.parent
        &&& self.consensus_instances@ == s.instances
        &&& self.num_active_instances == s.active
        &&& self.special == s.special
    }
}

/// Makes headers.
pub struct Proposer {
    /// The name of this authority.
    pub name: PublicKey,
    /// The size in bytes from which on a header is proposed at once.
    pub header_size: usize,
    /// The longest time to wait for batches, in milliseconds.
    pub max_header_delay: u64,
    pub height: Height,
    pub last_parent: Option<Certificate>,
    pub consensus_instances: Table<Digest, ConsensusMessage>,
    pub digests: Vec<(Digest, WorkerId)>,
    /// The size in bytes of the names of the waiting batches.
    pub payload_size: usize,
    pub num_active_instances: usize,
    pub use_special_rule: bool,
    pub is_special: bool,
}

impl View for Proposer {
    type V = ProposerState;

    open spec fn view(&self) -> ProposerState {
        ProposerState {
            height: self.height,
            parent: self.last_parent,
            instances: self.consensus_instances@,
            active: self.num_active_instances as nat,
            digests: self.digests@,
            special: self.is_special,
        }
    }
}

impl Proposer {
    /// The size that is kept is that of what waits.
    pub open spec fn well_formed(&self) -> bool {
        self.payload_size == payload_bytes(self.digests@)
    }

    /// The two proposers have the same settings.
    pub open spec fn same_settings(&self, other: Self) -> bool {
        &&& self.name == other.name
        &&& self.header_size == other.header_size
        &&& self.max_header_delay == other.max_header_delay
        &&& self.use_special_rule == other.use_special_rule
    }

    /// A proposer that builds on `genesis`.
    pub fn new(
        name: PublicKey,
        header_size: usize,
        max_header_delay: u64,
        genesis: Certificate,
    ) -> (p: Self)
        ensures
            p.well_formed(),
            p.name == name,
            p.header_size == header_size,
            p.max_header_delay == max_header_delay,
            !p.use_special_rule,
            p@ == (ProposerState {
                height: 0,
                parent: Some(genesis),
                instances: Map::empty(),
                active: 0,
                digests: Seq::empty(),
                special: false,
            }),
    {
        Proposer {
            name,
            header_size,
            max_header_delay,
            height: 0,
            last_parent: Some(genesis),
            consensus_instances: Table::new(),
            digests: Vec::new(),
            payload_size: 0,
            num_active_instances: 0,
            use_special_rule: false,
            is_special: false,
        }
    }

    /// Takes the batches for the next header out of those that wait.
    fn take_payload(&mut self) -> (payload: Table<Digest, WorkerId>)
        requires
            old(self).well_formed(),
        ensures
            final(self).well_formed(),
            final(self).same_settings(*old(self)),
            final(self)@ == (ProposerState {
                digests: old(self)@.digests.skip(taken(old(self)@.digests)),
                ..old(self)@
            }),
            payload@ == payload_of(old(self)@.digests.take(taken(old(self)@.digests))),
    {
        let ghost all = self.digests@;
        let n: usize = self.digests.len();
        let take: usize = if n < MAX_HEADER_DIGESTS {
            n
        } else {
            MAX_HEADER_DIGESTS
        };
        let mut payload: Table<Digest, WorkerId> = Table::new();
        let mut i: usize = 0;
        assert(all.take(0) =~= Seq::<(Digest, WorkerId)>::empty());
        while i < take
            invariant
                i <= take <= all.len(),
                all == self.digests@,
                payload@ == payload_of(all.take(i as int)),
            decreases take - i,
        {
            proof {
                assert(all.take(i + 1).drop_last() =~= all.take(i as int));
            }
            payload.insert(self.digests[i].0, self.digests[i].1);
            i += 1;
        }
        let rest = self.digests.split_off(take);
        self.digests = rest;
        self.payload_size = self.payload_size - 32 * take;
        assert(self.digests@ =~= all.skip(take as int));
        payload
    }

    /// Proposes a header, if it is time to.
    pub fn try_propose(&mut self, timer_expired: bool) -> (draft: Option<HeaderDraft>)
        requires
            old(self).well_formed(),
        ensures
            final(self).well_formed(),
            final(self).same_settings(*old(self)),
            match draft {
                Some(d) => {
                    &&& is_ready(old(self)@, old(self).header_size, timer_expired)
                    &&& d.is_of(old(self).name, old(self)@)
                    &&& final(self)@ == after_proposing(old(self)@)
                },
                None => {
                    &&& !is_ready(old(self)@, old(self).header_size, timer_expired)
                    &&& final(self)@ == old(self)@
                },
            },
    {
        let enough_parent = self.last_parent.is_some();
        let enough_digests = self.payload_size >= self.header_size;
        if (timer_expired || enough_digests) && (enough_parent || self.is_special) {
            Some(self.make_header())
        } else {
            None
        }
    }

    /// Proposes a header.
    pub fn make_header(&mut self) -> (draft: HeaderDraft)
        requires
            old(self).well_formed(),
        ensures
            final(self).well_formed(),
            final(self).same_settings(*old(self)),
            final(self)@ == after_proposing(old(self)@),
            draft.is_of(old(self).name, old(self)@),
    {
        let payload = self.take_payload();
        let mut parent: Option<Certificate> = None;
        std::mem::swap(&mut parent, &mut self.last_parent);
        let mut consensus_instances: Table<Digest, ConsensusMessage> = Table::new();
        std::mem::swap(&mut consensus_instances, &mut self.consensus_instances);
        let num_active_instances: usize = self.num_active_instances;
        self.num_active_instances = 0;
        HeaderDraft {
            author: self.name,
            height: self.height,
            payload,
            parent_cert: parent,
            consensus_instances,
            num_active_instances,
            special: self.is_special,
        }
    }

    /// Takes note of a message of consensus.
    pub fn on_instance(&mut self, info: ConsensusMessage)
        requires
            old(self).well_formed(),
            old(self).num_active_instances < usize::MAX,
        ensures
            final(self).well_formed(),
            final(self).same_settings(*old(self)),
            final(self)@ == after_instance(old(self)@, info, old(self).use_special_rule),
    {
        match &info {
            ConsensusMessage::Commit(_) => {},
            _ => {
                if self.use_special_rule {
                    self.is_special = true;
                }
                self.num_active_instances = self.num_active_instances + 1;
            },
        }
        let digest = info.instance().digest;
        self.consensus_instances.insert(digest, info);
    }

    /// Takes note of the certificate of our last header.
    pub fn on_parent(&mut self, parent: Certificate)
        requires
            old(self).well_formed(),
            old(self).height < Height::MAX,
        ensures
            final(self).well_formed(),
            final(self).same_settings(*old(self)),
            final(self)@ == after_parent(old(self)@, parent),
    {
        if parent.height < self.height {
            return ;
        }
        self.height = self.height + 1;
        self.last_parent = Some(parent);
    }

    /// Takes note of a new batch of one of our workers.
    pub fn on_digest(&mut self, digest: Digest, worker_id: WorkerId)
        requires
            old(self).well_formed(),
            payload_bytes(old(self)@.digests) + 32 <= usize::MAX,
        ensures
            final(self).well_formed(),
            final(self).same_settings(*old(self)),
            final(self)@ == after_digest(old(self)@, digest, worker_id),
    {
        self.payload_size = self.payload_size + digest.size();
        self.digests.push((digest, worker_id));
    }
}

/// A header carries no more batches than it may, and all those whose turn it is.
pub proof fn headers_are_bounded(digests: Seq<(Digest, WorkerId)>, i: int)
    ensures
        payload_of(digests.take(taken(digests))).len() <= MAX_HEADER_DIGESTS,
        0 <= i < taken(digests) ==> payload_of(digests.take(taken(digests))).contains_key(
            digests[i].0,
        ),
{
    lemma_payload(digests.take(taken(digests)), i);
}

proof fn lemma_payload(digests: Seq<(Digest, WorkerId)>, i: int)
    ensures
        payload_of(digests).dom().finite(),
        payload_of(digests).len() <= digests.len(),
        0 <= i < digests.len() ==> payload_of(digests).contains_key(digests[i].0),
    decreases digests.len(),
{
    if digests.len() > 0 {
        lemma_payload(digests.drop_last(), i);
        assert(payload_of(digests).dom() =~= payload_of(digests.drop_last()).dom().insert(
            digests.last().0,
        ));
    }
}

/// No batch is lost: those that wait are the ones that the header takes, and the ones that are left.
pub proof fn no_batch_is_lost(s: ProposerState)
    ensures
        s.digests.take(taken(s.digests)) + after_proposing(s).digests == s.digests,
{
    assert(s.digests.take(taken(s.digests)) + after_proposing(s).digests =~= s.digests);
}

/// After a header in turn, the next one has to wait for a certificate, which raises the height:
/// neither a batch nor a message of consensus brings it about.
pub proof fn a_header_needs_a_new_parent(
    s: ProposerState,
    header_size: usize,
    digest: Digest,
    worker_id: WorkerId,
    info: ConsensusMessage,
    parent: Certificate,
)
    requires
        !s.special,
        s.height < Height::MAX,
    ensures
        ({
            let next = after_proposing(s);
            &&& !is_ready(next, header_size, true)
            &&& !is_ready(after_digest(next, digest, worker_id), header_size, true)
            &&& !is_ready(after_instance(next, info, false), header_size, true)
            &&& is_ready(after_parent(next, parent), header_size, true) <==> parent.height
                >= s.height
            &&& is_ready(after_parent(next, parent), header_size, true) ==> after_parent(
                next,
                parent,
            ).height == s.height + 1
        }),
{
}

/// A header that may be made out of turn needs no parent: the delay or enough batches bring it about.
/// A header in turn has one.
pub proof fn only_special_headers_lack_a_parent(
    s: ProposerState,
    header_size: usize,
    timer_expired: bool,
)
    ensures
        s.special ==> (is_ready(s, header_size, timer_expired) <==> timer_expired || payload_bytes(
            s.digests,
        ) >= header_size),
        is_ready(s, header_size, timer_expired) && s.parent is None ==> s.special,
{
}

/// Without the rule for it, no header is ever made out of turn.
pub proof fn without_the_rule_nothing_is_special(
    s: ProposerState,
    digest: Digest,
    worker_id: WorkerId,
    info: ConsensusMessage,
    parent: Certificate,
)
    requires
        !s.special,
    ensures
        !after_proposing(s).special,
        !after_digest(s, digest, worker_id).special,
        !after_instance(s, info, false).special,
        !after_parent(s, parent).special,
{
}

/// The batches that a header takes when it is proposed in the state `s`: its payload holds these and
/// no others, each with its worker. They are the ones that have waited longest, as many as there are
/// up to a fixed number. If a batch was reported twice, the later report counts.
pub proof fn a_header_carries_what_has_waited_longest(
    draft: HeaderDraft,
    name: PublicKey,
    s: ProposerState,
    d: Digest,
    i: int,
)
    requires
        draft.is_of(name, s),
    ensures
        draft.payload@.contains_key(d) <==> exists|j: int|
            0 <= j < s.digests.len() && j < 1_000 && (#[trigger] s.digests[j]).0 == d,
        0 <= i < s.digests.len() && i < 1_000 && s.digests[i].0 == d && (forall|j: int|
            i < j < s.digests.len() && j < 1_000 ==> (#[trigger] s.digests[j]).0 != d)
            ==> draft.payload@[d] == s.digests[i].1,
        after_proposing(s).digests.len() == (if s.digests.len() < 1_000 {
            0
        } else {
            s.digests.len() - 1_000
        }),
        0 <= i < after_proposing(s).digests.len() ==> after_proposing(s).digests[i]
            == s.digests[i + 1_000],
{
    let n = taken(s.digests);
    let list = s.digests.take(n);
    lemma_payload_of(list, d, i);
    if exists|j: int| 0 <= j < list.len() && (#[trigger] list[j]).0 == d {
        let j = choose|j: int| 0 <= j < list.len() && (#[trigger] list[j]).0 == d;
        assert(s.digests[j].0 == d);
    }
    if exists|j: int| 0 <= j < s.digests.len() && j < 1_000 && (#[trigger] s.digests[j]).0 == d {
        let j = choose|j: int|
            0 <= j < s.digests.len() && j < 1_000 && (#[trigger] s.digests[j]).0 == d;
        assert(list[j].0 == d);
    }
    if 0 <= i < s.digests.len() && i < 1_000 && s.digests[i].0 == d && (forall|j: int|
        i < j < s.digests.len() && j < 1_000 ==> (#[trigger] s.digests[j]).0 != d) {
        assert forall|j: int| i < j < list.len() implies (#[trigger] list[j]).0 != d by {
            assert(list[j] == s.digests[j]);
        }
    }
}

proof fn lemma_payload_of(digests: Seq<(Digest, WorkerId)>, d: Digest, i: int)
    ensures
        payload_of(digests).contains_key(d) <==> exists|j: int|
            0 <= j < digests.len() && (#[trigger] digests[j]).0 == d,
        0 <= i < digests.len() && digests[i].0 == d && (forall|j: int|
            i < j < digests.len() ==> (#[trigger] digests[j]).0 != d) ==> payload_of(digests)[d]
            == digests[i].1,
    decreases digests.len(),
{
    if digests.len() > 0 {
        let front = digests.drop_last();
        lemma_payload_of(front, d, i);
        assert(digests[digests.len() - 1] == digests.last());
        if exists|j: int| 0 <= j < front.len() && (#[trigger] front[j]).0 == d {
            let j = choose|j: int| 0 <= j < front.len() && (#[trigger] front[j]).0 == d;
            assert(digests[j] == front[j]);
        }
        if exists|j: int| 0 <= j < digests.len() && (#[trigger] digests[j]).0 == d {
            let j = choose|j: int| 0 <= j < digests.len() && (#[trigger] digests[j]).0 == d;
            if j < front.len() {
                assert(front[j] == digests[j]);
            }
        }
        if 0 <= i < front.len() && digests[i].0 == d && (forall|j: int|
            i < j < digests.len() ==> (#[trigger] digests[j]).0 != d) {
            assert(front[i] == digests[i]);
            assert forall|j: int| i < j < front.len() implies (#[trigger] front[j]).0 != d by {
                assert(front[j] == digests[j]);
            }
        }
    }
}

/// Something that happens to the proposer.
pub enum ProposerEvent {
    /// A worker reports a batch.
    Batch(Digest, WorkerId),
    /// The certificate of our last header comes in.
    Parent(Certificate),
    /// A message of consensus comes in.
    Instance(ConsensusMessage),
    /// A header is proposed.
    Propose,
}

/// The state after `events`, one after the other.
pub open spec fn after_events(
    s: ProposerState,
    events: Seq<ProposerEvent>,
    use_special_rule: bool,
) -> ProposerState
    decreases events.len(),
{
    if events.len() == 0 {
        s
    } else {
        let front = after_events(s, events.drop_last(), use_special_rule);
        match events.last() {
            ProposerEvent::Batch(digest, worker_id) => after_digest(front, digest, worker_id),
            ProposerEvent::Parent(parent) => after_parent(front, parent),
            ProposerEvent::Instance(info) => after_instance(front, info, use_special_rule),
            ProposerEvent::Propose => after_proposing(front),
        }
    }
}

/// The batches that were reported in `events`, in order.
pub open spec fn reported(events: Seq<ProposerEvent>) -> Seq<(Digest, WorkerId)>
    decreases events.len(),
{
    if events.len() == 0 {
        Seq::empty()
    } else {
        match events.last() {
            ProposerEvent::Batch(digest, worker_id) => reported(events.drop_last()).push(
                (digest, worker_id),
            ),
            _ => reported(events.drop_last()),
        }
    }
}

/// The batches that the headers took that were proposed in `events`, in order: each header takes the
/// first of those that wait, up to a fixed number.
pub open spec fn taken_by_headers(
    s: ProposerState,
    events: Seq<ProposerEvent>,
    use_special_rule: bool,
) -> Seq<(Digest, WorkerId)>
    decreases events.len(),
{
    if events.len() == 0 {
        Seq::empty()
    } else {
        let front = taken_by_headers(s, events.drop_last(), use_special_rule);
        let waiting = after_events(s, events.drop_last(), use_special_rule).digests;
        match events.last() {
            ProposerEvent::Propose => front + waiting.take(
                if waiting.len() < 1_000 {
                    waiting.len() as int
                } else {
                    1_000
                },
            ),
            _ => front,
        }
    }
}

/// No batch is lost, taken twice or taken out of turn, whatever happens and in whatever state: the
/// batches that headers took, followed by those that wait, are the ones that waited at first followed
/// by all that were reported since, in order.
pub proof fn every_reported_batch_is_taken_or_waits(
    s: ProposerState,
    events: Seq<ProposerEvent>,
    use_special_rule: bool,
)
    ensures
        taken_by_headers(s, events, use_special_rule) + after_events(
            s,
            events,
            use_special_rule,
        ).digests == s.digests + reported(events),
    decreases events.len(),
{
    if events.len() == 0 {
        assert(Seq::<(Digest, WorkerId)>::empty() + s.digests =~= s.digests + Seq::empty());
    } else {
        let front = events.drop_last();
        every_reported_batch_is_taken_or_waits(s, front, use_special_rule);
        let before = taken_by_headers(s, front, use_special_rule);
        let waiting = after_events(s, front, use_special_rule).digests;
        let after = taken_by_headers(s, events, use_special_rule);
        let left = after_events(s, events, use_special_rule).digests;
        match events.last() {
            ProposerEvent::Batch(digest, worker_id) => {
                assert(after + left =~= (before + waiting).push((digest, worker_id)));
                assert((s.digests + reported(front)).push((digest, worker_id)) =~= s.digests
                    + reported(events));
            },
            ProposerEvent::Propose => {
                assert(after + left =~= before + waiting);
            },
            _ => {},
        }
    }
}

/// No header was proposed in `events`.
pub open spec fn proposes_nothing(events: Seq<ProposerEvent>) -> bool {
    forall|i: int| 0 <= i < events.len() ==> !((#[trigger] events[i]) is Propose)
}

/// The number of messages of consensus in `events` that open an instance.
pub open spec fn opened(events: Seq<ProposerEvent>) -> nat
    decreases events.len(),
{
    if events.len() == 0 {
        0
    } else {
        opened(events.drop_last()) + match events.last() {
            ProposerEvent::Instance(ConsensusMessage::Commit(_)) => 0nat,
            ProposerEvent::Instance(_) => 1,
            _ => 0,
        }
    }
}

/// Some message of consensus in `events` has the digest `d`.
pub open spec fn has_instance(events: Seq<ProposerEvent>, d: Digest) -> bool {
    exists|i: int| 0 <= i < events.len() && is_instance(#[trigger] events[i], d)
}

/// The event is a message of consensus with the digest `d`.
pub open spec fn is_instance(event: ProposerEvent, d: Digest) -> bool {
    match event {
        ProposerEvent::Instance(ConsensusMessage::Prepare(i)) => i.digest == d,
        ProposerEvent::Instance(ConsensusMessage::Confirm(i)) => i.digest == d,
        ProposerEvent::Instance(ConsensusMessage::Commit(i)) => i.digest == d,
        _ => false,
    }
}

/// A header carries all messages of consensus that came in since the last header, the last one of
/// each digest, and is for as many instances as they opened. The next header starts anew.
pub proof fn a_header_carries_the_messages_since_the_last(
    draft: HeaderDraft,
    name: PublicKey,
    s: ProposerState,
    events: Seq<ProposerEvent>,
    use_special_rule: bool,
    d: Digest,
    i: int,
)
    requires
        proposes_nothing(events),
        draft.is_of(name, after_events(after_proposing(s), events, use_special_rule)),
    ensures
        draft.author == name,
        draft.num_active_instances == opened(events),
        draft.consensus_instances@.contains_key(d) <==> has_instance(events, d),
        0 <= i < events.len() && is_instance(events[i], d) && (forall|j: int|
            i < j < events.len() ==> !is_instance(#[trigger] events[j], d))
            ==> ProposerEvent::Instance(draft.consensus_instances@[d]) == events[i],
        draft.special <==> s.special || (use_special_rule && opened(events) > 0),
{
    lemma_instances(after_proposing(s), events, use_special_rule, d, i);
}

proof fn lemma_instances(
    s: ProposerState,
    events: Seq<ProposerEvent>,
    use_special_rule: bool,
    d: Digest,
    i: int,
)
    requires
        proposes_nothing(events),
    ensures
        ({
            let end = after_events(s, events, use_special_rule);
            &&& end.active == s.active + opened(events)
            &&& end.instances.contains_key(d) <==> s.instances.contains_key(d) || has_instance(
                events,
                d,
            )
            &&& 0 <= i < events.len() && is_instance(events[i], d) && (forall|j: int|
                i < j < events.len() ==> !is_instance(#[trigger] events[j], d))
                ==> ProposerEvent::Instance(end.instances[d]) == events[i]
            &&& end.special <==> s.special || (use_special_rule && opened(events) > 0)
        }),
    decreases events.len(),
{
    if events.len() > 0 {
        let front = events.drop_last();
        assert forall|j: int| 0 <= j < front.len() implies !((#[trigger] front[j]) is Propose) by {
            assert(front[j] == events[j]);
        }
        lemma_instances(s, front, use_special_rule, d, i);
        assert(events[events.len() - 1] == events.last());
        if has_instance(front, d) {
            let j = choose|j: int| 0 <= j < front.len() && is_instance(#[trigger] front[j], d);
            assert(events[j] == front[j]);
        }
        if has_instance(events, d) && !is_instance(events.last(), d) {
            let j = choose|j: int| 0 <= j < events.len() && is_instance(#[trigger] events[j], d);
            assert(front[j] == events[j]);
        }
        if 0 <= i < front.len() && is_instance(events[i], d) && (forall|j: int|
            i < j < events.len() ==> !is_instance(#[trigger] events[j], d)) {
            assert(front[i] == events[i]);
            assert forall|j: int| i < j < front.len() implies !is_instance(#[trigger] front[j], d) by {
                assert(front[j] == events[j]);
            }
            assert(!is_instance(events[events.len() - 1], d));
        }
    }
}

/// A header builds on the last certificate that was not stale when it came in, and has the height
/// that follows from it. Batches and messages of consensus change neither.
pub proof fn a_header_builds_on_the_last_certificate(
    draft: HeaderDraft,
    name: PublicKey,
    s: ProposerState,
    parent: Certificate,
    events: Seq<ProposerEvent>,
    use_special_rule: bool,
)
    requires
        s.height < Height::MAX,
        proposes_nothing(events),
        forall|i: int| 0 <= i < events.len() ==> !((#[trigger] events[i]) is Parent),
        draft.is_of(name, after_events(after_parent(s, parent), events, use_special_rule)),
    ensures
        parent.height >= s.height ==> draft.parent_cert == Some(parent) && draft.height == s.height
            + 1,
        parent.height < s.height ==> draft.parent_cert == s.parent && draft.height == s.height,
{
    lemma_builds_on(after_parent(s, parent), events, use_special_rule);
}

proof fn lemma_builds_on(s: ProposerState, events: Seq<ProposerEvent>, use_special_rule: bool)
    requires
        proposes_nothing(events),
        forall|i: int| 0 <= i < events.len() ==> !((#[trigger] events[i]) is Parent),
    ensures
        after_events(s, events, use_special_rule).parent == s.parent,
        after_events(s, events, use_special_rule).height == s.height,
    decreases events.len(),
{
    if events.len() > 0 {
        let front = events.drop_last();
        assert forall|j: int| 0 <= j < front.len() implies !((#[trigger] front[j]) is Propose)
            && !(front[j] is Parent) by {
            assert(front[j] == events[j]);
        }
        lemma_builds_on(s, front, use_special_rule);
        assert(events[events.len() - 1] == events.last());
    }
}

/// A header is proposed exactly if the delay is over or the names of the waiting batches, of 32 bytes
/// each, fill a header, and there is a certificate to build on or the header may be made out of turn.
/// Proposing uses the certificate up, and leaves the height and the right to go out of turn as they
/// are.
pub proof fn a_header_is_proposed_when_it_is_time(
    s: ProposerState,
    header_size: usize,
    timer_expired: bool,
)
    ensures
        is_ready(s, header_size, timer_expired) <==> (timer_expired || 32 * s.digests.len()
            >= header_size) && (s.parent != None::<Certificate> || s.special),
        after_proposing(s).parent == None::<Certificate>,
        after_proposing(s).height == s.height,
        after_proposing(s).special == s.special,
{
}

/// The settings of a proposer are who it is, how large a header is to be, how long it waits and whether
/// it may go out of turn: what keeps the settings keeps all of them.
pub proof fn settings_stay_the_same(a: Proposer, b: Proposer)
    ensures
        a.same_settings(b) <==> a.name == b.name && a.header_size == b.header_size
            && a.max_header_delay == b.max_header_delay && a.use_special_rule
            == b.use_special_rule,
        a.well_formed() <==> a.payload_size == 32 * a.digests@.len(),
{
}

} // verus!
