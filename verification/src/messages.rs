//! The messages of the protocol, with the fields that the node's decisions read. Signatures and
//! quorum proofs are checked elsewhere and do not appear here.
use crate::ident::{Digest, Height, PublicKey, Slot, ViewNumber, WorkerId};
use vstd::prelude::*;

verus! {

/// A certificate of availability for a header.
#[derive(Debug)]
pub struct Certificate {
    /// The author of the certified header.
    pub author: PublicKey,
    /// The digest of the certified header.
    pub header_digest: Digest,
    /// The height of the certified header.
    pub height: Height,
    /// The digest of the certificate itself.
    pub digest: Digest,
    /// The authorities that voted for the header.
    pub votes: Vec<PublicKey>,
}

/// What a certificate says.
#[verifier::ext_equal]
pub struct CertificateView {
    pub author: PublicKey,
    pub header_digest: Digest,
    pub height: Height,
    pub digest: Digest,
    pub votes: Seq<PublicKey>,
}

impl View for Certificate {
    type V = CertificateView;

    open spec fn view(&self) -> CertificateView {
        CertificateView {
            author: self.author,
            header_digest: self.header_digest,
            height: self.height,
            digest: self.digest,
            votes: self.votes@,
        }
    }
}

impl Certificate {
    /// The author of the certified header.
    pub fn origin(&self) -> (name: PublicKey)
        ensures
            name == self.author,
    {
        self.author
    }

    /// The height of the certified header.
    pub fn height(&self) -> (h: Height)
        ensures
            h == self.height,
    {
        self.height
    }
}

impl Clone for Certificate {
    fn clone(&self) -> (c: Self)
        ensures
            c@ == self@,
    {
        let votes = self.votes.clone();
        assert(votes@ =~= self.votes@);
        Certificate {
            author: self.author,
            header_digest: self.header_digest,
            height: self.height,
            digest: self.digest,
            votes,
        }
    }
}

/// A tip of an authority's chain that consensus proposes to commit.
#[derive(Debug)]
pub struct Proposal {
    /// The digest of the header at the tip.
    pub header_digest: Digest,
    /// The height of that header.
    pub height: Height,
    /// A certificate for that header.
    pub certificate: Certificate,
}

/// What a proposal says.
#[verifier::ext_equal]
pub struct ProposalView {
    pub header_digest: Digest,
    pub height: Height,
    pub certificate: CertificateView,
}

impl View for Proposal {
    type V = ProposalView;

    open spec fn view(&self) -> ProposalView {
        ProposalView {
            header_digest: self.header_digest,
            height: self.height,
            certificate: self.certificate@,
        }
    }
}

impl Clone for Proposal {
    fn clone(&self) -> (p: Self)
        ensures
            p@ == self@,
    {
        Proposal {
            header_digest: self.header_digest,
            height: self.height,
            certificate: self.certificate.clone(),
        }
    }
}

/// One consensus instance: a slot, a view and the proposed tips, by authority.
#[derive(Debug)]
pub struct Instance {
    pub slot: Slot,
    pub view: ViewNumber,
    /// The digest of the message.
    pub digest: Digest,
    /// The digest of what the message proposes, whatever the phase.
    pub proposal_digest: Digest,
    /// The proposed tip of each authority.
    pub proposals: Vec<(PublicKey, Proposal)>,
}

/// A message of consensus, by phase.
#[derive(Debug)]
pub enum ConsensusMessage {
    Prepare(Instance),
    Confirm(Instance),
    Commit(Instance),
}

impl ConsensusMessage {
    /// The instance that the message is about.
    pub open spec fn spec_instance(&self) -> Instance {
        match *self {
            ConsensusMessage::Prepare(i) => i,
            ConsensusMessage::Confirm(i) => i,
            ConsensusMessage::Commit(i) => i,
        }
    }

    /// The instance that the message is about.
    pub fn instance(&self) -> (i: &Instance)
        ensures
            *i == self.spec_instance(),
    {
        match self {
            ConsensusMessage::Prepare(i) => i,
            ConsensusMessage::Confirm(i) => i,
            ConsensusMessage::Commit(i) => i,
        }
    }
}

/// The digest of what `message` proposes.
pub fn proposal_digest(message: &ConsensusMessage) -> (d: Digest)
    ensures
        d == message.spec_instance().proposal_digest,
{
    message.instance().proposal_digest
}

/// A header: the unit that an authority appends to its chain.
#[derive(Debug)]
pub struct Header {
    /// The digest of the header.
    pub id: Digest,
    pub author: PublicKey,
    pub height: Height,
    /// The batches that the header carries, with the workers that hold them.
    pub payload: Vec<(Digest, WorkerId)>,
    /// A certificate for the header's parent.
    pub parent_cert: Certificate,
    /// The messages of consensus that travel in the header.
    pub consensus_messages: Vec<ConsensusMessage>,
    /// The number of consensus instances that the header is for.
    pub num_active_instances: usize,
    /// Whether the header was made out of turn, for consensus.
    pub special: bool,
}

impl Header {
    /// The height of the header in its author's chain.
    pub fn height(&self) -> (h: Height)
        ensures
            h == self.height,
    {
        self.height
    }
}

} // verus!
