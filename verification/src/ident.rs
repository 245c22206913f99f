//! The names that the node's parts exchange: digests, public keys and socket addresses.
use crate::key::{
    bytes_before, lemma_bytes_before_irreflexive, lemma_bytes_before_total,
    lemma_bytes_before_transitive, rank_bytes, Key, Rank,
};
use vstd::prelude::*;

verus! {

/// The height of a header in its author's chain.
pub type Height = u64;

/// A view number of consensus.
pub type ViewNumber = u64;

/// A slot (sequence number) of consensus.
pub type Slot = u64;

/// A round, as the workers count them.
pub type Round = u64;

/// The identifier of a worker within its authority.
pub type WorkerId = u32;

/// A hash, cut to 32 bytes. Digests are ordered as byte strings.
#[derive(Clone, Copy, Eq, Debug)]
pub struct Digest(pub [u8; 32]);

/// The number of bytes in a digest.
pub const DIGEST_SIZE: usize = 32;

impl Digest {
    /// The number of bytes that the digest takes.
    pub fn size(&self) -> (n: usize)
        ensures
            n == DIGEST_SIZE,
    {
        DIGEST_SIZE
    }

    /// The digest's bytes.
    pub fn to_vec(&self) -> (bytes: Vec<u8>)
        ensures
            bytes@ == self.0@,
    {
        let mut bytes: Vec<u8> = Vec::new();
        let mut i: usize = 0;
        while i < 32
            invariant
                i <= 32,
                bytes@ == self.0@.take(i as int),
            decreases 32 - i,
        {
            bytes.push(self.0[i]);
            i += 1;
        }
        assert(self.0@.take(32) =~= self.0@);
        bytes
    }
}

impl PartialEq for Digest {
    fn eq(&self, other: &Self) -> (r: bool) {
        proof {
            lemma_same_bytes(self.0, other.0);
        }
        match rank_bytes(&self.0, &other.0) {
            Rank::Same => true,
            _ => false,
        }
    }
}

impl vstd::std_specs::cmp::PartialEqSpecImpl for Digest {
    open spec fn obeys_eq_spec() -> bool {
        true
    }

    open spec fn eq_spec(&self, other: &Self) -> bool {
        *self == *other
    }
}

/// Arrays with the same bytes are the same array.
proof fn lemma_same_bytes(a: [u8; 32], b: [u8; 32])
    ensures
        a@ == b@ <==> a == b,
{
    if a@ == b@ {
        assert forall|i: int| 0 <= i < 32 implies a[i] == b[i] by {
            assert(a@[i] == b@[i]);
        }
        assert(a =~= b);
    }
}

impl Key for Digest {
    open spec fn before(self, other: Self) -> bool {
        bytes_before(self.0@, other.0@)
    }

    proof fn before_is_irreflexive(a: Self) {
        lemma_bytes_before_irreflexive(a.0@);
    }

    proof fn before_is_transitive(a: Self, b: Self, c: Self) {
        lemma_bytes_before_transitive(a.0@, b.0@, c.0@);
    }

    proof fn before_is_total(a: Self, b: Self) {
        lemma_bytes_before_total(a.0@, b.0@);
        lemma_same_bytes(a.0, b.0);
    }

    fn rank(&self, other: &Self) -> (r: Rank) {
        proof {
            lemma_same_bytes(self.0, other.0);
        }
        rank_bytes(&self.0, &other.0)
    }
}

/// The public key of an authority. Keys are ordered as byte strings.
#[derive(Clone, Copy, Eq, Debug)]
pub struct PublicKey(pub [u8; 32]);

impl PartialEq for PublicKey {
    fn eq(&self, other: &Self) -> (r: bool) {
        proof {
            lemma_same_bytes(self.0, other.0);
        }
        match rank_bytes(&self.0, &other.0) {
            Rank::Same => true,
            _ => false,
        }
    }
}

impl vstd::std_specs::cmp::PartialEqSpecImpl for PublicKey {
    open spec fn obeys_eq_spec() -> bool {
        true
    }

    open spec fn eq_spec(&self, other: &Self) -> bool {
        *self == *other
    }
}

impl Key for PublicKey {
    open spec fn before(self, other: Self) -> bool {
        bytes_before(self.0@, other.0@)
    }

    proof fn before_is_irreflexive(a: Self) {
        lemma_bytes_before_irreflexive(a.0@);
    }

    proof fn before_is_transitive(a: Self, b: Self, c: Self) {
        lemma_bytes_before_transitive(a.0@, b.0@, c.0@);
    }

    proof fn before_is_total(a: Self, b: Self) {
        lemma_bytes_before_total(a.0@, b.0@);
        lemma_same_bytes(a.0, b.0);
    }

    fn rank(&self, other: &Self) -> (r: Rank) {
        proof {
            lemma_same_bytes(self.0, other.0);
        }
        rank_bytes(&self.0, &other.0)
    }
}

/// A socket address: an IPv4 or IPv6 address, as an integer, with a port.
#[derive(Clone, Copy, PartialEq, Eq, Structural, Debug)]
pub enum Address {
    V4 { ip: u32, port: u16 },
    V6 { ip6: u128, port: u16, flowinfo: u32, scope_id: u32 },
}

impl Address {
    /// The port of the address.
    pub open spec fn spec_port(self) -> u16 {
        match self {
            Address::V4 { port, .. } => port,
            Address::V6 { port, .. } => port,
        }
    }

    /// The address to listen on: the same port, on every IPv4 interface (`0.0.0.0`).
    pub fn on_all_interfaces(self) -> (a: Address)
        ensures
            a == (Address::V4 { ip: 0, port: self.spec_port() }),
    {
        match self {
            Address::V4 { ip: _, port } => Address::V4 { ip: 0, port },
            Address::V6 { ip6: _, port, flowinfo: _, scope_id: _ } => Address::V4 { ip: 0, port },
        }
    }
}

/// Socket addresses are ordered by family, then by address, then by port, then by the rest.
impl Key for Address {
    open spec fn before(self, other: Self) -> bool {
        match (self, other) {
            (Address::V4 { ip: a, port: p }, Address::V4 { ip: b, port: q }) => a < b || (a == b
                && p < q),
            (Address::V4 { .. }, Address::V6 { .. }) => true,
            (Address::V6 { .. }, Address::V4 { .. }) => false,
            (
                Address::V6 { ip6: a, port: p, flowinfo: f, scope_id: s },
                Address::V6 { ip6: b, port: q, flowinfo: g, scope_id: t },
            ) => a < b || (a == b && (p < q || (p == q && (f < g || (f == g && s < t))))),
        }
    }

    proof fn before_is_irreflexive(a: Self) {
    }

    proof fn before_is_transitive(a: Self, b: Self, c: Self) {
    }

    proof fn before_is_total(a: Self, b: Self) {
    }

    fn rank(&self, other: &Self) -> (r: Rank) {
        match (*self, *other) {
            (Address::V4 { ip: a, port: p }, Address::V4 { ip: b, port: q }) => {
                if a < b || (a == b && p < q) {
                    Rank::Below
                } else if a == b && p == q {
                    Rank::Same
                } else {
                    Rank::Above
                }
            },
            (Address::V4 { .. }, Address::V6 { .. }) => Rank::Below,
            (Address::V6 { .. }, Address::V4 { .. }) => Rank::Above,
            (
                Address::V6 { ip6: a, port: p, flowinfo: f, scope_id: s },
                Address::V6 { ip6: b, port: q, flowinfo: g, scope_id: t },
            ) => {
                if a < b || (a == b && (p < q || (p == q && (f < g || (f == g && s < t))))) {
                    Rank::Below
                } else if a == b && p == q && f == g && s == t {
                    Rank::Same
                } else {
                    Rank::Above
                }
            },
        }
    }
}

} // verus!
