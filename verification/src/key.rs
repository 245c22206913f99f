//! Total orders on the values that key the node's tables.
use vstd::prelude::*;

verus! {

/// How one key stands to another.
#[derive(Clone, Copy, PartialEq, Eq, Structural, Debug)]
pub enum Rank {
    Below,
    Same,
    Above,
}

/// A copyable value with a strict total order, fit to key an ordered table.
pub trait Key: Sized + Copy {
    /// `self` comes strictly before `other`.
    spec fn before(self, other: Self) -> bool;

    proof fn before_is_irreflexive(a: Self)
        ensures
            !a.before(a),
    ;

    proof fn before_is_transitive(a: Self, b: Self, c: Self)
        requires
            a.before(b),
            b.before(c),
        ensures
            a.before(c),
    ;

    proof fn before_is_total(a: Self, b: Self)
        ensures
            a.before(b) || a == b || b.before(a),
    ;

    /// Ranks `self` against `other`.
    fn rank(&self, other: &Self) -> (r: Rank)
        ensures
            r == Rank::Below <==> self.before(*other),
            r == Rank::Same <==> *self == *other,
            r == Rank::Above <==> other.before(*self),
    ;
}

impl Key for u64 {
    open spec fn before(self, other: Self) -> bool {
        self < other
    }

    proof fn before_is_irreflexive(a: Self) {
    }

    proof fn before_is_transitive(a: Self, b: Self, c: Self) {
    }

    proof fn before_is_total(a: Self, b: Self) {
    }

    fn rank(&self, other: &Self) -> (r: Rank) {
        if *self < *other {
            Rank::Below
        } else if *self == *other {
            Rank::Same
        } else {
            Rank::Above
        }
    }
}

impl Key for u32 {
    open spec fn before(self, other: Self) -> bool {
        self < other
    }

    proof fn before_is_irreflexive(a: Self) {
    }

    proof fn before_is_transitive(a: Self, b: Self, c: Self) {
    }

    proof fn before_is_total(a: Self, b: Self) {
    }

    fn rank(&self, other: &Self) -> (r: Rank) {
        if *self < *other {
            Rank::Below
        } else if *self == *other {
            Rank::Same
        } else {
            Rank::Above
        }
    }
}

/// Byte strings of one length in dictionary order: at the first place where they differ, `a` holds
/// the smaller byte.
pub open spec fn bytes_before(a: Seq<u8>, b: Seq<u8>) -> bool {
    exists|i: int| #[trigger] first_difference(a, b, i) && a[i] < b[i]
}

/// `i` is the first place where `a` and `b` differ.
pub open spec fn first_difference(a: Seq<u8>, b: Seq<u8>, i: int) -> bool {
    &&& 0 <= i < a.len()
    &&& i < b.len()
    &&& a[i] != b[i]
    &&& forall|j: int| 0 <= j < i ==> a[j] == b[j]
}

pub(crate) proof fn lemma_bytes_before_irreflexive(a: Seq<u8>)
    ensures
        !bytes_before(a, a),
{
}

pub(crate) proof fn lemma_bytes_before_transitive(a: Seq<u8>, b: Seq<u8>, c: Seq<u8>)
    requires
        a.len() == b.len() == c.len(),
        bytes_before(a, b),
        bytes_before(b, c),
    ensures
        bytes_before(a, c),
{
    let i = choose|i: int| #[trigger] first_difference(a, b, i) && a[i] < b[i];
    let j = choose|j: int| #[trigger] first_difference(b, c, j) && b[j] < c[j];
    let k = if i < j {
        i
    } else {
        j
    };
    assert(first_difference(a, c, k));
}

pub(crate) proof fn lemma_bytes_before_total(a: Seq<u8>, b: Seq<u8>)
    requires
        a.len() == b.len(),
    ensures
        bytes_before(a, b) || a == b || bytes_before(b, a),
{
    if exists|i: int| 0 <= i < a.len() && a[i] != b[i] {
        let w = choose|i: int| 0 <= i < a.len() && a[i] != b[i];
        let i = lemma_first_difference_upto(a, b, w);
        assert(first_difference(a, b, i));
        assert(first_difference(b, a, i));
    } else {
        assert(a =~= b);
    }
}

/// Some place up to `w`, where `a` and `b` differ, is the first such place.
proof fn lemma_first_difference_upto(a: Seq<u8>, b: Seq<u8>, w: int) -> (i: int)
    requires
        a.len() == b.len(),
        0 <= w < a.len(),
        a[w] != b[w],
    ensures
        first_difference(a, b, i),
    decreases w,
{
    if exists|j: int| 0 <= j < w && a[j] != b[j] {
        let j = choose|j: int| 0 <= j < w && a[j] != b[j];
        lemma_first_difference_upto(a, b, j)
    } else {
        w
    }
}

/// Ranks two 32-byte strings in dictionary order.
pub(crate) fn rank_bytes(a: &[u8; 32], b: &[u8; 32]) -> (r: Rank)
    ensures
        r == Rank::Below <==> bytes_before(a@, b@),
        r == Rank::Same <==> a@ == b@,
        r == Rank::Above <==> bytes_before(b@, a@),
{
    let mut i: usize = 0;
    while i < 32
        invariant
            0 <= i <= 32,
            forall|j: int| 0 <= j < i ==> a@[j] == b@[j],
        decreases 32 - i,
    {
        if a[i] != b[i] {
            proof {
                assert(first_difference(a@, b@, i as int));
                assert(first_difference(b@, a@, i as int));
                lemma_bytes_before_antisymmetric(a@, b@);
            }
            return if a[i] < b[i] {
                Rank::Below
            } else {
                Rank::Above
            };
        }
        i += 1;
    }
    proof {
        assert(a@ =~= b@);
        lemma_bytes_before_irreflexive(a@);
    }
    Rank::Same
}

proof fn lemma_bytes_before_antisymmetric(a: Seq<u8>, b: Seq<u8>)
    requires
        a.len() == b.len(),
    ensures
        !(bytes_before(a, b) && bytes_before(b, a)),
{
    if bytes_before(a, b) && bytes_before(b, a) {
        lemma_bytes_before_transitive(a, b, a);
    }
}

} // verus!
