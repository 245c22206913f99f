//! Who takes part, and where each participant listens.
use crate::ident::{Address, PublicKey, WorkerId};
use crate::table::Table;
use vstd::prelude::*;

verus! {

/// Where a primary listens.
#[derive(Clone, Copy, PartialEq, Eq, Structural, Debug)]
pub struct PrimaryAddresses {
    /// For the other primaries.
    pub primary_to_primary: Address,
    /// For its own workers.
    pub worker_to_primary: Address,
}

/// Where a worker listens.
#[derive(Clone, Copy, PartialEq, Eq, Structural, Debug)]
pub struct WorkerAddresses {
    /// For clients' transactions.
    pub transactions: Address,
    /// For the other workers.
    pub worker_to_worker: Address,
    /// For its own primary.
    pub primary_to_worker: Address,
}

/// A member of the committee.
pub struct Authority {
    pub primary: PrimaryAddresses,
    pub workers: Table<WorkerId, WorkerAddresses>,
}

/// The members of the committee, by public key.
pub struct Committee {
    pub authorities: Table<PublicKey, Authority>,
}

/// The primaries of `members` other than `me`, in order.
pub open spec fn primaries_but(members: Seq<(PublicKey, Authority)>, me: PublicKey) -> Seq<
    (PublicKey, PrimaryAddresses),
>
    decreases members.len(),
{
    if members.len() == 0 {
        Seq::empty()
    } else {
        let front = primaries_but(members.drop_last(), me);
        let (name, authority) = members.last();
        if name == me {
            front
        } else {
            front.push((name, authority.primary))
        }
    }
}

/// The workers with the number `id` of the `members` other than `me`, in order.
pub open spec fn workers_but(
    members: Seq<(PublicKey, Authority)>,
    me: PublicKey,
    id: WorkerId,
) -> Seq<(PublicKey, WorkerAddresses)>
    decreases members.len(),
{
    if members.len() == 0 {
        Seq::empty()
    } else {
        let front = workers_but(members.drop_last(), me, id);
        let (name, authority) = members.last();
        if name == me || !authority.workers@.contains_key(id) {
            front
        } else {
            front.push((name, authority.workers@[id]))
        }
    }
}

impl Committee {
    /// The members in ascending order of their keys.
    pub open spec fn members(&self) -> Seq<(PublicKey, Authority)> {
        self.authorities.entries()
    }

    /// Where the primary of `name` listens, if `name` is a member.
    pub open spec fn primary_of(&self, name: PublicKey) -> Option<PrimaryAddresses> {
        if self.authorities@.contains_key(name) {
            Some(self.authorities@[name].primary)
        } else {
            None
        }
    }

    /// Where the worker `id` of `name` listens, if there is such a worker.
    pub open spec fn worker_of(&self, name: PublicKey, id: WorkerId) -> Option<WorkerAddresses> {
        if self.authorities@.contains_key(name) && self.authorities@[name].workers@.contains_key(
            id,
        ) {
            Some(self.authorities@[name].workers@[id])
        } else {
            None
        }
    }

    /// The addresses at which the other primaries listen to primaries.
    pub open spec fn other_primary_addresses(&self, me: PublicKey) -> Seq<Address> {
        primaries_but(self.members(), me).map_values(
            |x: (PublicKey, PrimaryAddresses)| x.1.primary_to_primary,
        )
    }

    /// Where the primary of `name` listens.
    pub fn primary(&self, name: &PublicKey) -> (a: Option<PrimaryAddresses>)
        ensures
            a == self.primary_of(*name),
    {
        match self.authorities.get(name) {
            Some(authority) => Some(authority.primary),
            None => None,
        }
    }

    /// Where the worker `id` of `name` listens.
    pub fn worker(&self, name: &PublicKey, id: &WorkerId) -> (a: Option<WorkerAddresses>)
        ensures
            a == self.worker_of(*name, *id),
    {
        match self.authorities.get(name) {
            Some(authority) => match authority.workers.get(id) {
                Some(addresses) => Some(*addresses),
                None => None,
            },
            None => None,
        }
    }

    /// The primaries other than that of `me`.
    pub fn others_primaries(&self, me: &PublicKey) -> (others: Vec<(PublicKey, PrimaryAddresses)>)
        ensures
            others@ == primaries_but(self.members(), *me),
    {
        let n: usize = self.authorities.len();
        let mut others: Vec<(PublicKey, PrimaryAddresses)> = Vec::new();
        let mut i: usize = 0;
        while i < n
            invariant
                i <= n == self.members().len(),
                others@ == primaries_but(self.members().take(i as int), *me),
            decreases n - i,
        {
            let name = self.authorities.key_at(i);
            let authority = self.authorities.value_at(i);
            proof {
                assert(self.members().take(i + 1).drop_last() =~= self.members().take(i as int));
            }
            if name != *me {
                others.push((name, authority.primary));
            }
            i += 1;
        }
        assert(self.members().take(n as int) =~= self.members());
        others
    }

    /// The workers with the number `id` of the authorities other than `me`.
    pub fn others_workers(&self, me: &PublicKey, id: &WorkerId) -> (others: Vec<
        (PublicKey, WorkerAddresses),
    >)
        ensures
            others@ == workers_but(self.members(), *me, *id),
    {
        let n: usize = self.authorities.len();
        let mut others: Vec<(PublicKey, WorkerAddresses)> = Vec::new();
        let mut i: usize = 0;
        while i < n
            invariant
                i <= n == self.members().len(),
                others@ == workers_but(self.members().take(i as int), *me, *id),
            decreases n - i,
        {
            let name = self.authorities.key_at(i);
            let authority = self.authorities.value_at(i);
            proof {
                assert(self.members().take(i + 1).drop_last() =~= self.members().take(i as int));
            }
            if name != *me {
                if let Some(addresses) = authority.workers.get(id) {
                    others.push((name, *addresses));
                }
            }
            i += 1;
        }
        assert(self.members().take(n as int) =~= self.members());
        others
    }
}

/// No authority is listed among the others of itself, and every other member is.
pub proof fn others_are_the_other_members(c: Committee, me: PublicKey)
    ensures
        forall|name: PublicKey, a: PrimaryAddresses|
            primaries_but(c.members(), me).contains((name, a)) <==> name != me && exists|i: int|
                0 <= i < c.members().len() && (#[trigger] c.members()[i]).0 == name
                    && c.members()[i].1.primary == a,
{
    lemma_primaries_but(c.members(), me);
}

proof fn lemma_primaries_but(members: Seq<(PublicKey, Authority)>, me: PublicKey)
    ensures
        forall|name: PublicKey, a: PrimaryAddresses|
            primaries_but(members, me).contains((name, a)) <==> name != me && exists|i: int|
                0 <= i < members.len() && (#[trigger] members[i]).0 == name && members[i].1.primary
                    == a,
    decreases members.len(),
{
    if members.len() > 0 {
        let front = members.drop_last();
        lemma_primaries_but(front, me);
        let (last_name, last_authority) = members.last();
        let list = primaries_but(front, me);
        assert forall|name: PublicKey, a: PrimaryAddresses|
            primaries_but(members, me).contains((name, a)) <==> name != me && exists|i: int|
                0 <= i < members.len() && (#[trigger] members[i]).0 == name && members[i].1.primary
                    == a by {
            let pushed = list.push((last_name, last_authority.primary));
            assert(pushed.contains((name, a)) <==> list.contains((name, a)) || (name, a) == (
                last_name,
                last_authority.primary,
            )) by {
                if list.contains((name, a)) {
                    let j = choose|j: int| 0 <= j < list.len() && list[j] == (name, a);
                    assert(pushed[j] == (name, a));
                }
                assert(pushed[list.len() as int] == (last_name, last_authority.primary));
            }
            if exists|i: int|
                0 <= i < front.len() && (#[trigger] front[i]).0 == name && front[i].1.primary == a {
                let i = choose|i: int|
                    0 <= i < front.len() && (#[trigger] front[i]).0 == name && front[i].1.primary
                        == a;
                assert(members[i] == front[i]);
            }
            if exists|i: int|
                0 <= i < members.len() && (#[trigger] members[i]).0 == name && members[i].1.primary
                    == a {
                let i = choose|i: int|
                    0 <= i < members.len() && (#[trigger] members[i]).0 == name
                        && members[i].1.primary == a;
                if i < front.len() {
                    assert(front[i] == members[i]);
                }
            }
            assert(members[members.len() - 1] == members.last());
        }
    } else {
        assert(primaries_but(members, me) =~= Seq::empty());
    }
}

/// The worker of `name` listens at `a`, according to one of `members`.
pub open spec fn lists_worker(
    members: Seq<(PublicKey, Authority)>,
    name: PublicKey,
    id: WorkerId,
    a: WorkerAddresses,
) -> bool {
    exists|i: int|
        0 <= i < members.len() && (#[trigger] members[i]).0 == name
            && members[i].1.workers@.contains_key(id) && members[i].1.workers@[id] == a
}

/// The other workers with a number are those of the other members that have one with that number.
pub proof fn other_workers_are_of_other_members(
    c: Committee,
    me: PublicKey,
    id: WorkerId,
    name: PublicKey,
    a: WorkerAddresses,
)
    ensures
        workers_but(c.members(), me, id).contains((name, a)) <==> name != me && lists_worker(
            c.members(),
            name,
            id,
            a,
        ),
{
    lemma_workers_but(c.members(), me, id, name, a);
}

proof fn lemma_workers_but(
    members: Seq<(PublicKey, Authority)>,
    me: PublicKey,
    id: WorkerId,
    name: PublicKey,
    a: WorkerAddresses,
)
    ensures
        workers_but(members, me, id).contains((name, a)) <==> name != me && lists_worker(
            members,
            name,
            id,
            a,
        ),
    decreases members.len(),
{
    if members.len() > 0 {
        let front = members.drop_last();
        lemma_workers_but(front, me, id, name, a);
        let list = workers_but(front, me, id);
        let (last_name, last_authority) = members.last();
        assert(members[members.len() - 1] == members.last());
        if lists_worker(front, name, id, a) {
            let i = choose|i: int|
                0 <= i < front.len() && (#[trigger] front[i]).0 == name
                    && front[i].1.workers@.contains_key(id) && front[i].1.workers@[id] == a;
            assert(members[i] == front[i]);
        }
        if lists_worker(members, name, id, a) {
            let i = choose|i: int|
                0 <= i < members.len() && (#[trigger] members[i]).0 == name
                    && members[i].1.workers@.contains_key(id) && members[i].1.workers@[id] == a;
            if i < front.len() {
                assert(front[i] == members[i]);
            }
        }
        if last_name != me && last_authority.workers@.contains_key(id) {
            let x = (last_name, last_authority.workers@[id]);
            let pushed = list.push(x);
            assert(pushed[list.len() as int] == x);
            if list.contains((name, a)) {
                let j = choose|j: int| 0 <= j < list.len() && list[j] == (name, a);
                assert(pushed[j] == (name, a));
            }
            if pushed.contains((name, a)) && (name, a) != x {
                let j = choose|j: int| 0 <= j < pushed.len() && pushed[j] == (name, a);
                assert(list[j] == (name, a));
            }
        }
    }
}

/// The other primaries are found member by member, in order: each member but `me` counts once.
pub proof fn every_other_member_has_a_primary(
    a: Seq<(PublicKey, Authority)>,
    b: Seq<(PublicKey, Authority)>,
    me: PublicKey,
    m: (PublicKey, Authority),
)
    ensures
        primaries_but(Seq::empty(), me).len() == 0,
        primaries_but(seq![m], me) == (if m.0 == me {
            Seq::<(PublicKey, PrimaryAddresses)>::empty()
        } else {
            seq![(m.0, m.1.primary)]
        }),
        primaries_but(a + b, me) == primaries_but(a, me) + primaries_but(b, me),
    decreases b.len(),
{
    reveal_with_fuel(primaries_but, 2);
    assert(seq![m].drop_last() =~= Seq::<(PublicKey, Authority)>::empty());
    assert(primaries_but(seq![m], me) =~= (if m.0 == me {
        Seq::<(PublicKey, PrimaryAddresses)>::empty()
    } else {
        seq![(m.0, m.1.primary)]
    }));
    if b.len() == 0 {
        assert(a + b =~= a);
        assert(primaries_but(a, me) + primaries_but(b, me) =~= primaries_but(a, me));
    } else {
        every_other_member_has_a_primary(a, b.drop_last(), me, m);
        assert((a + b).drop_last() =~= a + b.drop_last());
        assert((a + b).last() == b.last());
        assert(primaries_but(a + b, me) =~= primaries_but(a, me) + primaries_but(b, me));
    }
}

/// The other workers with a number are found member by member, in order: each member but `me` that has
/// a worker with that number counts once.
pub proof fn every_other_member_with_the_worker_counts(
    a: Seq<(PublicKey, Authority)>,
    b: Seq<(PublicKey, Authority)>,
    me: PublicKey,
    id: WorkerId,
    m: (PublicKey, Authority),
)
    ensures
        workers_but(Seq::empty(), me, id).len() == 0,
        workers_but(seq![m], me, id) == (if m.0 != me && m.1.workers@.contains_key(id) {
            seq![(m.0, m.1.workers@[id])]
        } else {
            Seq::<(PublicKey, WorkerAddresses)>::empty()
        }),
        workers_but(a + b, me, id) == workers_but(a, me, id) + workers_but(b, me, id),
    decreases b.len(),
{
    reveal_with_fuel(workers_but, 2);
    assert(seq![m].drop_last() =~= Seq::<(PublicKey, Authority)>::empty());
    assert(workers_but(seq![m], me, id) =~= (if m.0 != me && m.1.workers@.contains_key(id) {
        seq![(m.0, m.1.workers@[id])]
    } else {
        Seq::<(PublicKey, WorkerAddresses)>::empty()
    }));
    if b.len() == 0 {
        assert(a + b =~= a);
        assert(workers_but(a, me, id) + workers_but(b, me, id) =~= workers_but(a, me, id));
    } else {
        every_other_member_with_the_worker_counts(a, b.drop_last(), me, id, m);
        assert((a + b).drop_last() =~= a + b.drop_last());
        assert((a + b).last() == b.last());
        assert(workers_but(a + b, me, id) =~= workers_but(a, me, id) + workers_but(b, me, id));
    }
}

/// Exactly the members have a primary, and they have exactly the workers that they list, each at the
/// addresses that are given for it.
pub proof fn members_are_found_at_their_addresses(c: Committee, name: PublicKey, id: WorkerId)
    ensures
        match c.primary_of(name) {
            Some(a) => c.authorities@.contains_key(name) && a == c.authorities@[name].primary,
            None => !c.authorities@.contains_key(name),
        },
        match c.worker_of(name, id) {
            Some(a) => c.authorities@.contains_key(name)
                && c.authorities@[name].workers@.contains_key(id) && a
                == c.authorities@[name].workers@[id],
            None => !(c.authorities@.contains_key(name)
                && c.authorities@[name].workers@.contains_key(id)),
        },
{
}

} // verus!
