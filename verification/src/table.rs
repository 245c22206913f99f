//! A finite map kept as a vector of entries in ascending order of their keys.
use crate::key::{Key, Rank};
use vstd::prelude::*;

verus! {

/// The keys of `entries` rise strictly.
pub open spec fn ascending<K: Key, V>(entries: Seq<(K, V)>) -> bool {
    forall|i: int, j: int|
        0 <= i < j < entries.len() ==> (#[trigger] entries[i]).0.before((#[trigger] entries[j]).0)
}

/// Some entry has the key `k`.
pub open spec fn has_key<K, V>(entries: Seq<(K, V)>, k: K) -> bool {
    exists|i: int| 0 <= i < entries.len() && (#[trigger] entries[i]).0 == k
}

/// The place of the entry with the key `k`.
pub open spec fn place_of<K, V>(entries: Seq<(K, V)>, k: K) -> int {
    choose|i: int| 0 <= i < entries.len() && (#[trigger] entries[i]).0 == k
}

/// The map that `entries` lists.
pub open spec fn listed<K, V>(entries: Seq<(K, V)>) -> Map<K, V> {
    Map::new(|k: K| has_key(entries, k), |k: K| entries[place_of(entries, k)].1)
}

/// The entries of `m` that satisfy `keep`.
pub open spec fn kept<K, V>(m: Map<K, V>, keep: spec_fn(K, V) -> bool) -> Map<K, V> {
    Map::new(|k: K| m.contains_key(k) && keep(k, m[k]), |k: K| m[k])
}

/// `list` holds the members of `keys`, in ascending order.
pub open spec fn is_listing<K: Key>(list: Seq<K>, keys: Set<K>) -> bool {
    &&& forall|i: int, j: int|
        0 <= i < j < list.len() ==> (#[trigger] list[i]).before(#[trigger] list[j])
    &&& forall|k: K| #[trigger] list.contains(k) <==> keys.contains(k)
}

/// The members of `keys`, in ascending order.
pub open spec fn listing<K: Key>(keys: Set<K>) -> Seq<K> {
    choose|list: Seq<K>| is_listing(list, keys)
}

/// A set is listed in ascending order in one way only.
pub proof fn listing_is_unique<K: Key>(list: Seq<K>, keys: Set<K>)
    requires
        is_listing(list, keys),
    ensures
        list == listing(keys),
{
    lemma_same_listing(list, listing(keys), keys);
}

/// Every finite set can be listed in ascending order.
pub proof fn listing_exists<K: Key>(keys: Set<K>)
    requires
        keys.finite(),
    ensures
        is_listing(listing(keys), keys),
    decreases keys.len(),
{
    if keys.len() == 0 {
        assert(keys =~= Set::empty());
        assert(is_listing(Seq::<K>::empty(), keys));
    } else {
        let k = keys.choose();
        let rest = keys.remove(k);
        listing_exists(rest);
        let list = listing(rest);
        assert(!list.contains(k));
        let i = lemma_listing_place(list, k);
        let grown = list.insert(i, k);
        assert forall|a: int, b: int| 0 <= a < b < grown.len() implies (
        #[trigger] grown[a]).before(#[trigger] grown[b]) by {
            if a < i && b > i {
                assert(list[a].before(list[b - 1]));
            } else if a > i {
                assert(list[a - 1].before(list[b - 1]));
            } else if b < i {
                assert(list[a].before(list[b]));
            }
        }
        assert forall|q: K| #[trigger] grown.contains(q) <==> keys.contains(q) by {
            assert(grown[i] == k);
            if q != k && keys.contains(q) {
                assert(list.contains(q));
                let j = choose|j: int| 0 <= j < list.len() && list[j] == q;
                if j < i {
                    assert(grown[j] == q);
                } else {
                    assert(grown[j + 1] == q);
                }
            }
            if q != k && grown.contains(q) {
                let j = choose|j: int| 0 <= j < grown.len() && grown[j] == q;
                if j < i {
                    assert(list[j] == q);
                } else {
                    assert(list[j - 1] == q);
                }
                assert(list.contains(q));
                assert(rest.contains(q));
            }
        }
        assert(is_listing(grown, keys));
    }
}

/// The place at which `k` would have to stand in `list`.
proof fn lemma_listing_place<K: Key>(list: Seq<K>, k: K) -> (i: int)
    requires
        forall|i: int, j: int|
            0 <= i < j < list.len() ==> (#[trigger] list[i]).before(#[trigger] list[j]),
        !list.contains(k),
    ensures
        0 <= i <= list.len(),
        forall|j: int| 0 <= j < i ==> (#[trigger] list[j]).before(k),
        forall|j: int| i <= j < list.len() ==> k.before(#[trigger] list[j]),
    decreases list.len(),
{
    if list.len() == 0 {
        0
    } else {
        let last = list.last();
        assert(list[list.len() - 1] == last);
        K::before_is_total(last, k);
        if last.before(k) {
            assert forall|j: int| 0 <= j < list.len() implies (#[trigger] list[j]).before(k) by {
                if j < list.len() - 1 {
                    assert(list[j].before(list[list.len() - 1]));
                    K::before_is_transitive(list[j], last, k);
                }
            }
            list.len() as int
        } else {
            let front = list.drop_last();
            assert(!front.contains(k)) by {
                if front.contains(k) {
                    let j = choose|j: int| 0 <= j < front.len() && front[j] == k;
                    assert(list[j] == k);
                }
            }
            assert forall|i: int, j: int| 0 <= i < j < front.len() implies (
            #[trigger] front[i]).before(#[trigger] front[j]) by {
                assert(list[i].before(list[j]));
            }
            let i = lemma_listing_place(front, k);
            assert forall|j: int| 0 <= j < i implies (#[trigger] list[j]).before(k) by {
                assert(front[j] == list[j]);
            }
            assert forall|j: int| i <= j < list.len() implies k.before(#[trigger] list[j]) by {
                if j < front.len() {
                    assert(front[j] == list[j]);
                }
            }
            i
        }
    }
}

/// A listing has as many elements as what it lists.
pub(crate) proof fn lemma_listing_len<K: Key>(list: Seq<K>, keys: Set<K>)
    requires
        is_listing(list, keys),
    ensures
        keys.finite(),
        list.len() == keys.len(),
{
    assert(list.no_duplicates()) by {
        assert forall|i: int, j: int|
            0 <= i < list.len() && 0 <= j < list.len() && i != j implies list[i] != list[j] by {
            if i < j {
                assert(list[i].before(list[j]));
            } else {
                assert(list[j].before(list[i]));
            }
            K::before_is_irreflexive(list[i]);
        }
    }
    list.unique_seq_to_set();
    assert(list.to_set() =~= keys);
}

proof fn lemma_same_listing<K: Key>(a: Seq<K>, b: Seq<K>, keys: Set<K>)
    requires
        is_listing(a, keys),
        is_listing(b, keys),
    ensures
        a == b,
    decreases a.len(),
{
    if a.len() == 0 {
        if b.len() > 0 {
            assert(b.contains(b[0]));
            assert(a.contains(b[0]));
        }
        assert(a =~= b);
    } else {
        assert(a.contains(a.last()));
        assert(b.contains(a.last()));
        assert(b.contains(b.last()));
        assert(a.contains(b.last()));
        let i = choose|i: int| 0 <= i < b.len() && b[i] == a.last();
        let j = choose|j: int| 0 <= j < a.len() && a[j] == b.last();
        if a.last() != b.last() {
            assert(b[i].before(b[b.len() - 1]));
            assert(a[j].before(a[a.len() - 1]));
            K::before_is_transitive(a.last(), b.last(), a.last());
            K::before_is_irreflexive(a.last());
        }
        let x = a.last();
        let rest = keys.remove(x);
        assert(is_listing(a.drop_last(), rest)) by {
            lemma_drop_last_listing(a, keys);
        }
        assert(is_listing(b.drop_last(), rest)) by {
            lemma_drop_last_listing(b, keys);
        }
        lemma_same_listing(a.drop_last(), b.drop_last(), rest);
        assert(a =~= a.drop_last().push(x));
        assert(b =~= b.drop_last().push(x));
    }
}

proof fn lemma_drop_last_listing<K: Key>(a: Seq<K>, keys: Set<K>)
    requires
        is_listing(a, keys),
        a.len() > 0,
    ensures
        is_listing(a.drop_last(), keys.remove(a.last())),
{
    let front = a.drop_last();
    assert forall|i: int, j: int| 0 <= i < j < front.len() implies (#[trigger] front[i]).before(
        #[trigger] front[j],
    ) by {
        assert(a[i].before(a[j]));
    }
    assert forall|k: K| #[trigger] front.contains(k) <==> keys.remove(a.last()).contains(k) by {
        if front.contains(k) {
            let i = choose|i: int| 0 <= i < front.len() && front[i] == k;
            assert(a[i] == k);
            assert(a.contains(k));
            assert(a[i].before(a[a.len() - 1]));
            K::before_is_irreflexive(k);
        }
        if keys.contains(k) && k != a.last() {
            assert(a.contains(k));
            let i = choose|i: int| 0 <= i < a.len() && a[i] == k;
            assert(front[i] == k);
        }
    }
}

/// In ascending entries each key stands at one place.
pub(crate) proof fn lemma_listed<K: Key, V>(entries: Seq<(K, V)>)
    requires
        ascending(entries),
    ensures
        forall|i: int|
            0 <= i < entries.len() ==> listed(entries).contains_key((#[trigger] entries[i]).0)
                && listed(entries)[entries[i].0] == entries[i].1,
        forall|k: K| #[trigger] listed(entries).contains_key(k) <==> has_key(entries, k),
        forall|i: int, j: int|
            0 <= i < entries.len() && 0 <= j < entries.len() && (#[trigger] entries[i]).0 == (
            #[trigger] entries[j]).0 ==> i == j,
{
    assert forall|i: int, j: int|
        0 <= i < entries.len() && 0 <= j < entries.len() && (#[trigger] entries[i]).0 == (
        #[trigger] entries[j]).0 implies i == j by {
        K::before_is_irreflexive(entries[i].0);
        if i < j {
            assert(entries[i].0.before(entries[j].0));
        } else if j < i {
            assert(entries[j].0.before(entries[i].0));
        }
    }
    assert forall|i: int| 0 <= i < entries.len() implies listed(entries).contains_key(
        (#[trigger] entries[i]).0,
    ) && listed(entries)[entries[i].0] == entries[i].1 by {
        assert(has_key(entries, entries[i].0));
        let j = place_of(entries, entries[i].0);
        assert(entries[j].0 == entries[i].0);
    }
}

/// A map from `K` to `V`, searched by halving.
pub struct Table<K: Key, V> {
    entries: Vec<(K, V)>,
}

impl<K: Key, V> View for Table<K, V> {
    type V = Map<K, V>;

    closed spec fn view(&self) -> Map<K, V> {
        listed(self.entries@)
    }
}

impl<K: Key, V> Table<K, V> {
    #[verifier::type_invariant]
    spec fn well_formed(self) -> bool {
        ascending(self.entries@)
    }

    /// The entries in ascending order of their keys.
    pub closed spec fn entries(self) -> Seq<(K, V)> {
        self.entries@
    }

    /// An empty table.
    pub fn new() -> (t: Self)
        ensures
            t@ == Map::<K, V>::empty(),
            t.entries() == Seq::<(K, V)>::empty(),
    {
        let t = Table { entries: Vec::new() };
        assert(t@ =~= Map::<K, V>::empty());
        t
    }

    /// The number of entries.
    pub fn len(&self) -> (n: usize)
        ensures
            n == self@.len(),
            n == self.entries().len(),
            self@.dom().finite(),
            ascending(self.entries()),
            self@ == listed(self.entries()),
    {
        proof {
            use_type_invariant(self);
            lemma_listed_len(self.entries@);
        }
        self.entries.len()
    }

    /// Whether there is no entry.
    pub fn is_empty(&self) -> (b: bool)
        ensures
            b == (self@ == Map::<K, V>::empty()),
            b == (self@.len() == 0),
    {
        let n: usize = self.len();
        proof {
            if n == 0 {
                assert(self@.dom() =~= Set::empty());
                assert(self@ =~= Map::<K, V>::empty());
            }
        }
        n == 0
    }

    /// The place at which `key` stands or would have to stand.
    fn search(&self, key: &K) -> (r: (usize, bool))
        ensures
            r.0 <= self.entries@.len(),
            r.1 <==> r.0 < self.entries@.len() && self.entries@[r.0 as int].0 == *key,
            r.1 <==> has_key(self.entries@, *key),
            forall|i: int| 0 <= i < r.0 ==> (#[trigger] self.entries@[i]).0.before(*key),
            forall|i: int|
                r.0 <= i < self.entries@.len() && !r.1 ==> key.before(
                    (#[trigger] self.entries@[i]).0,
                ),
    {
        proof {
            use_type_invariant(self);
            K::before_is_irreflexive(*key);
        }
        let mut low: usize = 0;
        let mut high: usize = self.entries.len();
        while low < high
            invariant
                ascending(self.entries@),
                low <= high <= self.entries@.len(),
                !key.before(*key),
                forall|i: int| 0 <= i < low ==> (#[trigger] self.entries@[i]).0.before(*key),
                forall|i: int|
                    high <= i < self.entries@.len() ==> key.before((#[trigger] self.entries@[i]).0),
            decreases high - low,
        {
            let mid: usize = low + (high - low) / 2;
            match self.entries[mid].0.rank(key) {
                Rank::Below => {
                    proof {
                        assert forall|i: int| 0 <= i < mid + 1 implies (
                        #[trigger] self.entries@[i]).0.before(*key) by {
                            if i < mid {
                                K::before_is_transitive(
                                    self.entries@[i].0,
                                    self.entries@[mid as int].0,
                                    *key,
                                );
                            }
                        }
                    }
                    low = mid + 1;
                },
                Rank::Same => {
                    assert(has_key(self.entries@, *key));
                    return (mid, true);
                },
                Rank::Above => {
                    proof {
                        assert forall|i: int| mid <= i < self.entries@.len() implies key.before(
                            (#[trigger] self.entries@[i]).0,
                        ) by {
                            if mid < i {
                                K::before_is_transitive(
                                    *key,
                                    self.entries@[mid as int].0,
                                    self.entries@[i].0,
                                );
                            }
                        }
                    }
                    high = mid;
                },
            }
        }
        (low, false)
    }

    /// Whether there is an entry for `key`.
    pub fn contains_key(&self, key: &K) -> (b: bool)
        ensures
            b == self@.contains_key(*key),
    {
        let found = self.search(key);
        found.1
    }

    /// The value of `key`.
    pub fn get(&self, key: &K) -> (v: Option<&V>)
        ensures
            match v {
                Some(x) => self@.contains_key(*key) && *x == self@[*key],
                None => !self@.contains_key(*key),
            },
    {
        proof {
            use_type_invariant(self);
            lemma_listed(self.entries@);
        }
        let (i, found) = self.search(key);
        if found {
            Some(&self.entries[i].1)
        } else {
            None
        }
    }

    /// The key of the `i`-th entry.
    pub fn key_at(&self, i: usize) -> (k: K)
        requires
            i < self.entries().len(),
        ensures
            k == self.entries()[i as int].0,
            self@.contains_key(k),
    {
        proof {
            use_type_invariant(self);
            lemma_listed(self.entries@);
        }
        self.entries[i].0
    }

    /// The value of the `i`-th entry.
    pub fn value_at(&self, i: usize) -> (v: &V)
        requires
            i < self.entries().len(),
        ensures
            *v == self.entries()[i as int].1,
            self@[self.entries()[i as int].0] == *v,
    {
        proof {
            use_type_invariant(self);
            lemma_listed(self.entries@);
        }
        &self.entries[i].1
    }

    /// The keys whose entries satisfy `pick`, whose verdict is that of `p`, in ascending order.
    pub(crate) fn keys_where<F: Fn(&K, &V) -> bool>(
        &self,
        pick: F,
        Ghost(p): Ghost<spec_fn(K, V) -> bool>,
    ) -> (keys: Vec<K>)
        requires
            forall|k: K, v: V|
                self@.contains_key(k) && self@[k] == v ==> #[trigger] call_requires(
                    pick,
                    (&k, &v),
                ),
            forall|k: K, v: V, r: bool| #[trigger]
                call_ensures(pick, (&k, &v), r) ==> r == p(k, v),
        ensures
            is_listing(keys@, kept(self@, p).dom()),
            keys@ == listing(kept(self@, p).dom()),
    {
        let n: usize = self.len();
        let mut keys: Vec<K> = Vec::new();
        let mut i: usize = 0;
        let ghost entries = self.entries();
        proof {
            lemma_listed(entries);
        }
        while i < n
            invariant
                i <= n == entries.len(),
                entries == self.entries(),
                ascending(entries),
                self@ == listed(entries),
                forall|k: K, v: V|
                    self@.contains_key(k) && self@[k] == v ==> #[trigger] call_requires(
                        pick,
                        (&k, &v),
                    ),
                forall|k: K, v: V, r: bool| #[trigger]
                    call_ensures(pick, (&k, &v), r) ==> r == p(k, v),
                forall|a: int, b: int|
                    0 <= a < b < keys@.len() ==> (#[trigger] keys@[a]).before(#[trigger] keys@[b]),
                forall|a: int|
                    0 <= a < keys@.len() ==> exists|j: int|
                        0 <= j < i && (#[trigger] entries[j]).0 == (#[trigger] keys@[a]) && p(
                            entries[j].0,
                            entries[j].1,
                        ),
                forall|j: int|
                    0 <= j < i && p((#[trigger] entries[j]).0, entries[j].1) ==> keys@.contains(
                        entries[j].0,
                    ),
            decreases n - i,
        {
            let key = self.key_at(i);
            let value = self.value_at(i);
            let ghost before = keys@;
            if pick(&key, value) {
                proof {
                    assert forall|a: int| 0 <= a < before.len() implies (
                    #[trigger] before[a]).before(key) by {
                        let j = choose|j: int|
                            0 <= j < i && (#[trigger] entries[j]).0 == before[a] && p(
                                entries[j].0,
                                entries[j].1,
                            );
                        assert(entries[j].0.before(entries[i as int].0));
                    }
                }
                keys.push(key);
                proof {
                    assert(keys@ == before.push(key));
                    assert(keys@[before.len() as int] == key);
                    assert forall|j: int|
                        0 <= j < i + 1 && p(
                            (#[trigger] entries[j]).0,
                            entries[j].1,
                        ) implies keys@.contains(entries[j].0) by {
                        if j < i {
                            assert(before.contains(entries[j].0));
                            let a = choose|a: int|
                                0 <= a < before.len() && before[a] == entries[j].0;
                            assert(keys@[a] == entries[j].0);
                        }
                    }
                }
            }
            i += 1;
        }
        proof {
            lemma_listed(entries);
            let picked = kept(self@, p).dom();
            assert forall|k: K| #[trigger] keys@.contains(k) <==> picked.contains(k) by {
                if keys@.contains(k) {
                    let a = choose|a: int| 0 <= a < keys@.len() && keys@[a] == k;
                    let j = choose|j: int|
                        0 <= j < i && (#[trigger] entries[j]).0 == keys@[a] && p(
                            entries[j].0,
                            entries[j].1,
                        );
                    assert(self@.contains_key(entries[j].0));
                }
                if picked.contains(k) {
                    let j = place_of(entries, k);
                    assert(entries[j].0 == k);
                }
            }
            listing_is_unique(keys@, picked);
        }
        keys
    }

    /// Whether all entries satisfy `holds`, whose verdict is that of `p`.
    pub(crate) fn all<F: Fn(&K, &V) -> bool>(
        &self,
        holds: F,
        Ghost(p): Ghost<spec_fn(K, V) -> bool>,
    ) -> (b: bool)
        requires
            forall|k: K, v: V| #[trigger] call_requires(holds, (&k, &v)),
            forall|k: K, v: V, r: bool| #[trigger]
                call_ensures(holds, (&k, &v), r) ==> r == p(k, v),
        ensures
            b <==> forall|k: K| #[trigger] self@.contains_key(k) ==> p(k, self@[k]),
    {
        let n: usize = self.len();
        let ghost entries = self.entries();
        proof {
            lemma_listed(entries);
        }
        let mut i: usize = 0;
        while i < n
            invariant
                i <= n == entries.len(),
                entries == self.entries(),
                self@ == listed(entries),
                forall|k: K, v: V| #[trigger] call_requires(holds, (&k, &v)),
                forall|k: K, v: V, r: bool| #[trigger]
                    call_ensures(holds, (&k, &v), r) ==> r == p(k, v),
                forall|j: int| 0 <= j < i ==> p((#[trigger] entries[j]).0, entries[j].1),
            decreases n - i,
        {
            let k = self.key_at(i);
            let v = self.value_at(i);
            if !holds(&k, v) {
                assert(self@.contains_key(k) && self@[k] == *v);
                return false;
            }
            i += 1;
        }
        proof {
            assert forall|k: K| #[trigger] self@.contains_key(k) implies p(k, self@[k]) by {
                assert(has_key(entries, k));
                let j = place_of(entries, k);
                assert(entries[j].0 == k);
            }
        }
        true
    }

    /// Sets the value of `key`, and hands out the one that it replaces.
    pub fn insert(&mut self, key: K, value: V) -> (replaced: Option<V>)
        ensures
            final(self)@ == old(self)@.insert(key, value),
            replaced == (if old(self)@.contains_key(key) {
                Some(old(self)@[key])
            } else {
                None::<V>
            }),
    {
        let (i, found) = self.search(&key);
        proof {
            use_type_invariant(&*self);
            lemma_listed(self.entries@);
        }
        let ghost before = self.entries@;
        let mut entries: Vec<(K, V)> = Vec::new();
        std::mem::swap(&mut entries, &mut self.entries);
        let mut replaced: Option<V> = None;
        if found {
            let taken = entries.remove(i);
            replaced = Some(taken.1);
            entries.insert(i, (key, value));
            assert(entries@ =~= before.update(i as int, (key, value)));
        } else {
            entries.insert(i, (key, value));
            assert(entries@ =~= before.insert(i as int, (key, value)));
        }
        proof {
            assert(ascending(entries@));
            lemma_listed(entries@);
            assert(listed(entries@) =~= listed(before).insert(key, value)) by {
                assert(entries@[i as int].0 == key);
                assert forall|k: K| #[trigger] listed(entries@).contains_key(k) <==> listed(
                    before,
                ).insert(key, value).contains_key(k) by {
                    lemma_key_after_insert(before, entries@, i as int, key, value, found, k);
                }
                assert forall|k: K| listed(entries@).contains_key(k) implies #[trigger] listed(
                    entries@,
                )[k] == listed(before).insert(key, value)[k] by {
                    lemma_value_after_insert(before, entries@, i as int, key, value, found, k);
                }
            }
        }
        self.entries = entries;
        replaced
    }

    /// Takes the entry of `key` out.
    pub fn remove(&mut self, key: &K) -> (removed: Option<V>)
        ensures
            final(self)@ == old(self)@.remove(*key),
            removed == (if old(self)@.contains_key(*key) {
                Some(old(self)@[*key])
            } else {
                None::<V>
            }),
    {
        let (i, found) = self.search(key);
        proof {
            use_type_invariant(&*self);
            lemma_listed(self.entries@);
        }
        if !found {
            assert(self@.remove(*key) =~= self@);
            return None;
        }
        let ghost before = self.entries@;
        let mut entries: Vec<(K, V)> = Vec::new();
        std::mem::swap(&mut entries, &mut self.entries);
        let taken = entries.remove(i);
        proof {
            assert(entries@ =~= before.remove(i as int));
            assert(ascending(entries@)) by {
                assert forall|a: int, b: int| 0 <= a < b < entries@.len() implies (
                #[trigger] entries@[a]).0.before((#[trigger] entries@[b]).0) by {
                    let a2 = if a < i { a } else { a + 1 };
                    let b2 = if b < i { b } else { b + 1 };
                    assert(before[a2].0.before(before[b2].0));
                }
            }
            lemma_listed(entries@);
            assert forall|k: K| #[trigger] listed(entries@).contains_key(k) <==> listed(
                before,
            ).remove(*key).contains_key(k) by {
                if has_key(before, k) && k != *key {
                    let p = place_of(before, k);
                    let q = if p < i { p } else { p - 1 };
                    assert(entries@[q] == before[p]);
                }
                if has_key(entries@, k) {
                    let q = place_of(entries@, k);
                    let p = if q < i { q } else { q + 1 };
                    assert(before[p] == entries@[q]);
                }
            }
            assert forall|k: K| listed(entries@).contains_key(k) implies #[trigger] listed(
                entries@,
            )[k] == listed(before)[k] by {
                let q = place_of(entries@, k);
                let p = if q < i { q } else { q + 1 };
                assert(before[p] == entries@[q]);
            }
            assert(listed(entries@) =~= listed(before).remove(*key));
        }
        self.entries = entries;
        Some(taken.1)
    }

    /// Drops every entry.
    pub fn clear(&mut self)
        ensures
            final(self)@ == Map::<K, V>::empty(),
    {
        self.entries = Vec::new();
        assert(self@ =~= Map::<K, V>::empty());
    }

    /// Keeps the entries that satisfy `keep`, whose verdict is that of `p`.
    pub(crate) fn retain<F: Fn(&K, &V) -> bool>(
        &mut self,
        keep: F,
        Ghost(p): Ghost<spec_fn(K, V) -> bool>,
    )
        requires
            forall|k: K, v: V| #[trigger] call_requires(keep, (&k, &v)),
            forall|k: K, v: V, r: bool| #[trigger]
                call_ensures(keep, (&k, &v), r) ==> r == p(k, v),
        ensures
            final(self)@ == kept(old(self)@, p),
    {
        proof {
            use_type_invariant(&*self);
            lemma_listed(self.entries@);
        }
        let ghost before = self.entries@;
        let mut entries: Vec<(K, V)> = Vec::new();
        std::mem::swap(&mut entries, &mut self.entries);
        let mut survivors: Vec<(K, V)> = Vec::new();
        let ghost mut from: Seq<int> = Seq::empty();
        for e in iter: entries
            invariant
                iter.seq() == before,
                ascending(before),
                forall|k: K, v: V| #[trigger] call_requires(keep, (&k, &v)),
                forall|k: K, v: V, r: bool| #[trigger]
                    call_ensures(keep, (&k, &v), r) ==> r == p(k, v),
                from.len() == survivors@.len(),
                forall|a: int|
                    0 <= a < from.len() ==> 0 <= #[trigger] from[a] < iter.index() && survivors@[a]
                        == before[from[a]] && p(before[from[a]].0, before[from[a]].1),
                forall|a: int, b: int| 0 <= a < b < from.len() ==> from[a] < from[b],
                forall|i: int|
                    0 <= i < iter.index() && p((#[trigger] before[i]).0, before[i].1)
                        ==> exists|a: int| 0 <= a < from.len() && #[trigger] from[a] == i,
        {
            let ghost i = iter.index() as int;
            let ghost from_before = from;
            if keep(&e.0, &e.1) {
                survivors.push(e);
                proof {
                    from = from.push(i);
                    assert forall|j: int|
                        0 <= j < i + 1 && p((#[trigger] before[j]).0, before[j].1) implies exists|
                        a: int,
                    | 0 <= a < from.len() && #[trigger] from[a] == j by {
                        if j == i {
                            assert(from[from.len() - 1] == i);
                        } else {
                            let a = choose|a: int|
                                0 <= a < from_before.len() && #[trigger] from_before[a] == j;
                            assert(from[a] == j);
                        }
                    }
                }
            }
        }
        proof {
            assert(ascending(survivors@)) by {
                assert forall|a: int, b: int| 0 <= a < b < survivors@.len() implies (
                #[trigger] survivors@[a]).0.before((#[trigger] survivors@[b]).0) by {
                    assert(before[from[a]].0.before(before[from[b]].0));
                }
            }
            lemma_listed(survivors@);
            assert forall|k: K| #[trigger] listed(survivors@).contains_key(k) <==> kept(
                listed(before),
                p,
            ).contains_key(k) by {
                if has_key(survivors@, k) {
                    let a = place_of(survivors@, k);
                    assert(before[from[a]].0 == k);
                }
                if has_key(before, k) && p(k, listed(before)[k]) {
                    let i = place_of(before, k);
                    assert(p(before[i].0, before[i].1));
                    let a = choose|a: int| 0 <= a < from.len() && #[trigger] from[a] == i;
                    assert(survivors@[a].0 == k);
                }
            }
            assert forall|k: K| listed(survivors@).contains_key(k) implies #[trigger] listed(
                survivors@,
            )[k] == listed(before)[k] by {
                let a = place_of(survivors@, k);
                assert(before[from[a]].0 == k);
            }
            assert(listed(survivors@) =~= kept(listed(before), p));
        }
        self.entries = survivors;
    }
}

/// A set of keys, kept in ascending order.
pub struct KeySet<K: Key> {
    table: Table<K, ()>,
}

impl<K: Key> View for KeySet<K> {
    type V = Set<K>;

    closed spec fn view(&self) -> Set<K> {
        self.table@.dom()
    }
}

impl<K: Key> KeySet<K> {
    /// An empty set.
    pub fn new() -> (s: Self)
        ensures
            s@ == Set::<K>::empty(),
    {
        let s = KeySet { table: Table::new() };
        assert(s@ =~= Set::<K>::empty());
        s
    }

    /// Whether `key` is a member.
    pub fn contains(&self, key: &K) -> (b: bool)
        ensures
            b == self@.contains(*key),
    {
        self.table.contains_key(key)
    }

    /// The number of members.
    pub fn len(&self) -> (n: usize)
        ensures
            n == self@.len(),
            self@.finite(),
    {
        self.table.len()
    }

    /// Adds `key`, and tells whether it was absent.
    pub fn insert(&mut self, key: K) -> (added: bool)
        ensures
            final(self)@ == old(self)@.insert(key),
            added == !old(self)@.contains(key),
    {
        let replaced = self.table.insert(key, ());
        assert(self@ =~= old(self)@.insert(key));
        replaced.is_none()
    }

    /// Takes `key` out, and tells whether it was present.
    pub fn remove(&mut self, key: &K) -> (removed: bool)
        ensures
            final(self)@ == old(self)@.remove(*key),
            removed == old(self)@.contains(*key),
    {
        let taken = self.table.remove(key);
        assert(self@ =~= old(self)@.remove(*key));
        taken.is_some()
    }

    /// Drops every member.
    pub fn clear(&mut self)
        ensures
            final(self)@ == Set::<K>::empty(),
    {
        self.table.clear();
        assert(self@ =~= Set::<K>::empty());
    }

    /// Adds the keys of `table`.
    pub fn insert_keys_of<V>(&mut self, table: &Table<K, V>)
        ensures
            final(self)@ == old(self)@.union(table@.dom()),
    {
        let n: usize = table.len();
        let mut i: usize = 0;
        while i < n
            invariant
                i <= n == table.entries().len(),
                table@ == listed(table.entries()),
                ascending(table.entries()),
                forall|k: K| #[trigger]
                    self@.contains(k) <==> old(self)@.contains(k) || has_key(
                        table.entries().take(i as int),
                        k,
                    ),
            decreases n - i,
        {
            let k = table.key_at(i);
            self.insert(k);
            proof {
                let es = table.entries();
                assert forall|q: K| #[trigger] self@.contains(q) <==> old(self)@.contains(q)
                    || has_key(es.take(i + 1), q) by {
                    if has_key(es.take(i as int), q) {
                        let p = place_of(es.take(i as int), q);
                        assert(es.take(i + 1)[p].0 == q);
                    }
                    if has_key(es.take(i + 1), q) && q != k {
                        let p = place_of(es.take(i + 1), q);
                        assert(es.take(i as int)[p].0 == q);
                    }
                    assert(es.take(i + 1)[i as int].0 == k);
                }
            }
            i += 1;
        }
        proof {
            assert(table.entries().take(n as int) =~= table.entries());
            lemma_listed(table.entries());
            assert(self@ =~= old(self)@.union(table@.dom()));
        }
    }

    /// Keeps the members that satisfy `keep`, whose verdict is that of `p`.
    pub(crate) fn retain<F: Fn(&K, &()) -> bool>(
        &mut self,
        keep: F,
        Ghost(p): Ghost<spec_fn(K) -> bool>,
    )
        requires
            forall|k: K, v: ()| #[trigger] call_requires(keep, (&k, &v)),
            forall|k: K, v: (), r: bool| #[trigger]
                call_ensures(keep, (&k, &v), r) ==> r == p(k),
        ensures
            final(self)@ == old(self)@.filter(p),
    {
        self.table.retain(keep, Ghost(|k: K, v: ()| p(k)));
        assert(self@ =~= old(self)@.filter(p));
    }
}

proof fn lemma_key_after_insert<K: Key, V>(
    before: Seq<(K, V)>,
    after: Seq<(K, V)>,
    i: int,
    key: K,
    value: V,
    found: bool,
    k: K,
)
    requires
        0 <= i <= before.len(),
        found ==> i < before.len() && before[i].0 == key && after == before.update(
            i,
            (key, value),
        ),
        !found ==> after == before.insert(i, (key, value)),
    ensures
        has_key(after, k) <==> has_key(before, k) || k == key,
{
    if k == key {
        assert(after[i].0 == k);
    }
    if has_key(before, k) {
        let p = place_of(before, k);
        let q = if found || p < i { p } else { p + 1 };
        assert(after[q].0 == k);
    }
    if has_key(after, k) && k != key {
        let q = place_of(after, k);
        let p = if found || q < i { q } else { q - 1 };
        assert(before[p].0 == k);
    }
}

proof fn lemma_value_after_insert<K: Key, V>(
    before: Seq<(K, V)>,
    after: Seq<(K, V)>,
    i: int,
    key: K,
    value: V,
    found: bool,
    k: K,
)
    requires
        ascending(before),
        ascending(after),
        0 <= i <= before.len(),
        found ==> i < before.len() && before[i].0 == key && after == before.update(
            i,
            (key, value),
        ),
        !found ==> after == before.insert(i, (key, value)),
        has_key(after, k),
    ensures
        listed(after)[k] == listed(before).insert(key, value)[k],
{
    lemma_listed(before);
    lemma_listed(after);
    let q = place_of(after, k);
    if k == key {
        assert(after[i].0 == k);
    } else {
        let p = if found || q < i { q } else { q - 1 };
        assert(before[p] == after[q]);
    }
}

/// The map has as many keys as there are entries.
proof fn lemma_listed_len<K: Key, V>(entries: Seq<(K, V)>)
    requires
        ascending(entries),
    ensures
        listed(entries).dom().finite(),
        listed(entries).len() == entries.len(),
    decreases entries.len(),
{
    lemma_listed(entries);
    if entries.len() == 0 {
        assert(listed(entries).dom() =~= Set::empty());
    } else {
        let front = entries.drop_last();
        assert(ascending(front)) by {
            assert forall|i: int, j: int| 0 <= i < j < front.len() implies (
            #[trigger] front[i]).0.before((#[trigger] front[j]).0) by {
                assert(entries[i].0.before(entries[j].0));
            }
        }
        lemma_listed_len(front);
        lemma_listed(front);
        let last = entries.last().0;
        assert(!has_key(front, last)) by {
            if has_key(front, last) {
                let p = place_of(front, last);
                assert(entries[p].0 == entries[entries.len() - 1].0);
            }
        }
        assert(listed(entries).dom() =~= listed(front).dom().insert(last)) by {
            assert forall|k: K| #[trigger] listed(entries).dom().contains(k) <==> listed(
                front,
            ).dom().insert(last).contains(k) by {
                if has_key(entries, k) {
                    let p = place_of(entries, k);
                    if p < front.len() {
                        assert(front[p].0 == k);
                    }
                }
                if has_key(front, k) {
                    let p = place_of(front, k);
                    assert(entries[p].0 == k);
                }
                assert(listed(entries).contains_key(k) <==> has_key(entries, k));
                assert(listed(front).contains_key(k) <==> has_key(front, k));
                assert(entries[entries.len() - 1].0 == last);
            }
        }
    }
}

} // verus!
