//! A stable sort by an integer key.
use vstd::prelude::*;

verus! {

/// The keys of `s` never fall.
pub open spec fn rising<T>(s: Seq<T>, key: spec_fn(T) -> u64) -> bool {
    forall|i: int, j: int| 0 <= i < j < s.len() ==> key(#[trigger] s[i]) <= key(#[trigger] s[j])
}

/// The elements of `s` with the key `k`, in their order.
pub open spec fn with_key<T>(s: Seq<T>, key: spec_fn(T) -> u64, k: u64) -> Seq<T> {
    s.filter(|x: T| key(x) == k)
}

/// `sorted` holds the elements of `s`, its keys never fall, and elements with one key keep their
/// order. No other sequence does.
pub open spec fn stably_sorted<T>(s: Seq<T>, sorted: Seq<T>, key: spec_fn(T) -> u64) -> bool {
    &&& rising(sorted, key)
    &&& sorted.to_multiset() == s.to_multiset()
    &&& forall|k: u64| #[trigger] with_key(sorted, key, k) == with_key(s, key, k)
}

/// `s` sorted by `key`, with elements of one key in their order.
pub open spec fn stable_sort<T>(s: Seq<T>, key: spec_fn(T) -> u64) -> Seq<T> {
    choose|sorted: Seq<T>| stably_sorted(s, sorted, key)
}

/// A sequence is stably sorted in one way only.
pub proof fn stable_sort_is_unique<T>(s: Seq<T>, sorted: Seq<T>, key: spec_fn(T) -> u64)
    requires
        stably_sorted(s, sorted, key),
    ensures
        sorted == stable_sort(s, key),
{
    lemma_unique(sorted, stable_sort(s, key), key);
}

proof fn lemma_unique<T>(a: Seq<T>, b: Seq<T>, key: spec_fn(T) -> u64)
    requires
        rising(a, key),
        rising(b, key),
        a.to_multiset() == b.to_multiset(),
        forall|k: u64| #[trigger] with_key(a, key, k) == with_key(b, key, k),
    ensures
        a == b,
    decreases a.len(),
{
    broadcast use vstd::seq_lib::group_to_multiset_ensures;
    assert(a.len() == a.to_multiset().len());
    assert(b.len() == b.to_multiset().len());
    if a.len() == 0 {
        assert(a =~= b);
    } else {
        let x = a.last();
        let y = b.last();
        assert(b.contains(x)) by {
            assert(a[a.len() - 1] == x);
            assert(a.to_multiset().count(x) > 0);
        }
        assert(a.contains(y)) by {
            assert(b[b.len() - 1] == y);
            assert(b.to_multiset().count(y) > 0);
        }
        let i = choose|i: int| 0 <= i < b.len() && b[i] == x;
        let j = choose|j: int| 0 <= j < a.len() && a[j] == y;
        assert(key(b[i]) <= key(y));
        assert(key(a[j]) <= key(x));
        let k = key(x);
        assert(with_key(a, key, k) == with_key(b, key, k));
        reveal(Seq::filter);
        assert(with_key(a, key, k) == with_key(a.drop_last(), key, k).push(x));
        assert(with_key(b, key, k) == with_key(b.drop_last(), key, k).push(y));
        assert(with_key(a, key, k).last() == x);
        assert(with_key(b, key, k).last() == y);
        assert forall|q: u64| #[trigger]
            with_key(a.drop_last(), key, q) == with_key(b.drop_last(), key, q) by {
            assert(with_key(a, key, q) == with_key(b, key, q));
            if q == k {
                assert(with_key(a.drop_last(), key, q) =~= with_key(a, key, q).drop_last());
                assert(with_key(b.drop_last(), key, q) =~= with_key(b, key, q).drop_last());
            }
        }
        assert(a =~= a.drop_last().push(x));
        assert(b =~= b.drop_last().push(y));
        assert(a.drop_last().to_multiset() =~= a.to_multiset().remove(x));
        assert(b.drop_last().to_multiset() =~= b.to_multiset().remove(y));
        lemma_unique(a.drop_last(), b.drop_last(), key);
    }
}

/// A sorted sequence has the length and the elements of what was sorted.
pub(crate) proof fn lemma_stably_sorted<T>(s: Seq<T>, sorted: Seq<T>, key: spec_fn(T) -> u64)
    requires
        stably_sorted(s, sorted, key),
    ensures
        s.len() == sorted.len(),
        forall|x: T| #[trigger] sorted.contains(x) <==> s.contains(x),
        s.no_duplicates() ==> sorted.no_duplicates(),
{
    broadcast use vstd::seq_lib::group_to_multiset_ensures;
    assert(s.to_multiset().len() == s.len());
    assert(sorted.to_multiset().len() == sorted.len());
    assert forall|x: T| #[trigger] sorted.contains(x) <==> s.contains(x) by {
        assert(sorted.contains(x) <==> sorted.to_multiset().count(x) > 0);
        assert(s.contains(x) <==> s.to_multiset().count(x) > 0);
    }
    if s.no_duplicates() {
        s.lemma_multiset_has_no_duplicates();
        sorted.lemma_multiset_has_no_duplicates_conv();
    }
}

/// Putting `x` behind every element whose key is not greater puts it last among those with its key.
proof fn lemma_place<T>(s: Seq<T>, i: int, x: T, key: spec_fn(T) -> u64)
    requires
        rising(s, key),
        0 <= i <= s.len(),
        forall|j: int| 0 <= j < i ==> key(#[trigger] s[j]) <= key(x),
        forall|j: int| i <= j < s.len() ==> key(#[trigger] s[j]) > key(x),
    ensures
        rising(s.insert(i, x), key),
        s.insert(i, x).to_multiset() == s.push(x).to_multiset(),
        forall|k: u64| #[trigger]
            with_key(s.insert(i, x), key, k) == with_key(s.push(x), key, k),
{
    let t = s.insert(i, x);
    let front = s.take(i);
    let back = s.skip(i);
    assert(t =~= front + seq![x] + back);
    assert(s =~= front + back);
    assert(s.push(x) =~= front + back + seq![x]);
    assert(t.to_multiset() == s.push(x).to_multiset()) by {
        broadcast use vstd::multiset::group_multiset_axioms;
        vstd::seq_lib::lemma_multiset_commutative(front + seq![x], back);
        vstd::seq_lib::lemma_multiset_commutative(front, seq![x]);
        vstd::seq_lib::lemma_multiset_commutative(front + back, seq![x]);
        vstd::seq_lib::lemma_multiset_commutative(front, back);
        assert(t.to_multiset() =~= s.push(x).to_multiset());
    }
    assert forall|k: u64| #[trigger] with_key(t, key, k) == with_key(s.push(x), key, k) by {
        let p = |y: T| key(y) == k;
        Seq::<T>::filter_distributes_over_add(front + seq![x], back, p);
        Seq::<T>::filter_distributes_over_add(front, seq![x], p);
        Seq::<T>::filter_distributes_over_add(front + back, seq![x], p);
        Seq::<T>::filter_distributes_over_add(front, back, p);
        if key(x) == k {
            lemma_filter_none(back, p);
            assert(t.filter(p) =~= s.push(x).filter(p));
        } else {
            lemma_filter_none(seq![x], p);
            assert(t.filter(p) =~= s.push(x).filter(p));
        }
    }
}

proof fn lemma_filter_none<T>(s: Seq<T>, p: spec_fn(T) -> bool)
    requires
        forall|i: int| 0 <= i < s.len() ==> !p(#[trigger] s[i]),
    ensures
        s.filter(p) == Seq::<T>::empty(),
    decreases s.len(),
{
    reveal(Seq::filter);
    if s.len() > 0 {
        lemma_filter_none(s.drop_last(), p);
    }
}

/// The place behind every element of `s` whose key is not greater than `k`.
proof fn lemma_find_place<T>(s: Seq<T>, k: u64, key: spec_fn(T) -> u64) -> (i: int)
    requires
        rising(s, key),
    ensures
        0 <= i <= s.len(),
        forall|j: int| 0 <= j < i ==> key(#[trigger] s[j]) <= k,
        forall|j: int| i <= j < s.len() ==> key(#[trigger] s[j]) > k,
    decreases s.len(),
{
    if s.len() == 0 {
        0
    } else if key(s.last()) <= k {
        assert(forall|j: int| 0 <= j < s.len() - 1 ==> key(#[trigger] s[j]) <= key(s.last()));
        s.len() as int
    } else {
        let i = lemma_find_place(s.drop_last(), k, key);
        assert forall|j: int| 0 <= j < i implies key(#[trigger] s[j]) <= k by {
            assert(s.drop_last()[j] == s[j]);
        }
        assert forall|j: int| i <= j < s.len() implies key(#[trigger] s[j]) > k by {
            if j < s.len() - 1 {
                assert(s.drop_last()[j] == s[j]);
            }
        }
        i
    }
}

/// Every sequence can be stably sorted.
pub proof fn stable_sort_exists<T>(s: Seq<T>, key: spec_fn(T) -> u64)
    ensures
        stably_sorted(s, stable_sort(s, key), key),
    decreases s.len(),
{
    if s.len() == 0 {
        assert(stably_sorted(s, s, key));
    } else {
        let seen = s.drop_last();
        let x = s.last();
        stable_sort_exists(seen, key);
        let before = stable_sort(seen, key);
        let i = lemma_find_place(before, key(x), key);
        lemma_place(before, i, x, key);
        lemma_push_sorted(seen, before, x, key);
        assert(s =~= seen.push(x));
        assert(stably_sorted(s, before.insert(i, x), key));
    }
}

/// What holds of `before` and `seen` still holds once both have grown by `x`.
proof fn lemma_push_sorted<T>(seen: Seq<T>, before: Seq<T>, x: T, key: spec_fn(T) -> u64)
    requires
        stably_sorted(seen, before, key),
    ensures
        seen.push(x).to_multiset() == before.push(x).to_multiset(),
        forall|k: u64| #[trigger]
            with_key(before.push(x), key, k) == with_key(seen.push(x), key, k),
{
    broadcast use vstd::seq_lib::group_to_multiset_ensures;
    assert(seen.push(x).to_multiset() =~= before.push(x).to_multiset());
    assert forall|k: u64| #[trigger]
        with_key(before.push(x), key, k) == with_key(seen.push(x), key, k) by {
        assert(with_key(before, key, k) == with_key(seen, key, k));
        reveal(Seq::filter);
        assert(before.push(x).drop_last() =~= before);
        assert(seen.push(x).drop_last() =~= seen);
    }
}

/// Sorts `items` by what `by` computes, which is `key`. Elements with one key keep their order.
pub(crate) fn sort_by_key<T, F: Fn(&T) -> u64>(
    items: Vec<T>,
    by: F,
    Ghost(key): Ghost<spec_fn(T) -> u64>,
) -> (sorted: Vec<T>)
    requires
        forall|x: T| #[trigger] call_requires(by, (&x,)),
        forall|x: T, k: u64| #[trigger] call_ensures(by, (&x,), k) ==> k == key(x),
    ensures
        stably_sorted(items@, sorted@, key),
        sorted@ == stable_sort(items@, key),
{
    let ghost all = items@;
    let mut sorted: Vec<T> = Vec::new();
    proof {
        assert(all.take(0) =~= sorted@);
    }
    for x in iter: items
        invariant
            iter.seq() == all,
            forall|x: T| #[trigger] call_requires(by, (&x,)),
            forall|x: T, k: u64| #[trigger] call_ensures(by, (&x,), k) ==> k == key(x),
            stably_sorted(all.take(iter.index() as int), sorted@, key),
    {
        let ghost n = iter.index() as int;
        let ghost before = sorted@;
        let k: u64 = by(&x);
        let mut i: usize = sorted.len();
        while i > 0 && by(&sorted[i - 1]) > k
            invariant
                forall|x: T| #[trigger] call_requires(by, (&x,)),
                forall|x: T, k: u64| #[trigger] call_ensures(by, (&x,), k) ==> k == key(x),
                rising(sorted@, key),
                i <= sorted@.len(),
                forall|j: int| i <= j < sorted@.len() ==> key(#[trigger] sorted@[j]) > k,
            decreases i,
        {
            i -= 1;
        }
        proof {
            lemma_place(before, i as int, x, key);
            let seen = all.take(n);
            assert(all.take(n + 1) =~= seen.push(x));
            lemma_push_sorted(seen, before, x, key);
        }
        sorted.insert(i, x);
    }
    proof {
        assert(all.take(all.len() as int) =~= all);
        stable_sort_is_unique(all, sorted@, key);
    }
    sorted
}

} // verus!
