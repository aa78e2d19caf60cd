//! Stable ordering by key.

use vstd::prelude::*;

verus! {

/// Where a key goes in an order: behind the last place whose key is not greater.
pub open spec fn rank(order: Seq<int>, keys: Seq<int>, key: int) -> int
    decreases order.len(),
{
    if order.len() == 0 {
        0
    } else if keys[order.last()] <= key {
        order.len() as int
    } else {
        rank(order.drop_last(), keys, key)
    }
}

/// The positions of `keys`, in ascending order of key; equal keys keep their order.
pub open spec fn stable_order(keys: Seq<int>) -> Seq<int>
    decreases keys.len(),
{
    if keys.len() == 0 {
        Seq::empty()
    } else {
        let before = stable_order(keys.drop_last());
        before.insert(rank(before, keys, keys.last()), keys.len() - 1)
    }
}

/// The items `s`, in the stable order of the keys that `key` gives them.
pub open spec fn sorted_by<T>(s: Seq<T>, key: spec_fn(T) -> int) -> Seq<T> {
    stable_order(s.map_values(key)).map_values(|i: int| s[i])
}

/// Comes `i` before `j`: by key, then by position.
pub open spec fn precedes(keys: Seq<int>, i: int, j: int) -> bool {
    keys[i] < keys[j] || (keys[i] == keys[j] && i < j)
}

proof fn lemma_rank(order: Seq<int>, keys: Seq<int>, key: int)
    requires
        forall|a: int, b: int| 0 <= a < b < order.len() ==> keys[#[trigger] order[a]] <= keys[#[trigger] order[b]],
    ensures
        0 <= rank(order, keys, key) <= order.len(),
        forall|a: int| 0 <= a < rank(order, keys, key) ==> keys[#[trigger] order[a]] <= key,
        forall|a: int| rank(order, keys, key) <= a < order.len() ==> keys[#[trigger] order[a]] > key,
    decreases order.len(),
{
    if order.len() > 0 {
        if keys[order.last()] > key {
            let sub = order.drop_last();
            assert forall|a: int, b: int| 0 <= a < b < sub.len() implies keys[#[trigger] sub[a]] <= keys[#[trigger] sub[b]] by {
                assert(sub[a] == order[a] && sub[b] == order[b]);
            }
            lemma_rank(sub, keys, key);
            assert forall|a: int| 0 <= a < rank(order, keys, key) implies keys[#[trigger] order[a]] <= key by {
                assert(sub[a] == order[a]);
            }
            assert forall|a: int| rank(order, keys, key) <= a < order.len() implies keys[#[trigger] order[a]] > key by {
                if a < sub.len() {
                    assert(sub[a] == order[a]);
                }
            }
        } else {
            assert forall|a: int| 0 <= a < order.len() implies keys[#[trigger] order[a]] <= key by {
                if a < order.len() - 1 {
                    assert(keys[order[a]] <= keys[order[order.len() - 1]]);
                }
            }
        }
    }
}

proof fn lemma_rank_same_keys(order: Seq<int>, k1: Seq<int>, k2: Seq<int>, key: int)
    requires
        forall|a: int| 0 <= a < order.len() ==> k1[#[trigger] order[a]] == k2[order[a]],
    ensures
        rank(order, k1, key) == rank(order, k2, key),
    decreases order.len(),
{
    if order.len() > 0 {
        let sub = order.drop_last();
        assert(order[order.len() - 1] == order.last());
        assert forall|a: int| 0 <= a < sub.len() implies k1[#[trigger] sub[a]] == k2[sub[a]] by {
            assert(sub[a] == order[a]);
        }
        lemma_rank_same_keys(sub, k1, k2, key);
    }
}

/// A stable order lists every position once, ascending by key and, among equal keys, by position.
pub proof fn lemma_stable_order(keys: Seq<int>)
    ensures
        stable_order(keys).len() == keys.len(),
        forall|a: int| 0 <= a < keys.len() ==> 0 <= #[trigger] stable_order(keys)[a] < keys.len(),
        forall|a: int, b: int|
            0 <= a < b < keys.len() ==> precedes(keys, #[trigger] stable_order(keys)[a], #[trigger] stable_order(keys)[b]),
        forall|i: int| 0 <= i < keys.len() ==> stable_order(keys).contains(i),
    decreases keys.len(),
{
    if keys.len() > 0 {
        let n = keys.len() as int;
        let sub = keys.drop_last();
        lemma_stable_order(sub);
        let t = stable_order(sub);
        assert forall|a: int, b: int| 0 <= a < b < t.len() implies keys[#[trigger] t[a]] <= keys[#[trigger] t[b]] by {
            assert(precedes(sub, t[a], t[b]));
        }
        lemma_rank(t, keys, keys.last());
        let k = rank(t, keys, keys.last());
        let o = stable_order(keys);
        t.insert_ensures(k, n - 1);
        assert forall|a: int| 0 <= a < n implies 0 <= #[trigger] o[a] < n by {
            if a < k {
                assert(o[a] == t[a]);
            } else if a > k {
                assert(o[a] == t[a - 1]);
            }
        }
        assert forall|a: int, b: int| 0 <= a < b < n implies precedes(keys, #[trigger] o[a], #[trigger] o[b]) by {
            let ta = if a < k {
                a
            } else {
                a - 1
            };
            let tb = if b < k {
                b
            } else {
                b - 1
            };
            if a != k && b != k {
                assert(o[a] == t[ta] && o[b] == t[tb]);
                assert(precedes(sub, t[ta], t[tb]));
            } else if a == k {
                assert(o[b] == t[tb]);
            } else {
                assert(o[a] == t[ta]);
            }
        }
        assert forall|i: int| 0 <= i < n implies o.contains(i) by {
            if i == n - 1 {
                assert(o[k] == i);
            } else {
                assert(t.contains(i));
                let a = choose|a: int| 0 <= a < t.len() && t[a] == i;
                if a < k {
                    assert(o[a] == i);
                } else {
                    assert(o[a + 1] == i);
                }
            }
        }
    }
}

proof fn lemma_rank_shift(order: Seq<int>, k1: Seq<int>, k2: Seq<int>, key: int, by: int)
    requires
        forall|a: int| 0 <= a < order.len() ==> k2[#[trigger] order[a]] == k1[order[a]] + by,
    ensures
        rank(order, k2, key + by) == rank(order, k1, key),
    decreases order.len(),
{
    if order.len() > 0 {
        let sub = order.drop_last();
        assert(order[order.len() - 1] == order.last());
        assert forall|a: int| 0 <= a < sub.len() implies k2[#[trigger] sub[a]] == k1[sub[a]] + by by {
            assert(sub[a] == order[a]);
        }
        lemma_rank_shift(sub, k1, k2, key, by);
    }
}

/// Adding the same number to every key does not change the order.
pub proof fn lemma_order_shift(keys: Seq<int>, by: int)
    ensures
        stable_order(keys.map_values(|k: int| k + by)) == stable_order(keys),
    decreases keys.len(),
{
    let moved = keys.map_values(|k: int| k + by);
    if keys.len() > 0 {
        lemma_order_shift(keys.drop_last(), by);
        assert(moved.drop_last() =~= keys.drop_last().map_values(|k: int| k + by));
        let before = stable_order(keys.drop_last());
        lemma_stable_order(keys.drop_last());
        assert forall|a: int| 0 <= a < before.len() implies moved[#[trigger] before[a]] == keys[before[a]] + by by {
            assert(0 <= before[a] < keys.len());
        }
        lemma_rank_shift(before, keys, moved, keys.last(), by);
    }
}

/// Orders the positions of `keys`, stably.
pub fn order_by(keys: &Vec<u128>) -> (order: Vec<usize>)
    ensures
        order@.map_values(|i: usize| i as int) == stable_order(keys@.map_values(|k: u128| k as int)),
        order.len() == keys.len(),
        forall|a: int| 0 <= a < order.len() ==> (#[trigger] order@[a]) < keys.len(),
{
    let ghost f = |i: usize| i as int;
    let ghost kf = |k: u128| k as int;
    let ghost all = keys@.map_values(kf);
    let mut order: Vec<usize> = Vec::new();
    let mut n: usize = 0;
    proof {
        assert(all.take(0) =~= Seq::<int>::empty());
        assert(order@.map_values(f) =~= Seq::<int>::empty());
    }
    while n < keys.len()
        invariant
            n <= keys.len(),
            f == (|i: usize| i as int),
            kf == (|k: u128| k as int),
            all == keys@.map_values(kf),
            order@.map_values(f) == stable_order(all.take(n as int)),
            order.len() == n,
            forall|a: int| 0 <= a < n ==> (#[trigger] order@[a]) < n,
        decreases keys.len() - n,
    {
        let key: u128 = keys[n];
        let ghost now = order@.map_values(f);
        let mut k: usize = n;
        assert(now.take(n as int) =~= now);
        while k > 0 && keys[order[k - 1]] > key
            invariant
                k <= n < keys.len(),
                f == (|i: usize| i as int),
                kf == (|k: u128| k as int),
                all == keys@.map_values(kf),
                now == order@.map_values(f),
                order.len() == n,
                key == keys@[n as int],
                forall|a: int| 0 <= a < n ==> (#[trigger] order@[a]) < n,
                rank(now.take(k as int), all, key as int) == rank(now, all, key as int),
            decreases k,
        {
            proof {
                assert(now.take(k as int).drop_last() =~= now.take(k - 1));
                assert(now.take(k as int).last() == order@[k - 1]);
            }
            k = k - 1;
        }
        proof {
            if k > 0 {
                assert(now.take(k as int).last() == order@[k - 1]);
            }
            assert(rank(now, all, key as int) == k);
            let upto = all.take(n + 1);
            assert(upto.drop_last() =~= all.take(n as int));
            assert(upto.last() == key);
            assert forall|a: int| 0 <= a < now.len() implies all[#[trigger] now[a]] == upto[now[a]] by {
                assert(now[a] == order@[a]);
            }
            lemma_rank_same_keys(now, all, upto, key as int);
        }
        let ghost order0 = order@;
        order.insert(k, n);
        proof {
            assert(order@.map_values(f) =~= now.insert(k as int, n as int));
            assert forall|a: int| 0 <= a < n + 1 implies (#[trigger] order@[a]) < n + 1 by {
                if a < k {
                    assert(order@[a] == order0[a]);
                } else if a > k {
                    assert(order@[a] == order0[a - 1]);
                }
            }
        }
        n = n + 1;
    }
    proof {
        assert(all.take(n as int) =~= all);
    }
    order
}

/// Sorting keeps exactly the items there are and puts them in ascending order of key.
pub proof fn lemma_sorted_by<T>(s: Seq<T>, key: spec_fn(T) -> int)
    ensures
        sorted_by(s, key).len() == s.len(),
        forall|a: int, b: int|
            0 <= a < b < s.len() ==> key(#[trigger] sorted_by(s, key)[a]) <= key(#[trigger] sorted_by(s, key)[b]),
        forall|x: T| sorted_by(s, key).contains(x) <==> s.contains(x),
{
    let keys = s.map_values(key);
    let o = stable_order(keys);
    let t = sorted_by(s, key);
    lemma_stable_order(keys);
    assert forall|a: int, b: int| 0 <= a < b < s.len() implies key(#[trigger] t[a]) <= key(#[trigger] t[b]) by {
        assert(precedes(keys, o[a], o[b]));
    }
    assert forall|x: T| t.contains(x) <==> s.contains(x) by {
        if t.contains(x) {
            let a = choose|a: int| 0 <= a < t.len() && t[a] == x;
            assert(s[o[a]] == x);
        }
        if s.contains(x) {
            let i = choose|i: int| 0 <= i < s.len() && s[i] == x;
            assert(o.contains(i));
            let a = choose|a: int| 0 <= a < o.len() && o[a] == i;
            assert(t[a] == x);
        }
    }
}

/// A filtered list holds exactly the items that pass.
pub proof fn lemma_filter_member<T>(s: Seq<T>, keep: spec_fn(T) -> bool, x: T)
    ensures
        s.filter(keep).contains(x) <==> s.contains(x) && keep(x),
    decreases s.len(),
{
    reveal(Seq::filter);
    let t = s.filter(keep);
    if s.len() > 0 {
        let r = s.drop_last();
        lemma_filter_member(r, keep, x);
        let u = r.filter(keep);
        if t.contains(x) {
            let i = choose|i: int| 0 <= i < t.len() && t[i] == x;
            if i < u.len() {
                assert(u[i] == x);
                assert(r.contains(x));
                let k = choose|k: int| 0 <= k < r.len() && r[k] == x;
                assert(s[k] == x);
            } else {
                assert(s[s.len() - 1] == x);
            }
        }
        if s.contains(x) && keep(x) {
            let k = choose|k: int| 0 <= k < s.len() && s[k] == x;
            if k < r.len() {
                assert(r[k] == x);
                assert(u.contains(x));
                let i = choose|i: int| 0 <= i < u.len() && u[i] == x;
                assert(t[i] == x);
            } else {
                assert(t[t.len() - 1] == x);
            }
        }
    }
}

} // verus!
