//! Stable sorting by integer keys.
//!
//! The order of a sort is described on the keys alone, as the sequence of
//! positions in which the items are to be taken.

use vstd::prelude::*;

verus! {

/// Where the next position goes into `order`: directly behind the last
/// position whose key is not larger than `key`.
pub open spec fn insertion_point(order: Seq<int>, keys: Seq<int>, key: int) -> int
    decreases order.len(),
{
    if order.len() == 0 {
        0
    } else if keys[order.last()] <= key {
        order.len() as int
    } else {
        insertion_point(order.drop_last(), keys, key)
    }
}

/// The positions `0..keys.len()` arranged by ascending key, positions of
/// equal key in ascending order.
pub open spec fn sort_order(keys: Seq<int>) -> Seq<int>
    decreases keys.len(),
{
    if keys.len() == 0 {
        Seq::empty()
    } else {
        let front = sort_order(keys.drop_last());
        front.insert(insertion_point(front, keys, keys.last()), keys.len() - 1)
    }
}

/// The items taken in the given order.
pub open spec fn arrange<T>(items: Seq<T>, order: Seq<int>) -> Seq<T> {
    Seq::new(order.len(), |i: int| items[order[i]])
}

/// `order` lists every position below `n` exactly once.
pub open spec fn is_permutation(order: Seq<int>, n: int) -> bool {
    &&& order.len() == n
    &&& forall|i: int| 0 <= i < n ==> 0 <= #[trigger] order[i] < n
    &&& forall|i: int, j: int| 0 <= i < j < n ==> #[trigger] order[i] != #[trigger] order[j]
    &&& forall|k: int| 0 <= k < n ==> #[trigger] order.contains(k)
}

/// Keys ascend along `order`.
pub open spec fn ascending(order: Seq<int>, keys: Seq<int>) -> bool {
    forall|i: int, j: int|
        0 <= i <= j < order.len() ==> keys[#[trigger] order[i]] <= keys[#[trigger] order[j]]
}

/// Positions of equal key appear in ascending order.
pub open spec fn stable(order: Seq<int>, keys: Seq<int>) -> bool {
    forall|i: int, j: int|
        0 <= i < j < order.len() && keys[#[trigger] order[i]] == keys[#[trigger] order[j]]
            ==> order[i] < order[j]
}

/// What the insertion point separates: keys behind it are larger, the key
/// directly before it is not.
pub proof fn lemma_insertion_point(order: Seq<int>, keys: Seq<int>, key: int)
    ensures
        0 <= insertion_point(order, keys, key) <= order.len(),
        forall|i: int|
            insertion_point(order, keys, key) <= i < order.len() ==> keys[#[trigger] order[i]]
                > key,
        insertion_point(order, keys, key) > 0 ==> keys[order[insertion_point(order, keys, key)
            - 1]] <= key,
    decreases order.len(),
{
    if order.len() > 0 && keys[order.last()] > key {
        let front = order.drop_last();
        lemma_insertion_point(front, keys, key);
        let p = insertion_point(order, keys, key);
        assert forall|i: int| p <= i < order.len() implies keys[#[trigger] order[i]] > key by {
            if i < front.len() {
                assert(order[i] == front[i]);
            }
        }
        if p > 0 {
            assert(order[p - 1] == front[p - 1]);
        }
    }
}

/// Keys beyond the positions that `order` names do not matter.
pub proof fn lemma_insertion_point_prefix(order: Seq<int>, keys: Seq<int>, more: Seq<int>, key: int)
    requires
        keys.len() <= more.len(),
        forall|i: int| 0 <= i < keys.len() ==> keys[i] == more[i],
        forall|i: int| 0 <= i < order.len() ==> 0 <= #[trigger] order[i] < keys.len(),
    ensures
        insertion_point(order, keys, key) == insertion_point(order, more, key),
    decreases order.len(),
{
    if order.len() > 0 {
        assert(0 <= order[order.len() - 1] < keys.len());
        if keys[order.last()] > key {
            lemma_insertion_point_prefix(order.drop_last(), keys, more, key);
        }
    }
}

/// The sort order is a stable ascending permutation.
#[verifier::spinoff_prover]
pub proof fn lemma_sort_order(keys: Seq<int>)
    ensures
        is_permutation(sort_order(keys), keys.len() as int),
        ascending(sort_order(keys), keys),
        stable(sort_order(keys), keys),
    decreases keys.len(),
{
    let n = keys.len() as int;
    if n > 0 {
        let shorter = keys.drop_last();
        let front = sort_order(shorter);
        lemma_sort_order(shorter);
        let key = keys.last();
        let p = insertion_point(front, keys, key);
        lemma_insertion_point(front, keys, key);
        let order = sort_order(keys);
        assert(order == front.insert(p, n - 1));
        assert forall|i: int| 0 <= i < n implies #[trigger] order[i] == (if i < p {
            front[i]
        } else if i == p {
            n - 1
        } else {
            front[i - 1]
        }) by {}
        assert forall|i: int| 0 <= i < n - 1 implies keys[#[trigger] front[i]] == shorter[front[i]] by {}
        assert forall|i: int| 0 <= i < n implies 0 <= #[trigger] order[i] < n by {
            if i < p {
                assert(0 <= front[i] < n - 1);
            } else if i > p {
                assert(0 <= front[i - 1] < n - 1);
            }
        }
        assert forall|i: int, j: int| 0 <= i < j < n implies #[trigger] order[i]
            != #[trigger] order[j] by {
            let a = if i < p { i } else { i - 1 };
            let b = if j < p { j } else { j - 1 };
            if i != p && j != p {
                assert(front[a] != front[b]);
            } else if i == p {
                assert(0 <= front[b] < n - 1);
            } else {
                assert(0 <= front[a] < n - 1);
            }
        }
        assert forall|k: int| 0 <= k < n implies #[trigger] order.contains(k) by {
            if k == n - 1 {
                assert(order[p] == k);
            } else {
                assert(front.contains(k));
                let i = choose|i: int| 0 <= i < front.len() && front[i] == k;
                if i < p {
                    assert(order[i] == k);
                } else {
                    assert(order[i + 1] == k);
                }
            }
        }
        assert forall|i: int, j: int| 0 <= i <= j < n implies keys[#[trigger] order[i]]
            <= keys[#[trigger] order[j]] by {
            let a = if i < p { i } else { i - 1 };
            let b = if j < p { j } else { j - 1 };
            if i != p && j != p {
                assert(shorter[front[a]] <= shorter[front[b]]);
                assert(keys[front[a]] == shorter[front[a]]);
                assert(keys[front[b]] == shorter[front[b]]);
            } else if i == p && j != p {
                assert(keys[front[b]] > key);
            } else if i != p && j == p {
                assert(shorter[front[a]] <= shorter[front[p - 1]]);
                assert(keys[front[a]] == shorter[front[a]]);
                assert(keys[front[p - 1]] == shorter[front[p - 1]]);
            }
        }
        assert forall|i: int, j: int|
            0 <= i < j < n && keys[#[trigger] order[i]] == keys[#[trigger] order[j]] implies order[i]
            < order[j] by {
            let a = if i < p { i } else { i - 1 };
            let b = if j < p { j } else { j - 1 };
            if i != p && j != p {
                assert(keys[front[a]] == shorter[front[a]]);
                assert(keys[front[b]] == shorter[front[b]]);
                assert(front[a] < front[b]);
            } else if i == p {
                assert(keys[front[b]] > key);
            } else {
                assert(0 <= front[a] < n - 1);
            }
        }
    }
}

/// The keys as integers.
pub open spec fn key_values(keys: Seq<i128>) -> Seq<int> {
    Seq::new(keys.len(), |i: int| keys[i] as int)
}

/// Sorts `items` by the keys given alongside: `keys[i]` is the key of
/// `items[i]`. Items come out by ascending key, items of equal key in their
/// given order.
pub fn sort_by_keys<T>(items: &mut Vec<T>, keys: Vec<i128>)
    requires
        old(items).len() == keys.len(),
    ensures
        final(items)@ == arrange(old(items)@, sort_order(key_values(keys@))),
{
    let mut keys = keys;
    let n = items.len();
    let ghost keys0 = key_values(keys@);
    let ghost order: Seq<int> = Seq::empty();
    let mut i: usize = 0;
    proof {
        assert(keys0.take(0) =~= Seq::<int>::empty());
    }
    while i < n
        invariant
            n == items@.len(),
            n == keys@.len(),
            n == old(items)@.len(),
            n == keys0.len(),
            0 <= i <= n,
            order == sort_order(keys0.take(i as int)),
            order.len() == i,
            forall|k: int| 0 <= k < i ==> 0 <= #[trigger] order[k] < i,
            forall|k: int| 0 <= k < i ==> #[trigger] items@[k] == old(items)@[order[k]],
            forall|k: int| 0 <= k < i ==> #[trigger] keys@[k] == keys0[order[k]],
            forall|k: int| i <= k < n ==> #[trigger] items@[k] == old(items)@[k],
            forall|k: int| i <= k < n ==> #[trigger] keys@[k] == keys0[k],
        decreases n - i,
    {
        let ghost items_before = items@;
        let ghost keys_before = keys@;
        let ghost longer = keys0.take(i as int + 1);
        let item = items.remove(i);
        let key = keys.remove(i);
        let mut j: usize = i;
        proof {
            assert(order.take(i as int) =~= order);
            assert(items_before[i as int] == old(items)@[i as int]);
            assert(longer.drop_last() =~= keys0.take(i as int));
            assert(longer.last() == key);
        }
        while j > 0 && keys[j - 1] > key
            invariant
                0 <= j <= i < n,
                keys@ == keys_before.remove(i as int),
                keys_before.len() == n,
                order.len() == i,
                longer == keys0.take(i as int + 1),
                n == keys0.len(),
                forall|k: int| 0 <= k < i ==> 0 <= #[trigger] order[k] < i,
                forall|k: int| 0 <= k < i ==> #[trigger] keys_before[k] == keys0[order[k]],
                insertion_point(order, longer, key as int) == insertion_point(
                    order.take(j as int),
                    longer,
                    key as int,
                ),
            decreases j,
        {
            proof {
                let shown = order.take(j as int);
                assert(shown.drop_last() =~= order.take(j as int - 1));
                assert(shown.last() == order[j as int - 1]);
                assert(keys@[j as int - 1] == keys_before[j as int - 1]);
                assert(longer[order[j as int - 1]] == keys0[order[j as int - 1]]);
            }
            j = j - 1;
        }
        proof {
            if j > 0 {
                let shown = order.take(j as int);
                assert(shown.last() == order[j as int - 1]);
                assert(keys@[j as int - 1] == keys_before[j as int - 1]);
                assert(longer[order[j as int - 1]] == keys0[order[j as int - 1]]);
            }
            assert(insertion_point(order, longer, key as int) == j);
        }
        items.insert(j, item);
        keys.insert(j, key);
        proof {
            let next = order.insert(j as int, i as int);
            assert(next == sort_order(longer));
            assert forall|k: int| 0 <= k < i + 1 implies 0 <= #[trigger] next[k] < i + 1 by {
                if k < j {
                    assert(next[k] == order[k]);
                } else if k > j {
                    assert(next[k] == order[k - 1]);
                }
            }
            assert forall|k: int| 0 <= k < i + 1 implies #[trigger] items@[k] == old(
                items,
            )@[next[k]] by {
                if k < j {
                    assert(items@[k] == items_before[k]);
                } else if k > j {
                    assert(items@[k] == items_before[k - 1]);
                    assert(next[k] == order[k - 1]);
                }
            }
            assert forall|k: int| 0 <= k < i + 1 implies #[trigger] keys@[k] == keys0[next[k]] by {
                if k < j {
                    assert(keys@[k] == keys_before[k]);
                } else if k > j {
                    assert(keys@[k] == keys_before[k - 1]);
                    assert(next[k] == order[k - 1]);
                }
            }
            assert forall|k: int| i + 1 <= k < n implies #[trigger] items@[k] == old(
                items,
            )@[k] by {
                assert(items@[k] == items_before[k]);
            }
            assert forall|k: int| i + 1 <= k < n implies #[trigger] keys@[k] == keys0[k] by {
                assert(keys@[k] == keys_before[k]);
            }
            order = next;
        }
        i = i + 1;
    }
    proof {
        assert(keys0.take(n as int) =~= keys0);
        assert(items@ =~= arrange(old(items)@, order));
    }
}

/// The key of every item, in order, as `key` gives it.
pub fn keys_of<T, F: Fn(&T) -> i128>(items: &Vec<T>, key: F) -> (keys: Vec<i128>)
    requires
        forall|i: int| 0 <= i < items.len() ==> call_requires(key, (&#[trigger] items@[i],)),
    ensures
        keys@.len() == items@.len(),
        forall|i: int|
            0 <= i < items.len() ==> call_ensures(key, (&items@[i],), #[trigger] keys@[i]),
{
    let mut keys: Vec<i128> = Vec::new();
    let mut i: usize = 0;
    while i < items.len()
        invariant
            0 <= i <= items.len(),
            keys@.len() == i,
            forall|k: int| 0 <= k < items.len() ==> call_requires(key, (&#[trigger] items@[k],)),
            forall|k: int| 0 <= k < i ==> call_ensures(key, (&items@[k],), #[trigger] keys@[k]),
        decreases items.len() - i,
    {
        keys.push(key(&items[i]));
        i = i + 1;
    }
    keys
}

} // verus!
