//! Stable ordering by a descending key, as `sort_by_key` with
//! `Reverse(key)` orders: larger keys first, ties in their original order.

use vstd::prelude::*;

verus! {

/// Where an index with key `k` goes in `order`: before the first index
/// whose key is smaller than `k`, after all the others.
pub open spec fn insert_at(keys: Seq<u128>, order: Seq<usize>, k: u128) -> int
    decreases order.len(),
{
    if order.len() == 0 {
        0
    } else if keys[order[0] as int] < k {
        0
    } else {
        1 + insert_at(keys, order.drop_first(), k)
    }
}

/// The indices `0..n` ordered by descending key, ties in index order.
pub open spec fn desc_order(keys: Seq<u128>, n: int) -> Seq<usize>
    decreases n,
{
    if n <= 0 {
        Seq::empty()
    } else {
        let o = desc_order(keys, n - 1);
        o.insert(insert_at(keys, o, keys[n - 1]), (n - 1) as usize)
    }
}

/// Keys never increase along `order`.
pub open spec fn is_desc(keys: Seq<u128>, order: Seq<usize>) -> bool {
    forall|a: int, b: int|
        0 <= a < b < order.len() ==> keys[#[trigger] order[a] as int] >= keys[#[trigger] order[b] as int]
}

proof fn lemma_insert_at_bounds(keys: Seq<u128>, order: Seq<usize>, k: u128)
    ensures
        0 <= insert_at(keys, order, k) <= order.len(),
        forall|a: int| 0 <= a < insert_at(keys, order, k) ==> keys[#[trigger] order[a] as int] >= k,
        insert_at(keys, order, k) < order.len() ==> keys[order[insert_at(keys, order, k)] as int]
            < k,
    decreases order.len(),
{
    if order.len() > 0 && keys[order[0] as int] >= k {
        lemma_insert_at_bounds(keys, order.drop_first(), k);
        assert forall|a: int| 0 <= a < insert_at(keys, order, k) implies keys[#[trigger] order[a] as int] >= k by {
            if a > 0 {
                assert(order[a] == order.drop_first()[a - 1]);
            }
        }
    }
}

/// Indices with equal keys keep their order along `order`.
pub open spec fn is_stable(keys: Seq<u128>, order: Seq<usize>) -> bool {
    forall|a: int, b: int|
        0 <= a < b < order.len() && keys[#[trigger] order[a] as int] == keys[#[trigger] order[b] as int]
            ==> order[a] < order[b]
}

/// The ordering is descending, keeps equal keys in index order, and holds
/// each index of `0..n` once.
pub proof fn desc_order_sorted_permutation(keys: Seq<u128>, n: int)
    requires
        0 <= n <= keys.len(),
        keys.len() <= usize::MAX,
    ensures
        desc_order(keys, n).len() == n,
        is_desc(keys, desc_order(keys, n)),
        is_stable(keys, desc_order(keys, n)),
        desc_order(keys, n).no_duplicates(),
        forall|i: usize| i < n ==> #[trigger] desc_order(keys, n).contains(i),
        forall|a: int| 0 <= a < n ==> #[trigger] desc_order(keys, n)[a] < n,
    decreases n,
{
    if n > 0 {
        desc_order_sorted_permutation(keys, n - 1);
        let o = desc_order(keys, n - 1);
        let k = keys[n - 1];
        let p = insert_at(keys, o, k);
        lemma_insert_at_bounds(keys, o, k);
        let r = o.insert(p, (n - 1) as usize);
        assert forall|a: int| 0 <= a < r.len() implies #[trigger] r[a] == if a < p {
            o[a]
        } else if a == p {
            (n - 1) as usize
        } else {
            o[a - 1]
        } by {}
        assert forall|a: int, b: int| 0 <= a < b < r.len() implies keys[#[trigger] r[a] as int]
            >= keys[#[trigger] r[b] as int] by {
            if b < p {
                assert(keys[o[a] as int] >= keys[o[b] as int]);
            } else if b == p {
                assert(keys[o[a] as int] >= k);
            } else if a < p {
                assert(keys[o[a] as int] >= keys[o[p] as int]);
                assert(keys[o[p] as int] < k);
                if b - 1 > p {
                    assert(keys[o[p] as int] >= keys[o[b - 1] as int]);
                }
            } else if a == p {
                assert(keys[o[p] as int] < k);
                if b - 1 > p {
                    assert(keys[o[p] as int] >= keys[o[b - 1] as int]);
                }
            } else {
                assert(keys[o[a - 1] as int] >= keys[o[b - 1] as int]);
            }
        }
        assert forall|a: int, b: int|
            0 <= a < b < r.len() && keys[#[trigger] r[a] as int] == keys[#[trigger] r[b] as int]
            implies r[a] < r[b] by {
            if b < p {
                assert(o[a] < o[b]);
            } else if b == p {
                assert(o[a] < n - 1);
            } else if a < p {
                assert(keys[o[a] as int] >= keys[o[p] as int]);
                assert(keys[o[p] as int] < k);
                if b - 1 > p {
                    assert(keys[o[p] as int] >= keys[o[b - 1] as int]);
                }
                assert(false);
            } else if a == p {
                assert(keys[o[p] as int] < k);
                if b - 1 > p {
                    assert(keys[o[p] as int] >= keys[o[b - 1] as int]);
                }
                assert(false);
            } else {
                assert(o[a - 1] < o[b - 1]);
            }
        }
        assert forall|a: int, b: int| 0 <= a < b < r.len() implies r[a] != r[b] by {
            if a != p && b != p {
                let a2 = if a < p { a } else { a - 1 };
                let b2 = if b < p { b } else { b - 1 };
                assert(o[a2] != o[b2]);
            } else if a == p {
                assert(o[b - 1] < n - 1);
            } else {
                let a2 = if a < p { a } else { a - 1 };
                assert(o[a2] < n - 1);
            }
        }
        assert forall|i: usize| i < n implies #[trigger] r.contains(i) by {
            if i == n - 1 {
                assert(r[p] == (n - 1) as usize);
            } else {
                assert(o.contains(i));
                let j = choose|j: int| 0 <= j < o.len() && o[j] == i;
                if j < p {
                    assert(r[j] == o[j]);
                } else {
                    assert(r[j + 1] == o[j]);
                }
            }
        }
        assert forall|a: int| 0 <= a < n implies #[trigger] r[a] < n by {
            if a < p {
                assert(r[a] == o[a]);
            } else if a > p {
                assert(r[a] == o[a - 1]);
            }
        }
    }
}

/// The indices `0..keys.len()` ordered by descending key, ties in index
/// order.
pub fn order_desc(keys: &Vec<u128>) -> (r: Vec<usize>)
    ensures
        r@ == desc_order(keys@, keys.len() as int),
{
    let mut order: Vec<usize> = Vec::new();
    let mut i: usize = 0;
    while i < keys.len()
        invariant
            i <= keys.len(),
            order@ == desc_order(keys@, i as int),
        decreases keys.len() - i,
    {
        proof {
            desc_order_sorted_permutation(keys@, i as int);
            lemma_insert_at_bounds(keys@, order@, keys@[i as int]);
        }
        let k = keys[i];
        let mut p: usize = 0;
        assert(order@.skip(0) =~= order@);
        while p < order.len() && keys[order[p]] >= k
            invariant
                p <= order.len(),
                order@ == desc_order(keys@, i as int),
                forall|a: int| 0 <= a < order.len() ==> #[trigger] order@[a] < i,
                insert_at(keys@, order@, k) == p + insert_at(keys@, order@.skip(p as int), k),
            decreases order.len() - p,
        {
            assert(order@.skip(p as int).drop_first() =~= order@.skip(p + 1));
            p = p + 1;
        }
        proof {
            if p < order.len() {
                assert(order@.skip(p as int)[0] == order@[p as int]);
            }
        }
        order.insert(p, i);
        i = i + 1;
    }
    order
}

/// The elements of `v` whose indices `order` lists, in that order.
pub fn permute<T>(v: Vec<T>, order: &Vec<usize>) -> (r: Vec<T>)
    requires
        order@.no_duplicates(),
        forall|a: int| 0 <= a < order.len() ==> #[trigger] order@[a] < v.len(),
    ensures
        r@ == order@.map_values(|i: usize| v@[i as int]),
{
    let ghost orig = v@;
    let mut slots: Vec<Option<T>> = Vec::new();
    let mut v = v;
    let n = v.len();
    // move every element into a slot, keeping positions
    let mut rev: Vec<T> = Vec::new();
    while v.len() > 0
        invariant
            v.len() + rev.len() == n,
            orig.len() == n,
            forall|a: int| 0 <= a < v.len() ==> #[trigger] v@[a] == orig[a],
            forall|a: int| 0 <= a < rev.len() ==> #[trigger] rev@[a] == orig[n - 1 - a],
        decreases v.len(),
    {
        let x = v.pop().unwrap();
        rev.push(x);
    }
    while rev.len() > 0
        invariant
            rev.len() + slots.len() == n,
            orig.len() == n,
            forall|a: int| 0 <= a < rev.len() ==> #[trigger] rev@[a] == orig[n - 1 - a],
            forall|a: int| 0 <= a < slots.len() ==> #[trigger] slots@[a] == Some(orig[a]),
        decreases rev.len(),
    {
        let x = rev.pop().unwrap();
        slots.push(Some(x));
    }
    let mut r: Vec<T> = Vec::new();
    let mut k: usize = 0;
    while k < order.len()
        invariant
            k <= order.len(),
            slots.len() == n,
            orig.len() == n,
            order@.no_duplicates(),
            forall|a: int| 0 <= a < order.len() ==> #[trigger] order@[a] < n,
            r@ == order@.take(k as int).map_values(|i: usize| orig[i as int]),
            forall|a: int|
                0 <= a < n ==> #[trigger] slots@[a] == if order@.take(k as int).contains(a as usize) {
                    None
                } else {
                    Some(orig[a])
                },
        decreases order.len() - k,
    {
        let i = order[k];
        let mut tmp: Option<T> = None;
        let ghost before = slots@;
        std::mem::swap(&mut tmp, &mut slots[i]);
        assert(slots@ == before.update(i as int, None));
        assert(tmp == before[i as int]);
        proof {
            assert(!order@.take(k as int).contains(i)) by {
                if order@.take(k as int).contains(i) {
                    let j = choose|j: int| 0 <= j < k && #[trigger] order@.take(k as int)[j] == i;
                    assert(order@[j] == order@[k as int]);
                }
            }
            assert(order@.take(k + 1) =~= order@.take(k as int).push(i));
            assert forall|a: int| 0 <= a < n implies #[trigger] slots@[a] == if order@.take(
                k + 1,
            ).contains(a as usize) {
                None
            } else {
                Some(orig[a])
            } by {
                if a == i {
                    assert(order@.take(k + 1)[k as int] == i);
                } else {
                    if order@.take(k as int).contains(a as usize) {
                        let j = choose|j: int|
                            0 <= j < k && #[trigger] order@.take(k as int)[j] == a as usize;
                        assert(order@.take(k + 1)[j] == a as usize);
                    }
                    if order@.take(k + 1).contains(a as usize) {
                        let j = choose|j: int|
                            0 <= j < k + 1 && #[trigger] order@.take(k + 1)[j] == a as usize;
                        assert(order@.take(k as int)[j] == a as usize);
                    }
                }
            }
        }
        match tmp {
            Some(x) => {
                r.push(x);
            },
            None => {},
        }
        assert(r@ =~= order@.take(k + 1).map_values(|i: usize| orig[i as int]));
        k = k + 1;
    }
    assert(order@.take(order.len() as int) =~= order@);
    r
}

} // verus!
