//! The order of canonical encoding: sort keys compared by length, then byte
//! by byte, and the stable sort of places by their keys.

use crate::decoder::chunk_views;
use crate::emit::bytes_le;
use crate::emit::key_le;
use crate::emit::placed;
use crate::emit::sorted_order;
use crate::encoder::places;
use vstd::prelude::*;

verus! {

/// Whether byte string `a` comes before `b` or is `b`, byte by byte.
pub fn bytes_before(a: &Vec<u8>, b: &Vec<u8>) -> (r: bool)
    ensures
        r == bytes_le(a@, b@),
{
    let mut i: usize = 0;
    proof {
        assert(a@.skip(0) =~= a@);
        assert(b@.skip(0) =~= b@);
    }
    while i < a.len() && i < b.len()
        invariant
            i <= a.len(),
            i <= b.len(),
            bytes_le(a@.skip(i as int), b@.skip(i as int)) == bytes_le(a@, b@),
        decreases a.len() - i,
    {
        proof {
            assert(a@.skip(i as int).drop_first() =~= a@.skip(i + 1));
            assert(b@.skip(i as int).drop_first() =~= b@.skip(i + 1));
        }
        if a[i] != b[i] {
            return a[i] < b[i];
        }
        i += 1;
    }
    i >= a.len()
}

/// Whether key `a` is sorted before key `b` or is `b`: the shorter first,
/// and of two of one length the one that comes first byte by byte.
pub fn key_before(a: &Vec<u8>, b: &Vec<u8>) -> (r: bool)
    ensures
        r == key_le(a@, b@),
{
    a.len() < b.len() || (a.len() == b.len() && bytes_before(a, b))
}

/// The places of the keys sorted by the keys; places with the same key
/// stay in their order.
pub fn sort_order(keys: &Vec<Vec<u8>>) -> (order: Vec<usize>)
    ensures
        places(order@) == sorted_order(chunk_views(keys@), keys@.len()),
        order@.len() == keys@.len(),
        forall|j: int| 0 <= j < order@.len() ==> order@[j] < keys@.len(),
{
    let ghost views = chunk_views(keys@);
    let mut order: Vec<usize> = Vec::new();
    let mut n: usize = 0;
    proof {
        assert(places(order@) =~= Seq::<int>::empty());
    }
    while n < keys.len()
        invariant
            n <= keys.len(),
            views == chunk_views(keys@),
            order@.len() == n,
            forall|j: int| 0 <= j < order@.len() ==> order@[j] < n,
            places(order@) == sorted_order(views, n as nat),
        decreases keys.len() - n,
    {
        // Move the places with a larger key one up, from the back, until
        // the place for `n` is free.
        let ghost sorted = places(order@);
        order.push(n);
        let mut k: usize = n;
        proof {
            assert(places(order@).take(k as int) =~= sorted);
            assert(places(order@).skip(k + 1) =~= Seq::<int>::empty());
            assert(sorted.skip(k as int) =~= Seq::<int>::empty());
            assert(placed(sorted.take(k as int), views, n as int) + sorted.skip(k as int)
                =~= placed(sorted, views, n as int)) by {
                assert(sorted.take(k as int) =~= sorted);
            }
        }
        while k > 0 && !key_before(&keys[order[k - 1]], &keys[n])
            invariant
                k <= n < keys.len(),
                views == chunk_views(keys@),
                order@.len() == n + 1,
                sorted.len() == n,
                forall|j: int| 0 <= j < sorted.len() ==> 0 <= #[trigger] sorted[j] < n,
                forall|j: int| 0 <= j < order@.len() ==> order@[j] <= n,
                places(order@).take(k as int) == sorted.take(k as int),
                places(order@).skip(k + 1) == sorted.skip(k as int),
                placed(sorted.take(k as int), views, n as int) + sorted.skip(k as int) == placed(
                    sorted,
                    views,
                    n as int,
                ),
            decreases k,
        {
            let ghost before = order@;
            let moved = order[k - 1];
            order.set(k, moved);
            proof {
                let front = sorted.take(k as int);
                assert(front.last() == sorted[k - 1]);
                assert(front.drop_last() =~= sorted.take(k - 1));
                assert(places(before)[k - 1] == sorted.take(k as int)[k - 1]);
                assert(moved as int == sorted[k - 1]);
                assert(placed(front, views, n as int) == placed(
                    sorted.take(k - 1),
                    views,
                    n as int,
                ).push(sorted[k - 1]));
                assert(placed(sorted.take(k - 1), views, n as int).push(sorted[k - 1])
                    + sorted.skip(k as int) =~= placed(sorted.take(k - 1), views, n as int)
                    + sorted.skip(k - 1));
                assert(places(order@).take(k - 1) =~= sorted.take(k - 1)) by {
                    assert(places(order@).take(k - 1) =~= places(before).take(k as int).take(
                        k - 1,
                    ));
                }
                assert(places(order@).skip(k as int) =~= sorted.skip(k - 1)) by {
                    assert(places(before).skip(k + 1) == sorted.skip(k as int));
                    assert forall|j: int| 0 <= j < n + 1 - k implies places(order@).skip(
                        k as int,
                    )[j] == sorted.skip(k - 1)[j] by {
                        if j > 0 {
                            assert(places(before).skip(k + 1)[j - 1] == sorted.skip(k as int)[j
                                - 1]);
                        }
                    }
                }
            }
            k = k - 1;
        }
        order.set(k, n);
        proof {
            let front = sorted.take(k as int);
            if k > 0 {
                assert(front.last() == sorted[k - 1]);
                assert(places(order@)[k - 1] == sorted[k - 1]) by {
                    assert(places(order@).take(k as int)[k - 1] == front[k - 1]);
                }
                assert(placed(front, views, n as int) == front.push(n as int));
            } else {
                assert(placed(front, views, n as int) =~= seq![n as int]);
                assert(front.push(n as int) =~= seq![n as int]);
            }
            assert(places(order@) =~= front.push(n as int) + sorted.skip(k as int)) by {
                assert(places(order@).len() == front.push(n as int).len() + sorted.skip(
                    k as int,
                ).len());
                assert forall|j: int| 0 <= j < n + 1 implies places(order@)[j] == (front.push(
                    n as int,
                ) + sorted.skip(k as int))[j] by {
                    if j < k {
                        assert(places(order@).take(k as int)[j] == front[j]);
                    } else if j > k {
                        assert(places(order@).skip(k + 1)[j - k - 1] == sorted.skip(k as int)[j
                            - k - 1]);
                    }
                }
            }
        }
        n += 1;
    }
    order
}

} // verus!
