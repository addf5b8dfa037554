//! Stable sorting by a key.

use vstd::prelude::*;

verus! {

/// Whether position `a` comes before position `b`: by the smaller key, and by
/// the smaller position where the keys are the same.
pub open spec fn comes_before(keys: Seq<u64>, a: int, b: int) -> bool {
    keys[a] < keys[b] || (keys[a] == keys[b] && a < b)
}

/// Whether `p` lists the positions from `lo` up to `hi`, ordered by key, and those
/// with the same key in their own order.
pub open spec fn is_stable_range(keys: Seq<u64>, lo: int, hi: int, p: Seq<int>) -> bool {
    &&& p.len() == hi - lo
    &&& forall|i: int| 0 <= i < p.len() ==> lo <= #[trigger] p[i] < hi
    &&& forall|x: int| lo <= x < hi ==> #[trigger] p.contains(x)
    &&& forall|i: int, j: int|
        0 <= i < j < p.len() ==> comes_before(keys, #[trigger] p[i], #[trigger] p[j])
}

/// Whether `p` lists all positions, ordered by key, and those with the same key
/// in their own order.
pub open spec fn is_stable_order(keys: Seq<u64>, p: Seq<int>) -> bool {
    is_stable_range(keys, 0, keys.len() as int, p)
}

/// The positions ordered by key, and those with the same key in their own order.
pub open spec fn stable_order(keys: Seq<u64>) -> Seq<int> {
    choose|p: Seq<int>| is_stable_order(keys, p)
}

/// There is only one such order.
pub proof fn lemma_stable_order_unique(keys: Seq<u64>, p: Seq<int>)
    requires
        is_stable_order(keys, p),
    ensures
        stable_order(keys) == p,
{
    let q = stable_order(keys);
    assert(is_stable_order(keys, q));
    assert forall|i: int| 0 <= i < p.len() implies p[i] == q[i] by {
        lemma_same_position(keys, p, q, i);
    }
    assert(p =~= q);
}

proof fn lemma_same_position(keys: Seq<u64>, p: Seq<int>, q: Seq<int>, i: int)
    requires
        is_stable_order(keys, p),
        is_stable_order(keys, q),
        0 <= i < p.len(),
    ensures
        p[i] == q[i],
    decreases i,
{
    assert forall|k: int| 0 <= k < i implies p[k] == q[k] by {
        lemma_same_position(keys, p, q, k);
    }
    if p[i] != q[i] {
        assert(p.contains(q[i]));
        let j = choose|j: int| 0 <= j < p.len() && p[j] == q[i];
        if j < i {
            assert(comes_before(keys, q[j], q[i]));
        }
        assert(comes_before(keys, p[i], p[j]));
        assert(q.contains(p[i]));
        let k = choose|k: int| 0 <= k < q.len() && q[k] == p[i];
        if k < i {
            assert(comes_before(keys, p[k], p[i]));
        }
        assert(comes_before(keys, q[i], q[k]));
    }
}

/// Where an element with the key of `v` goes among those of `q` before `k`: behind
/// those with no larger key.
proof fn lemma_place(keys: Seq<u64>, q: Seq<int>, v: int, k: int) -> (r: int)
    requires
        0 <= k <= q.len(),
        forall|i: int| k <= i < q.len() ==> keys[#[trigger] q[i]] > keys[v],
    ensures
        0 <= r <= q.len(),
        forall|i: int| r <= i < q.len() ==> keys[#[trigger] q[i]] > keys[v],
        r > 0 ==> keys[q[r - 1]] <= keys[v],
    decreases k,
{
    if k == 0 || keys[q[k - 1]] <= keys[v] {
        k
    } else {
        lemma_place(keys, q, v, k - 1)
    }
}

proof fn lemma_some_order(keys: Seq<u64>, n: nat) -> (p: Seq<int>)
    requires
        n <= keys.len(),
    ensures
        is_stable_range(keys, 0, n as int, p),
    decreases n,
{
    if n == 0 {
        Seq::empty()
    } else {
        let v = n - 1;
        let q = lemma_some_order(keys, v as nat);
        let r = lemma_place(keys, q, v, q.len() as int);
        let p = q.insert(r, v);
        assert forall|x: int| 0 <= x < n implies #[trigger] p.contains(x) by {
            if x == v {
                assert(p[r] == x);
            } else {
                assert(q.contains(x));
                let i = choose|i: int| 0 <= i < q.len() && q[i] == x;
                if i < r {
                    assert(p[i] == x);
                } else {
                    assert(p[i + 1] == x);
                }
            }
        }
        assert forall|i: int, j: int| 0 <= i < j < p.len() implies comes_before(
            keys,
            #[trigger] p[i],
            #[trigger] p[j],
        ) by {
            if j == r {
                if i < r - 1 {
                    assert(comes_before(keys, q[i], q[r - 1]));
                }
            } else if i == r {
                assert(keys[q[j - 1]] > keys[v]);
            } else {
                let a = if i < r { i } else { i - 1 };
                let b = if j < r { j } else { j - 1 };
                assert(comes_before(keys, q[a], q[b]));
            }
        }
        p
    }
}

/// There is such an order.
pub proof fn lemma_stable_order_exists(keys: Seq<u64>)
    ensures
        is_stable_order(keys, stable_order(keys)),
{
    let p = lemma_some_order(keys, keys.len());
    assert(is_stable_order(keys, p));
}

pub open spec fn positions(v: Seq<usize>) -> Seq<int> {
    v.map_values(|x: usize| x as int)
}

fn sort_range(keys: &Vec<u64>, lo: usize, hi: usize) -> (r: Vec<usize>)
    requires
        lo <= hi <= keys@.len(),
    ensures
        is_stable_range(keys@, lo as int, hi as int, positions(r@)),
    decreases hi - lo,
{
    let mut out: Vec<usize> = Vec::new();
    if hi == lo {
        return out;
    }
    if hi - lo == 1 {
        out.push(lo);
        proof {
            assert forall|x: int| lo <= x < hi implies #[trigger] positions(out@).contains(x) by {
                assert(positions(out@)[0] == x);
            }
        }
        return out;
    }
    let mid: usize = lo + (hi - lo) / 2;
    let left = sort_range(keys, lo, mid);
    let right = sort_range(keys, mid, hi);
    let ghost l = positions(left@);
    let ghost r = positions(right@);
    let mut i: usize = 0;
    let mut j: usize = 0;
    while i < left.len() || j < right.len()
        invariant
            lo <= mid <= hi <= keys@.len(),
            l == positions(left@),
            r == positions(right@),
            is_stable_range(keys@, lo as int, mid as int, l),
            is_stable_range(keys@, mid as int, hi as int, r),
            i <= left@.len() == mid - lo,
            j <= right@.len() == hi - mid,
            out@.len() == i + j,
            forall|a: int| 0 <= a < out@.len() ==> lo <= #[trigger] positions(out@)[a] < hi,
            forall|a: int, b: int|
                0 <= a < b < out@.len() ==> comes_before(
                    keys@,
                    #[trigger] positions(out@)[a],
                    #[trigger] positions(out@)[b],
                ),
            forall|a: int, b: int|
                0 <= a < out@.len() && i <= b < l.len() ==> comes_before(
                    keys@,
                    #[trigger] positions(out@)[a],
                    #[trigger] l[b],
                ),
            forall|a: int, b: int|
                0 <= a < out@.len() && j <= b < r.len() ==> comes_before(
                    keys@,
                    #[trigger] positions(out@)[a],
                    #[trigger] r[b],
                ),
            forall|b: int| 0 <= b < i ==> positions(out@).contains(#[trigger] l[b]),
            forall|b: int| 0 <= b < j ==> positions(out@).contains(#[trigger] r[b]),
        decreases left@.len() - i + right@.len() - j,
    {
        let take_left: bool = if i == left.len() {
            false
        } else if j == right.len() {
            true
        } else {
            assert(l[i as int] == left@[i as int] as int);
            assert(r[j as int] == right@[j as int] as int);
            keys[left[i]] <= keys[right[j]]
        };
        let ghost before = positions(out@);
        if take_left {
            let x: usize = left[i];
            assert(l[i as int] == x as int);
            out.push(x);
            i = i + 1;
            proof {
                let now = positions(out@);
                assert(now =~= before.push(x as int));
                assert forall|b: int| 0 <= b < i implies now.contains(#[trigger] l[b]) by {
                    if b == i - 1 {
                        assert(now[before.len() as int] == l[b]);
                    } else {
                        assert(before.contains(l[b]));
                        let k = choose|k: int| 0 <= k < before.len() && before[k] == l[b];
                        assert(now[k] == l[b]);
                    }
                }
                assert forall|b: int| 0 <= b < j implies now.contains(#[trigger] r[b]) by {
                    assert(before.contains(r[b]));
                    let k = choose|k: int| 0 <= k < before.len() && before[k] == r[b];
                    assert(now[k] == r[b]);
                }
                assert forall|a: int, b: int|
                    0 <= a < out@.len() && j <= b < r.len() implies comes_before(
                    keys@,
                    #[trigger] now[a],
                    #[trigger] r[b],
                ) by {
                    if a == before.len() {
                        if j < b {
                            assert(comes_before(keys@, r[j as int], r[b]));
                        }
                        assert(r[j as int] == right@[j as int] as int);
                    }
                }
                assert forall|a: int, b: int|
                    0 <= a < out@.len() && i <= b < l.len() implies comes_before(
                    keys@,
                    #[trigger] now[a],
                    #[trigger] l[b],
                ) by {
                    if a == before.len() {
                        assert(comes_before(keys@, l[i - 1], l[b]));
                    }
                }
            }
        } else {
            let x: usize = right[j];
            assert(r[j as int] == x as int);
            out.push(x);
            j = j + 1;
            proof {
                let now = positions(out@);
                assert(now =~= before.push(x as int));
                assert forall|b: int| 0 <= b < j implies now.contains(#[trigger] r[b]) by {
                    if b == j - 1 {
                        assert(now[before.len() as int] == r[b]);
                    } else {
                        assert(before.contains(r[b]));
                        let k = choose|k: int| 0 <= k < before.len() && before[k] == r[b];
                        assert(now[k] == r[b]);
                    }
                }
                assert forall|b: int| 0 <= b < i implies now.contains(#[trigger] l[b]) by {
                    assert(before.contains(l[b]));
                    let k = choose|k: int| 0 <= k < before.len() && before[k] == l[b];
                    assert(now[k] == l[b]);
                }
                assert forall|a: int, b: int|
                    0 <= a < out@.len() && i <= b < l.len() implies comes_before(
                    keys@,
                    #[trigger] now[a],
                    #[trigger] l[b],
                ) by {
                    if a == before.len() {
                        if i < b {
                            assert(comes_before(keys@, l[i as int], l[b]));
                        }
                        assert(l[i as int] == left@[i as int] as int);
                    }
                }
                assert forall|a: int, b: int|
                    0 <= a < out@.len() && j <= b < r.len() implies comes_before(
                    keys@,
                    #[trigger] now[a],
                    #[trigger] r[b],
                ) by {
                    if a == before.len() {
                        assert(comes_before(keys@, r[j - 1], r[b]));
                    }
                }
            }
        }
    }
    proof {
        assert forall|x: int| lo <= x < hi implies #[trigger] positions(out@).contains(x) by {
            if x < mid {
                assert(l.contains(x));
                let b = choose|b: int| 0 <= b < l.len() && l[b] == x;
                assert(positions(out@).contains(l[b]));
            } else {
                assert(r.contains(x));
                let b = choose|b: int| 0 <= b < r.len() && r[b] == x;
                assert(positions(out@).contains(r[b]));
            }
        }
    }
    out
}

/// The positions ordered by key, and those with the same key in their own order.
pub fn stable_positions(keys: &Vec<u64>) -> (r: Vec<usize>)
    ensures
        positions(r@) == stable_order(keys@),
        is_stable_order(keys@, positions(r@)),
{
    let r = sort_range(keys, 0, keys.len());
    proof {
        lemma_stable_order_unique(keys@, positions(r@));
    }
    r
}

/// The elements of `s` at the positions of `p`.
pub open spec fn picked<T>(s: Seq<T>, p: Seq<int>) -> Seq<T> {
    p.map_values(|i: int| s[i])
}

} // verus!
