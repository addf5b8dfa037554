//! The order of texts, and sorting texts without repetitions.

use crate::sort::positions;
use crate::text::char_seqs;
use vstd::prelude::*;

verus! {

/// Whether `a` comes before `b`: at the first place where they differ it has the
/// smaller character, or it ends there.
pub open spec fn text_before(a: Seq<char>, b: Seq<char>) -> bool
    decreases a.len(),
{
    if b.len() == 0 {
        false
    } else if a.len() == 0 {
        true
    } else if a[0] != b[0] {
        a[0] < b[0]
    } else {
        text_before(a.subrange(1, a.len() as int), b.subrange(1, b.len() as int))
    }
}

/// No text comes before itself.
pub proof fn lemma_before_irreflexive(a: Seq<char>)
    ensures
        !text_before(a, a),
    decreases a.len(),
{
    if a.len() > 0 {
        lemma_before_irreflexive(a.subrange(1, a.len() as int));
    }
}

pub proof fn lemma_before_transitive(a: Seq<char>, b: Seq<char>, c: Seq<char>)
    requires
        text_before(a, b),
        text_before(b, c),
    ensures
        text_before(a, c),
    decreases a.len(),
{
    if a.len() > 0 && a[0] == b[0] && b[0] == c[0] {
        lemma_before_transitive(
            a.subrange(1, a.len() as int),
            b.subrange(1, b.len() as int),
            c.subrange(1, c.len() as int),
        );
    }
}

/// Of two texts that differ one comes before the other.
pub proof fn lemma_before_total(a: Seq<char>, b: Seq<char>)
    requires
        !text_before(a, b),
        !text_before(b, a),
    ensures
        a == b,
    decreases a.len(),
{
    if a.len() > 0 && b.len() > 0 {
        let ta = a.subrange(1, a.len() as int);
        let tb = b.subrange(1, b.len() as int);
        lemma_before_total(ta, tb);
        assert(a =~= seq![a[0]] + ta);
        assert(b =~= seq![b[0]] + tb);
    } else {
        assert(a =~= b);
    }
}

/// Which of two texts comes first.
#[derive(Debug, Clone, Copy, PartialEq, Eq, Structural)]
pub enum TextOrder {
    Before,
    Same,
    After,
}

/// Which of two texts comes first.
pub fn order_of(a: &[char], b: &[char]) -> (r: TextOrder)
    ensures
        match r {
            TextOrder::Before => text_before(a@, b@) && a@ != b@,
            TextOrder::Same => a@ == b@,
            TextOrder::After => text_before(b@, a@) && a@ != b@,
        },
{
    let n: usize = a.len();
    let m: usize = b.len();
    let mut i: usize = 0;
    assert(a@.subrange(0, n as int) =~= a@);
    assert(b@.subrange(0, m as int) =~= b@);
    while i < n && i < m
        invariant
            n == a@.len(),
            m == b@.len(),
            i <= n,
            i <= m,
            a@.subrange(0, i as int) == b@.subrange(0, i as int),
            text_before(a@, b@) == text_before(
                a@.subrange(i as int, n as int),
                b@.subrange(i as int, m as int),
            ),
            text_before(b@, a@) == text_before(
                b@.subrange(i as int, m as int),
                a@.subrange(i as int, n as int),
            ),
        decreases n - i,
    {
        let ghost x = a@.subrange(i as int, n as int);
        let ghost y = b@.subrange(i as int, m as int);
        assert(x[0] == a@[i as int]);
        assert(y[0] == b@[i as int]);
        if a[i] < b[i] {
            return TextOrder::Before;
        }
        if b[i] < a[i] {
            return TextOrder::After;
        }
        assert(x.subrange(1, x.len() as int) =~= a@.subrange(i + 1, n as int));
        assert(y.subrange(1, y.len() as int) =~= b@.subrange(i + 1, m as int));
        assert(a@.subrange(0, i + 1) =~= a@.subrange(0, i as int).push(a@[i as int]));
        assert(b@.subrange(0, i + 1) =~= b@.subrange(0, i as int).push(b@[i as int]));
        i = i + 1;
    }
    if i < m {
        TextOrder::Before
    } else if i < n {
        TextOrder::After
    } else {
        assert(a@ =~= b@);
        TextOrder::Same
    }
}

/// Whether `p` lists, of the positions from `lo` up to `hi`, the last one of each
/// text, in the order of the texts.
pub open spec fn lists_last(t: Seq<Seq<char>>, lo: int, hi: int, p: Seq<int>) -> bool {
    &&& forall|i: int| 0 <= i < p.len() ==> lo <= #[trigger] p[i] < hi
    &&& forall|i: int, j: int|
        0 <= i < j < p.len() ==> text_before(t[#[trigger] p[i]], t[#[trigger] p[j]])
    &&& forall|x: int| lo <= x < hi ==> listed_behind(t, p, x)
}

/// Whether `p` has the text of `x` at `x` or behind it.
pub open spec fn listed_behind(t: Seq<Seq<char>>, p: Seq<int>, x: int) -> bool {
    exists|i: int| 0 <= i < p.len() && t[#[trigger] p[i]] == t[x] && p[i] >= x
}

/// There is only one such list.
pub proof fn lemma_lists_last_unique(t: Seq<Seq<char>>, p: Seq<int>, q: Seq<int>)
    requires
        lists_last(t, 0, t.len() as int, p),
        lists_last(t, 0, t.len() as int, q),
    ensures
        p == q,
{
    lemma_lists_last_prefix(t, p, q, p.len());
    lemma_lists_last_prefix(t, q, p, q.len());
    assert(p =~= q);
}

/// What one list has, the other has too.
proof fn lemma_lists_last_has(t: Seq<Seq<char>>, p: Seq<int>, q: Seq<int>, i: int) -> (k: int)
    requires
        lists_last(t, 0, t.len() as int, p),
        lists_last(t, 0, t.len() as int, q),
        0 <= i < p.len(),
    ensures
        0 <= k < q.len(),
        q[k] == p[i],
{
    assert(listed_behind(t, q, p[i]));
    let k = choose|k: int| 0 <= k < q.len() && t[#[trigger] q[k]] == t[p[i]] && q[k] >= p[i];
    assert(listed_behind(t, p, q[k]));
    let m = choose|m: int| 0 <= m < p.len() && t[#[trigger] p[m]] == t[q[k]] && p[m] >= q[k];
    lemma_before_irreflexive(t[p[i]]);
    if m < i {
        assert(text_before(t[p[m]], t[p[i]]));
    }
    if i < m {
        assert(text_before(t[p[i]], t[p[m]]));
    }
    k
}

proof fn lemma_lists_last_prefix(t: Seq<Seq<char>>, p: Seq<int>, q: Seq<int>, n: nat)
    requires
        lists_last(t, 0, t.len() as int, p),
        lists_last(t, 0, t.len() as int, q),
        n <= p.len(),
    ensures
        n <= q.len(),
        forall|i: int| 0 <= i < n ==> p[i] == q[i],
    decreases n,
{
    if n > 0 {
        lemma_lists_last_prefix(t, p, q, (n - 1) as nat);
        let i = n - 1;
        let k = lemma_lists_last_has(t, p, q, i);
        lemma_before_irreflexive(t[p[i]]);
        if k < i {
            assert(p[k] == q[k]);
            assert(text_before(t[p[k]], t[p[i]]));
        }
        let m = lemma_lists_last_has(t, q, p, i);
        lemma_before_irreflexive(t[q[i]]);
        if m < i {
            assert(p[m] == q[m]);
            assert(text_before(t[q[m]], t[q[i]]));
        }
        if k > i {
            assert(text_before(t[q[i]], t[q[k]]));
            if m > i {
                assert(text_before(t[p[i]], t[p[m]]));
                lemma_before_transitive(t[p[i]], t[q[i]], t[p[i]]);
            }
        }
    }
}

proof fn lemma_listed_behind_push(t: Seq<Seq<char>>, p: Seq<int>, v: int, x: int)
    requires
        listed_behind(t, p, x) || (t[v] == t[x] && v >= x),
    ensures
        listed_behind(t, p.push(v), x),
{
    if listed_behind(t, p, x) {
        let i = choose|i: int| 0 <= i < p.len() && t[#[trigger] p[i]] == t[x] && p[i] >= x;
        assert(p.push(v)[i] == p[i]);
    } else {
        assert(p.push(v)[p.len() as int] == v);
    }
}

/// Whether all of `p` comes before what `q` lists from `k` on.
pub open spec fn all_before(t: Seq<Seq<char>>, p: Seq<int>, q: Seq<int>, k: int) -> bool {
    forall|a: int, b: int|
        0 <= a < p.len() && k <= b < q.len() ==> text_before(
            t[#[trigger] p[a]],
            t[#[trigger] q[b]],
        )
}

/// Pushing the next of `q` keeps the order.
proof fn lemma_push_next(t: Seq<Seq<char>>, lo: int, hi: int, p: Seq<int>, q: Seq<int>, k: int)
    requires
        lists_last(t, lo, hi, q),
        0 <= k < q.len(),
        all_before(t, p, q, k),
    ensures
        all_before(t, p.push(q[k]), q, k + 1),
{
    let now = p.push(q[k]);
    assert forall|a: int, b: int| 0 <= a < now.len() && k + 1 <= b < q.len() implies text_before(
        t[#[trigger] now[a]],
        t[#[trigger] q[b]],
    ) by {
        if a < p.len() {
            assert(now[a] == p[a]);
        } else {
            assert(text_before(t[q[k]], t[q[b]]));
        }
    }
}

/// So does pushing what comes before the next of `q`.
proof fn lemma_push_smaller(
    t: Seq<Seq<char>>,
    lo: int,
    hi: int,
    p: Seq<int>,
    v: int,
    q: Seq<int>,
    k: int,
)
    requires
        lists_last(t, lo, hi, q),
        0 <= k <= q.len(),
        all_before(t, p, q, k),
        k < q.len() ==> text_before(t[v], t[q[k]]),
    ensures
        all_before(t, p.push(v), q, k),
{
    let now = p.push(v);
    assert forall|a: int, b: int| 0 <= a < now.len() && k <= b < q.len() implies text_before(
        t[#[trigger] now[a]],
        t[#[trigger] q[b]],
    ) by {
        if a < p.len() {
            assert(now[a] == p[a]);
        } else if b > k {
            assert(text_before(t[q[k]], t[q[b]]));
            lemma_before_transitive(t[v], t[q[k]], t[q[b]]);
        }
    }
}

fn last_in_range(texts: &Vec<Vec<char>>, lo: usize, hi: usize) -> (r: Vec<usize>)
    requires
        lo <= hi <= texts@.len(),
    ensures
        lists_last(char_seqs(texts@), lo as int, hi as int, positions(r@)),
    decreases hi - lo,
{
    let ghost t = char_seqs(texts@);
    let mut out: Vec<usize> = Vec::new();
    if hi == lo {
        return out;
    }
    if hi - lo == 1 {
        out.push(lo);
        proof {
            assert(positions(out@)[0] == lo);
            assert forall|x: int| lo <= x < hi implies listed_behind(t, positions(out@), x) by {
                assert(t[positions(out@)[0]] == t[x]);
            }
        }
        return out;
    }
    let mid: usize = lo + (hi - lo) / 2;
    let left = last_in_range(texts, lo, mid);
    let right = last_in_range(texts, mid, hi);
    let ghost l = positions(left@);
    let ghost r = positions(right@);
    let n: usize = left.len();
    let m: usize = right.len();
    let mut i: usize = 0;
    let mut j: usize = 0;
    while i < n || j < m
        invariant
            lo <= mid <= hi <= texts@.len(),
            t == char_seqs(texts@),
            l == positions(left@),
            r == positions(right@),
            lists_last(t, lo as int, mid as int, l),
            lists_last(t, mid as int, hi as int, r),
            i <= n == left@.len(),
            j <= m == right@.len(),
            forall|a: int| 0 <= a < out@.len() ==> lo <= #[trigger] positions(out@)[a] < hi,
            forall|a: int, b: int|
                0 <= a < b < out@.len() ==> text_before(
                    t[#[trigger] positions(out@)[a]],
                    t[#[trigger] positions(out@)[b]],
                ),
            all_before(t, positions(out@), l, i as int),
            all_before(t, positions(out@), r, j as int),
            forall|b: int| 0 <= b < i ==> listed_behind(t, positions(out@), #[trigger] l[b]),
            forall|b: int| 0 <= b < j ==> listed_behind(t, positions(out@), #[trigger] r[b]),
        decreases n - i + m - j,
    {
        let ghost before = positions(out@);
        let take: TextOrder = if i == n {
            TextOrder::After
        } else if j == m {
            TextOrder::Before
        } else {
            assert(l[i as int] == left@[i as int] as int);
            assert(r[j as int] == right@[j as int] as int);
            assert(t[l[i as int]] == texts@[l[i as int]]@);
            assert(t[r[j as int]] == texts@[r[j as int]]@);
            order_of(texts[left[i]].as_slice(), texts[right[j]].as_slice())
        };
        match take {
            TextOrder::Before => {
                let x: usize = left[i];
                assert(l[i as int] == x as int);
                out.push(x);
                proof {
                    assert(positions(out@) =~= before.push(x as int));
                    lemma_push_next(t, lo as int, mid as int, before, l, i as int);
                    lemma_push_smaller(t, mid as int, hi as int, before, x as int, r, j as int);
                    lemma_listed_behind_push(t, before, x as int, x as int);
                    assert forall|b: int| 0 <= b < i implies listed_behind(
                        t,
                        positions(out@),
                        #[trigger] l[b],
                    ) by {
                        lemma_listed_behind_push(t, before, x as int, l[b]);
                    }
                    assert forall|b: int| 0 <= b < j implies listed_behind(
                        t,
                        positions(out@),
                        #[trigger] r[b],
                    ) by {
                        lemma_listed_behind_push(t, before, x as int, r[b]);
                    }
                }
                i = i + 1;
            },
            _ => {
                let x: usize = right[j];
                assert(r[j as int] == x as int);
                out.push(x);
                proof {
                    assert(positions(out@) =~= before.push(x as int));
                    lemma_push_next(t, mid as int, hi as int, before, r, j as int);
                    lemma_listed_behind_push(t, before, x as int, x as int);
                    assert forall|b: int| 0 <= b < i implies listed_behind(
                        t,
                        positions(out@),
                        #[trigger] l[b],
                    ) by {
                        lemma_listed_behind_push(t, before, x as int, l[b]);
                    }
                    assert forall|b: int| 0 <= b < j implies listed_behind(
                        t,
                        positions(out@),
                        #[trigger] r[b],
                    ) by {
                        lemma_listed_behind_push(t, before, x as int, r[b]);
                    }
                    if take is Same {
                        assert(t[l[i as int]] == t[x as int]);
                        lemma_push_same(
                            t,
                            lo as int,
                            mid as int,
                            before,
                            x as int,
                            l,
                            i as int,
                        );
                        lemma_listed_behind_push(t, before, x as int, l[i as int]);
                    } else {
                        lemma_push_smaller(
                            t,
                            lo as int,
                            mid as int,
                            before,
                            x as int,
                            l,
                            i as int,
                        );
                    }
                }
                if let TextOrder::Same = take {
                    i = i + 1;
                }
                j = j + 1;
            },
        }
    }
    proof {
        let p = positions(out@);
        assert forall|x: int| lo <= x < hi implies listed_behind(t, p, x) by {
            if x < mid {
                assert(listed_behind(t, l, x));
                let b = choose|b: int| 0 <= b < l.len() && t[#[trigger] l[b]] == t[x] && l[b] >= x;
                assert(listed_behind(t, p, l[b]));
            } else {
                assert(listed_behind(t, r, x));
                let b = choose|b: int| 0 <= b < r.len() && t[#[trigger] r[b]] == t[x] && r[b] >= x;
                assert(listed_behind(t, p, r[b]));
            }
        }
    }
    out
}

/// Pushing the text of the next of `q` keeps the order with the rest of `q`.
proof fn lemma_push_same(
    t: Seq<Seq<char>>,
    lo: int,
    hi: int,
    p: Seq<int>,
    v: int,
    q: Seq<int>,
    k: int,
)
    requires
        lists_last(t, lo, hi, q),
        0 <= k < q.len(),
        all_before(t, p, q, k),
        t[v] == t[q[k]],
    ensures
        all_before(t, p.push(v), q, k + 1),
{
    let now = p.push(v);
    assert forall|a: int, b: int| 0 <= a < now.len() && k + 1 <= b < q.len() implies text_before(
        t[#[trigger] now[a]],
        t[#[trigger] q[b]],
    ) by {
        if a < p.len() {
            assert(now[a] == p[a]);
        } else {
            assert(text_before(t[q[k]], t[q[b]]));
        }
    }
}

/// The last position of each text, in the order of the texts.
pub open spec fn last_positions(t: Seq<Seq<char>>) -> Seq<int> {
    choose|p: Seq<int>| lists_last(t, 0, t.len() as int, p)
}

/// The last position of each text, in the order of the texts.
pub fn sorted_last(texts: &Vec<Vec<char>>) -> (r: Vec<usize>)
    ensures
        positions(r@) == last_positions(char_seqs(texts@)),
        lists_last(char_seqs(texts@), 0, texts@.len() as int, positions(r@)),
{
    let r = last_in_range(texts, 0, texts.len());
    proof {
        let t = char_seqs(texts@);
        lemma_lists_last_unique(t, positions(r@), last_positions(t));
    }
    r
}

} // verus!
