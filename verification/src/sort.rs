//! Stable ordering of items by a pair of integer keys.
//!
//! A stable sort by key orders items by `(key, index in the input)`; the order
//! of the indices is therefore a strict total order, and the sorted
//! arrangement is unique. `stable_order_of` names it.
use vstd::prelude::*;

verus! {

/// Item `a` comes before item `b` in a stable sort by `keys`
/// (lexicographic on the two keys, ties kept in input order).
pub open spec fn precedes(keys: Seq<(i64, i64)>, a: int, b: int) -> bool {
    ||| keys[a].0 < keys[b].0
    ||| (keys[a].0 == keys[b].0 && keys[a].1 < keys[b].1)
    ||| (keys[a].0 == keys[b].0 && keys[a].1 == keys[b].1 && a < b)
}

/// `p` lists every index below `n` exactly once.
pub open spec fn is_permutation(p: Seq<usize>, n: nat) -> bool {
    &&& p.len() == n
    &&& forall|i: int| 0 <= i < n ==> #[trigger] p[i] < n
    &&& forall|i: int, j: int| 0 <= i < j < n ==> #[trigger] p[i] != #[trigger] p[j]
    &&& forall|x: usize| x < n ==> #[trigger] p.contains(x)
}

/// `p` is the arrangement of indices that a stable sort by `keys` produces.
pub open spec fn is_stable_order(keys: Seq<(i64, i64)>, p: Seq<usize>) -> bool {
    &&& is_permutation(p, keys.len())
    &&& forall|i: int, j: int|
        0 <= i < j < p.len() ==> precedes(keys, #[trigger] p[i] as int, #[trigger] p[j] as int)
}

/// The arrangement of indices that a stable sort by `keys` produces.
pub open spec fn stable_order_of(keys: Seq<(i64, i64)>) -> Seq<usize> {
    choose|p: Seq<usize>| is_stable_order(keys, p)
}

/// The items of `s` taken in the order `p`.
pub open spec fn permute<T>(s: Seq<T>, p: Seq<usize>) -> Seq<T> {
    p.map_values(|i: usize| s[i as int])
}

/// A stable sort has exactly one result.
pub proof fn lemma_stable_order_unique(keys: Seq<(i64, i64)>, p: Seq<usize>, q: Seq<usize>)
    requires
        is_stable_order(keys, p),
        is_stable_order(keys, q),
    ensures
        p == q,
{
    let n = keys.len();
    assert forall|i: int| 0 <= i < n implies p[i] == q[i] by {
        if p[i] != q[i] {
            lemma_exists_first_difference(p, q, i);
            let e = choose|e: int|
                0 <= e <= i && p[e] != q[e] && forall|f: int| 0 <= f < e ==> p[f] == q[f];
            let a = p[e];
            let b = q[e];
            assert(q[e] < n);
            assert(p[e] < n);
            assert(p.contains(b));
            assert(q.contains(a));
            let j = choose|j: int| 0 <= j < n && p[j] == b;
            let k = choose|k: int| 0 <= k < n && q[k] == a;
            if j < e {
                assert(q[j] == b);
                assert(q[j] != q[e]);
            }
            if k < e {
                assert(p[k] == a);
                assert(p[k] != p[e]);
            }
            assert(precedes(keys, p[e] as int, p[j] as int));
            assert(precedes(keys, q[e] as int, q[k] as int));
        }
    }
    assert(p =~= q);
}

proof fn lemma_exists_first_difference(p: Seq<usize>, q: Seq<usize>, i: int)
    requires
        0 <= i < p.len(),
        p.len() == q.len(),
        p[i] != q[i],
    ensures
        exists|e: int| 0 <= e <= i && p[e] != q[e] && forall|f: int| 0 <= f < e ==> p[f] == q[f],
    decreases i,
{
    if exists|f: int| 0 <= f < i && p[f] != q[f] {
        let f = choose|f: int| 0 <= f < i && p[f] != q[f];
        lemma_exists_first_difference(p, q, f);
    } else {
        assert(forall|f: int| 0 <= f < i ==> p[f] == q[f]);
    }
}

fn key_less(a: (i64, i64), b: (i64, i64)) -> (r: bool)
    ensures
        r == (a.0 < b.0 || (a.0 == b.0 && a.1 < b.1)),
{
    a.0 < b.0 || (a.0 == b.0 && a.1 < b.1)
}

/// The stable-sort arrangement of indices for `keys` (insertion sort).
pub fn stable_order(keys: &Vec<(i64, i64)>) -> (p: Vec<usize>)
    ensures
        is_stable_order(keys@, p@),
        p@ == stable_order_of(keys@),
{
    let n = keys.len();
    let mut p: Vec<usize> = Vec::new();
    let mut i: usize = 0;
    while i < n
        invariant
            n == keys@.len(),
            0 <= i <= n,
            p@.len() == i,
            forall|a: int| 0 <= a < i ==> #[trigger] p@[a] < i,
            forall|a: int, b: int| 0 <= a < b < i ==> #[trigger] p@[a] != #[trigger] p@[b],
            forall|x: usize| x < i ==> #[trigger] p@.contains(x),
            forall|a: int, b: int|
                0 <= a < b < i ==> precedes(keys@, #[trigger] p@[a] as int, #[trigger] p@[b] as int),
        decreases n - i,
    {
        let (k0, k1) = keys[i];
        let mut pos: usize = 0;
        while pos < p.len() && !key_less(keys[i], keys[p[pos]])
            invariant
                n == keys@.len(),
                0 <= i < n,
                p@.len() == i,
                0 <= pos <= i,
                forall|a: int| 0 <= a < i ==> #[trigger] p@[a] < i,
                forall|a: int| 0 <= a < pos ==> precedes(keys@, #[trigger] p@[a] as int, i as int),
                k0 == keys@[i as int].0,
                k1 == keys@[i as int].1,
            decreases i - pos,
        {
            pos = pos + 1;
        }
        let ghost old_p = p@;
        p.insert(pos, i);
        proof {
            assert(p@ =~= old_p.take(pos as int).push(i) + old_p.skip(pos as int));
            assert forall|a: int| 0 <= a < i + 1 implies #[trigger] p@[a] < i + 1 by {
                if a < pos {
                    assert(p@[a] == old_p[a]);
                } else if a > pos {
                    assert(p@[a] == old_p[a - 1]);
                }
            }
            assert forall|a: int, b: int| 0 <= a < b < i + 1 implies #[trigger] p@[a]
                != #[trigger] p@[b] by {
                if a < pos && b < pos {
                    assert(p@[a] == old_p[a] && p@[b] == old_p[b]);
                } else if a < pos && b > pos {
                    assert(p@[a] == old_p[a] && p@[b] == old_p[b - 1]);
                } else if a > pos && b > pos {
                    assert(p@[a] == old_p[a - 1] && p@[b] == old_p[b - 1]);
                } else if a == pos {
                    if b > pos {
                        assert(p@[b] == old_p[b - 1]);
                    }
                } else {
                    assert(p@[a] == old_p[a]);
                }
            }
            assert forall|x: usize| x < i + 1 implies #[trigger] p@.contains(x) by {
                if x == i {
                    assert(p@[pos as int] == x);
                } else {
                    assert(old_p.contains(x));
                    let a = choose|a: int| 0 <= a < i && old_p[a] == x;
                    if a < pos {
                        assert(p@[a] == x);
                    } else {
                        assert(p@[a + 1] == x);
                    }
                }
            }
            assert forall|a: int, b: int| 0 <= a < b < i + 1 implies precedes(
                keys@,
                #[trigger] p@[a] as int,
                #[trigger] p@[b] as int,
            ) by {
                if b < pos {
                    assert(p@[a] == old_p[a] && p@[b] == old_p[b]);
                } else if b == pos {
                    assert(p@[a] == old_p[a]);
                } else if a > pos {
                    assert(p@[a] == old_p[a - 1] && p@[b] == old_p[b - 1]);
                } else if a == pos {
                    // old_p[pos] sorts strictly after item i by key
                    assert(p@[b] == old_p[b - 1]);
                    let q = old_p[pos as int];
                    if b - 1 > pos {
                        assert(precedes(keys@, old_p[pos as int] as int, old_p[b - 1] as int));
                    }
                    assert(old_p[pos as int] < i);
                } else {
                    assert(p@[a] == old_p[a] && p@[b] == old_p[b - 1]);
                }
            }
        }
        i = i + 1;
    }
    proof {
        assert(is_stable_order(keys@, p@));
        lemma_stable_order_unique(keys@, p@, stable_order_of(keys@));
    }
    p
}


/// Position at which item `n` goes into the arrangement `q` of the items
/// before it: the first position holding an item with a larger key.
pub open spec fn insertion_point(keys: Seq<(i64, i64)>, q: Seq<usize>, n: int, i: int) -> int
    decreases q.len() - i,
{
    if i < 0 || i >= q.len() {
        q.len() as int
    } else if keys[n].0 < keys[q[i] as int].0 || (keys[n].0 == keys[q[i] as int].0 && keys[n].1
        < keys[q[i] as int].1) {
        i
    } else {
        insertion_point(keys, q, n, i + 1)
    }
}

proof fn lemma_insertion_point(keys: Seq<(i64, i64)>, q: Seq<usize>, n: int, i: int)
    requires
        0 <= i <= q.len(),
        0 <= n < keys.len(),
        forall|a: int| 0 <= a < q.len() ==> #[trigger] q[a] < n,
    ensures
        i <= insertion_point(keys, q, n, i) <= q.len(),
        forall|a: int|
            i <= a < insertion_point(keys, q, n, i) ==> precedes(keys, #[trigger] q[a] as int, n),
        insertion_point(keys, q, n, i) < q.len() ==> precedes(
            keys,
            n,
            q[insertion_point(keys, q, n, i)] as int,
        ),
    decreases q.len() - i,
{
    if i < q.len() {
        lemma_insertion_point(keys, q, n, i + 1);
    }
}

/// A stable sort exists for any keys (insertion sort, by induction).
proof fn stable_order_witness(keys: Seq<(i64, i64)>) -> (p: Seq<usize>)
    requires
        keys.len() <= usize::MAX,
    ensures
        is_stable_order(keys, p),
    decreases keys.len(),
{
    if keys.len() == 0 {
        Seq::empty()
    } else {
        let n = keys.len() - 1;
        let pre = keys.take(n as int);
        let q = stable_order_witness(pre);
        assert forall|a: int, b: int| 0 <= a < n && 0 <= b < n implies precedes(pre, a, b)
            == precedes(keys, a, b) by {}
        lemma_insertion_point(keys, q, n as int, 0);
        let pos = insertion_point(keys, q, n as int, 0);
        let p = q.take(pos).push(n as usize) + q.skip(pos);
        assert forall|a: int| 0 <= a < keys.len() implies #[trigger] p[a] < keys.len() by {
            if a < pos {
                assert(p[a] == q[a]);
            } else if a > pos {
                assert(p[a] == q[a - 1]);
            }
        }
        assert forall|a: int, b: int| 0 <= a < b < keys.len() implies #[trigger] p[a]
            != #[trigger] p[b] by {
            if a < pos && b < pos {
                assert(p[a] == q[a] && p[b] == q[b]);
            } else if a < pos && b > pos {
                assert(p[a] == q[a] && p[b] == q[b - 1]);
            } else if a > pos && b > pos {
                assert(p[a] == q[a - 1] && p[b] == q[b - 1]);
            } else if a == pos {
                if b > pos {
                    assert(p[b] == q[b - 1]);
                }
            } else {
                assert(p[a] == q[a]);
            }
        }
        assert forall|x: usize| x < keys.len() implies #[trigger] p.contains(x) by {
            if x == n {
                assert(p[pos] == x);
            } else {
                assert(q.contains(x));
                let a = choose|a: int| 0 <= a < q.len() && q[a] == x;
                if a < pos {
                    assert(p[a] == x);
                } else {
                    assert(p[a + 1] == x);
                }
            }
        }
        assert forall|a: int, b: int| 0 <= a < b < p.len() implies precedes(
            keys,
            #[trigger] p[a] as int,
            #[trigger] p[b] as int,
        ) by {
            if b < pos {
                assert(p[a] == q[a] && p[b] == q[b]);
            } else if b == pos {
                assert(p[a] == q[a]);
            } else if a > pos {
                assert(p[a] == q[a - 1] && p[b] == q[b - 1]);
            } else if a == pos {
                assert(p[b] == q[b - 1]);
                if b - 1 > pos {
                    assert(precedes(pre, q[pos] as int, q[b - 1] as int));
                }
            } else {
                assert(p[a] == q[a] && p[b] == q[b - 1]);
            }
        }
        p
    }
}

/// `stable_order_of` is the arrangement of a stable sort.
pub proof fn lemma_stable_order(keys: Seq<(i64, i64)>)
    requires
        keys.len() <= usize::MAX,
    ensures
        is_stable_order(keys, stable_order_of(keys)),
        stable_order_of(keys).len() == keys.len(),
{
    let p = stable_order_witness(keys);
}
} // verus!
