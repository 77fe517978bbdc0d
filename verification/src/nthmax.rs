//! The n-th largest element of a slice, characterised by how many elements
//! lie strictly above it and how many lie at or above it.

use vstd::prelude::*;

verus! {

/// How many elements of `s` are strictly greater than `v`.
pub open spec fn count_gt(s: Seq<i32>, v: i32) -> nat
    decreases s.len(),
{
    if s.len() == 0 {
        0
    } else {
        count_gt(s.drop_last(), v) + if s.last() > v {
            1nat
        } else {
            0nat
        }
    }
}

/// How many elements of `s` are greater than or equal to `v`.
pub open spec fn count_ge(s: Seq<i32>, v: i32) -> nat
    decreases s.len(),
{
    if s.len() == 0 {
        0
    } else {
        count_ge(s.drop_last(), v) + if s.last() >= v {
            1nat
        } else {
            0nat
        }
    }
}

/// Non-decreasing order.
pub open spec fn sorted_asc(s: Seq<i32>) -> bool {
    forall|i: int, j: int| 0 <= i < j < s.len() ==> s[i] <= s[j]
}

proof fn lemma_count_push(s: Seq<i32>, e: i32, v: i32)
    ensures
        count_gt(s.push(e), v) == count_gt(s, v) + if e > v {
            1nat
        } else {
            0nat
        },
        count_ge(s.push(e), v) == count_ge(s, v) + if e >= v {
            1nat
        } else {
            0nat
        },
{
    assert(s.push(e).drop_last() =~= s);
    assert(s.push(e).last() == e);
}

proof fn lemma_count_concat(a: Seq<i32>, b: Seq<i32>, v: i32)
    ensures
        count_gt(a + b, v) == count_gt(a, v) + count_gt(b, v),
        count_ge(a + b, v) == count_ge(a, v) + count_ge(b, v),
    decreases b.len(),
{
    if b.len() == 0 {
        assert(a + b =~= a);
    } else {
        assert((a + b).drop_last() =~= a + b.drop_last());
        assert((a + b).last() == b.last());
        lemma_count_concat(a, b.drop_last(), v);
    }
}

/// Inserting `x` anywhere raises the counts exactly as `x` itself does.
proof fn lemma_count_insert(s: Seq<i32>, p: int, x: i32, v: i32)
    requires
        0 <= p <= s.len(),
    ensures
        count_gt(s.insert(p, x), v) == count_gt(s, v) + if x > v {
            1nat
        } else {
            0nat
        },
        count_ge(s.insert(p, x), v) == count_ge(s, v) + if x >= v {
            1nat
        } else {
            0nat
        },
{
    let front = s.subrange(0, p);
    let back = s.subrange(p, s.len() as int);
    assert(s.insert(p, x) == front.push(x) + back);
    lemma_count_concat(front.push(x), back, v);
    lemma_count_push(front, x, v);
    lemma_count_concat(front, back, v);
    assert(front + back =~= s);
}

proof fn lemma_count_gt_none(s: Seq<i32>, v: i32)
    requires
        forall|i: int| 0 <= i < s.len() ==> s[i] <= v,
    ensures
        count_gt(s, v) == 0,
    decreases s.len(),
{
    if s.len() > 0 {
        lemma_count_gt_none(s.drop_last(), v);
    }
}

/// In a sorted sequence, the element at index `k` has at most `len - 1 - k`
/// elements above it and at least `len - k` elements at or above it.
proof fn lemma_sorted_count_bounds(s: Seq<i32>, k: int)
    requires
        sorted_asc(s),
        0 <= k < s.len(),
    ensures
        count_gt(s, s[k]) <= s.len() - 1 - k,
        count_ge(s, s[k]) >= s.len() - k,
    decreases s.len(),
{
    if k == s.len() - 1 {
        lemma_count_gt_none(s.drop_last(), s[k]);
    } else {
        let t = s.drop_last();
        lemma_sorted_count_bounds(t, k);
    }
}

/// Values at or above the larger of two values are strictly above the
/// smaller one.
proof fn lemma_count_order(s: Seq<i32>, v1: i32, v2: i32)
    requires
        v1 < v2,
    ensures
        count_ge(s, v2) <= count_gt(s, v1),
    decreases s.len(),
{
    if s.len() > 0 {
        lemma_count_order(s.drop_last(), v1, v2);
    }
}

/// Law: the count bounds in `nthmax`'s contract pin the answer: at most one
/// value can satisfy them for a given rank.
pub proof fn lemma_nthmax_unique(s: Seq<i32>, n: int, v1: i32, v2: i32)
    requires
        count_gt(s, v1) <= n < count_ge(s, v1),
        count_gt(s, v2) <= n < count_ge(s, v2),
    ensures
        v1 == v2,
{
    if v1 < v2 {
        lemma_count_order(s, v1, v2);
    }
    if v2 < v1 {
        lemma_count_order(s, v2, v1);
    }
}

/// Returns the nth largest element in `a` (0-indexed: `n == 0` gives the
/// maximum), or None if `n` is out of range. The result is the unique value
/// with at most `n` elements strictly above it and more than `n` elements at
/// or above it.
pub fn nthmax(n: usize, a: &[i32]) -> (r: Option<i32>)
    ensures
        match r {
            Some(v) => n < a@.len() && count_gt(a@, v) <= n < count_ge(a@, v),
            None => n >= a@.len(),
        },
{
    let len = a.len();
    if n >= len {
        return None;
    }
    let mut sorted_vals: Vec<i32> = Vec::new();
    let mut i: usize = 0;
    proof {
        assert(a@.take(0) =~= Seq::<i32>::empty());
    }
    while i < len
        invariant
            len == a@.len(),
            i <= len,
            sorted_vals@.len() == i,
            sorted_asc(sorted_vals@),
            forall|v: i32| count_gt(sorted_vals@, v) == count_gt(a@.take(i as int), v),
            forall|v: i32| count_ge(sorted_vals@, v) == count_ge(a@.take(i as int), v),
        decreases len - i,
    {
        let x = a[i];
        let mut p: usize = 0;
        while p < i && sorted_vals[p] <= x
            invariant
                i == sorted_vals@.len(),
                p <= i,
                forall|q: int| 0 <= q < p ==> sorted_vals@[q] <= x,
            decreases i - p,
        {
            p += 1;
        }
        let ghost pre = sorted_vals@;
        proof {
            pre.insert_ensures(p as int, x);
            assert forall|v: i32| count_gt(pre.insert(p as int, x), v) == count_gt(
                a@.take(i as int + 1),
                v,
            ) by {
                lemma_count_insert(pre, p as int, x, v);
                lemma_count_push(a@.take(i as int), a@[i as int], v);
                assert(a@.take(i as int + 1) =~= a@.take(i as int).push(a@[i as int]));
            }
            assert forall|v: i32| count_ge(pre.insert(p as int, x), v) == count_ge(
                a@.take(i as int + 1),
                v,
            ) by {
                lemma_count_insert(pre, p as int, x, v);
                lemma_count_push(a@.take(i as int), a@[i as int], v);
                assert(a@.take(i as int + 1) =~= a@.take(i as int).push(a@[i as int]));
            }
        }
        sorted_vals.insert(p, x);
        proof {
            assert forall|b: int, c: int|
                0 <= b < c < sorted_vals@.len() implies sorted_vals@[b] <= sorted_vals@[c] by {
                if b < p && c < p {
                    assert(sorted_vals@[b] == pre[b] && sorted_vals@[c] == pre[c]);
                } else if b < p && c == p {
                    assert(sorted_vals@[b] == pre[b] && sorted_vals@[c] == x);
                } else if b < p && c > p {
                    assert(sorted_vals@[b] == pre[b] && sorted_vals@[c] == pre[c - 1]);
                } else if b == p && c > p {
                    assert(sorted_vals@[b] == x && sorted_vals@[c] == pre[c - 1]);
                    assert(pre[c - 1] >= pre[p as int]);
                } else {
                    assert(sorted_vals@[b] == pre[b - 1] && sorted_vals@[c] == pre[c - 1]);
                }
            }
        }
        i += 1;
    }
    proof {
        assert(a@.take(len as int) =~= a@);
    }
    let v = sorted_vals[len - n - 1];
    proof {
        lemma_sorted_count_bounds(sorted_vals@, len - n - 1);
    }
    Some(v)
}

} // verus!
