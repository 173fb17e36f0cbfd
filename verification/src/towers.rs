//! The express lanes of a skiplist, told from the heights of its towers alone.
//!
//! The towers stand in list order at the positions `0, 1, ..`, and the head
//! stands at position `-1`. At level `l` a node points to the next tower that is
//! higher than `l`.
use vstd::prelude::*;

verus! {

/// The first position from `p` on whose tower reaches above level `l`, or the
/// end of the list.
pub open spec fn next_from(h: Seq<nat>, p: int, l: int) -> int
    decreases h.len() - p,
{
    if p >= h.len() {
        h.len() as int
    } else if h[p] > l {
        p
    } else {
        next_from(h, p + 1, l)
    }
}

/// The last position left of `p` whose tower reaches above level `l`, or that of
/// the head.
pub open spec fn last_before(h: Seq<nat>, p: int, l: int) -> int
    decreases p,
{
    if p <= 0 {
        -1
    } else if h[p - 1] > l {
        p - 1
    } else {
        last_before(h, p - 1, l)
    }
}

pub proof fn lemma_next_from(h: Seq<nat>, p: int, l: int)
    requires
        0 <= p <= h.len(),
    ensures
        p <= next_from(h, p, l) <= h.len(),
        next_from(h, p, l) < h.len() ==> h[next_from(h, p, l)] > l,
        forall|q: int| p <= q < next_from(h, p, l) ==> #[trigger] h[q] <= l,
    decreases h.len() - p,
{
    if p < h.len() && h[p] <= l {
        lemma_next_from(h, p + 1, l);
    }
}

pub proof fn lemma_next_from_unique(h: Seq<nat>, p: int, l: int, r: int)
    requires
        0 <= p <= r <= h.len(),
        r < h.len() ==> h[r] > l,
        forall|q: int| p <= q < r ==> #[trigger] h[q] <= l,
    ensures
        next_from(h, p, l) == r,
    decreases r - p,
{
    if p < r {
        assert(h[p] <= l);
        lemma_next_from_unique(h, p + 1, l, r);
    }
}

pub proof fn lemma_last_before(h: Seq<nat>, p: int, l: int)
    requires
        0 <= p <= h.len(),
    ensures
        -1 <= last_before(h, p, l) < p,
        last_before(h, p, l) >= 0 ==> h[last_before(h, p, l)] > l,
        forall|q: int| last_before(h, p, l) < q < p ==> #[trigger] h[q] <= l,
    decreases p,
{
    if p > 0 && h[p - 1] <= l {
        lemma_last_before(h, p - 1, l);
    }
}

pub proof fn lemma_last_before_unique(h: Seq<nat>, p: int, l: int, r: int)
    requires
        -1 <= r < p <= h.len(),
        r >= 0 ==> h[r] > l,
        forall|q: int| r < q < p ==> #[trigger] h[q] <= l,
    ensures
        last_before(h, p, l) == r,
    decreases p - r,
{
    if p - 1 > r {
        assert(h[p - 1] <= l);
        lemma_last_before_unique(h, p - 1, l, r);
    }
}

/// A node at position `p` that reaches above level `l` is followed there by the
/// first tower from `k` on exactly if it is the last one left of `k`.
pub proof fn lemma_neighbours(h: Seq<nat>, p: int, k: int, l: int)
    requires
        -1 <= p < k <= h.len(),
        p >= 0 ==> h[p] > l,
    ensures
        next_from(h, p + 1, l) >= k <==> p == last_before(h, k, l),
        next_from(h, p + 1, l) >= k ==> next_from(h, p + 1, l) == next_from(h, k, l),
{
    lemma_next_from(h, p + 1, l);
    lemma_last_before(h, k, l);
    let q = next_from(h, p + 1, l);
    if q >= k {
        lemma_last_before_unique(h, k, l, p);
        lemma_next_from_unique(h, k, l, q);
    } else {
        assert(h[q] > l);
    }
}

/// What follows each node after a tower of height `t` is put in at `k`.
pub proof fn lemma_next_after_insert(h: Seq<nat>, k: int, t: nat, p: int, l: int)
    requires
        0 <= k <= h.len(),
        -1 <= p <= h.len(),
    ensures
        p < k && next_from(h, p + 1, l) < k ==> next_from(h.insert(k, t), p + 1, l) == next_from(
            h,
            p + 1,
            l,
        ),
        p < k && next_from(h, p + 1, l) >= k ==> next_from(h.insert(k, t), p + 1, l) == if l < t {
            k
        } else {
            next_from(h, p + 1, l) + 1
        },
        p >= k ==> next_from(h.insert(k, t), p + 1, l) == next_from(h, p, l) + 1,
{
    let h2 = h.insert(k, t);
    if p < k {
        lemma_next_from(h, p + 1, l);
        let q = next_from(h, p + 1, l);
        assert(forall|i: int| 0 <= i < k ==> h2[i] == h[i]);
        assert(forall|i: int| k < i < h2.len() ==> h2[i] == h[i - 1]);
        if q < k {
            lemma_next_from_unique(h2, p + 1, l, q);
        } else if l < t {
            lemma_next_from_unique(h2, p + 1, l, k);
        } else {
            lemma_next_from_unique(h2, p + 1, l, q + 1);
        }
    } else {
        lemma_next_from(h, p, l);
        let q = next_from(h, p, l);
        assert(forall|i: int| k < i < h2.len() ==> h2[i] == h[i - 1]);
        lemma_next_from_unique(h2, p + 1, l, q + 1);
    }
}

/// What follows each node after the tower at `k` is taken out.
pub proof fn lemma_next_after_remove(h: Seq<nat>, k: int, p: int, l: int)
    requires
        0 <= k < h.len(),
        -1 <= p < h.len() - 1,
    ensures
        p < k && next_from(h, p + 1, l) < k ==> next_from(h.remove(k), p + 1, l) == next_from(
            h,
            p + 1,
            l,
        ),
        p < k && next_from(h, p + 1, l) == k ==> next_from(h.remove(k), p + 1, l) == next_from(
            h,
            k + 1,
            l,
        ) - 1,
        p < k && next_from(h, p + 1, l) > k ==> next_from(h.remove(k), p + 1, l) == next_from(
            h,
            p + 1,
            l,
        ) - 1,
        p >= k ==> next_from(h.remove(k), p + 1, l) == next_from(h, p + 2, l) - 1,
{
    let h2 = h.remove(k);
    assert(forall|i: int| 0 <= i < k ==> h2[i] == h[i]);
    assert(forall|i: int| k <= i < h2.len() ==> h2[i] == h[i + 1]);
    if p < k {
        lemma_next_from(h, p + 1, l);
        let q = next_from(h, p + 1, l);
        if q < k {
            lemma_next_from_unique(h2, p + 1, l, q);
        } else if q == k {
            lemma_next_from(h, k + 1, l);
            lemma_next_from_unique(h2, p + 1, l, next_from(h, k + 1, l) - 1);
        } else {
            lemma_next_from_unique(h2, p + 1, l, q - 1);
        }
    } else {
        lemma_next_from(h, p + 2, l);
        lemma_next_from_unique(h2, p + 1, l, next_from(h, p + 2, l) - 1);
    }
}

} // verus!
