//! Ranking of stored records by similarity score.
//!
//! A ranking of a score sequence lists all row indices in descending score
//! order, breaking ties by storage order.  That order on indices is strict
//! and total, so the ranking is unique: `lemma_ranking_unique` states the
//! determinism of retrieval.  `rank_indices` computes the ranking with an
//! insertion sort, which shows one always exists.

use vstd::prelude::*;
use vstd::pervasive::VecAdditionalExecFns;

use crate::score::{no_nan, score_eq, score_key, score_lt};

verus! {

/// Row index `i` comes before row index `j`: a strictly higher score key,
/// or equal keys with `i` earlier in storage order.
pub open spec fn rank_before(scores: Seq<u32>, i: int, j: int) -> bool {
    ||| score_key(scores[i]) > score_key(scores[j])
    ||| (score_key(scores[i]) == score_key(scores[j]) && i < j)
}

/// The indices listed by `r` are in descending rank order.
pub open spec fn rank_sorted(scores: Seq<u32>, r: Seq<usize>) -> bool {
    forall|k1: int, k2: int|
        0 <= k1 < k2 < r.len() ==> rank_before(scores, r[k1] as int, r[k2] as int)
}

/// `r` is the ranking of `scores`: it lists every row index exactly once,
/// in descending score order, ties in storage order.
pub open spec fn is_ranking(scores: Seq<u32>, r: Seq<usize>) -> bool {
    &&& r.len() == scores.len()
    &&& forall|k: int| 0 <= k < r.len() ==> (#[trigger] r[k]) < scores.len()
    &&& forall|i: usize| i < scores.len() ==> #[trigger] r.contains(i)
    &&& rank_sorted(scores, r)
}

/// The ranking of `scores`.  `lemma_ranking_unique` makes it canonical and
/// `rank_indices` shows that it exists.
pub open spec fn the_ranking(scores: Seq<u32>) -> Seq<usize> {
    choose|r: Seq<usize>| is_ranking(scores, r)
}

/// Two sequences that are sorted by rank and list the same indices are
/// equal.
proof fn lemma_rank_sorted_same_elements(scores: Seq<u32>, r1: Seq<usize>, r2: Seq<usize>)
    requires
        rank_sorted(scores, r1),
        rank_sorted(scores, r2),
        forall|v: usize| r1.contains(v) <==> #[trigger] r2.contains(v),
    ensures
        r1 == r2,
    decreases r1.len(),
{
    if r1.len() == 0 {
        if r2.len() > 0 {
            assert(r2.contains(r2[0]));
            assert(r1.contains(r2[0]));
            assert(false);
        }
        assert(r1 =~= r2);
    } else if r2.len() == 0 {
        assert(r1.contains(r1[0]));
        assert(r2.contains(r1[0]));
        assert(false);
    } else {
        let h1 = r1[0];
        let h2 = r2[0];
        assert(r1.contains(h1));
        assert(r2.contains(h2));
        assert(r2.contains(h1));
        assert(r1.contains(h2));
        let k2 = choose|k: int| 0 <= k < r2.len() && r2[k] == h1;
        let k1 = choose|k: int| 0 <= k < r1.len() && r1[k] == h2;
        assert(0 <= k2 < r2.len() && r2[k2] == h1);
        assert(0 <= k1 < r1.len() && r1[k1] == h2);
        if h1 != h2 {
            assert(k2 > 0);
            assert(k1 > 0);
            assert(rank_before(scores, h2 as int, h1 as int));
            assert(rank_before(scores, h1 as int, h2 as int));
            assert(false);
        }
        let t1 = r1.subrange(1, r1.len() as int);
        let t2 = r2.subrange(1, r2.len() as int);
        assert(rank_sorted(scores, t1)) by {
            assert forall|a: int, b: int|
                0 <= a < b < t1.len() implies rank_before(scores, t1[a] as int, t1[b] as int) by {
                assert(t1[a] == r1[a + 1]);
                assert(t1[b] == r1[b + 1]);
            }
        }
        assert(rank_sorted(scores, t2)) by {
            assert forall|a: int, b: int|
                0 <= a < b < t2.len() implies rank_before(scores, t2[a] as int, t2[b] as int) by {
                assert(t2[a] == r2[a + 1]);
                assert(t2[b] == r2[b + 1]);
            }
        }
        assert forall|v: usize| t1.contains(v) <==> #[trigger] t2.contains(v) by {
            lemma_tail_contains(scores, r1, v);
            lemma_tail_contains(scores, r2, v);
        }
        lemma_rank_sorted_same_elements(scores, t1, t2);
        assert(r1 =~= r2) by {
            assert forall|k: int| 0 < k < r1.len() implies r1[k] == r2[k] by {
                assert(t1[k - 1] == r1[k]);
                assert(t2[k - 1] == r2[k]);
            }
        }
    }
}

/// An index is listed in the tail of a rank-sorted sequence exactly when it
/// is listed at all and differs from the head.
proof fn lemma_tail_contains(scores: Seq<u32>, r: Seq<usize>, v: usize)
    requires
        rank_sorted(scores, r),
        r.len() > 0,
    ensures
        r.subrange(1, r.len() as int).contains(v) <==> (r.contains(v) && v != r[0]),
{
    let t = r.subrange(1, r.len() as int);
    if t.contains(v) {
        let k = choose|k: int| 0 <= k < t.len() && t[k] == v;
        assert(r[k + 1] == v);
        assert(r.contains(v));
        if v == r[0] {
            assert(rank_before(scores, r[0] as int, r[k + 1] as int));
            assert(false);
        }
    }
    if r.contains(v) && v != r[0] {
        let k = choose|k: int| 0 <= k < r.len() && r[k] == v;
        assert(k > 0);
        assert(t[k - 1] == v);
        assert(t.contains(v));
    }
}

/// Determinism of ranking: a fixed score sequence has exactly one ranking,
/// so repeated retrievals from an unchanged collection with an unchanged
/// query order the results identically.
pub proof fn lemma_ranking_unique(scores: Seq<u32>, r1: Seq<usize>, r2: Seq<usize>)
    requires
        is_ranking(scores, r1),
        is_ranking(scores, r2),
    ensures
        r1 == r2,
{
    assert forall|v: usize| r1.contains(v) <==> #[trigger] r2.contains(v) by {
        if r1.contains(v) {
            let k = choose|k: int| 0 <= k < r1.len() && r1[k] == v;
            assert(v < scores.len());
        }
        if r2.contains(v) {
            let k = choose|k: int| 0 <= k < r2.len() && r2[k] == v;
            assert(v < scores.len());
        }
    }
    lemma_rank_sorted_same_elements(scores, r1, r2);
}

/// Any ranking is the canonical one.
pub proof fn lemma_the_ranking(scores: Seq<u32>, r: Seq<usize>)
    requires
        is_ranking(scores, r),
    ensures
        is_ranking(scores, the_ranking(scores)),
        the_ranking(scores) == r,
{
    assert(exists|x: Seq<usize>| is_ranking(scores, x));
    lemma_ranking_unique(scores, r, the_ranking(scores));
}

/// Row index `i` holds the first maximum: no row scores higher, and every
/// earlier row scores strictly lower.
pub open spec fn is_first_max(scores: Seq<u32>, i: int) -> bool {
    &&& 0 <= i < scores.len()
    &&& forall|j: int|
        0 <= j < scores.len() ==> score_key(#[trigger] scores[j]) <= score_key(scores[i])
    &&& forall|j: int| 0 <= j < i ==> score_key(#[trigger] scores[j]) < score_key(scores[i])
}

/// The index of the first maximum of a non-empty score sequence.
pub open spec fn the_top(scores: Seq<u32>) -> int {
    choose|i: int| is_first_max(scores, i)
}

/// Determinism of single retrieval: the first maximum is unique.
pub proof fn lemma_first_max_unique(scores: Seq<u32>, i1: int, i2: int)
    requires
        is_first_max(scores, i1),
        is_first_max(scores, i2),
    ensures
        i1 == i2,
{
    if i1 < i2 {
        assert(score_key(scores[i1]) < score_key(scores[i2]));
        assert(score_key(scores[i2]) <= score_key(scores[i1]));
    }
    if i2 < i1 {
        assert(score_key(scores[i2]) < score_key(scores[i1]));
        assert(score_key(scores[i1]) <= score_key(scores[i2]));
    }
}

/// Any first maximum is the canonical one.
pub proof fn lemma_the_top(scores: Seq<u32>, i: int)
    requires
        is_first_max(scores, i),
    ensures
        is_first_max(scores, the_top(scores)),
        the_top(scores) == i,
{
    assert(exists|x: int| is_first_max(scores, x));
    lemma_first_max_unique(scores, i, the_top(scores));
}

/// Single retrieval agrees with listing: the first maximum heads every
/// ranking.
pub proof fn lemma_first_max_is_ranking_head(scores: Seq<u32>, r: Seq<usize>, i: int)
    requires
        scores.len() <= usize::MAX,
        is_ranking(scores, r),
        is_first_max(scores, i),
    ensures
        r.len() > 0,
        r[0] == i,
{
    assert((i as usize) as int == i);
    assert(r.contains(i as usize));
    let k = choose|k: int| 0 <= k < r.len() && r[k] == i as usize;
    assert(0 <= k < r.len() && r[k] == i as usize);
    if k > 0 {
        assert(rank_before(scores, r[0] as int, r[k] as int));
        assert(r[k] as int == i);
        assert(rank_before(scores, r[0] as int, i));
        assert(score_key(scores[r[0] as int]) <= score_key(scores[i]));
        assert((r[0] as int) < i ==> score_key(scores[r[0] as int]) < score_key(scores[i]));
        assert(false);
    }
}

/// Whether index `i` ranks before index `j` under `scores`.
fn rank_before_exec(scores: &Vec<u32>, i: usize, j: usize) -> (r: bool)
    requires
        i < scores@.len(),
        j < scores@.len(),
    ensures
        r == rank_before(scores@, i as int, j as int),
{
    if score_lt(scores[j], scores[i]) {
        true
    } else if score_eq(scores[i], scores[j]) {
        i < j
    } else {
        false
    }
}

/// Compute the ranking of `scores`: every row index once, in descending
/// score order, ties in storage order.
pub fn rank_indices(scores: &Vec<u32>) -> (r: Vec<usize>)
    requires
        no_nan(scores@),
    ensures
        is_ranking(scores@, r@),
        r@ == the_ranking(scores@),
{
    let n = scores.len();
    let mut order: Vec<usize> = Vec::new();
    let mut i: usize = 0;
    while i < n
        invariant
            i <= n,
            order@.len() == i,
            forall|k: int| 0 <= k < i ==> #[trigger] order@[k] == k,
        decreases n - i,
    {
        order.push(i);
        i += 1;
    }
    assert forall|v: usize| v < n implies order@.contains(v) by {
        assert(order@[v as int] == v);
    }
    let mut k: usize = 1;
    while k < n
        invariant
            k >= 1,
            n == scores@.len(),
            order@.len() == n,
            forall|k2: int| 0 <= k2 < n ==> (#[trigger] order@[k2]) < n,
            forall|v: usize| v < n ==> #[trigger] order@.contains(v),
            forall|a: int, b: int| 0 <= a < b < n ==> order@[a] != order@[b],
            forall|a: int, b: int|
                0 <= a < b < k && b < n ==> rank_before(scores@, order@[a] as int, order@[b] as int),
        decreases n - k,
    {
        let ghost entry = order@;
        let mut j: usize = k;
        while j > 0 && rank_before_exec(scores, order[j], order[j - 1])
            invariant
                j <= k < n,
                n == scores@.len(),
                order@.len() == n,
                forall|k2: int| 0 <= k2 < n ==> (#[trigger] order@[k2]) < n,
                forall|v: usize| v < n ==> #[trigger] order@.contains(v),
                forall|a: int, b: int| 0 <= a < b < n ==> order@[a] != order@[b],
                forall|a: int, b: int|
                    0 <= a < b <= k && b != j ==> rank_before(
                        scores@,
                        order@[a] as int,
                        order@[b] as int,
                    ),
                forall|b: int|
                    j < b <= k ==> rank_before(scores@, order@[j as int] as int, order@[b] as int),
            decreases j,
        {
            let ghost pre = order@;
            let x = order[j - 1];
            let y = order[j];
            order.set(j - 1, y);
            order.set(j, x);
            proof {
                assert(order@ =~= pre.update(j - 1, pre[j as int]).update(j as int, pre[j - 1]));
                assert forall|v: usize| v < n implies #[trigger] order@.contains(v) by {
                    assert(pre.contains(v));
                    let m = choose|m: int| 0 <= m < pre.len() && pre[m] == v;
                    assert(0 <= m < pre.len() && pre[m] == v);
                    if m == j - 1 {
                        assert(order@[j as int] == v);
                    } else if m == j {
                        assert(order@[j - 1] == v);
                    } else {
                        assert(order@[m] == v);
                    }
                }
            }
            j -= 1;
        }
        proof {
            if j > 0 {
                assert(!rank_before(scores@, order@[j as int] as int, order@[j - 1] as int));
                assert(order@[j - 1] != order@[j as int]);
                assert(rank_before(scores@, order@[j - 1] as int, order@[j as int] as int));
            }
            assert forall|a: int, b: int|
                0 <= a < b < k + 1 && b < n implies rank_before(
                scores@,
                order@[a] as int,
                order@[b] as int,
            ) by {
                if b == j {
                    if a < j - 1 {
                        assert(rank_before(scores@, order@[a] as int, order@[j - 1] as int));
                    }
                }
            }
        }
        k += 1;
    }
    proof {
        assert(rank_sorted(scores@, order@));
        assert(is_ranking(scores@, order@));
        lemma_the_ranking(scores@, order@);
    }
    order
}

} // verus!
