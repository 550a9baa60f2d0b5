//! The cluster-partition data structure and its invariant.
//!
//! A partition of `n` frame positions is an ordered list of non-empty
//! clusters; cluster `i` holds exactly the contiguous run of positions that
//! starts where cluster `i - 1` ended, so the clusters together cover
//! `0 .. n` once each, in order.

use vstd::prelude::*;

verus! {

/// The mathematical view of a cluster list: the sequence of the clusters'
/// position sequences.
pub open spec fn views(cs: Seq<Vec<usize>>) -> Seq<Seq<usize>> {
    Seq::new(cs.len(), |i: int| cs[i]@)
}

/// Number of positions held by the first `i` clusters of `p`.
pub open spec fn csum(p: Seq<Seq<usize>>, i: int) -> int
    decreases i,
{
    if i <= 0 {
        0
    } else {
        csum(p, i - 1) + p[i - 1].len()
    }
}

/// A partition of the positions `0 .. n`: every cluster is non-empty, and
/// cluster `i` is exactly the contiguous increasing run of positions that
/// begins where cluster `i - 1` ended.
pub open spec fn valid_partition(p: Seq<Seq<usize>>, n: nat) -> bool {
    &&& forall|i: int| 0 <= i < p.len() ==> (#[trigger] p[i]).len() > 0
    &&& forall|i: int, j: int|
        #![trigger p[i][j]]
        0 <= i < p.len() && 0 <= j < p[i].len() ==> p[i][j] as int == csum(p, i) + j
    &&& csum(p, p.len() as int) == n
}

/// Two cluster lists that agree on their first `i` clusters count the same
/// number of positions there.
pub proof fn lemma_csum_agree(p: Seq<Seq<usize>>, q: Seq<Seq<usize>>, i: int)
    requires
        forall|k: int| 0 <= k < i ==> p[k] == q[k],
    ensures
        csum(p, i) == csum(q, i),
    decreases i,
{
    if i > 0 {
        lemma_csum_agree(p, q, i - 1);
    }
}

/// Position counts over prefixes grow with the prefix.
pub proof fn lemma_csum_mono(p: Seq<Seq<usize>>, i: int, j: int)
    requires
        0 <= i <= j,
    ensures
        csum(p, i) <= csum(p, j),
    decreases j,
{
    if j > i {
        lemma_csum_mono(p, i, j - 1);
    }
}

/// In a valid partition of `0 .. n`, every held position is below `n`.
pub proof fn lemma_positions_in_range(p: Seq<Seq<usize>>, n: nat)
    requires
        valid_partition(p, n),
    ensures
        forall|i: int, j: int|
            #![trigger p[i][j]]
            0 <= i < p.len() && 0 <= j < p[i].len() ==> (p[i][j] as int) < n,
{
    assert forall|i: int, j: int|
        #![trigger p[i][j]]
        0 <= i < p.len() && 0 <= j < p[i].len() implies (p[i][j] as int) < n by {
        assert(p[i][j] as int == csum(p, i) + j);
        assert(csum(p, i + 1) == csum(p, i) + p[i].len());
        lemma_csum_mono(p, i + 1, p.len() as int);
    }
}

/// The partition with clusters `i` and `i + 1` folded into one cluster that
/// holds the positions of both, in temporal order.
pub open spec fn merge_pair(p: Seq<Seq<usize>>, i: int) -> Seq<Seq<usize>> {
    p.update(i, p[i] + p[i + 1]).remove(i + 1)
}

proof fn lemma_csum_merge_pair(p: Seq<Seq<usize>>, i: int, k: int)
    requires
        0 <= i,
        i + 1 < p.len(),
        i < k <= p.len() - 1,
    ensures
        csum(merge_pair(p, i), k) == csum(p, k + 1),
    decreases k,
{
    let q = merge_pair(p, i);
    if k == i + 1 {
        lemma_csum_agree(q, p, i);
        assert(q[i] == p[i] + p[i + 1]);
        assert(q[i].len() == p[i].len() + p[i + 1].len());
        assert(csum(q, i + 1) == csum(q, i) + q[i].len());
        assert(csum(p, i + 2) == csum(p, i + 1) + p[i + 1].len());
        assert(csum(p, i + 1) == csum(p, i) + p[i].len());
    } else {
        lemma_csum_merge_pair(p, i, k - 1);
        assert(q[k - 1] == p[k]);
        assert(csum(q, k) == csum(q, k - 1) + q[k - 1].len());
        assert(csum(p, k + 1) == csum(p, k) + p[k].len());
    }
}

/// Folding two adjacent clusters of a valid partition yields a valid
/// partition of the same positions.
pub proof fn lemma_merge_pair_valid(p: Seq<Seq<usize>>, n: nat, i: int)
    requires
        valid_partition(p, n),
        0 <= i,
        i + 1 < p.len(),
    ensures
        valid_partition(merge_pair(p, i), n),
        merge_pair(p, i).len() == p.len() - 1,
{
    let q = merge_pair(p, i);
    assert(q.len() == p.len() - 1);
    assert(q[i] == p[i] + p[i + 1]);
    assert forall|k: int| 0 <= k < q.len() implies (#[trigger] q[k]).len() > 0 by {
        if k < i {
            assert(q[k] == p[k]);
        } else if k == i {
            assert(q[i].len() == p[i].len() + p[i + 1].len());
        } else {
            assert(q[k] == p[k + 1]);
        }
    }
    assert forall|k: int, j: int|
        #![trigger q[k][j]]
        0 <= k < q.len() && 0 <= j < q[k].len() implies q[k][j] as int == csum(q, k) + j by {
        if k < i {
            assert(q[k] == p[k]);
            lemma_csum_agree(q, p, k);
        } else if k == i {
            lemma_csum_agree(q, p, i);
            if j < p[i].len() {
                assert(q[i][j] == p[i][j]);
            } else {
                assert(q[i][j] == p[i + 1][j - p[i].len()]);
                assert(p[i + 1][j - p[i].len()] as int == csum(p, i + 1) + j - p[i].len());
                assert(csum(p, i + 1) == csum(p, i) + p[i].len());
            }
        } else {
            assert(q[k] == p[k + 1]);
            lemma_csum_merge_pair(p, i, k);
            assert(csum(p, k + 1) + j == csum(q, k) + j);
        }
    }
    if i + 1 == p.len() - 1 {
        lemma_csum_merge_pair(p, i, i + 1);
    } else {
        lemma_csum_merge_pair(p, i, p.len() - 1);
    }
    assert(csum(q, q.len() as int) == n);
}

/// Appending the next position `x == n` to the last cluster of a valid
/// partition of `0 .. n` yields a valid partition of `0 .. n + 1`.
pub proof fn lemma_extend_last(p_old: Seq<Seq<usize>>, p_new: Seq<Seq<usize>>, x: usize, n: nat)
    requires
        valid_partition(p_old, n),
        x as int == n,
        p_old.len() >= 1,
        p_new.len() == p_old.len(),
        forall|k: int| 0 <= k < p_old.len() - 1 ==> p_new[k] == p_old[k],
        p_new[p_new.len() - 1] == p_old[p_old.len() - 1].push(x),
    ensures
        valid_partition(p_new, n + 1),
{
    let last = p_old.len() - 1;
    lemma_csum_agree(p_new, p_old, last);
    assert(csum(p_old, last + 1) == csum(p_old, last) + p_old[last].len());
    assert(csum(p_new, last + 1) == csum(p_new, last) + p_new[last].len());
    assert forall|c: int, j: int|
        #![trigger p_new[c][j]]
        0 <= c < p_new.len() && 0 <= j < p_new[c].len() implies p_new[c][j] as int == csum(
        p_new,
        c,
    ) + j by {
        if c < last {
            assert(p_new[c] == p_old[c]);
            lemma_csum_agree(p_new, p_old, c);
        } else {
            if j < p_old[last].len() {
                assert(p_new[c][j] == p_old[c][j]);
            } else {
                assert(p_new[c][j] == x);
            }
        }
    }
}

/// Opening a new singleton cluster holding the next position `x == n` after
/// a valid partition of `0 .. n` yields a valid partition of `0 .. n + 1`.
pub proof fn lemma_open_cluster(p_old: Seq<Seq<usize>>, p_new: Seq<Seq<usize>>, x: usize, n: nat)
    requires
        valid_partition(p_old, n),
        x as int == n,
        p_new == p_old.push(seq![x]),
    ensures
        valid_partition(p_new, n + 1),
{
    let last = p_old.len() as int;
    lemma_csum_agree(p_new, p_old, last);
    assert(csum(p_new, last + 1) == csum(p_new, last) + p_new[last].len());
    assert forall|c: int, j: int|
        #![trigger p_new[c][j]]
        0 <= c < p_new.len() && 0 <= j < p_new[c].len() implies p_new[c][j] as int == csum(
        p_new,
        c,
    ) + j by {
        if c < last {
            assert(p_new[c] == p_old[c]);
            lemma_csum_agree(p_new, p_old, c);
        } else {
            assert(p_new[c][j] == x);
        }
    }
}

/// Whether some cluster of `p` holds the position `k`.
pub open spec fn has_position(p: Seq<Seq<usize>>, k: int) -> bool {
    exists|i: int, j: int|
        0 <= i < p.len() && 0 <= j < p[i].len() && #[trigger] p[i][j] as int == k
}

/// Partition completeness: each position `0 <= k < n` occurs in some cluster
/// of a valid partition, and at exactly one place.
pub proof fn lemma_partition_complete(p: Seq<Seq<usize>>, n: nat)
    requires
        valid_partition(p, n),
    ensures
        forall|k: int| 0 <= k < n ==> #[trigger] has_position(p, k),
        forall|i1: int, j1: int, i2: int, j2: int|
            #![trigger p[i1][j1], p[i2][j2]]
            0 <= i1 < p.len() && 0 <= j1 < p[i1].len() && 0 <= i2 < p.len() && 0 <= j2
                < p[i2].len() && p[i1][j1] == p[i2][j2] ==> i1 == i2 && j1 == j2,
{
    assert forall|k: int| 0 <= k < n implies #[trigger] has_position(p, k) by {
        lemma_find_position(p, n, p.len() as int, k);
    }
    assert forall|i1: int, j1: int, i2: int, j2: int|
        #![trigger p[i1][j1], p[i2][j2]]
        0 <= i1 < p.len() && 0 <= j1 < p[i1].len() && 0 <= i2 < p.len() && 0 <= j2 < p[i2].len()
            && p[i1][j1] == p[i2][j2] implies i1 == i2 && j1 == j2 by {
        if i1 < i2 {
            assert(csum(p, i1 + 1) == csum(p, i1) + p[i1].len());
            lemma_csum_mono(p, i1 + 1, i2);
            assert(false);
        }
        if i2 < i1 {
            assert(csum(p, i2 + 1) == csum(p, i2) + p[i2].len());
            lemma_csum_mono(p, i2 + 1, i1);
            assert(false);
        }
    }
}

proof fn lemma_find_position(p: Seq<Seq<usize>>, n: nat, m: int, k: int)
    requires
        valid_partition(p, n),
        0 <= m <= p.len(),
        0 <= k < csum(p, m),
    ensures
        exists|i: int, j: int|
            0 <= i < m && 0 <= j < p[i].len() && #[trigger] p[i][j] as int == k,
    decreases m,
{
    if m > 0 {
        if k >= csum(p, m - 1) {
            let j = k - csum(p, m - 1);
            assert(csum(p, m) == csum(p, m - 1) + p[m - 1].len());
            assert(p[m - 1][j] as int == csum(p, m - 1) + j);
        } else {
            lemma_find_position(p, n, m - 1, k);
        }
    }
}

/// Order preservation: positions are strictly increasing within a cluster,
/// the first element of a cluster is its minimum, and clusters are sorted
/// ascending by minimum element.
pub proof fn lemma_partition_ordered(p: Seq<Seq<usize>>, n: nat)
    requires
        valid_partition(p, n),
    ensures
        forall|i: int, j1: int, j2: int|
            #![trigger p[i][j1], p[i][j2]]
            0 <= i < p.len() && 0 <= j1 < j2 < p[i].len() ==> p[i][j1] < p[i][j2],
        forall|i: int, j: int|
            #![trigger p[i][j]]
            0 <= i < p.len() && 0 <= j < p[i].len() ==> p[i][0] <= p[i][j],
        forall|i1: int, i2: int|
            #![trigger p[i1][0], p[i2][0]]
            0 <= i1 < i2 < p.len() ==> p[i1][0] < p[i2][0],
{
    assert forall|i: int, j: int|
        #![trigger p[i][j]]
        0 <= i < p.len() && 0 <= j < p[i].len() implies p[i][0] <= p[i][j] by {
        assert(p[i][0] as int == csum(p, i));
        assert(p[i][j] as int == csum(p, i) + j);
    }
    assert forall|i1: int, i2: int|
        #![trigger p[i1][0], p[i2][0]]
        0 <= i1 < i2 < p.len() implies p[i1][0] < p[i2][0] by {
        assert(p[i1][0] as int == csum(p, i1));
        assert(p[i2][0] as int == csum(p, i2));
        assert(csum(p, i1 + 1) == csum(p, i1) + p[i1].len());
        lemma_csum_mono(p, i1 + 1, i2);
    }
}

/// Folds clusters `i` and `i + 1` of the cluster list into one cluster
/// holding the positions of both, in temporal order.
pub(crate) fn merge_adjacent(clusters: &mut Vec<Vec<usize>>, i: usize)
    requires
        i + 1 < old(clusters)@.len(),
    ensures
        views(final(clusters)@) == merge_pair(views(old(clusters)@), i as int),
        final(clusters)@.len() == old(clusters)@.len() - 1,
{
    let n = clusters.len();
    assert(i + 1 < n);
    let mut right = clusters.remove(i + 1);
    let mut left = clusters.remove(i);
    left.append(&mut right);
    clusters.insert(i, left);
    proof {
        let p = views(old(clusters)@);
        let q = views(clusters@);
        let r = merge_pair(p, i as int);
        assert forall|k: int| 0 <= k < q.len() implies q[k] == r[k] by {
            if k < i {
                assert(clusters@[k] == old(clusters)@[k]);
            } else if k == i {
                assert(clusters@[k]@ == old(clusters)@[i as int]@ + old(clusters)@[i + 1]@);
            } else {
                assert(clusters@[k] == old(clusters)@[k + 1]);
            }
        }
        assert(q =~= r);
    }
}

} // verus!
