//! Anchor-based sequential clustering.
//!
//! The frame sequence is partitioned into contiguous runs. Each run opens
//! with an anchor frame; a following frame joins the run while its
//! fingerprint stays within `threshold` of the anchor's, and otherwise
//! closes the run and opens a new one with itself as anchor. Membership is
//! tested only against the anchor, never against a running average or the
//! previous frame, so a run may drift gradually as long as every member
//! individually stays close to the anchor.

use vstd::prelude::*;

use crate::fingerprint::FrameEntry;
use crate::fingerprint::dist;
use crate::fingerprint::hash_dist;
use crate::fingerprint::hash_seq;
use crate::fingerprint::lemma_dist_properties;
use crate::partition::csum;
use crate::partition::lemma_csum_mono;
use crate::partition::lemma_extend_last;
use crate::partition::lemma_open_cluster;
use crate::partition::lemma_positions_in_range;
use crate::partition::valid_partition;
use crate::partition::views;

verus! {

/// Every member of each cluster lies within `threshold` of the cluster's
/// anchor, its first frame.
pub open spec fn clusters_within_threshold(
    p: Seq<Seq<usize>>,
    h: Seq<u64>,
    threshold: u32,
) -> bool {
    forall|c: int, j: int|
        #![trigger p[c][j]]
        0 <= c < p.len() && 0 <= j < p[c].len() ==> dist(h[p[c][j] as int], h[p[c][0] as int])
            <= threshold
}

/// Each cluster after the first opens with a frame that lies farther than
/// `threshold` from the previous cluster's anchor: exactly the frames on
/// which the sequential scan closed a run.
pub open spec fn anchors_apart(p: Seq<Seq<usize>>, h: Seq<u64>, threshold: u32) -> bool {
    forall|c: int|
        #![trigger p[c]]
        1 <= c < p.len() ==> dist(h[p[c][0] as int], h[p[c - 1][0] as int]) > threshold
}

/// Partitions the positions `0 .. frames.len()` into contiguous runs by
/// single-anchor distance comparison: position `i` joins the open run while
/// `dist(fingerprint[i], fingerprint[anchor]) <= threshold`, and otherwise
/// opens a new run anchored at `i`. Together the partition clauses pin the
/// output: it is the unique partition into contiguous runs whose members
/// all stay within `threshold` of their run's anchor and whose consecutive
/// anchors are more than `threshold` apart.
#[verifier::rlimit(60)]
pub fn cluster_frames(frames: &[FrameEntry], threshold: u32) -> (clusters: Vec<Vec<usize>>)
    ensures
        valid_partition(views(clusters@), frames@.len() as nat),
        clusters_within_threshold(views(clusters@), hash_seq(frames@), threshold),
        anchors_apart(views(clusters@), hash_seq(frames@), threshold),
        clusters@.len() == 0 <==> frames@.len() == 0,
{
    let ghost h = hash_seq(frames@);
    let mut clusters: Vec<Vec<usize>> = Vec::new();
    if frames.len() == 0 {
        return clusters;
    }
    let mut cur: Vec<usize> = Vec::new();
    cur.push(0);
    let mut anchor: usize = 0;
    proof {
        lemma_dist_properties(h[0], h[0]);
        assert(views(clusters@).push(cur@) =~= seq![cur@]);
        assert(csum(seq![cur@], 1) == csum(seq![cur@], 0) + cur@.len());
        assert(valid_partition(seq![cur@], 1));
    }
    let mut i: usize = 1;
    while i < frames.len()
        invariant
            1 <= i <= frames@.len(),
            anchor < i,
            h == hash_seq(frames@),
            cur@.len() >= 1,
            cur@[0] == anchor,
            valid_partition(views(clusters@).push(cur@), i as nat),
            clusters_within_threshold(views(clusters@).push(cur@), h, threshold),
            anchors_apart(views(clusters@).push(cur@), h, threshold),
        decreases frames@.len() - i,
    {
        let ghost p_old = views(clusters@).push(cur@);
        let d = hash_dist(frames[i].hash, frames[anchor].hash);
        if d <= threshold {
            cur.push(i);
            proof {
                let p_new = views(clusters@).push(cur@);
                let last = p_old.len() - 1;
                lemma_extend_last(p_old, p_new, i, i as nat);
                assert forall|c: int, j: int|
                    #![trigger p_new[c][j]]
                    0 <= c < p_new.len() && 0 <= j < p_new[c].len() implies dist(
                    h[p_new[c][j] as int],
                    h[p_new[c][0] as int],
                ) <= threshold by {
                    assert(p_new[c][0] == p_old[c][0]);
                    if c < last || j < p_old[last].len() {
                        assert(p_new[c][j] == p_old[c][j]);
                    } else {
                        assert(p_new[c][j] == i);
                        assert(p_old[last][0] == anchor);
                    }
                }
                assert forall|c: int| 1 <= c < p_new.len() implies dist(
                    h[(#[trigger] p_new[c])[0] as int],
                    h[p_new[c - 1][0] as int],
                ) > threshold by {
                    assert(p_new[c][0] == p_old[c][0]);
                    assert(p_new[c - 1][0] == p_old[c - 1][0]);
                }
            }
        } else {
            let ghost cs_before = clusters@;
            clusters.push(cur);
            cur = Vec::new();
            cur.push(i);
            proof {
                let p_new = views(clusters@).push(cur@);
                assert(p_new =~= p_old.push(seq![i]));
                let last = p_new.len() - 1;
                lemma_open_cluster(p_old, p_new, i, i as nat);
                lemma_dist_properties(h[i as int], h[i as int]);
                assert(p_new[last][0] == i);
                assert(p_new[last - 1][0] == anchor);
                assert forall|c: int| 1 <= c < p_new.len() implies dist(
                    h[(#[trigger] p_new[c])[0] as int],
                    h[p_new[c - 1][0] as int],
                ) > threshold by {
                    if c < last {
                        assert(p_new[c] == p_old[c]);
                        assert(p_new[c - 1] == p_old[c - 1]);
                    }
                }
            }
            anchor = i;
        }
        i = i + 1;
    }
    let ghost cs_before = clusters@;
    let ghost cur_view = cur@;
    clusters.push(cur);
    proof {
        assert(views(clusters@) =~= views(cs_before).push(cur_view));
    }
    clusters
}

proof fn lemma_unique_not_shorter(
    p: Seq<Seq<usize>>,
    q: Seq<Seq<usize>>,
    h: Seq<u64>,
    threshold: u32,
    n: nat,
    c: int,
)
    requires
        valid_partition(p, n),
        anchors_apart(p, h, threshold),
        valid_partition(q, n),
        clusters_within_threshold(q, h, threshold),
        0 <= c < p.len(),
        c < q.len(),
        csum(p, c) == csum(q, c),
    ensures
        q[c].len() <= p[c].len(),
{
    if p[c].len() < q[c].len() {
        let s = csum(p, c);
        let lp = p[c].len() as int;
        assert(csum(p, c + 1) == csum(p, c) + p[c].len());
        assert(csum(q, c + 1) == csum(q, c) + q[c].len());
        if c + 1 == p.len() {
            lemma_csum_mono(q, c + 1, q.len() as int);
            assert(false);
        } else {
            assert(p[c + 1].len() > 0);
            assert(p[c + 1][0] as int == csum(p, c + 1));
            assert(q[c][lp] as int == s + lp);
            assert(q[c][0] as int == s);
            assert(dist(h[p[c + 1][0] as int], h[p[c][0] as int]) > threshold);
            assert(dist(h[q[c][lp] as int], h[q[c][0] as int]) <= threshold);
            assert(p[c + 1][0] == q[c][lp]);
            assert(p[c][0] == q[c][0]);
            assert(false);
        }
    }
}

proof fn lemma_unique_aux(
    p: Seq<Seq<usize>>,
    q: Seq<Seq<usize>>,
    h: Seq<u64>,
    threshold: u32,
    n: nat,
    c: int,
)
    requires
        valid_partition(p, n),
        clusters_within_threshold(p, h, threshold),
        anchors_apart(p, h, threshold),
        valid_partition(q, n),
        clusters_within_threshold(q, h, threshold),
        anchors_apart(q, h, threshold),
        0 <= c <= p.len(),
        c <= q.len(),
        csum(p, c) == csum(q, c),
    ensures
        p.len() == q.len(),
        forall|k: int| c <= k < p.len() ==> p[k] == q[k],
    decreases p.len() - c,
{
    if c == p.len() {
        if c < q.len() {
            assert(q[c].len() > 0);
            assert(csum(q, c + 1) == csum(q, c) + q[c].len());
            lemma_csum_mono(q, c + 1, q.len() as int);
            assert(false);
        }
    } else if c == q.len() {
        assert(p[c].len() > 0);
        assert(csum(p, c + 1) == csum(p, c) + p[c].len());
        lemma_csum_mono(p, c + 1, p.len() as int);
        assert(false);
    } else {
        lemma_unique_not_shorter(p, q, h, threshold, n, c);
        lemma_unique_not_shorter(q, p, h, threshold, n, c);
        assert forall|j: int| 0 <= j < p[c].len() implies p[c][j] == q[c][j] by {
            assert(p[c][j] as int == csum(p, c) + j);
            assert(q[c][j] as int == csum(q, c) + j);
        }
        assert(p[c] =~= q[c]);
        assert(csum(p, c + 1) == csum(p, c) + p[c].len());
        assert(csum(q, c + 1) == csum(q, c) + q[c].len());
        lemma_unique_aux(p, q, h, threshold, n, c + 1);
    }
}

/// The clustering contract pins its output: two partitions of the same
/// frame sequence that both satisfy the three clauses ensured by
/// `cluster_frames` are one and the same partition.
pub proof fn lemma_clustering_unique(
    p: Seq<Seq<usize>>,
    q: Seq<Seq<usize>>,
    h: Seq<u64>,
    threshold: u32,
    n: nat,
)
    requires
        valid_partition(p, n),
        clusters_within_threshold(p, h, threshold),
        anchors_apart(p, h, threshold),
        valid_partition(q, n),
        clusters_within_threshold(q, h, threshold),
        anchors_apart(q, h, threshold),
    ensures
        p == q,
{
    lemma_unique_aux(p, q, h, threshold, n, 0);
    assert(p =~= q);
}

/// A uniform sequence collapses to a single cluster: when every frame lies
/// within `threshold` of the first frame, any partition satisfying the
/// clustering contract has exactly one cluster, spanning all `n` positions.
pub proof fn lemma_uniform_single_cluster(p: Seq<Seq<usize>>, h: Seq<u64>, threshold: u32, n: nat)
    requires
        n >= 1,
        h.len() == n,
        valid_partition(p, n),
        anchors_apart(p, h, threshold),
        forall|k: int| 0 <= k < n ==> dist(#[trigger] h[k], h[0]) <= threshold,
    ensures
        p.len() == 1,
        p[0].len() == n,
{
    assert(csum(p, 0) == 0);
    if p.len() == 0 {
        assert(false);
    }
    assert(p[0][0] as int == csum(p, 0) + 0);
    if p.len() >= 2 {
        lemma_positions_in_range(p, n);
        assert(dist(h[p[1][0] as int], h[p[0][0] as int]) > threshold);
        assert(dist(h[p[1][0] as int], h[0]) <= threshold);
        assert(false);
    }
    assert(csum(p, 1) == csum(p, 0) + p[0].len());
}

} // verus!
