//! Stability merging.
//!
//! Two passes repair the raw anchor partition. The short-cluster pass
//! repeats full left-to-right scans until a fixed point: a cluster shorter
//! than `min_len` is folded into a neighbor (the only cluster is left
//! alone; the first merges into its next neighbor, the last into its
//! previous one; an interior cluster merges into whichever neighbor has the
//! closer touching frame, ties favoring the earlier neighbor), and the scan
//! continues from the merged cluster. The micro-split pass then makes one
//! forward sweep folding together adjacent clusters whose touching frames
//! lie within half the clustering threshold.
//!
//! The spec functions `short_scan`, `short_pass` and `micro_pass` state
//! these sweeps exactly, including scan order and tie-breaks; the executable
//! passes are proved to return precisely their value.

use vstd::prelude::*;

use crate::fingerprint::FrameEntry;
use crate::fingerprint::dist;
use crate::fingerprint::hash_dist;
use crate::fingerprint::hash_seq;
use crate::partition::lemma_merge_pair_valid;
use crate::partition::lemma_positions_in_range;
use crate::partition::merge_adjacent;
use crate::partition::merge_pair;
use crate::partition::valid_partition;
use crate::partition::views;

verus! {

/// Fingerprint distance between the frames at positions `x` and `y`.
pub open spec fn pos_dist(h: Seq<u64>, x: usize, y: usize) -> nat {
    dist(h[x as int], h[y as int])
}

/// Whether a short interior cluster `i` is folded into its previous
/// neighbor: true when the distance from its first frame to the previous
/// cluster's last frame is at most the distance from its last frame to the
/// next cluster's first frame, so that ties favor the earlier neighbor.
pub open spec fn prefers_prev(p: Seq<Seq<usize>>, h: Seq<u64>, i: int) -> bool {
    pos_dist(h, p[i][0], p[i - 1].last()) <= pos_dist(h, p[i].last(), p[i + 1][0])
}

/// One left-to-right scan of the short-cluster pass, resumed at cluster
/// `i` with `ch` recording whether an earlier merge already happened in
/// this scan. A cluster shorter than `min_len` is folded into its chosen
/// neighbor and the scan continues from the merged cluster; any other
/// cluster is passed over. Returns the partition at the end of the scan
/// and whether the scan merged anything.
pub open spec fn short_scan(
    p: Seq<Seq<usize>>,
    h: Seq<u64>,
    min_len: int,
    i: int,
    ch: bool,
) -> (Seq<Seq<usize>>, bool)
    decreases 2 * p.len() - i
        when 0 <= i
{
    if i >= p.len() {
        (p, ch)
    } else if p[i].len() >= min_len || p.len() == 1 {
        short_scan(p, h, min_len, i + 1, ch)
    } else if i == 0 {
        short_scan(merge_pair(p, 0), h, min_len, 0, true)
    } else if i == p.len() - 1 || prefers_prev(p, h, i) {
        short_scan(merge_pair(p, i - 1), h, min_len, i - 1, true)
    } else {
        short_scan(merge_pair(p, i), h, min_len, i, true)
    }
}

/// The short-cluster pass: full scans repeat until a scan merges nothing.
/// Every merging scan removes at least one cluster, so the pass reaches a
/// fixed point.
pub open spec fn short_pass(p: Seq<Seq<usize>>, h: Seq<u64>, min_len: int) -> Seq<Seq<usize>>
    decreases p.len(),
{
    let r = short_scan(p, h, min_len, 0, false);
    if r.1 && r.0.len() < p.len() {
        short_pass(r.0, h, min_len)
    } else {
        r.0
    }
}

/// Distance between the touching frames of the adjacent clusters `i` and
/// `i + 1`: the last frame of `i` against the first frame of `i + 1`.
pub open spec fn boundary_dist(p: Seq<Seq<usize>>, h: Seq<u64>, i: int) -> nat {
    pos_dist(h, p[i].last(), p[i + 1][0])
}

/// The micro-split pass resumed at cluster `i`: one forward sweep; an
/// adjacent pair whose touching frames lie within `half` is folded
/// together and the combined cluster is re-tested against its new right
/// neighbor; otherwise the sweep advances.
pub open spec fn micro_pass(p: Seq<Seq<usize>>, h: Seq<u64>, half: int, i: int) -> Seq<
    Seq<usize>,
>
    decreases 2 * p.len() - i
        when 0 <= i
{
    if i + 1 >= p.len() {
        p
    } else if boundary_dist(p, h, i) <= half {
        micro_pass(merge_pair(p, i), h, half, i)
    } else {
        micro_pass(p, h, half, i + 1)
    }
}

/// The short-cluster elimination pass: folds clusters shorter than
/// `min_len` frames into a neighbor until every cluster is long enough or
/// only one cluster is left. The first ensures clause pins the result to
/// the scan-order and tie-break rules of `short_pass`.
pub fn short_cluster_pass(
    clusters: &mut Vec<Vec<usize>>,
    frames: &[FrameEntry],
    min_len: usize,
)
    requires
        valid_partition(views(old(clusters)@), frames@.len() as nat),
    ensures
        views(final(clusters)@) == short_pass(
            views(old(clusters)@),
            hash_seq(frames@),
            min_len as int,
        ),
        valid_partition(views(final(clusters)@), frames@.len() as nat),
        final(clusters)@.len() <= 1 || forall|c: int|
            0 <= c < final(clusters)@.len() ==> (#[trigger] final(clusters)@[c])@.len()
                >= min_len,
{
    let ghost h = hash_seq(frames@);
    let ghost n = frames@.len() as nat;
    let ghost p0 = views(old(clusters)@);
    let ghost ml = min_len as int;
    let mut changed = true;
    while changed
        invariant
            valid_partition(views(clusters@), n),
            h == hash_seq(frames@),
            n == frames@.len(),
            short_pass(views(clusters@), h, ml) == short_pass(p0, h, ml),
            ml == min_len,
            !changed ==> short_scan(views(clusters@), h, ml, 0, false) == (views(clusters@), false),
            !changed ==> (views(clusters@).len() <= 1 || forall|c: int|
                0 <= c < views(clusters@).len() ==> (#[trigger] views(clusters@)[c]).len() >= ml),
        decreases views(clusters@).len() + (if changed { 1int } else { 0int }),
    {
        let ghost p_scan = views(clusters@);
        changed = false;
        let mut i: usize = 0;
        while i < clusters.len()
            invariant
                valid_partition(views(clusters@), n),
                h == hash_seq(frames@),
                n == frames@.len(),
                ml == min_len,
                i as int <= views(clusters@).len(),
                short_scan(views(clusters@), h, ml, i as int, changed) == short_scan(
                    p_scan,
                    h,
                    ml,
                    0,
                    false,
                ),
                changed ==> views(clusters@).len() < p_scan.len(),
                !changed ==> views(clusters@) == p_scan,
                !changed ==> forall|c: int|
                    0 <= c < i ==> ((#[trigger] views(clusters@)[c]).len() >= ml || views(
                        clusters@,
                    ).len() == 1),
            decreases 2 * views(clusters@).len() - i,
        {
            let ghost p_b = views(clusters@);
            let cl = clusters.len();
            let is_short = clusters[i].len() < min_len;
            if is_short && cl > 1 {
                proof {
                    lemma_positions_in_range(p_b, n);
                }
                if i == 0 {
                    proof {
                        lemma_merge_pair_valid(p_b, n, 0);
                    }
                    merge_adjacent(clusters, 0);
                    changed = true;
                    proof {
                        assert(short_scan(p_b, h, ml, 0, false) == short_scan(
                            merge_pair(p_b, 0),
                            h,
                            ml,
                            0,
                            true,
                        ));
                        assert(short_scan(p_b, h, ml, 0, true) == short_scan(
                            merge_pair(p_b, 0),
                            h,
                            ml,
                            0,
                            true,
                        ));
                    }
                } else if i == cl - 1 {
                    proof {
                        lemma_merge_pair_valid(p_b, n, i - 1);
                    }
                    merge_adjacent(clusters, i - 1);
                    i = i - 1;
                    changed = true;
                    proof {
                        assert(short_scan(p_b, h, ml, i + 1, false) == short_scan(
                            merge_pair(p_b, i as int),
                            h,
                            ml,
                            i as int,
                            true,
                        ));
                        assert(short_scan(p_b, h, ml, i + 1, true) == short_scan(
                            merge_pair(p_b, i as int),
                            h,
                            ml,
                            i as int,
                            true,
                        ));
                    }
                } else {
                    let cur_first = clusters[i][0];
                    let li = clusters[i].len();
                    let cur_last = clusters[i][li - 1];
                    let lp = clusters[i - 1].len();
                    let prev_last = clusters[i - 1][lp - 1];
                    let next_first = clusters[i + 1][0];
                    proof {
                        assert(p_b[i as int][0] == cur_first);
                        assert(p_b[i as int].last() == cur_last);
                        assert(p_b[i as int - 1].last() == prev_last);
                        assert(p_b[i as int + 1][0] == next_first);
                    }
                    let d_prev = hash_dist(frames[cur_first].hash, frames[prev_last].hash);
                    let d_next = hash_dist(frames[cur_last].hash, frames[next_first].hash);
                    if d_prev <= d_next {
                        proof {
                            lemma_merge_pair_valid(p_b, n, i - 1);
                            assert(prefers_prev(p_b, h, i as int));
                        }
                        merge_adjacent(clusters, i - 1);
                        i = i - 1;
                        changed = true;
                        proof {
                            assert(short_scan(p_b, h, ml, i + 1, false) == short_scan(
                                merge_pair(p_b, i as int),
                                h,
                                ml,
                                i as int,
                                true,
                            ));
                            assert(short_scan(p_b, h, ml, i + 1, true) == short_scan(
                                merge_pair(p_b, i as int),
                                h,
                                ml,
                                i as int,
                                true,
                            ));
                        }
                    } else {
                        proof {
                            lemma_merge_pair_valid(p_b, n, i as int);
                            assert(!prefers_prev(p_b, h, i as int));
                        }
                        merge_adjacent(clusters, i);
                        changed = true;
                        proof {
                            assert(short_scan(p_b, h, ml, i as int, false) == short_scan(
                                merge_pair(p_b, i as int),
                                h,
                                ml,
                                i as int,
                                true,
                            ));
                            assert(short_scan(p_b, h, ml, i as int, true) == short_scan(
                                merge_pair(p_b, i as int),
                                h,
                                ml,
                                i as int,
                                true,
                            ));
                        }
                    }
                }
            } else {
                proof {
                    assert(short_scan(p_b, h, ml, i as int, changed) == short_scan(
                        p_b,
                        h,
                        ml,
                        i as int + 1,
                        changed,
                    ));
                }
                i = i + 1;
            }
        }
        proof {
            assert(short_scan(views(clusters@), h, ml, i as int, changed) == (
                views(clusters@),
                changed,
            ));
            if changed {
                assert(short_pass(p_scan, h, ml) == short_pass(views(clusters@), h, ml));
            }
        }
    }
    proof {
        if views(clusters@).len() > 1 {
            assert forall|c: int| 0 <= c < clusters@.len() implies (#[trigger] clusters@[c])@.len()
                >= min_len by {
                assert(views(clusters@)[c] == clusters@[c]@);
                assert(views(clusters@)[c].len() >= ml);
            }
        }
    }
}

/// The micro-split coalescing pass: one forward sweep folding together
/// adjacent clusters whose touching frames lie within `half`. On return no
/// remaining boundary is that narrow, which is why a second sweep would
/// change nothing.
pub fn micro_split_pass(clusters: &mut Vec<Vec<usize>>, frames: &[FrameEntry], half: u32)
    requires
        valid_partition(views(old(clusters)@), frames@.len() as nat),
    ensures
        views(final(clusters)@) == micro_pass(
            views(old(clusters)@),
            hash_seq(frames@),
            half as int,
            0,
        ),
        valid_partition(views(final(clusters)@), frames@.len() as nat),
        forall|c: int|
            0 <= c < final(clusters)@.len() - 1 ==> boundary_dist(
                views(final(clusters)@),
                hash_seq(frames@),
                c,
            ) > half,
{
    let ghost h = hash_seq(frames@);
    let ghost n = frames@.len() as nat;
    let ghost p1 = views(old(clusters)@);
    let mut i: usize = 0;
    while i < clusters.len()
        invariant
            valid_partition(views(clusters@), n),
            h == hash_seq(frames@),
            n == frames@.len(),
            micro_pass(views(clusters@), h, half as int, i as int) == micro_pass(
                p1,
                h,
                half as int,
                0,
            ),
            forall|c: int|
                0 <= c < i ==> #[trigger] boundary_dist(views(clusters@), h, c) > half,
            i as int <= views(clusters@).len(),
        ensures
            valid_partition(views(clusters@), n),
            micro_pass(views(clusters@), h, half as int, i as int) == micro_pass(
                p1,
                h,
                half as int,
                0,
            ),
            forall|c: int|
                0 <= c < i ==> #[trigger] boundary_dist(views(clusters@), h, c) > half,
            i as int + 1 >= views(clusters@).len(),
        decreases 2 * views(clusters@).len() - i,
    {
        let cl = clusters.len();
        if cl - i == 1 {
            break;
        }
        let ghost p_b = views(clusters@);
        let li = clusters[i].len();
        let last_i = clusters[i][li - 1];
        let next_first = clusters[i + 1][0];
        proof {
            lemma_positions_in_range(p_b, n);
            assert(p_b[i as int].last() == last_i);
            assert(p_b[i as int + 1][0] == next_first);
        }
        let d = hash_dist(frames[last_i].hash, frames[next_first].hash);
        if d <= half {
            proof {
                lemma_merge_pair_valid(p_b, n, i as int);
            }
            merge_adjacent(clusters, i);
            proof {
                let p_a = views(clusters@);
                assert(micro_pass(p_b, h, half as int, i as int) == micro_pass(
                    p_a,
                    h,
                    half as int,
                    i as int,
                ));
                assert forall|c: int| 0 <= c < i implies #[trigger] boundary_dist(p_a, h, c)
                    > half by {
                    assert(boundary_dist(p_b, h, c) > half);
                    assert(p_a[c] == p_b[c]);
                    if c + 1 < i {
                        assert(p_a[c + 1] == p_b[c + 1]);
                    } else {
                        assert(p_b[i as int].len() > 0);
                        assert(p_a[c + 1] == p_b[i as int] + p_b[i as int + 1]);
                        assert(p_a[c + 1][0] == p_b[c + 1][0]);
                    }
                    assert(p_a[c].last() == p_b[c].last());
                }
            }
        } else {
            proof {
                assert(micro_pass(p_b, h, half as int, i as int) == micro_pass(
                    p_b,
                    h,
                    half as int,
                    i as int + 1,
                ));
            }
            i = i + 1;
        }
    }
    proof {
        assert(micro_pass(views(clusters@), h, half as int, i as int) == views(clusters@));
    }
}

/// Folding micro-splits only grows clusters: when every cluster of `p` has
/// at least `m` positions, so does every cluster after the sweep.
pub proof fn lemma_micro_keeps_min_len(p: Seq<Seq<usize>>, h: Seq<u64>, half: int, i: int, m: int)
    requires
        0 <= i,
        forall|c: int| 0 <= c < p.len() ==> (#[trigger] p[c]).len() >= m,
    ensures
        forall|c: int|
            0 <= c < micro_pass(p, h, half, i).len() ==> (#[trigger] micro_pass(p, h, half, i)[c]).len()
                >= m,
    decreases 2 * p.len() - i,
{
    if i + 1 >= p.len() {
    } else if boundary_dist(p, h, i) <= half {
        let q = merge_pair(p, i);
        assert forall|c: int| 0 <= c < q.len() implies (#[trigger] q[c]).len() >= m by {
            if c < i {
                assert(q[c] == p[c]);
            } else if c == i {
                assert(q[i] == p[i] + p[i + 1]);
            } else {
                assert(q[c] == p[c + 1]);
            }
        }
        lemma_micro_keeps_min_len(q, h, half, i, m);
        assert(micro_pass(p, h, half, i) == micro_pass(q, h, half, i));
    } else {
        lemma_micro_keeps_min_len(p, h, half, i + 1, m);
        assert(micro_pass(p, h, half, i) == micro_pass(p, h, half, i + 1));
    }
}

proof fn lemma_micro_all_wide(p: Seq<Seq<usize>>, h: Seq<u64>, half: int, i: int)
    requires
        0 <= i,
        forall|c: int| 0 <= c < p.len() ==> (#[trigger] p[c]).len() > 0,
        forall|c: int|
            0 <= c < i && c + 1 < p.len() ==> #[trigger] boundary_dist(p, h, c) > half,
    ensures
        forall|c: int|
            0 <= c < micro_pass(p, h, half, i).len() ==> (#[trigger] micro_pass(
                p,
                h,
                half,
                i,
            )[c]).len() > 0,
        forall|c: int|
            0 <= c && c + 1 < micro_pass(p, h, half, i).len() ==> #[trigger] boundary_dist(
                micro_pass(p, h, half, i),
                h,
                c,
            ) > half,
    decreases 2 * p.len() - i,
{
    if i + 1 >= p.len() {
    } else if boundary_dist(p, h, i) <= half {
        let q = merge_pair(p, i);
        assert forall|c: int| 0 <= c < q.len() implies (#[trigger] q[c]).len() > 0 by {
            if c < i {
                assert(q[c] == p[c]);
            } else if c == i {
                assert(q[i] == p[i] + p[i + 1]);
            } else {
                assert(q[c] == p[c + 1]);
            }
        }
        assert forall|c: int| 0 <= c < i && c + 1 < q.len() implies #[trigger] boundary_dist(
            q,
            h,
            c,
        ) > half by {
            assert(boundary_dist(p, h, c) > half);
            assert(q[c] == p[c]);
            if c + 1 < i {
                assert(q[c + 1] == p[c + 1]);
            } else {
                assert(q[c + 1] == p[i] + p[i + 1]);
                assert(q[c + 1][0] == p[c + 1][0]);
            }
        }
        lemma_micro_all_wide(q, h, half, i);
        assert(micro_pass(p, h, half, i) == micro_pass(q, h, half, i));
    } else {
        lemma_micro_all_wide(p, h, half, i + 1);
        assert(micro_pass(p, h, half, i) == micro_pass(p, h, half, i + 1));
    }
}

proof fn lemma_micro_noop(p: Seq<Seq<usize>>, h: Seq<u64>, half: int, i: int)
    requires
        0 <= i,
        forall|c: int|
            i <= c && c + 1 < p.len() ==> #[trigger] boundary_dist(p, h, c) > half,
    ensures
        micro_pass(p, h, half, i) == p,
    decreases 2 * p.len() - i,
{
    if i + 1 >= p.len() {
    } else {
        assert(boundary_dist(p, h, i) > half);
        lemma_micro_noop(p, h, half, i + 1);
    }
}

/// Micro-merge idempotence: one micro-split sweep leaves no boundary
/// within `half`, so applying the sweep a second time returns the first
/// sweep's result unchanged.
pub proof fn lemma_micro_pass_idempotent(p: Seq<Seq<usize>>, h: Seq<u64>, half: int)
    requires
        forall|c: int| 0 <= c < p.len() ==> (#[trigger] p[c]).len() > 0,
    ensures
        micro_pass(micro_pass(p, h, half, 0), h, half, 0) == micro_pass(p, h, half, 0),
{
    lemma_micro_all_wide(p, h, half, 0);
    lemma_micro_noop(micro_pass(p, h, half, 0), h, half, 0);
}

/// Merges clusters shorter than `min_len` frames into neighbors until a
/// fixed point, then coalesces micro-splits whose touching frames lie
/// within `threshold / 2`. `min_len` is the number of frames that spans
/// the minimum stable duration (callers round fractional requirements up).
/// The first ensures clause pins the result exactly; the remaining clauses
/// state the partition invariant and the minimum-length guarantee, which
/// the micro-split sweep never undoes.
pub fn merge_short_clusters(
    clusters: &mut Vec<Vec<usize>>,
    frames: &[FrameEntry],
    min_len: usize,
    threshold: u32,
)
    requires
        valid_partition(views(old(clusters)@), frames@.len() as nat),
    ensures
        views(final(clusters)@) == micro_pass(
            short_pass(views(old(clusters)@), hash_seq(frames@), min_len as int),
            hash_seq(frames@),
            (threshold / 2) as int,
            0,
        ),
        valid_partition(views(final(clusters)@), frames@.len() as nat),
        final(clusters)@.len() <= 1 || forall|c: int|
            0 <= c < final(clusters)@.len() ==> (#[trigger] final(clusters)@[c])@.len()
                >= min_len,
        forall|c: int|
            0 <= c < final(clusters)@.len() - 1 ==> boundary_dist(
                views(final(clusters)@),
                hash_seq(frames@),
                c,
            ) > threshold / 2,
{
    let ghost h = hash_seq(frames@);
    short_cluster_pass(clusters, frames, min_len);
    let ghost p1 = views(clusters@);
    micro_split_pass(clusters, frames, threshold / 2);
    proof {
        if p1.len() <= 1 {
            assert(micro_pass(p1, h, (threshold / 2) as int, 0) == p1);
            assert(clusters@.len() <= 1);
        } else {
            assert forall|c: int| 0 <= c < p1.len() implies (#[trigger] p1[c]).len()
                >= min_len by {}
            lemma_micro_keeps_min_len(p1, h, (threshold / 2) as int, 0, min_len as int);
            let q = micro_pass(p1, h, (threshold / 2) as int, 0);
            assert forall|c: int| 0 <= c < clusters@.len() implies (#[trigger] clusters@[c])@.len()
                >= min_len by {
                assert(views(clusters@)[c] == clusters@[c]@);
                assert(q[c].len() >= min_len);
            }
        }
    }
}

} // verus!
