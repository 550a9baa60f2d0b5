//! Representative-frame selection.
//!
//! For each final cluster one frame stands in for the whole visually
//! stable segment: the member at the cluster's middle index, the median by
//! position within the cluster (not by fingerprint value).

use vstd::prelude::*;

use crate::partition::views;

verus! {

/// The representative positions of a cluster list: for each non-empty
/// cluster, its member at index `len / 2`. An empty cluster, which a valid
/// partition never holds, contributes nothing.
pub open spec fn reps(p: Seq<Seq<usize>>) -> Seq<usize>
    decreases p.len(),
{
    if p.len() == 0 {
        Seq::empty()
    } else {
        let rest = reps(p.drop_last());
        if p.last().len() > 0 {
            rest.push(p.last()[p.last().len() as int / 2])
        } else {
            rest
        }
    }
}

/// In a cluster list with no empty cluster there is exactly one
/// representative per cluster: the member at the cluster's middle index.
pub proof fn lemma_reps_per_cluster(p: Seq<Seq<usize>>)
    requires
        forall|i: int| 0 <= i < p.len() ==> (#[trigger] p[i]).len() > 0,
    ensures
        reps(p).len() == p.len(),
        forall|i: int|
            0 <= i < p.len() ==> reps(p)[i] == (#[trigger] p[i])[p[i].len() as int / 2],
    decreases p.len(),
{
    if p.len() > 0 {
        let q = p.drop_last();
        lemma_reps_per_cluster(q);
        assert forall|i: int| 0 <= i < p.len() implies reps(p)[i] == (#[trigger] p[i])[p[i].len()
            as int / 2] by {
            if i < p.len() - 1 {
                assert(q[i] == p[i]);
                assert(reps(p)[i] == reps(q)[i]);
            }
        }
    }
}

/// Picks one representative frame position per cluster: the member at
/// index `len / 2`, the median by position. A defensively skipped empty
/// cluster contributes no output.
pub fn select_representatives(clusters: &[Vec<usize>]) -> (r: Vec<usize>)
    ensures
        r@ == reps(views(clusters@)),
{
    let mut r: Vec<usize> = Vec::new();
    let mut c: usize = 0;
    while c < clusters.len()
        invariant
            c <= clusters@.len(),
            r@ == reps(views(clusters@).take(c as int)),
        decreases clusters@.len() - c,
    {
        let len = clusters[c].len();
        if len > 0 {
            let m = clusters[c][len / 2];
            r.push(m);
        }
        c = c + 1;
        proof {
            let pfx = views(clusters@).take(c as int);
            assert(pfx.drop_last() =~= views(clusters@).take(c as int - 1));
            assert(pfx.last() == clusters@[c as int - 1]@);
        }
    }
    proof {
        assert(views(clusters@).take(clusters@.len() as int) =~= views(clusters@));
    }
    r
}

} // verus!
