use slidesplit::FrameEntry;
use slidesplit::stabilize::micro_split_pass;
use slidesplit::stabilize::short_cluster_pass;
use slidesplit::cluster_frames;
use slidesplit::hash_dist;
use slidesplit::merge_short_clusters;
use slidesplit::select_representatives;

fn frames_from_hashes(hashes: &[u64]) -> Vec<FrameEntry> {
    hashes
        .iter()
        .enumerate()
        .map(|(i, &h)| FrameEntry { idx: i, hash: h })
        .collect()
}

#[test]
fn clusters_split_when_distance_exceeds_threshold() {
    // Build hashes so that frames 0..=4 are similar,
    // 5..=9 similar to each other but far from 0..=4.
    let mut frames = Vec::new();
    for i in 0..5u64 {
        frames.push(FrameEntry {
            idx: i as usize,
            hash: 0xAAAA_AAAA_AAAA_AAAA ^ i,
        });
    }
    for i in 5..10u64 {
        frames.push(FrameEntry {
            idx: i as usize,
            hash: 0x5555_5555_5555_5555 ^ i,
        });
    }

    // A modest threshold splits into two clusters
    let clusters = cluster_frames(&frames, 8);
    assert_eq!(clusters.len(), 2);
    assert_eq!(clusters[0].first().copied(), Some(0));
    assert_eq!(clusters[0].last().copied(), Some(4));
    assert_eq!(clusters[1].first().copied(), Some(5));
    assert_eq!(clusters[1].last().copied(), Some(9));
}

#[test]
fn merge_short_clusters_stabilizes_crossfade_blips() {
    // Simulate: 8 frames slide A, then 3 frames transition, then 8 frames
    // slide B. Transition hashes sit "between" the two anchors.
    let mut frames = Vec::new();
    // A cluster
    for i in 0..8u64 {
        frames.push(FrameEntry {
            idx: i as usize,
            hash: 0x0000_0000_0000_0000 ^ i,
        });
    }
    // Transition mini-cluster
    for i in 8..11u64 {
        frames.push(FrameEntry {
            idx: i as usize,
            hash: 0x0F0F_0F0F_0F0F_0F0F ^ i,
        });
    }
    // B cluster
    for i in 11..19u64 {
        frames.push(FrameEntry {
            idx: i as usize,
            hash: 0xFFFF_FFFF_FFFF_FFFF ^ i,
        });
    }

    // First pass: we likely get three clusters
    let mut clusters = cluster_frames(&frames, 8);
    assert_eq!(clusters.len(), 3);

    // Merge with a minimum stable duration long enough that the 3-frame
    // transition counts as short: 2.0 s at 2 fps requires 4 frames.
    let min_len = (2.0f32 * 2.0f32).ceil() as usize;
    merge_short_clusters(&mut clusters, &frames, min_len, 8);
    assert_eq!(clusters.len(), 2, "Transition cluster should be merged away");
}

#[test]
fn empty_input_gives_empty_partition_and_no_representatives() {
    let frames: Vec<FrameEntry> = Vec::new();
    let mut clusters = cluster_frames(&frames, 8);
    assert_eq!(clusters.len(), 0);
    merge_short_clusters(&mut clusters, &frames, 3, 8);
    assert_eq!(clusters.len(), 0);
    let reps = select_representatives(&clusters);
    assert_eq!(reps.len(), 0);
}

#[test]
fn singleton_input_gives_one_cluster_and_its_only_frame() {
    let frames = frames_from_hashes(&[0x1234_5678_9ABC_DEF0]);
    let mut clusters = cluster_frames(&frames, 8);
    assert_eq!(clusters, vec![vec![0usize]]);
    merge_short_clusters(&mut clusters, &frames, 5, 8);
    assert_eq!(clusters, vec![vec![0usize]]);
    let reps = select_representatives(&clusters);
    assert_eq!(reps, vec![0usize]);
}

#[test]
fn clean_cut_produces_exactly_two_clusters() {
    // Frames 0..=4 pairwise within distance 8 of each other, frames 5..=9
    // likewise, but every cross pair is far beyond 8.
    let hashes = [
        0x0000_0000_0000_0000,
        0x0000_0000_0000_0001,
        0x0000_0000_0000_0003,
        0x0000_0000_0000_0007,
        0x0000_0000_0000_000F,
        0xFFFF_FFFF_FFFF_FF00,
        0xFFFF_FFFF_FFFF_FF01,
        0xFFFF_FFFF_FFFF_FF03,
        0xFFFF_FFFF_FFFF_FF07,
        0xFFFF_FFFF_FFFF_FF0F,
    ];
    let frames = frames_from_hashes(&hashes);
    let clusters = cluster_frames(&frames, 8);
    assert_eq!(clusters, vec![vec![0usize, 1, 2, 3, 4], vec![5, 6, 7, 8, 9]]);
}

#[test]
fn uniform_sequence_collapses_to_single_cluster_with_median_representative() {
    // All frames within the threshold of the first frame.
    let hashes = [0u64, 1, 2, 3, 4, 5, 6];
    let frames = frames_from_hashes(&hashes);
    let mut clusters = cluster_frames(&frames, 5);
    assert_eq!(clusters, vec![vec![0usize, 1, 2, 3, 4, 5, 6]]);
    merge_short_clusters(&mut clusters, &frames, 3, 5);
    assert_eq!(clusters, vec![vec![0usize, 1, 2, 3, 4, 5, 6]]);
    let reps = select_representatives(&clusters);
    assert_eq!(reps, vec![3usize]);
}

#[test]
fn interior_tie_breaks_toward_previous_neighbor() {
    // Middle singleton sits at Hamming distance 4 from both neighbors'
    // touching frames: the tie must fold it into the earlier neighbor.
    let hashes = [0u64, 0, 0, 0x0F, 0xFF, 0xFF, 0xFF];
    let frames = frames_from_hashes(&hashes);
    let mut clusters = cluster_frames(&frames, 3);
    assert_eq!(clusters, vec![vec![0usize, 1, 2], vec![3], vec![4, 5, 6]]);
    merge_short_clusters(&mut clusters, &frames, 2, 3);
    assert_eq!(clusters, vec![vec![0usize, 1, 2, 3], vec![4, 5, 6]]);
}

#[test]
fn interior_short_cluster_prepends_into_closer_next_neighbor() {
    // Middle singleton is closer to the next cluster: its position is
    // spliced in front of that cluster, keeping temporal order.
    let hashes = [0u64, 0, 0, 0xF8, 0x1FF, 0x1FF, 0x1FF];
    let frames = frames_from_hashes(&hashes);
    let mut clusters = cluster_frames(&frames, 3);
    assert_eq!(clusters, vec![vec![0usize, 1, 2], vec![3], vec![4, 5, 6]]);
    merge_short_clusters(&mut clusters, &frames, 2, 3);
    assert_eq!(clusters, vec![vec![0usize, 1, 2], vec![3, 4, 5, 6]]);
}

#[test]
fn first_and_last_short_clusters_merge_into_their_only_neighbor() {
    // First cluster is short: it merges into the next one.
    let hashes = [0u64, 0xFF, 0xFF, 0xFF];
    let frames = frames_from_hashes(&hashes);
    let mut clusters = cluster_frames(&frames, 3);
    assert_eq!(clusters, vec![vec![0usize], vec![1, 2, 3]]);
    merge_short_clusters(&mut clusters, &frames, 2, 3);
    assert_eq!(clusters, vec![vec![0usize, 1, 2, 3]]);

    // Last cluster is short: it merges into the previous one.
    let hashes2 = [0u64, 0, 0, 0xFF];
    let frames2 = frames_from_hashes(&hashes2);
    let mut clusters2 = cluster_frames(&frames2, 3);
    assert_eq!(clusters2, vec![vec![0usize, 1, 2], vec![3]]);
    merge_short_clusters(&mut clusters2, &frames2, 2, 3);
    assert_eq!(clusters2, vec![vec![0usize, 1, 2, 3]]);
}

#[test]
fn lone_short_cluster_is_left_alone() {
    let hashes = [0u64, 1];
    let frames = frames_from_hashes(&hashes);
    let mut clusters = cluster_frames(&frames, 8);
    assert_eq!(clusters, vec![vec![0usize, 1]]);
    // min_len larger than the whole sequence: nothing to merge into.
    merge_short_clusters(&mut clusters, &frames, 10, 8);
    assert_eq!(clusters, vec![vec![0usize, 1]]);
}

#[test]
fn micro_split_pass_coalesces_near_identical_boundaries() {
    // Two clusters whose touching frames differ in one bit, within
    // threshold / 2 = 4: the micro-split sweep folds them together even
    // though both are long enough to survive the short-cluster pass.
    let frames = frames_from_hashes(&[0u64, 2, 3, 3]);
    let mut clusters = vec![vec![0usize, 1], vec![2, 3]];
    merge_short_clusters(&mut clusters, &frames, 1, 8);
    assert_eq!(clusters, vec![vec![0usize, 1, 2, 3]]);
}

#[test]
fn micro_split_pass_retests_combined_cluster_against_next_neighbor() {
    // After folding a pair, the combined cluster is re-tested against its
    // new right neighbor without advancing, so a chain collapses fully.
    let frames = frames_from_hashes(&[0u64, 1, 3, 7]);
    let mut clusters = vec![vec![0usize], vec![1], vec![2], vec![3]];
    merge_short_clusters(&mut clusters, &frames, 1, 8);
    assert_eq!(clusters, vec![vec![0usize, 1, 2, 3]]);
}

#[test]
fn micro_split_pass_applied_twice_changes_nothing() {
    // Micro-merge idempotence on concrete values: a second run of the
    // whole merge (with min_len 1, only the micro sweep can act) leaves
    // the partition of the first run unchanged.
    let frames = frames_from_hashes(&[0u64, 2, 3, 0xFF0F, 0xFF0F]);
    let mut clusters = vec![vec![0usize, 1], vec![2], vec![3, 4]];
    merge_short_clusters(&mut clusters, &frames, 1, 8);
    let once = clusters.clone();
    merge_short_clusters(&mut clusters, &frames, 1, 8);
    assert_eq!(clusters, once);
}

#[test]
fn hash_dist_counts_differing_bits() {
    assert_eq!(hash_dist(0, 0), 0);
    assert_eq!(hash_dist(u64::MAX, u64::MAX), 0);
    assert_eq!(hash_dist(0, u64::MAX), 64);
    assert_eq!(hash_dist(0b1010, 0b0101), 4);
    assert_eq!(hash_dist(0x8000_0000_0000_0000, 0), 1);
    assert_eq!(hash_dist(0x0F0F_0F0F_0F0F_0F0F, 0xF0F0_F0F0_F0F0_F0F0), 64);
    assert_eq!(hash_dist(3, 0xFF), hash_dist(0xFF, 3));
}

#[test]
fn representatives_take_the_median_member_of_each_cluster() {
    let clusters = vec![vec![0usize, 1, 2, 3], vec![4, 5, 6], vec![7]];
    let reps = select_representatives(&clusters);
    assert_eq!(reps, vec![2usize, 5, 7]);
}

#[test]
fn representative_selection_skips_defensive_empty_cluster() {
    let clusters: Vec<Vec<usize>> = vec![vec![0usize, 1], vec![], vec![2]];
    let reps = select_representatives(&clusters);
    assert_eq!(reps, vec![1usize, 2]);
}

#[test]
fn short_pass_alone_ignores_micro_splits() {
    // Touching frames differ in one bit, but both clusters are long
    // enough: the short-cluster pass must not fold them.
    let frames = frames_from_hashes(&[0u64, 2, 3, 3]);
    let mut clusters = vec![vec![0usize, 1], vec![2, 3]];
    short_cluster_pass(&mut clusters, &frames, 1);
    assert_eq!(clusters, vec![vec![0usize, 1], vec![2, 3]]);
}

#[test]
fn micro_pass_alone_folds_narrow_boundary() {
    let frames = frames_from_hashes(&[0u64, 2, 3, 3]);
    let mut clusters = vec![vec![0usize, 1], vec![2, 3]];
    micro_split_pass(&mut clusters, &frames, 4);
    assert_eq!(clusters, vec![vec![0usize, 1, 2, 3]]);
}

#[test]
fn merge_cascades_when_a_merge_is_still_too_short() {
    // Two short clusters in a row: folding the first pair is still under
    // min_len, so the scan keeps merging from the combined cluster.
    let frames = frames_from_hashes(&[
        0u64, 0, 0xFF, 0xFF, 0xFFFF, 0xFFFF, 0xFFFF, 0xFFFF, 0xFFFF,
    ]);
    let mut clusters = vec![vec![0usize, 1], vec![2, 3], vec![4, 5, 6, 7, 8]];
    merge_short_clusters(&mut clusters, &frames, 5, 8);
    assert_eq!(clusters, vec![vec![0usize, 1, 2, 3, 4, 5, 6, 7, 8]]);
}

#[test]
fn partition_stays_complete_and_ordered_through_all_stages() {
    // A mixed sequence with genuine cuts, drift, and a short blip: after
    // every stage the clusters must cover 0..n in order, exactly once
    // each, and after merging every cluster must reach min_len.
    let hashes = [
        0u64, 1, 3, 1, 0, 0xFF00, 0xFF01, 0xFF03, 0x0FF0, 0xF0F0_00FF, 0xF0F0_00FE, 0xF0F0_00FC,
    ];
    let frames = frames_from_hashes(&hashes);
    let min_len = 2;
    let mut clusters = cluster_frames(&frames, 8);
    let flat: Vec<usize> = clusters.iter().flatten().copied().collect();
    assert_eq!(flat, (0..hashes.len()).collect::<Vec<usize>>());

    merge_short_clusters(&mut clusters, &frames, min_len, 8);
    let flat: Vec<usize> = clusters.iter().flatten().copied().collect();
    assert_eq!(flat, (0..hashes.len()).collect::<Vec<usize>>());
    assert!(clusters.len() == 1 || clusters.iter().all(|c| c.len() >= min_len));
    for w in clusters.windows(2) {
        assert!(w[0][0] < w[1][0]);
    }
}
