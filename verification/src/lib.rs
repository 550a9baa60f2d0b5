//! Turns a temporally ordered sequence of video frames, each reduced to a
//! 64-bit perceptual fingerprint, into a minimal ordered set of
//! representative "slide" frames: an anchor-based clustering pass partitions
//! the sequence by fingerprint distance, a stability-merging pass folds away
//! clusters too short to be a real slide, a micro-split pass coalesces
//! spurious boundaries, and one representative frame is chosen per cluster.

pub mod cluster;
pub mod fingerprint;
pub mod partition;
pub mod select;
pub mod stabilize;

pub use cluster::cluster_frames;
pub use fingerprint::FrameEntry;
pub use fingerprint::hash_dist;
pub use select::select_representatives;
pub use stabilize::merge_short_clusters;
