//! A persistent, copy-on-write rope: a metric-summarized B-tree over
//! gap-buffered UTF-8 text leaves, with slicing and multi-metric navigation.

mod summary;
mod leaf;
mod count_leaf;
mod gap_buffer;
mod metrics;
mod node;
mod tree;
mod rope;
mod laws;

pub use summary::SummaryOps;
pub use summary::ChunkSummary;
pub use leaf::Leaf;
pub use count_leaf::Count;
pub use gap_buffer::GapBuffer;
pub use metrics::Metric;
pub use metrics::SlicingMetric;
pub use metrics::UnitMetric;
pub use metrics::DoubleEndedUnitMetric;
pub use metrics::ByteMetric;
pub use metrics::RawLineMetric;
pub use metrics::LineMetric;
pub use node::Node;
pub use node::Inode;
pub use node::Lnode;
pub use tree::Tree;
pub use tree::TreeSlice;
pub use rope::Rope;
pub use rope::RopeSlice;
pub use laws::law_summary_homomorphism;
pub use laws::law_depth_uniformity;
pub use laws::law_branching;
pub use laws::law_leaf_fill;
pub use laws::law_chunks_round_trip;
pub use laws::law_slice_remeasure;
pub use laws::law_convert_identity;
pub use laws::law_leaf_aligned_slice;
pub use laws::law_leaf_aligned_materialize;
pub use gap_buffer::law_utf8_safety;
