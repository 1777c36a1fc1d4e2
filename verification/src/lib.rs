//! Partition quality metrics: how similar two assignments of nodes to
//! communities are.
//!
//! Every metric is computed exactly, in integers, and handed back as a
//! fraction whose value is the metric. The counting behind the metrics is
//! verified against a model of a partition as a finite map from node ids to
//! community labels.
pub mod pairs;
pub mod partition;
pub mod pair_metrics;
pub mod tally;
pub mod contingency;
pub mod laws;
