//! Verified core of a Kubernetes cluster-inspection tool.
//!
//! The crate holds the parts of the tool with real data-structure and
//! parsing logic: a label-selector mini-language with its evaluator,
//! criteria-based filtering of resource collections, a scope-keyed
//! TTL cache backed by a concurrency-safe map, and a grouping engine
//! that partitions resources into named buckets.

pub mod cache;
pub mod filtering;
pub mod graph;
pub mod grouping;
pub mod labels;
pub mod options;
pub mod resources;
pub mod selector;
pub mod text;
