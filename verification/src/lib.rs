//! Heap-profiling core: allocation-event aggregation into a flame trie,
//! flame-chart layout and navigation, hex dumps, and the decision logic of
//! the CI memory monitor.

pub mod text;
pub mod types;
pub mod tree;
pub mod interner;
pub mod ledger;
pub mod aggregator;
pub mod flame_chart;
pub mod export;
pub mod ci;
pub mod hex_dump;
pub mod tracing;
