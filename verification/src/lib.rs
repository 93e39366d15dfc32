//! Dependency detection between named time series: the graph of which
//! series predict which, and the integer bookkeeping of the correlation
//! statistics (lag windows, tied ranks, histogram counts).

pub mod graph;
pub mod paths;
pub mod delay;
pub mod order;
pub mod assemble;
pub mod stats;
pub mod walk_count;
