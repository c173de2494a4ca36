//! Line statistics over the history of a source tree: the incremental
//! snapshot engine, chunk planning, the archive record format and the
//! filtered aggregation into a dated series.

pub mod archive;
pub mod builder;
pub mod chunk;
pub mod clock;
pub mod codec;
pub mod error;
pub mod lines;
pub mod progress;
pub mod series;
pub mod snapshot;
pub mod stats;
pub mod tree;
