//! Analysis of traces: finding frames, filtering, statistics.
pub mod filter;
pub mod filter_laws;
pub mod finder;
pub mod histogram;
pub mod laws;
pub mod line_laws;
pub mod stats;

pub use self::finder::FrameFinder;
