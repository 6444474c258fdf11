//! Recording of traces from the samples of a profiler.
pub mod branch_laws;
pub mod laws;
pub mod sample;
pub mod state;
pub mod turn;

pub use self::sample::Sample;
pub use self::state::{Branch, Export, Reply, State};
pub use self::turn::Fault;
