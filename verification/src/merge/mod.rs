//! Merging of several traces into one averaged trace.
pub mod children;
pub mod event_laws;
pub mod events;
pub mod frequent;
pub mod group_laws;
pub mod index;
pub mod laws;
pub mod lcs;
pub mod share_laws;
pub mod single;
pub mod traces;

pub use frequent::find_frequent_children;
pub use index::{index_children, ChunkIndexed};
pub use lcs::{find_lcs, Id};
pub use children::merge_children;
pub use events::{merge_events, zip_events};
pub use traces::{can_merge, merge_traces};
