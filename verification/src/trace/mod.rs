//! Traces: frames and pauses nested in time, the symbols they belong to, and events.
pub mod annotation;
pub mod build_laws;
pub mod builder;
pub mod cache;
pub mod chronology;
pub mod codec;
pub mod error;
pub mod event;
pub mod file_laws;
pub mod frame;
pub mod laws;
pub mod metrics;
pub mod record;
pub mod symbol;
pub mod trace_error;

pub use annotation::Annotation;
pub use error::Error;
pub use event::Event;
pub use frame::{Chunk, Frame};
pub use record::Trace;
pub use symbol::SymbolInfo;
