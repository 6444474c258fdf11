//! Processing, merging and exporting of Intel PT call traces.
pub mod text;
pub mod text_laws;
pub mod pattern;
pub mod trace;
pub mod analysis;
pub mod merge;
pub mod perfetto;
pub mod transform;
pub mod label_laws;
