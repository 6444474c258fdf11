//! Export of traces to Perfetto.
pub mod converter;
pub mod intern;
pub mod laws;
pub mod packet;

use vstd::prelude::*;

verus! {

/// How pauses of a trace are shown.
#[derive(Debug, Clone, Copy, PartialEq, Eq, Structural)]
pub enum PauseRenderOption {
    /// As a gap: all calls end and go on after the pause.
    Gap,
    /// As a block of its own.
    Block,
}

impl PauseRenderOption {
    pub open spec fn text(self) -> Seq<char> {
        match self {
            PauseRenderOption::Gap => "gap"@,
            PauseRenderOption::Block => "block"@,
        }
    }

    pub fn to_string(&self) -> (result: String)
        ensures
            result@ == self.text(),
    {
        match self {
            PauseRenderOption::Gap => "gap".to_string(),
            PauseRenderOption::Block => "block".to_string(),
        }
    }
}

} // verus!
