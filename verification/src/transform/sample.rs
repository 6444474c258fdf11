//! Samples of branches and instructions.
use crate::trace::metrics::Metrics;
use crate::trace::symbol::{SymbolInfo, SymbolModel};
use vstd::prelude::*;

verus! {

/// The branch is a call.
pub const FLAG_CALL: u32 = 0x2;

/// The branch is a return.
pub const FLAG_RETURN: u32 = 0x4;

/// The branch was not brought about by an instruction.
pub const FLAG_ASYNC: u32 = 0x20;

/// Tracing begins here.
pub const FLAG_TRACE_BEGIN: u32 = 0x100;

/// Tracing ends here.
pub const FLAG_TRACE_END: u32 = 0x200;

/// What the profiler tells of an event.
#[derive(Debug, Clone, Copy)]
pub struct Sample {
    pub tid: i32,
    /// In nanoseconds.
    pub time: u64,
    pub ip: u64,
    /// For branches, the address of the target.
    pub addr: u64,
    /// The cycles since the last event that has them.
    pub cyc_cnt: u64,
    pub flags: u32,
}

impl Sample {
    pub open spec fn flagged(self, flag: u32) -> bool {
        self.flags & flag != 0
    }

    /// Whether a flag is set.
    pub fn has(&self, flag: u32) -> (result: bool)
        ensures
            result == self.flagged(flag),
    {
        self.flags & flag != 0
    }
}

/// The metrics after one more instruction, or none where a counter passes its limit.
pub open spec fn counted(metrics: Metrics, sample: Sample) -> Option<Metrics> {
    if metrics.insn_count < u64::MAX && metrics.cycles + sample.cyc_cnt <= u64::MAX {
        Some(
            Metrics {
                ts: sample.time,
                cycles: (metrics.cycles + sample.cyc_cnt) as u64,
                insn_count: (metrics.insn_count + 1) as u64,
            },
        )
    } else {
        None
    }
}

/// The metrics after one more instruction, or none where a counter passes its limit.
pub fn count_instruction(metrics: &Metrics, sample: &Sample) -> (result: Option<Metrics>)
    ensures
        result == counted(*metrics, *sample),
{
    if metrics.insn_count < u64::MAX && metrics.cycles <= u64::MAX - sample.cyc_cnt {
        Some(
            Metrics {
                ts: sample.time,
                cycles: metrics.cycles + sample.cyc_cnt,
                insn_count: metrics.insn_count + 1,
            },
        )
    } else {
        None
    }
}

/// The symbol of a frame whose symbol isn't known. Such frames can be told by their offset, which
/// is zero.
pub open spec fn unknown_symbol() -> SymbolModel {
    SymbolModel { name: "[unknown]"@, offset: 0, size: 0 }
}

/// The symbol of a frame whose symbol isn't known.
pub fn fallback_symbol() -> (result: SymbolInfo)
    ensures
        result@ == unknown_symbol(),
{
    SymbolInfo { name: "[unknown]".to_string(), offset: 0, size: 0 }
}

/// The symbol of a branch target, as it is loaded.
///
/// A symbol table holds the addresses `start` to `end` of a symbol in its file. At runtime these
/// change. Where the target of the branch lies `symoff` behind the beginning of the symbol, that
/// gives the address at which the symbol begins. A name is none where it isn't UTF-8.
pub fn loaded_symbol(name: Option<String>, start: u64, end: u64, addr: u64, symoff: u32) -> (result:
    SymbolInfo)
    requires
        start <= end,
        symoff <= addr,
    ensures
        result@ == (SymbolModel {
            name: match name {
                Some(text) => text@,
                None => "Non UTF-8 symbol"@,
            },
            offset: (addr - symoff) as u64,
            size: (end - start) as u64,
        }),
{
    let name = match name {
        Some(text) => text,
        None => "Non UTF-8 symbol".to_string(),
    };
    SymbolInfo { name, offset: addr - symoff as u64, size: end - start }
}

} // verus!
