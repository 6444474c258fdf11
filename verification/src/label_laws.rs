//! What stands in the texts of samples, symbols and frames.
use crate::analysis::histogram::{half_way, Action, Quartiles};
use crate::text::{decimal, hexadecimal, signed_decimal};
use crate::trace::codec::{symbol_index_text, CodecError};
use crate::trace::frame::FrameModel;
use crate::trace::metrics::Metrics;
use crate::trace::symbol::SymbolModel;
use crate::transform::state::file_name;
use vstd::prelude::*;

verus! {

/// The part stands in the text.
pub open spec fn stands_in(part: Seq<char>, text: Seq<char>) -> bool {
    exists|p: int|
        0 <= p && p + part.len() <= text.len() && #[trigger] text.subrange(p, p + part.len())
            == part
}

proof fn stands_between(before: Seq<char>, part: Seq<char>, behind: Seq<char>, text: Seq<char>)
    requires
        text == before + part + behind,
    ensures
        stands_in(part, text),
{
    let p = before.len() as int;
    assert(text.subrange(p, p + part.len()) =~= part);
}

/// In the text of a sample each counter stands behind its own label.
pub proof fn counters_stand_behind_their_labels(m: Metrics)
    ensures
        stands_in("ts: "@ + decimal(m.ts as nat) + ","@, m.text()),
        stands_in("cycles: "@ + decimal(m.cycles as nat) + ","@, m.text()),
        stands_in("insn_count: "@ + decimal(m.insn_count as nat) + ")"@, m.text()),
{
    reveal_strlit("(ts: ");
    reveal_strlit(", cycles: ");
    reveal_strlit(", insn_count: ");
    reveal_strlit(")");
    reveal_strlit("ts: ");
    reveal_strlit("cycles: ");
    reveal_strlit("insn_count: ");
    reveal_strlit(",");
    reveal_strlit("(");
    reveal_strlit(", ");
    reveal_strlit(" cycles: ");
    let (a, b, c) = (decimal(m.ts as nat), decimal(m.cycles as nat), decimal(m.insn_count as nat));
    let text = m.text();
    let x = "ts: "@ + a + ","@;
    let y = "cycles: "@ + b + ","@;
    let z = "insn_count: "@ + c + ")"@;
    assert(text =~= "("@ + x + (" cycles: "@ + b + ", insn_count: "@ + c + ")"@));
    stands_between("("@, x, " cycles: "@ + b + ", insn_count: "@ + c + ")"@, text);
    let front = "(ts: "@ + a + ", "@;
    let back = text.skip((front + y).len() as int);
    assert(text =~= front + y + back);
    stands_between(front, y, back, text);
    let none: Seq<char> = Seq::empty();
    let start = text.take(text.len() - z.len());
    assert(text =~= start + z + none);
    stands_between(start, z, none, text);
}

/// In the text of a symbol stand the addresses that it takes up, from the first to the one behind
/// the last, in hexadecimal; its name comes last.
pub proof fn symbols_show_their_addresses(s: SymbolModel)
    ensures
        stands_in("[0x"@ + hexadecimal(s.offset as nat) + " "@, s.text()),
        stands_in(" 0x"@ + hexadecimal((s.offset + s.size) as nat) + "]"@, s.text()),
        s.name.len() <= s.text().len(),
        s.text().skip(s.text().len() - s.name.len()) == s.name,
{
    reveal_strlit("[0x");
    reveal_strlit(" - 0x");
    reveal_strlit("] ");
    reveal_strlit(" ");
    reveal_strlit(" 0x");
    reveal_strlit("]");
    reveal_strlit(" -");
    let (a, b) = (hexadecimal(s.offset as nat), hexadecimal((s.offset + s.size) as nat));
    let text = s.text();
    let x = "[0x"@ + a + " "@;
    let y = " 0x"@ + b + "]"@;
    let none: Seq<char> = Seq::empty();
    let rest = text.skip(x.len() as int);
    assert(text =~= none + x + rest);
    stands_between(none, x, rest, text);
    let front = "[0x"@ + a + " -"@;
    let back = text.skip((front + y).len() as int);
    assert(text =~= front + y + back);
    stands_between(front, y, back, text);
    assert(text.skip(text.len() - s.name.len()) =~= s.name);
}

/// The text of a frame is that of its symbol and then, in brackets, where it starts and where it
/// ends.
pub proof fn frames_show_where_they_lie(frame: FrameModel)
    ensures
        frame.symbol.text().len() <= frame.text().len(),
        frame.text().take(frame.symbol.text().len() as int) == frame.symbol.text(),
        stands_in("("@ + frame.metrics.start.text() + " -"@, frame.text()),
        stands_in("- "@ + frame.metrics.spec_end().text() + ")"@, frame.text()),
{
    reveal_strlit(" (");
    reveal_strlit(" - ");
    reveal_strlit(")");
    reveal_strlit("(");
    reveal_strlit(" -");
    reveal_strlit("- ");
    reveal_strlit(" ");
    let (n, a, b) = (
        frame.symbol.text(),
        frame.metrics.start.text(),
        frame.metrics.spec_end().text(),
    );
    let text = frame.text();
    assert(text.take(n.len() as int) =~= n);
    let x = "("@ + a + " -"@;
    let y = "- "@ + b + ")"@;
    let back = text.skip((n + " "@ + x).len() as int);
    assert(text =~= (n + " "@) + x + back);
    stands_between(n + " "@, x, back, text);
    let none: Seq<char> = Seq::empty();
    let start = text.take(text.len() - y.len());
    assert(text =~= start + y + none);
    stands_between(start, y, none, text);
}

/// In the name of a file stand the number of the thread and then the number of the trace.
pub proof fn file_names_tell_thread_and_trace(tid: i32, n: u32)
    ensures
        stands_in("trace-"@ + signed_decimal(tid as int) + "-"@, file_name(tid, n)),
        stands_in("-"@ + decimal(n as nat) + ".flex.gz"@, file_name(tid, n)),
        file_name(tid, n).len() == 15 + signed_decimal(tid as int).len() + decimal(n as nat).len(),
{
    reveal_strlit("trace-");
    reveal_strlit("-");
    reveal_strlit(".flex.gz");
    let text = file_name(tid, n);
    let x = "trace-"@ + signed_decimal(tid as int) + "-"@;
    let y = "-"@ + decimal(n as nat) + ".flex.gz"@;
    let none: Seq<char> = Seq::empty();
    let rest = text.skip(x.len() as int);
    assert(text =~= none + x + rest);
    stands_between(none, x, rest, text);
    let start = text.take(text.len() - y.len());
    assert(text =~= start + y + none);
    stands_between(start, y, none, text);
}

/// In the text of quartiles each stands behind its own label.
#[verifier::rlimit(60)]
pub proof fn quartiles_stand_behind_their_labels(q: Quartiles)
    ensures
        stands_in("Min: "@ + half_way((q.min, q.min)) + ","@, q.text()),
        stands_in("Q1: "@ + half_way(q.q1) + ","@, q.text()),
        stands_in("Median: "@ + half_way(q.median) + ","@, q.text()),
        stands_in("Q3: "@ + half_way(q.q3) + ","@, q.text()),
        stands_in("Max: "@ + half_way((q.max, q.max)), q.text()),
{
    reveal_strlit("Min: ");
    reveal_strlit(", Q1: ");
    reveal_strlit(", Median: ");
    reveal_strlit(", Q3: ");
    reveal_strlit(", Max: ");
    reveal_strlit("Q1: ");
    reveal_strlit("Median: ");
    reveal_strlit("Q3: ");
    reveal_strlit("Max: ");
    reveal_strlit(",");
    reveal_strlit(", ");
    let text = q.text();
    let (a, b, c, d, e) = (
        half_way((q.min, q.min)),
        half_way(q.q1),
        half_way(q.median),
        half_way(q.q3),
        half_way((q.max, q.max)),
    );
    let none: Seq<char> = Seq::empty();
    assert(stands_in("Min: "@ + a + ","@, text)) by {
        let v = "Min: "@ + a + ","@;
        let back = text.skip(v.len() as int);
        assert(text =~= none + v + back);
        stands_between(none, v, back, text);
    }
    assert(stands_in("Q1: "@ + b + ","@, text)) by {
        let w = "Q1: "@ + b + ","@;
        let front = "Min: "@ + a + ", "@;
        let back = text.skip((front + w).len() as int);
        assert(text =~= front + w + back);
        stands_between(front, w, back, text);
    }
    assert(stands_in("Median: "@ + c + ","@, text)) by {
        let x = "Median: "@ + c + ","@;
        let front = "Min: "@ + a + ", Q1: "@ + b + ", "@;
        let back = text.skip((front + x).len() as int);
        assert(text =~= front + x + back);
        stands_between(front, x, back, text);
    }
    assert(stands_in("Q3: "@ + d + ","@, text)) by {
        let y = "Q3: "@ + d + ","@;
        let front = "Min: "@ + a + ", Q1: "@ + b + ", Median: "@ + c + ", "@;
        let back = text.skip((front + y).len() as int);
        assert(text =~= front + y + back);
        stands_between(front, y, back, text);
    }
    assert(stands_in("Max: "@ + e, text)) by {
        let z = "Max: "@ + e;
        let start = text.take(text.len() - z.len());
        assert(text =~= start + z + none);
        stands_between(start, z, none, text);
    }
}

/// Where versions do not match, the text tells that of the trace as the trace's and that of the tool
/// as the tool's.
pub proof fn mismatch_tells_both_versions(error: CodecError)
    requires
        error is VersionMismatch,
    ensures
        error matches CodecError::VersionMismatch {
            trace_major,
            trace_minor,
            tool_major,
            tool_minor,
        } ==> {
            &&& stands_in(
                "data is v"@ + decimal(trace_major as nat) + "."@ + decimal(trace_minor as nat)
                    + " "@,
                error.text(),
            )
            &&& stands_in(
                "tool is v"@ + decimal(tool_major as nat) + "."@ + decimal(tool_minor as nat),
                error.text(),
            )
        },
{
    reveal_strlit("Version mismatch: trace data is v");
    reveal_strlit(".");
    reveal_strlit(" but tool is v");
    reveal_strlit("data is v");
    reveal_strlit("tool is v");
    reveal_strlit(" ");
    reveal_strlit("Version mismatch: trace ");
    if let CodecError::VersionMismatch { trace_major, trace_minor, tool_major, tool_minor } = error {
        let text = error.text();
        let x = "data is v"@ + decimal(trace_major as nat) + "."@ + decimal(trace_minor as nat)
            + " "@;
        let y = "tool is v"@ + decimal(tool_major as nat) + "."@ + decimal(tool_minor as nat);
        let front = "Version mismatch: trace "@;
        let back = text.skip((front + x).len() as int);
        assert(text =~= front + x + back);
        stands_between(front, x, back, text);
        let none: Seq<char> = Seq::empty();
        let start = text.take(text.len() - y.len());
        assert(text =~= start + y + none);
        stands_between(start, y, none, text);
    }
}

/// Each action has a title of its own, and it begins with what is counted.
pub proof fn titles_tell_actions_apart(a: Action, b: Action)
    ensures
        a.subject() == b.subject() ==> a == b,
        a is Errors ==> stands_in("Error"@, a.subject()),
        a is Latency ==> stands_in("Latency"@, a.subject()),
        a is Interrupts ==> stands_in("Interrupt"@, a.subject()),
        stands_in(" Distribution of "@, a.subject()),
{
    reveal_strlit("Error Count Distribution of ");
    reveal_strlit("Latency Distribution of ");
    reveal_strlit("Interrupt Count Distribution of ");
    reveal_strlit("Error");
    reveal_strlit("Latency");
    reveal_strlit("Interrupt");
    reveal_strlit(" Distribution of ");
    let text = a.subject();
    let kind = match a {
        Action::Errors => "Error"@,
        Action::Latency => "Latency"@,
        Action::Interrupts => "Interrupt"@,
    };
    let none: Seq<char> = Seq::empty();
    let rest = text.skip(kind.len() as int);
    assert(text =~= none + kind + rest);
    stands_between(none, kind, rest, text);
    let part = " Distribution of "@;
    let front = text.take(text.len() - part.len());
    assert(text =~= front + part + none);
    stands_between(front, part, none, text);
    assert(a.subject()[0] == b.subject()[0] ==> a == b);
}

/// The text for a symbol that is not there tells which was asked for and how many there are.
pub proof fn missing_symbols_are_told(index: nat, available: nat)
    ensures
        stands_in("symbol index "@ + decimal(index) + " "@, symbol_index_text(index, available)),
        stands_in("only "@ + decimal(available) + " "@, symbol_index_text(index, available)),
{
    reveal_strlit("Invalid symbol index ");
    reveal_strlit("Invalid ");
    reveal_strlit("symbol index ");
    reveal_strlit(" for frame, only ");
    reveal_strlit(" for frame, ");
    reveal_strlit("only ");
    reveal_strlit(" symbols available");
    reveal_strlit(" ");
    let text = symbol_index_text(index, available);
    let x = "symbol index "@ + decimal(index) + " "@;
    let y = "only "@ + decimal(available) + " "@;
    let back = text.skip(("Invalid "@ + x).len() as int);
    assert(text =~= "Invalid "@ + x + back);
    stands_between("Invalid "@, x, back, text);
    let front = "Invalid symbol index "@ + decimal(index) + " for frame, "@;
    let rest = text.skip((front + y).len() as int);
    assert(text =~= front + y + rest);
    stands_between(front, y, rest, text);
}

} // verus!
