# pt_fuser

A library for processing, merging and exporting Intel PT call traces, verified with Verus, and the
tools around it.

## Layout

- `src/trace/`: metrics, symbols, frames, events and traces; the builder that records a trace call
  by call; the bytes of trace files.
- `src/merge/`: merging of several traces into one averaged trace: common subsequences, frequent
  calls, scaling of events.
- `src/analysis/`: finding of frames, filters, histograms and statistics.
- `src/perfetto/`: conversion of a trace to Perfetto's packets.
- `src/transform/`: recording of traces from the samples of `perf`.
- `src/text.rs`, `src/pattern.rs`: numerals and splitting of text; regular expressions.
- `tests/`: tests of the library, by module.
- `app/`: the command line tools and the filter for `perf script`: files, threads, windows.

Contracts speak of models: each type has a view, and what a function returns is a spec function of
the views of its arguments. What holds of several functions together is stated by public proof
functions next to them, such as that merged traces are ordered throughout, that a trace that was
recorded or merged is read back as it was written, or that a recording never holds more than one
unknown frame.

## What is trusted

Calls into the crates `bloomfilter`, `flate2` and `regex`, and a few of the standard library, stand
behind small functions whose doc comments say what is taken for granted about them.
