use pt_fuser::analysis::filter::{
    filter_bitmap, filter_traces, passes_filter, scan_event, target_frames, Filter,
};
use pt_fuser::analysis::histogram::{
    collect_datapoints, datapoints_for, extent, Action, Bins, HistogramASCII, Quartiles,
};
use pt_fuser::analysis::stats::{sort_data, Stats};
use pt_fuser::analysis::FrameFinder;
use pt_fuser::text::{characters, find_char, parse_number, push_signed_decimal, trim, NumberFault};
use pt_fuser::trace::metrics::{Metrics, MetricsRange};
use pt_fuser::trace::trace_error::{DataCollectionError, TraceInterrupted};
use pt_fuser::trace::{Event, Frame, SymbolInfo, Trace};
use regex::Regex;
use std::sync::Arc;

fn range(start: u64, end: u64) -> MetricsRange {
    MetricsRange::new(Metrics::constant(start), &Metrics::constant(end))
}

fn frame(start: u64, end: u64, name: &str) -> Frame {
    let symbol = SymbolInfo { name: name.to_string(), offset: 1, size: 1 };
    Frame::new(range(start, end), 0, Arc::new(symbol))
}

fn event(id: u32, times: &[u64]) -> Event {
    let mut event = Event::new(id, "e".to_string(), "d".to_string());
    for &time in times {
        event.add_occurence(Metrics::constant(time));
    }
    event
}

// A trace of the given latency, with errors and interrupts at the given times. The root calls "a",
// which calls "b", then "b".
fn trace_of(latency: u64, errors: &[u64], interrupts: &[u64]) -> Trace {
    let mut root = frame(1000, 1000 + latency, "root");
    let mut a = frame(1010, 1030, "a");
    a.add_child(frame(1012, 1020, "b")).unwrap();
    root.add_child(a).unwrap();
    root.add_child(frame(1040, 1050, "b")).unwrap();
    let symbols = vec![root.symbol.clone()];
    let events =
        vec![event(DataCollectionError::ID, errors), event(TraceInterrupted::ID, interrupts)];
    Trace::new(symbols, root, events)
}

fn names(frames: &[&Frame]) -> Vec<String> {
    frames.iter().map(|frame| frame.symbol.name.clone()).collect()
}

#[test]
fn finder_goes_in_call_order() {
    let trace = trace_of(100, &[], &[]);
    let all = |_: &Frame| true;
    let mut finder = FrameFinder::new(trace.root_frame(), &all);
    let mut found = Vec::new();
    while let Some(frame) = finder.next() {
        found.push(frame);
    }
    assert_eq!(names(&found), vec!["root", "a", "b", "b"]);
    assert_eq!(found[2].metrics, range(1012, 1020));
    assert!(finder.next().is_none());
}

#[test]
fn finder_takes_what_meets_the_predicate() {
    let trace = trace_of(100, &[], &[]);
    let short = |frame: &Frame| frame.metrics.total_time() <= 20;
    let mut finder = FrameFinder::new(trace.root_frame(), &short);
    assert_eq!(finder.next().unwrap().symbol.name, "a");
    assert_eq!(finder.next().unwrap().symbol.name, "b");
    assert_eq!(finder.next().unwrap().symbol.name, "b");
    assert!(finder.next().is_none());
}

#[test]
fn targets_by_name_or_root() {
    let trace = trace_of(100, &[], &[]);
    let regex = Some(Regex::new("^[ab]$").unwrap());
    assert_eq!(names(&target_frames(trace.root_frame(), &regex)), vec!["a", "b", "b"]);
    assert_eq!(names(&target_frames(trace.root_frame(), &None)), vec!["root"]);
}

#[test]
fn filters_are_read() {
    let filter = Filter::from_str(
        "target=a.*, min_errors=1,max_errors=+2 , min_latency=3,max_latency=4,min_interrupts=5,\tmax_interrupts=6",
    )
    .unwrap();
    assert_eq!(filter.target.as_ref().unwrap().as_str(), "a.*");
    assert_eq!(filter.min_errors, Some(1));
    assert_eq!(filter.max_errors, Some(2));
    assert_eq!(filter.min_latency, Some(3000));
    assert_eq!(filter.max_latency, Some(4000));
    assert_eq!(filter.min_interrupts, Some(5));
    assert_eq!(filter.max_interrupts, Some(6));
}

#[test]
fn the_value_is_what_follows_the_first_sign() {
    let filter = Filter::from_str("target=a=b").unwrap();
    assert_eq!(filter.target.unwrap().as_str(), "a=b");
}

#[test]
fn the_last_of_two_options_counts() {
    let filter = Filter::from_str("min_errors=1,min_errors=2").unwrap();
    assert_eq!(filter.min_errors, Some(2));
}

fn filter_error(text: &str) -> String {
    match Filter::from_str(text) {
        Ok(_) => panic!("Expected an error"),
        Err(error) => error,
    }
}

#[test]
fn faulty_filters_are_refused() {
    assert_eq!(filter_error(""), "Invalid filter part: ");
    assert_eq!(filter_error(" abc , min_errors=1"), "Invalid filter part: abc");
    assert_eq!(filter_error("min_errors=1,"), "Invalid filter part: ");
    assert_eq!(filter_error("latency=1"), "Unknown filter keyword: latency");
    assert_eq!(filter_error("min_errors =1"), "Unknown filter keyword: min_errors ");
    assert_eq!(
        filter_error("min_errors="),
        "Invalid number for min_errors: cannot parse integer from empty string"
    );
    assert_eq!(
        filter_error("max_errors=-1"),
        "Invalid number for max_errors: invalid digit found in string"
    );
    assert_eq!(
        filter_error("max_interrupts=4294967296"),
        "Invalid number for max_interrupts: number too large to fit in target type"
    );
    assert_eq!(
        filter_error("min_latency=18446744073709552"),
        "Invalid number for min_latency: number too large to fit in target type"
    );
    assert_eq!(
        filter_error("min_latency=18446744073709552x"),
        "Invalid number for min_latency: invalid digit found in string"
    );
    assert!(filter_error("target=(").starts_with("Invalid regex: regex parse error:"));
}

#[test]
fn texts_of_regex_faults() {
    let expected = Regex::new("a{2,1}").unwrap_err().to_string();
    // commas end an option, so that the pattern is cut off there
    assert!(filter_error("target=a{2,1}").starts_with("Invalid regex: "));
    let mut filter = Filter::default();
    let refused = filter.set_target(Err(expected.clone()));
    assert_eq!(refused, Err(format!("Invalid regex: {}", expected)));
    assert!(filter.target.is_none());
}

#[test]
fn numbers_like_those_of_std() {
    let texts = [
        "", "+", "-", "0", "+0", "-0", "007", "65535", "65536", "6553a", "99999a", "a", "++1", "1 ",
        "4294967295", "4294967296", "+4294967296", "42949672960000000000000000x", "\u{663}",
    ];
    for text in texts {
        let digits = characters(text);
        let ours = parse_number(&digits, u32::MAX as u64);
        match text.parse::<u32>() {
            Ok(n) => assert_eq!(ours, Ok(n as u64)),
            Err(error) => assert_eq!(ours.unwrap_err().to_string(), error.to_string()),
        }
    }
    assert_eq!(parse_number(&['7'], 6), Err(NumberFault::TooLarge));
}

#[test]
fn trimming_like_that_of_std() {
    for text in ["", " ", "a", " a b ", "\u{3000}\ta\u{85}\n", "\u{200b}a\u{200b}", "\u{2009}"] {
        let chars = characters(text);
        let ours: String = trim(&chars).iter().collect();
        assert_eq!(ours, text.trim());
    }
    assert_eq!(find_char(&['a', 'b', 'a'], 'b'), 1);
    assert_eq!(find_char(&['a'], 'b'), 1);
}

#[test]
fn numerals_of_signed_numbers() {
    for n in [0, 7, -7, i32::MAX, i32::MIN] {
        let mut out = String::new();
        push_signed_decimal(&mut out, n);
        assert_eq!(out, n.to_string());
    }
}

#[test]
fn no_options_keep_all() {
    let trace = trace_of(100, &[1001, 1002], &[1003]);
    assert!(passes_filter(&trace, &Filter::default()));
}

#[test]
fn latency_bounds_of_the_root() {
    let trace = trace_of(2000, &[], &[]);
    assert!(passes_filter(&trace, &Filter::from_str("min_latency=2,max_latency=2").unwrap()));
    assert!(!passes_filter(&trace, &Filter::from_str("min_latency=3").unwrap()));
    assert!(!passes_filter(&trace, &Filter::from_str("max_latency=1").unwrap()));
}

#[test]
fn latency_bounds_of_targets() {
    let trace = trace_of(2000, &[], &[]);
    let mut filter = Filter::default();
    filter.target = Some(Regex::new("b").unwrap());
    filter.min_latency = Some(8);
    filter.max_latency = Some(10);
    assert!(passes_filter(&trace, &filter));
    filter.min_latency = Some(9);
    assert!(!passes_filter(&trace, &filter));
    // nothing matches, so nothing is out of bounds
    filter.target = Some(Regex::new("c").unwrap());
    assert!(passes_filter(&trace, &filter));
}

#[test]
fn errors_count_where_they_lie() {
    // the end of a range does not belong to it
    let trace = trace_of(100, &[999, 1000, 1015, 1045, 1100], &[1050]);
    assert!(passes_filter(&trace, &Filter::from_str("min_errors=3,max_errors=3").unwrap()));
    assert!(!passes_filter(&trace, &Filter::from_str("max_errors=2").unwrap()));
    assert!(!passes_filter(&trace, &Filter::from_str("min_errors=4").unwrap()));
    let in_b = Filter::from_str("target=b,min_errors=1,max_errors=1,max_interrupts=0").unwrap();
    assert!(passes_filter(&trace, &in_b));
    assert!(!passes_filter(&trace, &Filter::from_str("target=b,min_errors=2").unwrap()));
    let root = Filter::from_str("min_interrupts=1,max_interrupts=1").unwrap();
    assert!(passes_filter(&trace, &root));
}

#[test]
fn bounds_hold_of_each_frame() {
    // "a" and the "b" in it both contain the error, the other "b" does not
    let trace = trace_of(100, &[1015], &[]);
    assert!(passes_filter(&trace, &Filter::from_str("target=[ab],max_errors=1").unwrap()));
    assert!(!passes_filter(&trace, &Filter::from_str("target=[ab],max_errors=0").unwrap()));
    assert!(passes_filter(&trace, &Filter::from_str("target=a,min_errors=1").unwrap()));
    assert!(!passes_filter(&trace, &Filter::from_str("target=b,min_errors=1").unwrap()));
    // nothing matches, so nothing is out of bounds
    assert!(passes_filter(&trace, &Filter::from_str("target=c,min_errors=1").unwrap()));
    let interrupted = trace_of(100, &[], &[1015, 1045, 1046]);
    assert!(passes_filter(&interrupted, &Filter::from_str("target=b,max_interrupts=2").unwrap()));
    assert!(!passes_filter(&interrupted, &Filter::from_str("target=b,max_interrupts=1").unwrap()));
}

#[test]
fn errors_of_calls_are_not_added_up() {
    let mut root = frame(0, 100, "f");
    root.add_child(frame(10, 20, "g")).unwrap();
    root.add_child(frame(30, 40, "g")).unwrap();
    let symbols = vec![root.symbol.clone()];
    let trace = Trace::new(symbols, root, vec![event(DataCollectionError::ID, &[15, 35])]);
    let filter = Filter::from_str("target=^g$,max_errors=1").unwrap();
    assert_eq!(filter_traces(vec![trace], &filter).len(), 1);
}

#[test]
fn traces_without_events_have_no_errors() {
    let root = frame(1, 2, "root");
    let symbols = vec![root.symbol.clone()];
    let trace = Trace::new(symbols, root, vec![]);
    assert!(passes_filter(&trace, &Filter::from_str("max_errors=0").unwrap()));
    assert!(!passes_filter(&trace, &Filter::from_str("min_interrupts=1").unwrap()));
}

#[test]
fn scanning_moves_on() {
    let event = event(1, &[1, 5, 10, 15]);
    let mut index = 0;
    assert_eq!(scan_event(&event, &mut index, &range(4, 10)), 1);
    assert_eq!(index, 2);
    assert_eq!(scan_event(&event, &mut index, &range(4, 16)), 2);
    assert_eq!(index, 4);
}

#[test]
fn filtering_keeps_order() {
    let latencies = [100, 300, 200, 400];
    let traces: Vec<Trace> = latencies.iter().map(|&l| trace_of(l, &[], &[])).collect();
    let mut filter = Filter::default();
    filter.min_latency = Some(200);
    assert_eq!(filter_bitmap(&traces, &filter), vec![false, true, true, true]);
    filter.max_latency = Some(300);
    let kept = filter_traces(traces, &filter);
    let times: Vec<u64> = kept.iter().map(|t| t.root_frame().metrics.total_time()).collect();
    assert_eq!(times, vec![300, 200]);
}

#[test]
fn filters_in_either_order() {
    let traces = || -> Vec<Trace> {
        vec![trace_of(100, &[1001], &[]), trace_of(200, &[1001], &[]), trace_of(200, &[], &[])]
    };
    let a = Filter::from_str("min_errors=1").unwrap();
    let mut b = Filter::default();
    b.min_latency = Some(150);
    let one = filter_traces(filter_traces(traces(), &a), &b);
    let other = filter_traces(filter_traces(traces(), &b), &a);
    assert_eq!(one.len(), 1);
    assert_eq!(other.len(), 1);
    assert_eq!(one[0].root_frame(), other[0].root_frame());
}

#[test]
fn help_names_all_options() {
    for option in ["target=regex", "min_errors=num", "max_latency=\u{b5}s", "max_interrupts=num"] {
        assert!(Filter::HELP.contains(option));
    }
}

#[test]
fn datapoints_of_traces() {
    let traces = vec![trace_of(100, &[1001, 1015], &[1045]), trace_of(200, &[], &[])];
    let b = Some(Regex::new("b").unwrap());
    assert_eq!(collect_datapoints(&traces, &None, &Action::Latency), vec![100, 200]);
    assert_eq!(collect_datapoints(&traces, &b, &Action::Latency), vec![8, 10, 8, 10]);
    assert_eq!(collect_datapoints(&traces, &None, &Action::Errors), vec![2, 0]);
    assert_eq!(collect_datapoints(&traces, &b, &Action::Errors), vec![1, 0]);
    assert_eq!(collect_datapoints(&traces, &b, &Action::Interrupts), vec![1, 0]);
    assert_eq!(datapoints_for(&traces, None, &Action::Latency), Ok(vec![100, 200]));
    assert_eq!(datapoints_for(&traces, Some("^b$"), &Action::Latency), Ok(vec![8, 10, 8, 10]));
    assert_eq!(
        datapoints_for(&traces, Some("("), &Action::Latency),
        Err(Regex::new("(").unwrap_err().to_string())
    );
    assert_eq!(Action::Errors.title(2), "Error Count Distribution of 2 traces");
    assert_eq!(Action::Latency.x_axis(), "Latency (ns)");
}

#[test]
fn bins_of_datapoints() {
    let data = [10, 19, 20, 35, 12];
    assert_eq!(extent(&data), (10, 35));
    let bins = Bins::from_data(&data, 10);
    assert_eq!(bins.start, 10);
    assert_eq!(bins.step, 10);
    assert_eq!(bins.counts, vec![3, 1, 1]);
    assert_eq!(bins.counts.iter().sum::<u64>(), data.len() as u64);
    let empty = Bins::from_data(&[], 10);
    assert_eq!(empty.counts.len(), 0);
    assert_eq!(empty.step, 0);
}

#[test]
fn points_outside_of_all_bins_do_not_count() {
    let mut bins = Bins { start: 10, step: 5, counts: vec![0, 0] };
    bins.add_datapoint(9);
    bins.add_datapoint(20);
    assert_eq!(bins.counts, vec![0, 0]);
    bins.add_datapoint(19);
    assert_eq!(bins.counts, vec![0, 1]);
}

#[test]
fn quartiles_of_datapoints() {
    let even = Quartiles::from_data(&[8, 7, 6, 5, 4, 3, 2, 1]);
    assert_eq!(even.to_string(), "Min: 1.0, Q1: 3.0, Median: 5.0, Q3: 7.0, Max: 8.0");
    let odd = Quartiles::from_data(&[5, 1, 4, 2, 3]);
    assert_eq!(odd.q1, (2, 3));
    assert_eq!(odd.to_string(), "Min: 1.0, Q1: 2.5, Median: 3.5, Q3: 4.5, Max: 5.0");
    let none = Quartiles::from_data(&[]);
    assert_eq!(none.to_string(), "Min: 0.0, Q1: 0.0, Median: 0.0, Q3: 0.0, Max: 0.0");
}

#[test]
fn histograms_in_text() {
    let histogram = HistogramASCII::new("Latency".to_string(), &[95, 96, 105, 97, 96, 97], 10);
    assert_eq!(
        histogram.lines(),
        vec![
            "---  Latency  ---",
            "Min: 95.0, Q1: 96.0, Median: 97.0, Q3: 97.0, Max: 105.0",
            "",
            "[95 , 105] | 5 : **************************************************",
            "[105, 115] | 1 : **********",
        ]
    );
    let empty = HistogramASCII::new("None".to_string(), &[], 1);
    assert_eq!(empty.lines().len(), 3);
}

#[test]
fn sorting_of_datapoints() {
    assert_eq!(sort_data(&[3, 1, 2, 1]), vec![1, 1, 2, 3]);
}

#[test]
fn statistics_of_datapoints() {
    let data: Vec<u32> = (1..=10).rev().collect();
    let stats = Stats::from_data(&data).unwrap();
    assert_eq!(stats.min, 1);
    assert_eq!(stats.q1, (3, 3));
    assert_eq!(stats.median, (5, 6));
    assert_eq!(stats.q3, (8, 8));
    assert_eq!(stats.max, 10);
    assert_eq!(stats.sum, 55);
    assert_eq!(stats.count, 10);
    // 10 * 385 - 55 * 55
    assert_eq!(stats.spread, 825);
    let variance = stats.spread as f64 / (10.0 * 9.0);
    let mean = 5.5;
    let expected: f64 = data.iter().map(|&x| (x as f64 - mean).powi(2)).sum::<f64>() / 9.0;
    assert!((variance - expected).abs() < 1e-9);
    let odd: Vec<u32> = (1..=11).collect();
    let stats = Stats::from_data(&odd).unwrap();
    assert_eq!(stats.median, (6, 6));
    assert_eq!(stats.q1, (3, 3));
    assert_eq!(stats.q3, (9, 9));
    assert!(Stats::from_data(&data[..9]).is_none());
}
