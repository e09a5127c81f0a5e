use profile_pipeline::aggregate::aggregate;
use profile_pipeline::frame::{FrameFilter, RawSample, StackFrame};
use profile_pipeline::report::{Location, Report, SampleEntry, SymbolEntry};

fn frame(address: u64, symbol: &str, module: &str) -> StackFrame {
    StackFrame {
        address,
        symbol_name: Some(symbol.to_string()),
        module_name: Some(module.to_string()),
    }
}

fn sample(frames: Vec<StackFrame>) -> RawSample {
    RawSample { frames }
}

#[test]
fn empty_input_gives_empty_report() {
    let report = aggregate(&Vec::new(), &FrameFilter::default_blocklist());
    assert_eq!(report, Report::new());
    assert_eq!(report.value_type.label, "samples");
    assert_eq!(report.value_type.unit, "count");
    assert!(report.samples.is_empty());
    assert!(report.is_well_formed());
}

#[test]
fn equal_stacks_share_one_entry() {
    let stack = || sample(vec![frame(0x10, "leaf", "app"), frame(0x20, "main", "app")]);
    let report = aggregate(&vec![stack(), stack(), stack()], &FrameFilter::default_blocklist());
    assert_eq!(
        report.locations,
        vec![
            Location { address: 0x10, symbol: Some(0) },
            Location { address: 0x20, symbol: Some(1) },
        ]
    );
    assert_eq!(
        report.symbol_table,
        vec![
            SymbolEntry { name: "leaf".to_string(), module: "app".to_string() },
            SymbolEntry { name: "main".to_string(), module: "app".to_string() },
        ]
    );
    assert_eq!(report.samples, vec![SampleEntry { locations: vec![0, 1], count: 3 }]);
}

#[test]
fn rows_keep_the_order_of_first_occurrence() {
    let a = || sample(vec![frame(0x30, "c", "app"), frame(0x10, "a", "app")]);
    let b = || sample(vec![frame(0x20, "b", "app"), frame(0x10, "a", "app")]);
    let report = aggregate(&vec![a(), b(), a(), b(), b()], &FrameFilter::new(Vec::new()));
    let addresses: Vec<u64> = report.locations.iter().map(|l| l.address).collect();
    assert_eq!(addresses, vec![0x30, 0x10, 0x20]);
    assert_eq!(
        report.samples,
        vec![
            SampleEntry { locations: vec![0, 1], count: 2 },
            SampleEntry { locations: vec![2, 1], count: 3 },
        ]
    );
    assert_eq!(report.total_samples(), 5);
}

#[test]
fn blocked_frames_never_reach_the_tables() {
    let samples = vec![
        sample(vec![frame(0x1, "memcpy", "libc.so.6"), frame(0x2, "work", "app")]),
        sample(vec![frame(0x3, "start_thread", "pthread"), frame(0x4, "clone", "libc")]),
        sample(vec![frame(0x5, "gettime", "vdso"), frame(0x2, "work", "app")]),
    ];
    let report = aggregate(&samples, &FrameFilter::default_blocklist());
    assert_eq!(report.locations, vec![Location { address: 0x2, symbol: Some(0) }]);
    assert_eq!(
        report.symbol_table,
        vec![SymbolEntry { name: "work".to_string(), module: "app".to_string() }]
    );
    // The second tick is left without frames and counts for nothing.
    assert_eq!(report.samples, vec![SampleEntry { locations: vec![0], count: 2 }]);
    assert_eq!(report.total_samples(), 2);
}

#[test]
fn first_occurrence_names_an_address() {
    let samples = vec![
        sample(vec![frame(0x7, "first", "app")]),
        sample(vec![frame(0x7, "second", "other")]),
    ];
    let report = aggregate(&samples, &FrameFilter::new(Vec::new()));
    assert_eq!(report.locations, vec![Location { address: 0x7, symbol: Some(0) }]);
    assert_eq!(
        report.symbol_table,
        vec![SymbolEntry { name: "first".to_string(), module: "app".to_string() }]
    );
    assert_eq!(report.samples, vec![SampleEntry { locations: vec![0], count: 2 }]);
}

#[test]
fn unresolved_frames_are_kept_as_unknown() {
    let samples = vec![sample(vec![
        StackFrame { address: 0x9, symbol_name: None, module_name: None },
        StackFrame { address: 0xa, symbol_name: Some("f".to_string()), module_name: None },
    ])];
    let report = aggregate(&samples, &FrameFilter::default_blocklist());
    assert_eq!(
        report.locations,
        vec![Location { address: 0x9, symbol: None }, Location { address: 0xa, symbol: Some(0) }]
    );
    assert_eq!(
        report.symbol_table,
        vec![SymbolEntry { name: "f".to_string(), module: String::new() }]
    );
}

#[test]
fn symbols_are_shared_between_addresses() {
    let samples = vec![sample(vec![frame(0x1, "f", "app"), frame(0x2, "f", "app")])];
    let report = aggregate(&samples, &FrameFilter::new(Vec::new()));
    assert_eq!(report.symbol_table.len(), 1);
    assert_eq!(
        report.locations,
        vec![Location { address: 0x1, symbol: Some(0) }, Location { address: 0x2, symbol: Some(0) }]
    );
}

#[test]
fn aggregation_is_deterministic() {
    let build = || {
        vec![
            sample(vec![frame(0x30, "c", "app"), frame(0x10, "a", "app")]),
            sample(vec![frame(0x20, "b", "libfoo"), frame(0x10, "a", "app")]),
            sample(vec![frame(0x30, "c", "app"), frame(0x10, "a", "app")]),
        ]
    };
    let filter = FrameFilter::default_blocklist();
    assert_eq!(aggregate(&build(), &filter), aggregate(&build(), &filter));
}
