use profile_pipeline::frame::{FrameFilter, RawSample, StackFrame};

fn in_module(module: Option<&str>) -> StackFrame {
    StackFrame {
        address: 0x1000,
        symbol_name: Some("f".to_string()),
        module_name: module.map(|m| m.to_string()),
    }
}

#[test]
fn default_blocklist_holds_the_runtime_modules() {
    let filter = FrameFilter::default_blocklist();
    assert_eq!(filter.patterns, vec!["libc", "libgcc", "pthread", "vdso"]);
}

#[test]
fn exact_and_prefix_matches_are_dropped() {
    let filter = FrameFilter::default_blocklist();
    assert!(filter.matches(&in_module(Some("libc"))));
    assert!(filter.matches(&in_module(Some("libc.so.6"))));
    assert!(filter.matches(&in_module(Some("libgcc_s.so.1"))));
    assert!(filter.matches(&in_module(Some("pthread"))));
    assert!(filter.matches(&in_module(Some("vdso"))));
}

#[test]
fn other_modules_are_kept() {
    let filter = FrameFilter::default_blocklist();
    assert!(!filter.matches(&in_module(Some("app"))));
    assert!(!filter.matches(&in_module(Some("lib"))));
    assert!(!filter.matches(&in_module(Some("mylibc"))));
    assert!(!filter.matches(&in_module(Some(""))));
}

#[test]
fn unresolved_modules_are_never_dropped() {
    let filter = FrameFilter::default_blocklist();
    assert!(!filter.matches(&in_module(None)));
    let everything = FrameFilter::new(vec!["a".to_string(), "".to_string()]);
    assert!(!everything.matches(&in_module(None)));
}

#[test]
fn the_empty_pattern_names_every_resolved_module() {
    let filter = FrameFilter::new(vec![String::new()]);
    assert!(filter.matches(&in_module(Some("app"))));
    assert!(filter.matches(&in_module(Some(""))));
    assert!(filter.blocks_module(&String::new()));
    assert!(!filter.matches(&in_module(None)));
}

#[test]
fn no_pattern_names_nothing() {
    let filter = FrameFilter::new(Vec::new());
    assert!(!filter.matches(&in_module(Some("app"))));
    assert!(!filter.matches(&in_module(Some(""))));
    assert!(!filter.matches(&in_module(None)));
}

#[test]
fn patterns_compare_bytes_of_any_script() {
    let filter = FrameFilter::new(vec!["модуль".to_string()]);
    assert!(filter.matches(&in_module(Some("модуль-ядра"))));
    assert!(!filter.matches(&in_module(Some("моду"))));
}

#[test]
fn filtering_keeps_the_order_of_the_kept_frames() {
    let filter = FrameFilter::default_blocklist();
    let frames = vec![
        StackFrame { address: 1, symbol_name: None, module_name: Some("libc".to_string()) },
        StackFrame { address: 2, symbol_name: None, module_name: Some("app".to_string()) },
        StackFrame { address: 3, symbol_name: None, module_name: Some("vdso".to_string()) },
        StackFrame { address: 4, symbol_name: None, module_name: None },
    ];
    let kept = filter.filter_sample(&RawSample { frames });
    let addresses: Vec<u64> = kept.frames.iter().map(|f| f.address).collect();
    assert_eq!(addresses, vec![2, 4]);
    assert_eq!(filter.filter_sample(&kept), kept);
}
