use profile_pipeline::error::ProfileError;
use profile_pipeline::frame::{FrameFilter, RawSample, StackFrame};
use profile_pipeline::sampler::{
    captured_stacks, clone_samples, collect_samples, frame_of, identity_of_name, stack_of,
    start_error, CapturedStack, ProfilerFault, ResolvedSymbol, Sampler,
};

fn frame(address: u64, module: &str) -> StackFrame {
    StackFrame {
        address,
        symbol_name: Some(format!("f{}", address)),
        module_name: Some(module.to_string()),
    }
}

fn burn(milliseconds: u64) -> u64 {
    let start = std::time::Instant::now();
    let mut x: u64 = 1;
    while start.elapsed() < std::time::Duration::from_millis(milliseconds) {
        for _ in 0..10_000 {
            x = x.wrapping_mul(6364136223846793005).wrapping_add(1442695040888963407);
        }
    }
    x
}

#[test]
fn captured_stacks_become_one_sample_per_tick() {
    let stacks = vec![
        CapturedStack { sample: RawSample { frames: vec![frame(1, "app"), frame(2, "libc")] }, ticks: 3 },
        CapturedStack { sample: RawSample { frames: vec![frame(3, "vdso")] }, ticks: 5 },
        CapturedStack { sample: RawSample { frames: vec![frame(4, "app")] }, ticks: 1 },
    ];
    let samples = collect_samples(&stacks, &FrameFilter::default_blocklist());
    let one = RawSample { frames: vec![frame(1, "app")] };
    let four = RawSample { frames: vec![frame(4, "app")] };
    assert_eq!(samples, vec![one.clone(), one.clone(), one, four]);
}

#[test]
fn captured_stacks_are_taken_in_order_of_their_addresses() {
    let stack = |addresses: &[u64], ticks: isize| CapturedStack {
        sample: RawSample { frames: addresses.iter().map(|a| frame(*a, "app")).collect() },
        ticks,
    };
    let one = vec![
        stack(&[5, 1], 1),
        stack(&[2], 2),
        stack(&[2, 9], 1),
        stack(&[5], 1),
        stack(&[1, 7, 7], 1),
    ];
    let other = vec![
        stack(&[1, 7, 7], 1),
        stack(&[5], 1),
        stack(&[2, 9], 1),
        stack(&[5, 1], 1),
        stack(&[2], 2),
    ];
    let filter = FrameFilter::default_blocklist();
    let samples = collect_samples(&one, &filter);
    let leaves: Vec<Vec<u64>> =
        samples.iter().map(|s| s.frames.iter().map(|f| f.address).collect()).collect();
    assert_eq!(leaves, vec![vec![1, 7, 7], vec![2], vec![2], vec![2, 9], vec![5], vec![5, 1]]);
    // The order in which the stacks were handed out does not show.
    assert_eq!(collect_samples(&other, &filter), samples);
}

#[test]
fn stacks_with_the_same_addresses_keep_their_order() {
    let named = |name: &str| CapturedStack {
        sample: RawSample {
            frames: vec![StackFrame {
                address: 3,
                symbol_name: Some(name.to_string()),
                module_name: None,
            }],
        },
        ticks: 1,
    };
    let low = CapturedStack { sample: RawSample { frames: vec![frame(1, "app")] }, ticks: 1 };
    let samples =
        collect_samples(&vec![named("first"), low, named("second")], &FrameFilter::new(Vec::new()));
    let names: Vec<Option<String>> =
        samples.iter().map(|s| s.frames[0].symbol_name.clone()).collect();
    assert_eq!(
        names,
        vec![Some("f1".to_string()), Some("first".to_string()), Some("second".to_string())]
    );
}

#[test]
fn stacks_without_ticks_give_no_sample() {
    let stacks = vec![
        CapturedStack { sample: RawSample { frames: vec![frame(1, "app")] }, ticks: 0 },
        CapturedStack { sample: RawSample { frames: vec![frame(2, "app")] }, ticks: -4 },
        CapturedStack { sample: RawSample { frames: Vec::new() }, ticks: 2 },
    ];
    assert!(collect_samples(&stacks, &FrameFilter::default_blocklist()).is_empty());
    assert!(collect_samples(&Vec::new(), &FrameFilter::default_blocklist()).is_empty());
}

#[test]
fn a_symbol_with_an_address_is_identified_by_it() {
    assert_eq!(
        frame_of(Some(7), Some("f".to_string()), None),
        Some(StackFrame { address: 7, symbol_name: Some("f".to_string()), module_name: None })
    );
    assert_eq!(
        frame_of(Some(0), None, Some("m".to_string())),
        Some(StackFrame { address: 0, symbol_name: None, module_name: Some("m".to_string()) })
    );
}

#[test]
fn a_symbol_without_address_is_identified_by_its_name() {
    let frame = frame_of(None, Some("a".to_string()), Some("m".to_string())).unwrap();
    assert_eq!(frame.address, 0xaf63_dc4c_8601_ec8c);
    assert_eq!(frame.symbol_name, Some("a".to_string()));
    assert_eq!(frame.module_name, Some("m".to_string()));
    assert_eq!(identity_of_name(&String::new()), 0xcbf2_9ce4_8422_2325);
    assert_eq!(identity_of_name(&"a".to_string()), 0xaf63_dc4c_8601_ec8c);
    assert_eq!(identity_of_name(&"foobar".to_string()), 0x8594_4171_f739_67e8);
    // The mark is set whatever the hash is.
    for name in ["main", "core::ops::function::FnOnce::call_once", "x", "yz"] {
        assert!(identity_of_name(&name.to_string()) >= 1 << 63);
    }
    assert_ne!(identity_of_name(&"x".to_string()), identity_of_name(&"y".to_string()));
}

#[test]
fn a_symbol_without_address_and_name_is_no_frame() {
    assert_eq!(frame_of(None, None, None), None);
    assert_eq!(frame_of(None, None, Some("m".to_string())), None);
}

fn resolved(address: Option<u64>, name: Option<&str>, module: Option<&str>) -> ResolvedSymbol {
    ResolvedSymbol {
        address,
        name: name.map(|n| n.to_string()),
        module: module.map(|m| m.to_string()),
    }
}

#[test]
fn a_stack_holds_the_innermost_symbol_of_each_frame() {
    let backtrace = vec![
        vec![
            resolved(Some(0x10), Some("inlined"), Some("a.rs")),
            resolved(Some(0x10), Some("caller"), Some("b.rs")),
        ],
        Vec::new(),
        vec![resolved(None, Some("a"), None)],
        vec![resolved(None, None, Some("c.rs"))],
        vec![resolved(Some(0x20), None, None)],
    ];
    let sample = stack_of(&backtrace);
    assert_eq!(
        sample.frames,
        vec![
            StackFrame {
                address: 0x10,
                symbol_name: Some("inlined".to_string()),
                module_name: Some("a.rs".to_string()),
            },
            StackFrame {
                address: 0xaf63_dc4c_8601_ec8c,
                symbol_name: Some("a".to_string()),
                module_name: None,
            },
            StackFrame { address: 0x20, symbol_name: None, module_name: None },
        ]
    );
    assert!(stack_of(&Vec::new()).frames.is_empty());
    assert!(stack_of(&vec![Vec::new(), Vec::new()]).frames.is_empty());
}

#[test]
fn report_entries_become_captured_stacks() {
    let symbol = |name: Option<&str>, at: Option<usize>, file: Option<&str>| pprof::Symbol {
        name: name.map(|n| n.as_bytes().to_vec()),
        addr: at.map(std::ptr::without_provenance_mut),
        lineno: None,
        filename: file.map(std::path::PathBuf::from),
    };
    let backtrace = |frames: Vec<Vec<pprof::Symbol>>| pprof::Frames {
        frames,
        thread_name: "worker".to_string(),
        thread_id: 1,
        sample_timestamp: std::time::SystemTime::UNIX_EPOCH,
    };
    let entries = vec![
        (
            backtrace(vec![
                vec![
                    symbol(Some("_ZN3foo3barE"), Some(0x1000), Some("/src/foo.rs")),
                    symbol(Some("outer"), Some(0x1000), Some("/src/outer.rs")),
                ],
                vec![symbol(Some("main"), None, None)],
                vec![symbol(None, None, Some("/src/lost.rs"))],
            ]),
            3,
        ),
        (backtrace(Vec::new()), 2),
        (backtrace(vec![vec![symbol(None, Some(0), None)]]), -1),
    ];
    let stacks = captured_stacks(&entries);
    assert_eq!(
        stacks,
        vec![
            CapturedStack {
                sample: RawSample {
                    frames: vec![
                        StackFrame {
                            address: 0x1000,
                            symbol_name: Some("foo::bar".to_string()),
                            module_name: Some("/src/foo.rs".to_string()),
                        },
                        StackFrame {
                            address: identity_of_name(&"main".to_string()),
                            symbol_name: Some("main".to_string()),
                            module_name: None,
                        },
                    ],
                },
                ticks: 3,
            },
            CapturedStack { sample: RawSample { frames: Vec::new() }, ticks: 2 },
            CapturedStack {
                sample: RawSample {
                    frames: vec![StackFrame { address: 0, symbol_name: None, module_name: None }],
                },
                ticks: -1,
            },
        ]
    );
    assert!(captured_stacks(&Vec::new()).is_empty());
}

#[test]
fn only_a_running_profiler_means_busy() {
    assert_eq!(start_error(ProfilerFault::Running), ProfileError::AlreadyRunning);
    assert_eq!(start_error(ProfilerFault::NotRunning), ProfileError::Capture);
    assert_eq!(start_error(ProfilerFault::Creating), ProfileError::Capture);
    assert_eq!(start_error(ProfilerFault::Signal), ProfileError::Capture);
    assert_eq!(start_error(ProfilerFault::Store), ProfileError::Capture);
}

#[test]
fn copies_are_equal() {
    let samples = vec![
        RawSample { frames: vec![frame(1, "app"), frame(2, "app")] },
        RawSample { frames: Vec::new() },
    ];
    assert_eq!(clone_samples(&samples), samples);
}

#[test]
fn zero_and_negative_frequencies_are_refused() {
    assert!(matches!(
        Sampler::start(0, FrameFilter::default_blocklist()),
        Err(ProfileError::InvalidFrequency)
    ));
    assert!(matches!(
        Sampler::start(-5, FrameFilter::default_blocklist()),
        Err(ProfileError::InvalidFrequency)
    ));
    // Nothing was started: a sampler can start now.
    let mut sampler = Sampler::start(100, FrameFilter::default_blocklist()).ok().unwrap();
    assert!(sampler.stop().is_ok());
}

#[test]
fn a_second_sampler_is_refused_while_one_runs() {
    let mut first = Sampler::start(100, FrameFilter::default_blocklist()).ok().unwrap();
    assert!(matches!(
        Sampler::start(100, FrameFilter::default_blocklist()),
        Err(ProfileError::AlreadyRunning)
    ));
    assert!(first.stop().is_ok());
    // The profiler was released.
    let mut second = Sampler::start(100, FrameFilter::default_blocklist()).ok().unwrap();
    assert!(second.stop().is_ok());
}

#[test]
fn stop_is_idempotent() {
    let mut sampler = Sampler::start(1000, FrameFilter::new(Vec::new())).ok().unwrap();
    assert!(burn(300) != 0);
    let first = sampler.stop().unwrap();
    assert!(burn(50) != 0);
    let second = sampler.stop().unwrap();
    assert_eq!(first, second);
    assert_eq!(sampler.collect().unwrap(), first);
    for sample in &first {
        assert!(!sample.frames.is_empty());
    }
}

#[test]
fn collected_samples_pass_the_filter() {
    let everything = vec!["/".to_string()];
    let mut sampler = Sampler::start(1000, FrameFilter::new(everything.clone())).ok().unwrap();
    assert!(burn(200) != 0);
    let samples = sampler.stop().unwrap();
    let filter = FrameFilter::new(everything);
    for sample in &samples {
        assert!(!sample.frames.is_empty());
        for frame in &sample.frames {
            assert!(!filter.matches(frame));
        }
    }
}
