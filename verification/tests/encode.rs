use pprof::protos::{Message, Profile};
use profile_pipeline::aggregate::aggregate;
use profile_pipeline::encode::{encode, MAX_COUNT};
use profile_pipeline::error::ProfileError;
use profile_pipeline::frame::{FrameFilter, RawSample, StackFrame};
use profile_pipeline::report::{Location, Report, SampleEntry, SymbolEntry};
use profile_pipeline::wire::{put_block, put_number, put_varint};

fn frame(address: u64, symbol: &str, module: &str) -> StackFrame {
    StackFrame {
        address,
        symbol_name: Some(symbol.to_string()),
        module_name: Some(module.to_string()),
    }
}

fn small_report() -> Report {
    let samples = vec![
        RawSample { frames: vec![frame(0x1010, "leaf", "app"), frame(0x2020, "main", "app")] },
        RawSample { frames: vec![frame(0x3030, "other", "lib"), frame(0x2020, "main", "app")] },
        RawSample { frames: vec![frame(0x1010, "leaf", "app"), frame(0x2020, "main", "app")] },
    ];
    aggregate(&samples, &FrameFilter::default_blocklist())
}

#[test]
fn varint_of_small_and_large_numbers() {
    let mut out = Vec::new();
    put_varint(&mut out, 0);
    put_varint(&mut out, 1);
    put_varint(&mut out, 127);
    put_varint(&mut out, 128);
    put_varint(&mut out, 300);
    put_varint(&mut out, u64::MAX);
    assert_eq!(
        out,
        vec![
            0x00, 0x01, 0x7f, 0x80, 0x01, 0xac, 0x02, 0xff, 0xff, 0xff, 0xff, 0xff, 0xff, 0xff,
            0xff, 0xff, 0x01
        ]
    );
}

#[test]
fn fields_carry_their_tag_and_length() {
    let mut out = vec![0xee];
    put_number(&mut out, 0x08, 150);
    put_block(&mut out, 0x32, b"abc");
    put_block(&mut out, 0x0a, b"");
    assert_eq!(out, vec![0xee, 0x08, 0x96, 0x01, 0x32, 0x03, b'a', b'b', b'c', 0x0a, 0x00]);
}

#[test]
fn empty_report_has_exact_bytes() {
    let bytes = encode(&Report::new()).unwrap();
    let mut expected = vec![0x0a, 0x04, 0x08, 0x01, 0x10, 0x02];
    expected.extend([0x32, 0x00]);
    expected.extend([0x32, 0x07]);
    expected.extend(b"samples");
    expected.extend([0x32, 0x05]);
    expected.extend(b"count");
    assert_eq!(bytes, expected);
}

#[test]
fn one_sample_report_has_exact_bytes() {
    let samples = vec![RawSample { frames: vec![frame(0x81, "f", "m")] }];
    let report = aggregate(&samples, &FrameFilter::default_blocklist());
    let bytes = encode(&report).unwrap();
    let mut expected = vec![0x0a, 0x04, 0x08, 0x01, 0x10, 0x02];
    // sample: rows [1], values [1]
    expected.extend([0x12, 0x06, 0x0a, 0x01, 0x01, 0x12, 0x01, 0x01]);
    // location: row 1, address 0x81, line with function 1
    expected.extend([0x22, 0x09, 0x08, 0x01, 0x18, 0x81, 0x01, 0x22, 0x02, 0x08, 0x01]);
    // function: row 1, name 3, module 4
    expected.extend([0x2a, 0x06, 0x08, 0x01, 0x10, 0x03, 0x20, 0x04]);
    expected.extend([0x32, 0x00]);
    expected.extend([0x32, 0x07]);
    expected.extend(b"samples");
    expected.extend([0x32, 0x05]);
    expected.extend(b"count");
    expected.extend([0x32, 0x01, b'f', 0x32, 0x01, b'm']);
    assert_eq!(bytes, expected);
}

#[test]
fn encoding_twice_gives_the_same_bytes() {
    let first = encode(&small_report()).unwrap();
    let second = encode(&small_report()).unwrap();
    assert_eq!(first, second);
    let report = small_report();
    assert_eq!(encode(&report).unwrap(), encode(&report).unwrap());
}

#[test]
fn a_standard_parser_reads_the_tables() {
    let bytes = encode(&small_report()).unwrap();
    let profile = Profile::parse_from_bytes(&bytes).unwrap();
    let text = |row: i64| profile.string_table[row as usize].as_str();

    assert_eq!(profile.string_table[0], "");
    assert_eq!(profile.sample_type.len(), 1);
    assert_eq!(text(profile.sample_type[0].ty), "samples");
    assert_eq!(text(profile.sample_type[0].unit), "count");

    assert_eq!(profile.sample.len(), 2);
    assert_eq!(profile.sample[0].location_id, vec![1, 2]);
    assert_eq!(profile.sample[0].value, vec![2]);
    assert_eq!(profile.sample[1].location_id, vec![3, 2]);
    assert_eq!(profile.sample[1].value, vec![1]);

    let rows: Vec<(u64, u64, u64)> =
        profile.location.iter().map(|l| (l.id, l.address, l.line[0].function_id)).collect();
    assert_eq!(rows, vec![(1, 0x1010, 1), (2, 0x2020, 2), (3, 0x3030, 3)]);

    let names: Vec<(u64, &str, &str)> =
        profile.function.iter().map(|f| (f.id, text(f.name), text(f.filename))).collect();
    assert_eq!(names, vec![(1, "leaf", "app"), (2, "main", "app"), (3, "other", "lib")]);

    // Each text is stored once.
    assert_eq!(profile.string_table, vec!["", "samples", "count", "leaf", "app", "main", "other", "lib"]);
}

#[test]
fn unknown_symbols_have_no_line() {
    let samples = vec![RawSample {
        frames: vec![StackFrame { address: 0xabc, symbol_name: None, module_name: None }],
    }];
    let report = aggregate(&samples, &FrameFilter::default_blocklist());
    let profile = Profile::parse_from_bytes(&encode(&report).unwrap()).unwrap();
    assert_eq!(profile.location.len(), 1);
    assert_eq!(profile.location[0].address, 0xabc);
    assert!(profile.location[0].line.is_empty());
    assert!(profile.function.is_empty());
}

#[test]
fn missing_location_row_is_malformed() {
    let mut report = small_report();
    report.samples.push(SampleEntry { locations: vec![0, 3], count: 1 });
    assert!(!report.is_well_formed());
    assert_eq!(encode(&report), Err(ProfileError::MalformedReport));
}

#[test]
fn missing_symbol_row_is_malformed() {
    let mut report = Report::new();
    report.locations.push(Location { address: 1, symbol: Some(0) });
    assert_eq!(encode(&report), Err(ProfileError::MalformedReport));
    report.symbol_table.push(SymbolEntry { name: "f".to_string(), module: String::new() });
    assert!(encode(&report).is_ok());
}

#[test]
fn count_beyond_the_format_is_not_encodable() {
    let mut report = small_report();
    report.samples[0].count = MAX_COUNT;
    assert!(encode(&report).is_ok());
    report.samples[0].count = MAX_COUNT + 1;
    assert_eq!(encode(&report), Err(ProfileError::Encoding));
}

#[test]
fn malformed_wins_over_not_encodable() {
    let mut report = small_report();
    report.samples[0].count = u64::MAX;
    report.samples[1].locations.push(99);
    assert_eq!(encode(&report), Err(ProfileError::MalformedReport));
}
