use profile_pipeline::aggregate::aggregate;
use profile_pipeline::compress::{compress, decompress};
use profile_pipeline::decode::decode;
use profile_pipeline::encode::encode;
use profile_pipeline::frame::{FrameFilter, RawSample, StackFrame};
use profile_pipeline::report::{Location, Report, SampleEntry, SymbolEntry, ValueType};
use profile_pipeline::wire::{read_block, read_blocks, read_number, read_u64};

fn frame(address: u64, symbol: Option<&str>, module: Option<&str>) -> StackFrame {
    StackFrame {
        address,
        symbol_name: symbol.map(|s| s.to_string()),
        module_name: module.map(|m| m.to_string()),
    }
}

fn mixed_report() -> Report {
    let a = || RawSample {
        frames: vec![
            frame(0xffff_ffff_ffff_fff0, Some("leaf"), Some("app")),
            frame(0x2000, Some("réseau::boucle"), None),
            frame(0x3000, None, None),
        ],
    };
    let b = || RawSample {
        frames: vec![frame(0x4000, Some("leaf"), Some("app")), frame(0x5000, Some(""), Some("m"))],
    };
    let mut samples = Vec::new();
    for i in 0..300 {
        samples.push(if i % 3 == 0 { b() } else { a() });
    }
    aggregate(&samples, &FrameFilter::default_blocklist())
}

#[test]
fn numbers_are_read_back() {
    assert_eq!(read_u64(&[0x00]), Some((0, 1)));
    assert_eq!(read_u64(&[0x7f, 0xaa]), Some((127, 1)));
    assert_eq!(read_u64(&[0xac, 0x02]), Some((300, 2)));
    let max = [0xff, 0xff, 0xff, 0xff, 0xff, 0xff, 0xff, 0xff, 0xff, 0x01];
    assert_eq!(read_u64(&max), Some((u64::MAX, 10)));
}

#[test]
fn broken_numbers_are_refused() {
    assert_eq!(read_u64(&[]), None);
    assert_eq!(read_u64(&[0x80]), None);
    // One more than the largest 64-bit number.
    let over = [0x80, 0x80, 0x80, 0x80, 0x80, 0x80, 0x80, 0x80, 0x80, 0x02];
    assert_eq!(read_u64(&over), None);
    // Eleven groups.
    let long = [0x80, 0x80, 0x80, 0x80, 0x80, 0x80, 0x80, 0x80, 0x80, 0x80, 0x00];
    assert_eq!(read_u64(&long), None);
}

#[test]
fn fields_are_read_back() {
    assert_eq!(read_number(&[0x08, 0x96, 0x01, 0xff], 0x08), Some((150, 3)));
    assert_eq!(read_number(&[0x08, 0x96, 0x01], 0x10), None);
    assert_eq!(read_block(&[0x32, 0x02, b'h', b'i', 0x00], 0x32), Some((&b"hi"[..], 4)));
    assert_eq!(read_block(&[0x32, 0x03, b'h', b'i'], 0x32), None);
    let run = [0x32, 0x01, b'a', 0x32, 0x00, 0x32, 0x02, b'b', b'c', 0x2a, 0x00];
    let (bodies, used) = read_blocks(&run, 0x32).unwrap();
    assert_eq!(bodies, vec![&b"a"[..], &b""[..], &b"bc"[..]]);
    assert_eq!(used, 9);
    assert_eq!(read_blocks(&run, 0x12), Some((Vec::new(), 0)));
    assert_eq!(read_blocks(&[0x32, 0x05, 0x00], 0x32), None);
}

#[test]
fn decoding_inverts_encoding() {
    let report = mixed_report();
    assert_eq!(report.samples.len(), 2);
    let bytes = encode(&report).unwrap();
    assert_eq!(decode(&bytes), Some(report));
}

#[test]
fn empty_report_round_trips() {
    let bytes = encode(&Report::new()).unwrap();
    assert_eq!(decode(&bytes), Some(Report::new()));
}

#[test]
fn any_value_type_round_trips() {
    let report = Report {
        value_type: ValueType { label: "cpu".to_string(), unit: "cpu".to_string() },
        symbol_table: vec![
            SymbolEntry { name: "cpu".to_string(), module: String::new() },
            SymbolEntry { name: "dup".to_string(), module: "dup".to_string() },
            SymbolEntry { name: "cpu".to_string(), module: String::new() },
        ],
        locations: vec![
            Location { address: 5, symbol: Some(2) },
            Location { address: 5, symbol: None },
            Location { address: 0, symbol: Some(0) },
        ],
        samples: vec![
            SampleEntry { locations: vec![2, 2, 0, 1], count: 0 },
            SampleEntry { locations: Vec::new(), count: 9 },
            SampleEntry { locations: vec![2, 2, 0, 1], count: 1 << 40 },
        ],
    };
    let bytes = encode(&report).unwrap();
    assert_eq!(decode(&bytes), Some(report));
}

#[test]
fn artifact_recovers_the_counts() {
    let report = mixed_report();
    let artifact = compress(&encode(&report).unwrap()).unwrap();
    let recovered = decode(&decompress(&artifact).unwrap()).unwrap();
    assert_eq!(recovered.total_samples(), 300);
    assert_eq!(recovered, report);
}

#[test]
fn what_is_no_report_is_refused() {
    assert_eq!(decode(&Vec::new()), None);
    assert_eq!(decode(&b"hello".to_vec()), None);
    let bytes = encode(&mixed_report()).unwrap();
    let mut cut = bytes.clone();
    cut.pop();
    assert_eq!(decode(&cut), None);
    let mut longer = bytes.clone();
    longer.push(0);
    assert_eq!(decode(&longer), None);
}

#[test]
fn dangling_rows_are_refused() {
    // value type (1, 2); one sample with rows [1] and count 1; no location.
    let mut bytes = vec![0x0a, 0x04, 0x08, 0x01, 0x10, 0x02];
    bytes.extend([0x12, 0x06, 0x0a, 0x01, 0x01, 0x12, 0x01, 0x01]);
    let tail: Vec<u8> = vec![0x32, 0x00, 0x32, 0x01, b's', 0x32, 0x01, b'c'];
    let mut dangling = bytes.clone();
    dangling.extend(&tail);
    assert_eq!(decode(&dangling), None);
    // With the location that the sample refers to, the bytes are a report.
    bytes.extend([0x22, 0x04, 0x08, 0x01, 0x18, 0x07]);
    bytes.extend(&tail);
    let report = decode(&bytes).unwrap();
    assert_eq!(report.locations, vec![Location { address: 7, symbol: None }]);
    assert_eq!(report.samples, vec![SampleEntry { locations: vec![0], count: 1 }]);
    assert_eq!(report.value_type, ValueType { label: "s".to_string(), unit: "c".to_string() });
    assert_eq!(encode(&report).unwrap(), bytes);
}

#[test]
fn texts_must_be_utf8() {
    let mut bytes = vec![0x0a, 0x04, 0x08, 0x01, 0x10, 0x01];
    bytes.extend([0x32, 0x00, 0x32, 0x02, 0xc3, 0x28]);
    assert_eq!(decode(&bytes), None);
    let mut bytes = vec![0x0a, 0x04, 0x08, 0x01, 0x10, 0x01];
    bytes.extend([0x32, 0x00, 0x32, 0x02, 0xc3, 0xa9]);
    let report = decode(&bytes).unwrap();
    assert_eq!(report.value_type.label, "é");
    assert_eq!(report.value_type.unit, "é");
}
