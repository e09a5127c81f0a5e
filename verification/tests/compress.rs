use flate2::read::GzDecoder;
use profile_pipeline::compress::{compress, compression_outcome, decompress};
use profile_pipeline::error::ProfileError;
use std::io::Read;

#[test]
fn stream_is_a_finished_gzip_member() {
    let input = b"123456789".to_vec();
    let stream = compress(&input).unwrap();
    assert_ne!(stream, input);
    // Magic, deflate, no flags, no time stamp, balanced level, no platform.
    assert_eq!(&stream[..10], &[0x1f, 0x8b, 0x08, 0, 0, 0, 0, 0, 0, 0xff]);
    // Trailer: CRC-32 of the input, then its length.
    let n = stream.len();
    assert_eq!(&stream[n - 8..n - 4], &0xcbf4_3926u32.to_le_bytes());
    assert_eq!(&stream[n - 4..], &(input.len() as u32).to_le_bytes());
    let mut decoded = Vec::new();
    GzDecoder::new(&stream[..]).read_to_end(&mut decoded).unwrap();
    assert_eq!(decoded, input);
}

#[test]
fn compression_round_trips() {
    let mut input = Vec::new();
    for i in 0..5000u32 {
        input.push((i * 7 % 251) as u8);
    }
    let stream = compress(&input).unwrap();
    assert_eq!(decompress(&stream), Some(input));
}

#[test]
fn empty_input_round_trips() {
    let stream = compress(&Vec::new()).unwrap();
    assert!(stream.len() >= 18);
    assert_eq!(decompress(&stream), Some(Vec::new()));
}

#[test]
fn compression_is_reproducible() {
    let input = b"aaaaaaaaaaaaaaaaaaaaaaaaaaaaaaaaaaaabbbbbbbbbbbbbbbbbbbbbb".to_vec();
    assert_eq!(compress(&input), compress(&input));
}

#[test]
fn decompress_refuses_what_is_no_stream() {
    assert_eq!(decompress(&b"not a gzip stream".to_vec()), None);
    assert_eq!(decompress(&Vec::new()), None);
    let mut stream = compress(&b"payload".to_vec()).unwrap();
    stream.truncate(stream.len() - 3);
    assert_eq!(decompress(&stream), None);
}

#[test]
fn encoder_errors_become_compression_failures() {
    let failed = Err(std::io::Error::new(std::io::ErrorKind::Other, "disk on fire"));
    assert_eq!(compression_outcome(failed), Err(ProfileError::Compression));
    assert_eq!(compression_outcome(Ok(vec![1, 2, 3])), Ok(vec![1, 2, 3]));
}
